use lucifer::config::Coord;
use lucifer::registry::TileRegistry;

fn at(row: u32, col: u32) -> Coord {
    Coord { row, col }
}

fn assert_cells_unique(reg: &TileRegistry) {
    let entries = reg.entries();
    for i in 0..entries.len() {
        for j in (i + 1)..entries.len() {
            assert_ne!(entries[i].1, entries[j].1);
            assert_ne!(entries[i].0, entries[j].0);
        }
    }
}

#[test]
fn cells_stay_unique_through_assign_and_clear() {
    let mut reg = TileRegistry::new();
    let steps: Vec<(&str, u32, u32, bool)> = vec![
        ("a", 0, 0, false),
        ("b", 0, 0, false),
        ("c", 1, 2, false),
        ("a", 1, 2, false),
        ("b", 3, 3, true),
        ("d", 0, 0, false),
        ("d", 4, 4, false),
        ("x", 4, 4, true),
        ("e", 1, 2, false),
    ];
    for (label, r, c, clear) in steps {
        if clear {
            reg.clear(at(r, c));
        } else {
            reg.assign(label, at(r, c));
        }
        assert_cells_unique(&reg);
    }
    let entries = reg.entries();
    assert_eq!(entries, vec![("e".to_string(), at(1, 2))]);
}

#[test]
fn assign_then_lookup_gives_label() {
    let mut reg = TileRegistry::new();
    reg.assign("first", at(2, 3));
    assert_eq!(reg.lookup_by_coord(at(2, 3)), Some("first".to_string()));
    reg.assign("second", at(2, 3));
    assert_eq!(reg.lookup_by_coord(at(2, 3)), Some("second".to_string()));
    assert_eq!(reg.coord_of("first"), None);
    assert_eq!(reg.len(), 1);
}

#[test]
fn assign_existing_label_moves_it() {
    let mut reg = TileRegistry::new();
    reg.assign("hero", at(0, 0));
    reg.assign("hero", at(5, 1));
    assert_eq!(reg.len(), 1);
    assert_eq!(reg.coord_of("hero"), Some(at(5, 1)));
    assert_eq!(reg.lookup_by_coord(at(0, 0)), None);
}

#[test]
fn clear_then_lookup_gives_none() {
    let mut reg = TileRegistry::new();
    reg.clear(at(7, 7));
    assert_eq!(reg.lookup_by_coord(at(7, 7)), None);
    assert_eq!(reg.len(), 0);
    reg.assign("tile", at(7, 7));
    reg.assign("other", at(1, 1));
    reg.clear(at(7, 7));
    assert_eq!(reg.lookup_by_coord(at(7, 7)), None);
    assert_eq!(reg.coord_of("other"), Some(at(1, 1)));
    assert_eq!(reg.len(), 1);
}

#[test]
fn export_lists_entries_in_label_order() {
    let mut reg = TileRegistry::new();
    reg.assign("b", at(1, 10));
    reg.assign("a", at(0, 3));
    reg.assign("B", at(12, 0));
    assert_eq!(reg.export_config(), "B:12_0,a:0_3,b:1_10");
}

#[test]
fn export_of_empty_registry_is_empty() {
    let reg = TileRegistry::new();
    assert_eq!(reg.export_config(), "");
}

#[test]
fn export_then_import_round_trip() {
    let mut reg = TileRegistry::new();
    reg.assign("Tile_0x00", at(0, 0));
    reg.assign("Tile_0x01", at(0, 1));
    let text = reg.export_config();
    assert_eq!(text, "Tile_0x00:0_0,Tile_0x01:0_1");
    let mut back = TileRegistry::new();
    back.import_config(&text);
    assert_eq!(back.entries(), reg.entries());
    assert_eq!(back.coord_of("Tile_0x00"), Some(at(0, 0)));
    assert_eq!(back.coord_of("Tile_0x01"), Some(at(0, 1)));
}

#[test]
fn import_tolerates_leading_separator_and_short_tokens() {
    let mut reg = TileRegistry::new();
    reg.import_config(",0x00:1_2,,ab,0x01:3_4");
    assert_eq!(
        reg.entries(),
        vec![("0x00".to_string(), at(1, 2)), ("0x01".to_string(), at(3, 4))]
    );
}

#[test]
fn import_coerces_malformed_numbers_to_zero() {
    let mut reg = TileRegistry::new();
    reg.import_config("wall:x_5,door:7_-1,roof,gate:4294967296_2");
    assert_eq!(reg.coord_of("wall"), Some(at(0, 5)));
    assert_eq!(reg.coord_of("door"), Some(at(7, 0)));
    assert_eq!(reg.coord_of("roof"), Some(at(0, 0)));
    // gate lands on (0, 2); roof keeps (0, 0)
    assert_eq!(reg.coord_of("gate"), Some(at(0, 2)));
    assert_eq!(reg.len(), 4);
}

#[test]
fn import_later_entry_takes_the_cell() {
    let mut reg = TileRegistry::new();
    reg.import_config("one:1_1,two:1_1");
    assert_eq!(reg.entries(), vec![("two".to_string(), at(1, 1))]);
}

#[test]
fn import_merges_into_existing_registry() {
    let mut reg = TileRegistry::new();
    reg.assign("keep", at(9, 9));
    reg.assign("moved", at(0, 0));
    reg.import_config("moved:2_2,new:0_0");
    assert_eq!(
        reg.entries(),
        vec![
            ("keep".to_string(), at(9, 9)),
            ("moved".to_string(), at(2, 2)),
            ("new".to_string(), at(0, 0)),
        ]
    );
}

#[test]
fn import_reads_plus_signed_fields() {
    let mut reg = TileRegistry::new();
    reg.import_config("abcd:+5_0,efgh:1_+2");
    assert_eq!(reg.coord_of("abcd"), Some(at(5, 0)));
    assert_eq!(reg.coord_of("efgh"), Some(at(1, 2)));
}
