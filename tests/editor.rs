use lucifer::codec::TileError;
use lucifer::config::Coord;
use lucifer::editor::Editor;
use lucifer::raster::Raster;

fn at(row: u32, col: u32) -> Coord {
    Coord { row, col }
}

fn zero_rows() -> String {
    "\n        .db     %00000000".repeat(8)
}

/// A 16x8 image: the left cell uniform, the right cell with eight values.
fn sheet() -> Raster {
    let (width, height) = (16usize, 8usize);
    let mut data = vec![0u8; width * height * 4];
    for y in 0..height {
        for x in 8..width {
            data[(y * width + x) * 4] = (x - 8) as u8 * 10;
        }
    }
    Raster { width, height, data }
}

#[test]
fn clicks_label_with_cursor_and_advance_it() {
    let mut ed = Editor::new("Tile_");
    ed.click(at(0, 0), false);
    assert_eq!(ed.cursor, 1);
    ed.click(at(0, 1), false);
    assert_eq!(ed.cursor, 2);
    assert_eq!(ed.registry.lookup_by_coord(at(0, 0)), Some("0x00".to_string()));
    assert_eq!(ed.registry.lookup_by_coord(at(0, 1)), Some("0x01".to_string()));
    ed.click(at(0, 0), true);
    assert_eq!(ed.cursor, 2);
    assert_eq!(ed.registry.lookup_by_coord(at(0, 0)), None);
}

#[test]
fn edited_cursor_names_next_label() {
    let mut ed = Editor::new("Tile_");
    ed.set_cursor(255);
    ed.click(at(3, 3), false);
    assert_eq!(ed.registry.coord_of("0xff"), Some(at(3, 3)));
    assert_eq!(ed.cursor, 256);
}

#[test]
fn reset_forgets_labels_and_keeps_cursor() {
    let mut ed = Editor::new("T");
    ed.click(at(1, 1), false);
    ed.reset_tiles();
    assert_eq!(ed.registry.len(), 0);
    assert_eq!(ed.cursor, 1);
}

#[test]
fn export_asm_writes_blocks_and_reports_failures() {
    let mut ed = Editor::new("Tile_");
    ed.click(at(0, 0), false);
    ed.click(at(0, 1), false);
    ed.click(at(5, 5), false);
    let out = ed.export_asm(&sheet());
    let expected = format!(
        "\n;\n       .org $00 * 16\n        Tile_0x00:{}{}\n;",
        zero_rows(),
        zero_rows()
    );
    assert_eq!(out.text, expected);
    assert_eq!(out.failures.len(), 2);
    assert_eq!(out.failures[0].label, "0x01");
    assert_eq!(out.failures[0].coord, at(0, 1));
    assert_eq!(out.failures[0].error, TileError::UnsupportedPalette);
    assert_eq!(out.failures[1].label, "0x02");
    assert_eq!(out.failures[1].error, TileError::OutsideImage);
}

#[test]
fn export_asm_of_empty_registry_is_terminator() {
    let ed = Editor::new("Tile_");
    let out = ed.export_asm(&sheet());
    assert_eq!(out.text, ";");
    assert!(out.failures.is_empty());
}

#[test]
fn tile_pixels_reads_the_cell() {
    let img = sheet();
    let right = img.tile_pixels(at(0, 1)).unwrap();
    assert_eq!(right.len(), 256);
    assert_eq!(right[0], 0);
    assert_eq!(right[4], 10);
    assert_eq!(right[4 * 7], 70);
    assert_eq!(img.tile_pixels(at(1, 0)), None);
    assert_eq!(img.tile_pixels(at(0, 2)), None);
}
