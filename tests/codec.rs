use lucifer::codec::{tile_to_pattern, TileError};

fn tile_from(values: &[u8]) -> Vec<u8> {
    let mut data = Vec::new();
    for &v in values {
        data.extend_from_slice(&[v, 0, 0, 255]);
    }
    data
}

fn rows(bits: [&str; 8]) -> String {
    let mut s = String::new();
    for b in bits {
        s.push_str("\n        .db     %");
        s.push_str(b);
    }
    s
}

#[test]
fn two_values_fill_low_plane_only() {
    let values: Vec<u8> = (0..64).map(|k| if k % 2 == 0 { 10 } else { 200 }).collect();
    let out = tile_to_pattern(&tile_from(&values)).unwrap();
    let low = rows(["01010101"; 8]);
    let high = rows(["00000000"; 8]);
    assert_eq!(out, format!("{}{}", low, high));
}

#[test]
fn four_values_use_both_planes() {
    let values: Vec<u8> = (0..64).map(|k| [40u8, 3, 250, 90][k % 4]).collect();
    // sorted palette: 3, 40, 90, 250 -> indices 1, 0, 3, 2
    let out = tile_to_pattern(&tile_from(&values)).unwrap();
    let low = rows(["10101010"; 8]);
    let high = rows(["00110011"; 8]);
    assert_eq!(out, format!("{}{}", low, high));
}

#[test]
fn single_value_tile_is_all_zero() {
    let out = tile_to_pattern(&tile_from(&[77u8; 64])).unwrap();
    assert_eq!(out, format!("{}{}", rows(["00000000"; 8]), rows(["00000000"; 8])));
}

#[test]
fn only_first_channel_is_sampled() {
    let mut data = tile_from(&[5u8; 64]);
    for k in 0..64 {
        data[4 * k + 1] = k as u8;
        data[4 * k + 2] = 255 - k as u8;
        data[4 * k + 3] = (k * 3) as u8;
    }
    data[4 * 9] = 6;
    let out = tile_to_pattern(&data).unwrap();
    let mut low = ["00000000"; 8];
    low[1] = "01000000";
    assert_eq!(out, format!("{}{}", rows(low), rows(["00000000"; 8])));
}

#[test]
fn five_values_are_unsupported() {
    let values: Vec<u8> = (0..64).map(|k| (k % 5) as u8 * 20).collect();
    assert_eq!(tile_to_pattern(&tile_from(&values)), Err(TileError::UnsupportedPalette));
}
