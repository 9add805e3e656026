use quadkey::qk;
use quadkey::{str_to_tile, tile_to_str, tile_to_u64, u64_to_tile, u64_zoom_level};
use quadkey::{QuadKeyParseError, Tile};

#[test]
fn it_converts_tile_to_string() {
    assert_eq!(qk::tile_to_str(0, 0, 0), "");
    assert_eq!(qk::tile_to_str(1, 1, 1), "3");
    assert_eq!(qk::tile_to_str(11, 3, 8), "00001033");
}

#[test]
fn it_converts_from_string() {
    assert_eq!(
        qk::str_to_tile(String::from("00001033")).unwrap(),
        qk::Tile { x: 11, y: 3, z: 8 }
    );
}

#[test]
fn it_round_trips_from_string() {
    let tile = qk::Tile { x: 11, y: 3, z: 8 };
    let tile_qk = qk::tile_to_str(tile.x, tile.y, tile.z);
    assert_eq!(qk::str_to_tile(tile_qk).unwrap(), tile);
}

#[test]
fn it_get_binary_zoom_level() {
    assert_eq!(qk::u64_zoom_level(1), 1);
    assert_eq!(qk::u64_zoom_level(2), 2);
    assert_eq!(qk::u64_zoom_level(4), 4);
    assert_eq!(qk::u64_zoom_level(7), 7);
    assert_eq!(qk::u64_zoom_level(8), 8);
    assert_eq!(qk::u64_zoom_level(24), 24);
    assert_eq!(qk::u64_zoom_level(20024), 24);
}

#[test]
fn it_converts_tile_to_u64() {
    assert_eq!(
        qk::tile_to_u64(1, 1, 1),
        0b1100000000000000000000000000000000000000000000000000000000000001
    );
    assert_eq!(
        qk::tile_to_u64(29, 50, 7),
        0b0010110101100100000000000000000000000000000000000000000000000111
    );
    assert_eq!(
        qk::tile_to_u64(35210, 21493, 16),
        0b110001001001011111010100110011000000000000000000000000000010000
    );
}

#[test]
fn it_converts_from_u64() {
    assert_eq!(
        qk::u64_to_tile(0b1100000000000000000000000000000000000000000000000000000000000001),
        qk::Tile { x: 1, y: 1, z: 1 }
    );
    assert_eq!(
        qk::u64_to_tile(0b0010110101100100000000000000000000000000000000000000000000000111),
        qk::Tile { x: 29, y: 50, z: 7 }
    );
    assert_eq!(
        qk::u64_to_tile(0b110001001001011111010100110011000000000000000000000000000010000),
        qk::Tile {
            x: 35210,
            y: 21493,
            z: 16
        }
    );
}

#[test]
fn string_with_out_of_range_digit_is_rejected() {
    assert_eq!(str_to_tile(String::from("05")), Err(QuadKeyParseError));
    assert_eq!(str_to_tile(String::from("4")), Err(QuadKeyParseError));
    assert_eq!(str_to_tile(String::from("01a3")), Err(QuadKeyParseError));
}

#[test]
fn string_with_character_below_zero_is_rejected() {
    assert_eq!(str_to_tile(String::from("0/")), Err(QuadKeyParseError));
    assert_eq!(str_to_tile(String::from(" 1")), Err(QuadKeyParseError));
}

#[test]
fn string_with_non_ascii_character_is_rejected() {
    assert_eq!(str_to_tile(String::from("0\u{e9}1")), Err(QuadKeyParseError));
}

#[test]
fn empty_string_is_the_zoom_zero_tile() {
    assert_eq!(str_to_tile(String::new()), Ok(Tile { x: 0, y: 0, z: 0 }));
}

#[test]
fn each_digit_sets_its_bits() {
    assert_eq!(str_to_tile(String::from("0")), Ok(Tile { x: 0, y: 0, z: 1 }));
    assert_eq!(str_to_tile(String::from("1")), Ok(Tile { x: 1, y: 0, z: 1 }));
    assert_eq!(str_to_tile(String::from("2")), Ok(Tile { x: 0, y: 1, z: 1 }));
    assert_eq!(str_to_tile(String::from("3")), Ok(Tile { x: 1, y: 1, z: 1 }));
    assert_eq!(str_to_tile(String::from("13")), Ok(Tile { x: 3, y: 1, z: 2 }));
}

#[test]
fn string_round_trip_at_largest_zoom() {
    let z: usize = 29;
    let cases: [(usize, usize); 4] = [
        (0, 0),
        ((1 << 29) - 1, (1 << 29) - 1),
        (123_456_789, 98_765_432),
        (1 << 28, 5),
    ];
    for (x, y) in cases {
        let s = tile_to_str(x, y, z);
        assert_eq!(s.len(), z);
        assert!(s.chars().all(|c| ('0'..='3').contains(&c)));
        assert_eq!(str_to_tile(s), Ok(Tile { x, y, z }));
    }
}

#[test]
fn integer_round_trip_at_every_zoom() {
    for z in 0..=29usize {
        let top = if z == 0 { 0 } else { (1usize << z) - 1 };
        for (x, y) in [(0, 0), (top, top), (top, 0), (0, top), (top / 3, top / 5)] {
            assert_eq!(u64_to_tile(tile_to_u64(x, y, z)), Tile { x, y, z });
        }
    }
}

#[test]
fn packed_zoom_is_the_low_five_bits() {
    assert_eq!(u64_zoom_level(tile_to_u64(5, 9, 12)), 12);
    assert_eq!(u64_zoom_level(tile_to_u64(0, 0, 0)), 0);
    assert_eq!(u64_zoom_level(tile_to_u64((1 << 29) - 1, (1 << 29) - 1, 29)), 29);
    assert_eq!(tile_to_u64((1 << 29) - 1, 0, 29) & 31, 29);
    assert_eq!(u64_to_tile(tile_to_u64(7, 2, 3)).z, 3);
}

#[test]
fn zoom_zero_encodes_to_zero() {
    assert_eq!(tile_to_u64(0, 0, 0), 0);
    assert_eq!(tile_to_u64(12, 34, 0), 0);
    assert_eq!(tile_to_str(12, 34, 0), "");
}

#[test]
fn bits_above_the_zoom_are_not_encoded() {
    assert_eq!(tile_to_str(5, 0, 2), "01");
    assert_eq!(tile_to_str(0b111, 0b100, 2), "11");
    assert_eq!(tile_to_u64(5, 0, 2), tile_to_u64(1, 0, 2));
}

#[test]
fn largest_zoom_fields_decode_without_failing() {
    assert_eq!(u64_to_tile(31), Tile { x: 3, y: 1, z: 31 });
    assert_eq!(
        u64_to_tile(u64::MAX),
        Tile {
            x: (1 << 31) - 1,
            y: (1 << 31) - 1,
            z: 31
        }
    );
    assert_eq!(u64_to_tile(0), Tile { x: 0, y: 0, z: 0 });
}

#[test]
fn single_level_packed_values() {
    assert_eq!(tile_to_u64(1, 0, 1), (1u64 << 62) | 1);
    assert_eq!(tile_to_u64(0, 1, 1), (1u64 << 63) | 1);
    assert_eq!(tile_to_u64(0, 0, 1), 1);
}

#[test]
fn long_quadkey_string_decodes() {
    let s = "3".repeat(32);
    assert_eq!(
        str_to_tile(s),
        Ok(Tile {
            x: u32::MAX as usize,
            y: u32::MAX as usize,
            z: 32
        })
    );
}
