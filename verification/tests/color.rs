use canvas::color::Color;

#[test]
fn from_hex_splits_components() {
    let c = Color::from_hex(0x12_34_56).unwrap();
    assert_eq!(c.r(), 0x12);
    assert_eq!(c.g(), 0x34);
    assert_eq!(c.b(), 0x56);
}

#[test]
fn from_hex_accepts_bounds() {
    let black = Color::from_hex(0).unwrap();
    assert_eq!((black.r(), black.g(), black.b()), (0, 0, 0));
    let white = Color::from_hex(0xFF_FFFF).unwrap();
    assert_eq!((white.r(), white.g(), white.b()), (255, 255, 255));
}

#[test]
fn from_hex_rejects_values_above_white() {
    assert!(Color::from_hex(0x100_0000).is_none());
    assert!(Color::from_hex(16777216).is_none());
    assert!(Color::from_hex(u32::MAX).is_none());
}

#[test]
fn to_hex_formula() {
    let c = Color::from_hex(0xAB_CD_EF).unwrap();
    assert_eq!(c.to_hex(), 0xAB_CD_EF);
    assert_eq!(Color::from_hex(0x00_00_FF).unwrap().to_hex(), 255);
    assert_eq!(Color::from_hex(0x01_00_00).unwrap().to_hex(), 65536);
}

#[test]
fn hex_round_trip() {
    for hex in [0u32, 1, 255, 256, 65535, 65536, 0x7F_7F_7F, 0xFF_FFFF] {
        let c = Color::from_hex(hex).unwrap();
        assert_eq!(c.to_hex(), hex as i32);
        let again = Color::from_hex(c.to_hex() as u32).unwrap();
        assert_eq!((again.r(), again.g(), again.b()), (c.r(), c.g(), c.b()));
    }
}
