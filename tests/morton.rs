use tile_split::morton::{decode, encode};

#[test]
fn decode_interleaves_x_in_even_bits() {
    assert_eq!(decode(0), (0, 0));
    assert_eq!(decode(1), (1, 0));
    assert_eq!(decode(2), (0, 1));
    assert_eq!(decode(3), (1, 1));
    assert_eq!(decode(0b10_01_11), (0b011, 0b101));
    assert_eq!(decode(u32::MAX), (u16::MAX, u16::MAX));
}

#[test]
fn encode_places_y_in_odd_bits() {
    assert_eq!(encode(0, 0), 0);
    assert_eq!(encode(1, 0), 1);
    assert_eq!(encode(0, 1), 2);
    assert_eq!(encode(3, 5), 0b10_01_11);
    assert_eq!(encode(31, 31), 1023);
}

#[test]
fn level_bijection() {
    for z in 0..=6u32 {
        let count = 1u32 << (2 * z);
        let side = 1u16 << z;
        for i in 0..count {
            let (x, y) = decode(i);
            assert!(x < side && y < side);
            assert_eq!(encode(x, y), i);
        }
    }
}
