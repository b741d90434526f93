use lessroutes::bits::{get_bits, get_octet, get_segment};

#[test]
fn bits_of_zero() {
    assert_eq!(get_bits(0), vec![false; 8]);
}

#[test]
fn bits_of_255() {
    assert_eq!(get_bits(255), vec![true; 8]);
}

#[test]
fn bits_of_mixed() {
    // 0xA5 = 1010 0101
    assert_eq!(
        get_bits(0xA5),
        vec![true, false, true, false, false, true, false, true]
    );
}

#[test]
fn octet_roundtrip() {
    for x in [0u8, 1, 2, 127, 128, 170, 255] {
        let bits = get_bits(x);
        assert_eq!(get_octet(&bits), x);
    }
}

#[test]
fn octet_exact() {
    let bits = [true, false, true, false, false, true, false, true];
    assert_eq!(get_octet(&bits), 0xA5);
}

#[test]
fn segment_exact() {
    let mut bits = get_bits(0x20);
    bits.extend(get_bits(0x01));
    assert_eq!(get_segment(&bits), 0x2001);
}
