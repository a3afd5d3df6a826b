use samepic::fingerprint::{byte_ones, Fingerprint};

#[test]
fn ones_per_byte() {
    assert_eq!(byte_ones(0x00), 0);
    assert_eq!(byte_ones(0x01), 1);
    assert_eq!(byte_ones(0x03), 2);
    assert_eq!(byte_ones(0xff), 8);
    assert_eq!(byte_ones(0xaa), 4);
}

#[test]
fn distance_counts_differing_bits() {
    let zero = Fingerprint { bits: vec![0u8; 16] };
    let mut three = vec![0u8; 16];
    three[0] = 0b0000_0111;
    let three = Fingerprint { bits: three };
    assert_eq!(zero.dist(&three), 3);
    assert_eq!(three.dist(&zero), 3);
    assert_eq!(zero.dist(&zero), 0);
    let all = Fingerprint { bits: vec![0xffu8; 16] };
    assert_eq!(zero.dist(&all), 128);
}

#[test]
fn duplicate_is_equal() {
    let fp = Fingerprint { bits: vec![1, 2, 3, 4, 5, 6, 7, 8, 9, 10, 11, 12, 13, 14, 15, 16] };
    let copy = fp.duplicate();
    assert_eq!(copy.bits, fp.bits);
    assert_eq!(fp.dist(&copy), 0);
}
