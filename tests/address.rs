use iptooled::address::{mask, Address};

fn addr(hex: &str) -> Address {
    let mut bytes = [0u8; 16];
    for i in 0..16 {
        bytes[i] = u8::from_str_radix(&hex[2 * i..2 * i + 2], 16).unwrap();
    }
    Address(bytes)
}

#[test]
fn mask_sets_leading_bits() {
    assert_eq!(mask(0), 0x00);
    assert_eq!(mask(1), 0x80);
    assert_eq!(mask(4), 0xf0);
    assert_eq!(mask(7), 0xfe);
}

#[test]
fn prefix_keeps_leading_bits_and_zeroes_the_rest() {
    let a = addr("20010db8ffffffffffffffffffffffff");
    let p = a.prefix(12);
    assert_eq!(p.bits(), 12);
    assert_eq!(p.first(), addr("20000000000000000000000000000000"));
    let p = a.prefix(36);
    assert_eq!(p.first(), addr("20010db8f00000000000000000000000"));
    let p = a.prefix(128);
    assert_eq!(p.first(), a);
    let p = a.prefix(0);
    assert_eq!(p.first(), addr("00000000000000000000000000000000"));
}

#[test]
fn prefix_masks_the_boundary_byte() {
    let a = addr("ffffffffffffffffffffffffffffffff");
    assert_eq!(a.prefix(3).first(), addr("e0000000000000000000000000000000"));
    assert_eq!(a.prefix(9).first(), addr("ff800000000000000000000000000000"));
    assert_eq!(a.prefix(127).first(), addr("fffffffffffffffffffffffffffffffe"));
}

#[test]
fn shorten_drops_the_last_bit() {
    let a = addr("ffffffffffffffffffffffffffffffff");
    let mut p = a.prefix(9);
    p.shorten();
    assert_eq!(p.bits(), 8);
    assert_eq!(p.first(), addr("ff000000000000000000000000000000"));
    p.shorten();
    assert_eq!(p.bits(), 7);
    assert_eq!(p.first(), addr("fe000000000000000000000000000000"));
    let mut q = a.prefix(128);
    q.shorten();
    assert_eq!(q, a.prefix(127));
    let mut r = a.prefix(1);
    r.shorten();
    assert_eq!(r, a.prefix(0));
}

#[test]
fn is_prefix_of_compares_leading_bits() {
    let p = addr("20010db8000000000000000000000000").prefix(32);
    assert!(p.is_prefix_of(&addr("20010db8000000000000000000000001")));
    assert!(!p.is_prefix_of(&addr("20010db9000000000000000000000001")));
    let q = addr("20010db8000000000000000000000000").prefix(31);
    assert!(q.is_prefix_of(&addr("20010db9000000000000000000000001")));
    assert!(!q.is_prefix_of(&addr("20010dba000000000000000000000001")));
    let whole = addr("20010db8000000000000000000000001").prefix(128);
    assert!(whole.is_prefix_of(&addr("20010db8000000000000000000000001")));
    assert!(!whole.is_prefix_of(&addr("20010db8000000000000000000000002")));
    let empty = addr("ffffffffffffffffffffffffffffffff").prefix(0);
    assert!(empty.is_prefix_of(&addr("00000000000000000000000000000000")));
}

#[test]
fn prefixes_order_by_first_then_bits() {
    let a = addr("20010db8000000000000000000000000");
    assert!(a.prefix(16) < a.prefix(32));
    assert!(a.prefix(32) < addr("20010db9000000000000000000000000").prefix(32));
}
