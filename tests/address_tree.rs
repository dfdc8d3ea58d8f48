use iptooled::address::Address;
use iptooled::address_tree::{AddressTree, TreeOperation};
use iptooled::node_index::{AddressPath, NodeIndex};

fn addr(hex: &str) -> Address {
    let mut bytes = [0u8; 16];
    for i in 0..16 {
        bytes[i] = u8::from_str_radix(&hex[2 * i..2 * i + 2], 16).unwrap();
    }
    Address(bytes)
}

fn counts(tree: &AddressTree, a: &str) -> (u32, u32, u8) {
    let q = tree.query(&addr(a));
    (q.trusted_count, q.spam_count, q.prefix_bits)
}

#[test]
fn address_path_yields_nibbles_high_first() {
    let mut path = AddressPath::new(addr("2f010db8000000000000000000000001"));
    assert_eq!(path.next().map(|i| i.value()), Some(2));
    assert_eq!(path.next().map(|i| i.value()), Some(15));
    assert_eq!(path.next().map(|i| i.value()), Some(0));
    for _ in 3..31 {
        assert!(path.next().is_some());
    }
    assert_eq!(path.next().map(|i| i.value()), Some(1));
    assert!(path.next().is_none());
    assert_eq!(NodeIndex::high(0xab).value(), 0xa);
    assert_eq!(NodeIndex::low(0xab).value(), 0xb);
}

#[test]
fn empty_trie_answers_zero() {
    let tree = AddressTree::new_with_keys(1, 2);
    assert_eq!(counts(&tree, "00000000000000000000000000000000"), (0, 0, 0));
}

#[test]
fn spam_counts_every_nibble_of_the_path() {
    let mut tree = AddressTree::new_with_keys(1, 2);
    let _ = tree.record_spam(addr("20010db8000000000000000000000001"));
    assert_eq!(counts(&tree, "20010db8000000000000000000000001"), (0, 1, 128));
    assert_eq!(counts(&tree, "20010db8000000000000000000000002"), (0, 1, 124));
    assert_eq!(counts(&tree, "30000000000000000000000000000000"), (0, 1, 0));
}

#[test]
fn trust_stops_at_twenty_bits_without_spam() {
    let mut tree = AddressTree::new_with_keys(1, 2);
    let r = tree.record_trusted(addr("20010db8000000000000000000000001"));
    assert_eq!(r.bytes[0], 20);
    assert_eq!(counts(&tree, "20010db8000000000000000000000001"), (1, 0, 20));
    assert_eq!(counts(&tree, "20020000000000000000000000000000"), (1, 0, 12));
}

#[test]
fn trust_follows_spam_down() {
    let mut tree = AddressTree::new_with_keys(1, 2);
    let _ = tree.record_spam(addr("20010db8000000000000000000000001"));
    let r = tree.record_trusted(addr("20010db8000000000000000000000002"));
    // every node down to depth 31 has spam; the node at depth 32 is new
    assert_eq!(r.bytes[0], 128);
    assert_eq!(counts(&tree, "20010db8000000000000000000000002"), (1, 0, 128));
    assert_eq!(counts(&tree, "20010db8000000000000000000000001"), (0, 1, 128));
    assert_eq!(counts(&tree, "20010db8000000000000000000000003"), (1, 1, 124));
}

#[test]
fn record_holds_kind_prefix_and_checksum() {
    let mut tree = AddressTree::new_with_keys(1, 2);
    let r = tree.record_trusted(addr("20010db8ffffffffffffffffffffffff"));
    assert_eq!(r.bytes[0], 20);
    assert_eq!(&r.bytes[1..17], &addr("20010000000000000000000000000000").0[..]);
    let s = tree.record_spam(addr("20010db8ffffffffffffffffffffffff"));
    assert_eq!(s.bytes[0], 0);
    assert_eq!(&s.bytes[1..17], &addr("20010db8ffffffffffffffffffffffff").0[..]);
    assert_ne!(&r.bytes[17..], &s.bytes[17..]);
}

#[test]
fn checksum_depends_on_keys_and_history() {
    let a = addr("20010db8000000000000000000000001");
    let mut t1 = AddressTree::new_with_keys(1, 2);
    let mut t2 = AddressTree::new_with_keys(1, 3);
    let r1 = t1.record_spam(a);
    let r2 = t2.record_spam(a);
    assert_eq!(&r1.bytes[..17], &r2.bytes[..17]);
    assert_ne!(&r1.bytes[17..], &r2.bytes[17..]);
    let again = t1.record_spam(a);
    assert_ne!(&r1.bytes[17..], &again.bytes[17..]);
    let mut t3 = AddressTree::new_with_keys(1, 2);
    assert_eq!(t3.record_spam(a).bytes, r1.bytes);
}

#[test]
fn serialize_and_deserialize_round_trip() {
    let p = addr("20010db8ffffffffffffffffffffffff").prefix(36);
    let op = TreeOperation::Trust(p);
    let bytes = op.serialize();
    assert_eq!(bytes[0], 36);
    match TreeOperation::deserialize(&bytes) {
        Some(TreeOperation::Trust(q)) => assert_eq!(q, p),
        _ => panic!("expected trust"),
    }
    let s = TreeOperation::Spam(addr("20010db8ffffffffffffffffffffffff"));
    match TreeOperation::deserialize(&s.serialize()) {
        Some(TreeOperation::Spam(a)) => assert_eq!(a, addr("20010db8ffffffffffffffffffffffff")),
        _ => panic!("expected spam"),
    }
    let mut bad = bytes;
    bad[0] = 129;
    assert!(TreeOperation::deserialize(&bad).is_none());
}

#[test]
fn apply_replays_trust_along_the_recorded_prefix() {
    let a = addr("20010db8000000000000000000000001");
    let mut live = AddressTree::new_with_keys(5, 6);
    let _ = live.record_spam(addr("20010db8000000000000000000000009"));
    let r = live.record_trusted(a);
    let mut replayed = AddressTree::new_with_keys(5, 6);
    let _ = TreeOperation::Spam(addr("20010db8000000000000000000000009")).apply(&mut replayed);
    let mut head = [0u8; 17];
    head.copy_from_slice(&r.bytes[..17]);
    let op = TreeOperation::deserialize(&head).unwrap();
    let again = op.apply(&mut replayed);
    assert_eq!(again.bytes, r.bytes);
    for probe in ["20010db8000000000000000000000001", "20010db8000000000000000000000009", "20010db8000000000000000000000000"] {
        assert_eq!(counts(&live, probe), counts(&replayed, probe));
    }
}
