use iptooled::address::Address;
use iptooled::time_list::CoarseSystemTime;
use iptooled::tree::{SpamTree, User, ADDRESS_EXPIRY_HOURS, USER_EXPIRY_HOURS};

const T0: u32 = 480_000;

fn addr(hex: &str) -> Address {
    let mut bytes = [0u8; 16];
    for i in 0..16 {
        bytes[i] = u8::from_str_radix(&hex[2 * i..2 * i + 2], 16).unwrap();
    }
    Address(bytes)
}

fn at(h: u32) -> CoarseSystemTime {
    CoarseSystemTime::from_epoch_hours(h)
}

fn ask(tree: &mut SpamTree, a: &str, now: u32) -> (u32, u32, u8) {
    let q = tree.query(&addr(a), at(now));
    (q.stats.trusted_users, q.stats.spam_users, q.prefix_bits)
}

#[test]
fn user_from_bytes_is_big_endian() {
    assert_eq!(User::from_bytes([0, 0, 0, 1]), User(1));
    assert_eq!(User::from_bytes([0x12, 0x34, 0x56, 0x78]), User(0x1234_5678));
    assert_eq!(User::from_bytes([0xff; 4]), User(u32::MAX));
}

#[test]
fn empty_query() {
    let mut tree = SpamTree::new();
    assert_eq!(ask(&mut tree, "00000000000000000000000000000000", T0), (0, 0, 0));
}

#[test]
fn single_spam_then_query() {
    let mut tree = SpamTree::new();
    assert!(tree.spam(addr("20010db8000000000000000000000001"), User(0x0000_0001), at(T0)).is_some());
    assert_eq!(ask(&mut tree, "20010db8000000000000000000000001", T0), (0, 1, 128));
    assert_eq!(ask(&mut tree, "20010db8000000000000000000000002", T0), (0, 1, 124));
}

#[test]
fn trust_stop_rule() {
    let mut tree = SpamTree::new();
    assert!(tree.trust(addr("20010db8000000000000000000000001"), User(2), at(T0)).is_some());
    assert_eq!(ask(&mut tree, "20010db8000000000000000000000001", T0), (1, 0, 20));
    // 2001:0db9 shares the first five nibbles, and so the recorded node
    assert_eq!(ask(&mut tree, "20010db9000000000000000000000000", T0), (1, 0, 20));
    // 2002:: shares only three nibbles
    assert_eq!(ask(&mut tree, "20020000000000000000000000000000", T0), (1, 0, 12));
    assert_eq!(ask(&mut tree, "30000000000000000000000000000000", T0), (0, 0, 0));
}

#[test]
fn per_user_cap() {
    let mut tree = SpamTree::new();
    let addresses = [
        "20010db8000000000000000000000001",
        "20010db8000000000000000000000002",
        "20010db8000000000000000000000003",
        "20010db8000000000000000000000004",
        "20010db8000000000000000000000005",
        "30010db8000000000000000000000006",
    ];
    let mut records = Vec::new();
    for a in addresses.iter() {
        if let Some(r) = tree.trust(addr(a), User(7), at(T0)) {
            records.push(r);
        }
    }
    assert_eq!(records.len(), 5);
    // the sixth left no node of its own: an address under no recorded prefix
    assert_eq!(ask(&mut tree, "30010db8000000000000000000000006", T0), (0, 0, 0));
    assert_eq!(ask(&mut tree, "20010db8000000000000000000000001", T0), (5, 0, 20));
    // another user is not capped
    assert!(tree.trust(addr("30010db8000000000000000000000006"), User(8), at(T0)).is_some());
    assert_eq!(ask(&mut tree, "30010db8000000000000000000000006", T0), (1, 0, 20));
}

#[test]
fn user_cap_frees_up_when_the_user_window_expires() {
    let mut tree = SpamTree::new();
    for i in 0..5u8 {
        let mut a = addr("20010db8000000000000000000000000");
        a.0[15] = i;
        assert!(tree.spam(a, User(9), at(T0)).is_some());
    }
    assert!(tree.spam(addr("20010db80000000000000000000000ff"), User(9), at(T0 + 1)).is_none());
    let later = T0 + USER_EXPIRY_HOURS as u32;
    assert!(tree.spam(addr("20010db80000000000000000000000ff"), User(9), at(later)).is_none());
    let after = later + 1;
    assert!(tree.spam(addr("20010db80000000000000000000000ff"), User(9), at(after)).is_some());
    // the moved observations still count until the address window expires
    assert_eq!(ask(&mut tree, "20010db8000000000000000000000001", after), (0, 1, 128));
    assert_eq!(ask(&mut tree, "20010db8000000000000000000000000", after).1, 1);
    assert_eq!(ask(&mut tree, "20010db8000000000000000000000010", after), (0, 6, 120));
}

#[test]
fn expiry_removes_the_counts() {
    let mut tree = SpamTree::new();
    let a = "20010db8000000000000000000000001";
    assert!(tree.spam(addr(a), User(1), at(T0)).is_some());
    // the address window keeps the time of the observation: two years from it, it is last counted
    assert_eq!(ask(&mut tree, a, T0 + ADDRESS_EXPIRY_HOURS as u32), (0, 1, 128));
    let end = T0 + USER_EXPIRY_HOURS as u32 + ADDRESS_EXPIRY_HOURS as u32 + 1;
    assert_eq!(ask(&mut tree, a, end), (0, 0, 0));
}

#[test]
fn expiry_keeps_other_observations() {
    let mut tree = SpamTree::new();
    assert!(tree.spam(addr("20010db8000000000000000000000001"), User(1), at(T0)).is_some());
    assert!(tree.trust(addr("30010db8000000000000000000000002"), User(2), at(T0 + 1000)).is_some());
    let end = T0 + USER_EXPIRY_HOURS as u32 + ADDRESS_EXPIRY_HOURS as u32 + 1;
    assert_eq!(ask(&mut tree, "20010db8000000000000000000000001", end), (0, 0, 0));
    assert_eq!(ask(&mut tree, "30010db8000000000000000000000002", end), (1, 0, 20));
    let later = T0 + 1000 + ADDRESS_EXPIRY_HOURS as u32 + 1;
    assert_eq!(ask(&mut tree, "30010db8000000000000000000000002", later), (0, 0, 0));
}

#[test]
fn advance_twice_changes_nothing() {
    let mut tree = SpamTree::new();
    assert!(tree.spam(addr("20010db8000000000000000000000001"), User(1), at(T0)).is_some());
    assert!(tree.trust(addr("20010db8000000000000000000000002"), User(2), at(T0 + 800)).is_some());
    let now = T0 + 800 + USER_EXPIRY_HOURS as u32 + 5;
    tree.advance(at(now));
    let first = ask(&mut tree, "20010db8000000000000000000000001", now);
    tree.advance(at(now));
    tree.advance(at(now));
    assert_eq!(ask(&mut tree, "20010db8000000000000000000000001", now), first);
    assert_eq!(first, (0, 1, 128));
    assert_eq!(ask(&mut tree, "20010db8000000000000000000000000", now), (1, 1, 124));
}

#[test]
fn ack_then_query_sees_the_change() {
    let mut tree = SpamTree::new();
    let a = "20010db8000000000000000000000042";
    assert!(tree.trust(addr(a), User(3), at(T0)).is_some());
    assert_eq!(ask(&mut tree, a, T0), (1, 0, 20));
    assert!(tree.spam(addr(a), User(4), at(T0)).is_some());
    assert_eq!(ask(&mut tree, a, T0), (0, 1, 128));
    assert_eq!(ask(&mut tree, "20010db8000000000000000000000000", T0), (0, 1, 120));
}

#[test]
fn time_within_an_hour_earlier_is_accepted() {
    let mut tree = SpamTree::new();
    assert!(tree.spam(addr("20010db8000000000000000000000001"), User(1), at(T0 + 1)).is_some());
    assert!(tree.accepts(at(T0)));
    assert!(!tree.accepts(at(T0 - 1)));
    assert!(tree.spam(addr("20010db8000000000000000000000002"), User(1), at(T0)).is_some());
    assert_eq!(ask(&mut tree, "20010db8000000000000000000000000", T0 + 1), (0, 2, 124));
}

#[test]
fn query_stale_does_not_advance() {
    let mut tree = SpamTree::new();
    assert!(tree.spam(addr("20010db8000000000000000000000001"), User(1), at(T0)).is_some());
    let q = tree.query_stale(&addr("20010db8000000000000000000000001"));
    assert_eq!((q.stats.trusted_users, q.stats.spam_users, q.prefix_bits), (0, 1, 128));
    assert!(tree.log_has_room());
}

#[test]
fn address_under_no_recorded_prefix_is_empty() {
    let mut tree = SpamTree::new();
    assert!(tree.spam(addr("20010db8000000000000000000000001"), User(1), at(T0)).is_some());
    let q = tree.query_stale(&addr("30000000000000000000000000000000"));
    assert_eq!((q.stats.trusted_users, q.stats.spam_users, q.prefix_bits), (0, 0, 0));
    assert_eq!(ask(&mut tree, "30000000000000000000000000000000", T0), (0, 0, 0));
    assert_eq!(ask(&mut tree, "20000000000000000000000000000000", T0), (0, 1, 12));
}
