use iptooled::address::Address;
use iptooled::address_tree::AddressTree;
use iptooled::log::{header_from_keys, keys_from_header, replay_log, replay_record, LogError, RecordError};
use iptooled::time_list::CoarseSystemTime;
use iptooled::tree::{SpamTree, User};
use rand::{Rng, SeedableRng};

fn addr(hex: &str) -> Address {
    let mut bytes = [0u8; 16];
    for i in 0..16 {
        bytes[i] = u8::from_str_radix(&hex[2 * i..2 * i + 2], 16).unwrap();
    }
    Address(bytes)
}

#[test]
fn header_round_trip() {
    let h = header_from_keys(0x0102030405060708, 0x1112131415161718);
    assert_eq!(h[0], 0x01);
    assert_eq!(h[15], 0x18);
    assert_eq!(keys_from_header(&h), (0x0102030405060708, 0x1112131415161718));
}

#[test]
fn short_header_is_refused() {
    assert_eq!(replay_log(&vec![0u8; 15]).err(), Some(LogError::ShortHeader));
    let (tree, len) = replay_log(&vec![0u8; 16]).unwrap();
    assert_eq!(len, 16);
    assert_eq!(tree.query(&addr("20010db8000000000000000000000001")).prefix_bits, 0);
}

fn live_log(keys: (u64, u64)) -> (Vec<u8>, AddressTree) {
    let mut live = AddressTree::new_with_keys(keys.0, keys.1);
    let mut log = header_from_keys(keys.0, keys.1).to_vec();
    for a in ["20010db8000000000000000000000001", "20010db8000000000000000000000002", "30000000000000000000000000000003"] {
        log.extend_from_slice(&live.record_spam(addr(a)).bytes);
        log.extend_from_slice(&live.record_trusted(addr(a)).bytes);
    }
    (log, live)
}

#[test]
fn replay_rebuilds_the_trie() {
    let (log, live) = live_log((11, 22));
    let (replayed, len) = replay_log(&log).unwrap();
    assert_eq!(len, log.len());
    for a in ["20010db8000000000000000000000001", "20010db8000000000000000000000003", "30000000000000000000000000000000", "40000000000000000000000000000000"] {
        let x = live.query(&addr(a));
        let y = replayed.query(&addr(a));
        assert_eq!((x.trusted_count, x.spam_count, x.prefix_bits), (y.trusted_count, y.spam_count, y.prefix_bits));
    }
}

#[test]
fn trailing_partial_record_is_left_out() {
    let (mut log, _) = live_log((1, 2));
    let whole = log.len();
    log.extend_from_slice(&[0, 1, 2, 3, 4]);
    let (_, len) = replay_log(&log).unwrap();
    assert_eq!(len, whole);
}

#[test]
fn corrupt_record_is_a_checksum_mismatch() {
    let (mut log, _) = live_log((1, 2));
    log[16 + 25 * 2 + 5] ^= 1;
    assert_eq!(replay_log(&log).err(), Some(LogError::ChecksumMismatch(2)));
    let (mut log, _) = live_log((1, 2));
    log[16 + 25 * 3 + 24] ^= 0x80;
    assert_eq!(replay_log(&log).err(), Some(LogError::ChecksumMismatch(3)));
}

#[test]
fn wrong_keys_are_a_checksum_mismatch() {
    let (mut log, _) = live_log((1, 2));
    log[0] ^= 1;
    assert_eq!(replay_log(&log).err(), Some(LogError::ChecksumMismatch(0)));
}

#[test]
fn unknown_kind_is_refused() {
    let (mut log, _) = live_log((1, 2));
    log[16 + 25] = 200;
    assert_eq!(replay_log(&log).err(), Some(LogError::UnknownKind(1)));
    let mut tree = AddressTree::new_with_keys(1, 2);
    let mut rec = [0u8; 25];
    rec[0] = 129;
    assert_eq!(replay_record(&mut tree, &rec), Err(RecordError::UnknownKind));
}

#[test]
fn replay_equality_for_random_operations() {
    let mut rng = rand::rngs::StdRng::seed_from_u64(7);
    let keys = (rng.gen::<u64>(), rng.gen::<u64>());
    let mut live = SpamTree::new_with_keys(keys.0, keys.1);
    let mut log = header_from_keys(keys.0, keys.1).to_vec();
    let mut now: u32 = 480_000;
    for _ in 0..400 {
        let mut a = [0u8; 16];
        a[0] = 0x20;
        a[1] = rng.gen_range(0..4);
        a[2] = rng.gen_range(0..4);
        for b in a[3..].iter_mut() {
            *b = rng.gen_range(0..3);
        }
        let user = User(rng.gen_range(0..40));
        let record = if rng.gen_bool(0.5) {
            live.trust(Address(a), user, CoarseSystemTime::from_epoch_hours(now))
        } else {
            live.spam(Address(a), user, CoarseSystemTime::from_epoch_hours(now))
        };
        if let Some(r) = record {
            log.extend_from_slice(&r.bytes);
        }
        now += rng.gen_range(0..3);
    }
    let (tree, len) = replay_log(&log).unwrap();
    assert_eq!(len, log.len());
    let replayed = SpamTree::from_tree(tree);
    for _ in 0..1000 {
        let mut a = [0u8; 16];
        a[0] = 0x20;
        a[1] = rng.gen_range(0..4);
        a[2] = rng.gen_range(0..4);
        for b in a[3..].iter_mut() {
            *b = rng.gen_range(0..3);
        }
        let x = live.query_stale(&Address(a));
        let y = replayed.query_stale(&Address(a));
        assert_eq!(x, y);
    }
}

#[test]
fn replay_record_reports_a_wrong_checksum() {
    let mut live = AddressTree::new_with_keys(3, 4);
    let rec = live.record_spam(addr("20010db8000000000000000000000001"));
    let mut replayed = AddressTree::new_with_keys(3, 4);
    let mut bad = rec.bytes;
    bad[20] ^= 0xff;
    assert_eq!(replay_record(&mut replayed, &bad), Err(RecordError::ChecksumMismatch));
    let mut fresh = AddressTree::new_with_keys(3, 4);
    assert_eq!(replay_record(&mut fresh, &rec.bytes), Ok(()));
    assert_eq!(fresh.query(&addr("20010db8000000000000000000000001")).spam_count, 1);
}
