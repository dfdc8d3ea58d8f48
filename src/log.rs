use crate::address_tree::{
    be_bytes, decodes_to, lemma_apply_deterministic, lemma_decode_encode, lemma_decode_unique, op_bytes,
    AddressTree, SerializedTreeOperation, TreeOperation,
};
use vstd::prelude::*;

verus! {

/// The bytes of the log header: the two checksum keys.
pub const HEADER_BYTES: usize = 16;

/// The bytes of one log record.
pub const RECORD_BYTES: usize = 25;

/// The number that eight bytes make, most significant first.
pub open spec fn be_u64(b: Seq<u8>) -> u64 {
    ((b[0] as u64) << 56u64) | ((b[1] as u64) << 48u64) | ((b[2] as u64) << 40u64) | ((b[3] as u64) << 32u64) | ((
    b[4] as u64) << 24u64) | ((b[5] as u64) << 16u64) | ((b[6] as u64) << 8u64) | (b[7] as u64)
}

/// Record `i` of a log.
pub open spec fn record_at(log: Seq<u8>, i: int) -> Seq<u8> {
    log.subrange(HEADER_BYTES + RECORD_BYTES * i, HEADER_BYTES + RECORD_BYTES * (i + 1))
}

/// The number of whole records in a log with a header.
pub open spec fn record_count(log: Seq<u8>) -> int {
    (log.len() - HEADER_BYTES) / RECORD_BYTES as int
}

/// `after` is `before` with the record `rec` replayed: its first seventeen bytes decode to an operation,
/// and recording that operation logs exactly `rec`.
pub open spec fn replays_record(after: AddressTree, before: AddressTree, rec: Seq<u8>) -> bool {
    exists|op: TreeOperation, r: SerializedTreeOperation|
        #![trigger after.applied(before, op, r)]
        decodes_to(rec.take(17), Some(op)) && after.applied(before, op, r) && r.bytes@ == rec
}

/// Each trie of `ts` is the one before with the next record of `log` replayed.
pub open spec fn is_replay(ts: Seq<AddressTree>, log: Seq<u8>) -> bool {
    forall|i: int| 0 <= i < ts.len() - 1 ==> #[trigger] replays_record(ts[i + 1], ts[i], record_at(log, i))
}

/// A trie fresh from `AddressTree::new_with_keys` with the keys of the header of `log`.
pub open spec fn fresh_for(t: AddressTree, log: Seq<u8>) -> bool {
    &&& t.keys() == (be_u64(log.subrange(0, 8)), be_u64(log.subrange(8, 16)))
    &&& t.log() == Seq::<u8>::empty()
    &&& t.node(Seq::empty()) == Some((0u32, 0u32))
    &&& forall|q: Seq<u8>| q.len() > 0 ==> #[trigger] t.node(q) is None
}

/// Why a log record was refused.
#[derive(Clone, Copy, Debug, PartialEq, Eq)]
pub enum RecordError {
    /// The first byte is neither zero nor a number of bits up to 128.
    UnknownKind,
    /// The record differs from the one that replaying it produces.
    ChecksumMismatch,
}

/// Why a log was refused.
#[derive(Clone, Copy, Debug, PartialEq, Eq)]
pub enum LogError {
    /// The log is shorter than its header.
    ShortHeader,
    /// The record with this number has an unknown first byte.
    UnknownKind(usize),
    /// The record with this number does not match the replay.
    ChecksumMismatch(usize),
}

/// The checksum keys held in a log header.
pub fn keys_from_header(header: &[u8; 16]) -> (r: (u64, u64))
    ensures
        r.0 == be_u64(header@.subrange(0, 8)),
        r.1 == be_u64(header@.subrange(8, 16)),
{
    let k0 = ((header[0] as u64) << 56u64) | ((header[1] as u64) << 48u64) | ((header[2] as u64) << 40u64)
        | ((header[3] as u64) << 32u64) | ((header[4] as u64) << 24u64) | ((header[5] as u64) << 16u64) | ((
    header[6] as u64) << 8u64) | (header[7] as u64);
    let k1 = ((header[8] as u64) << 56u64) | ((header[9] as u64) << 48u64) | ((header[10] as u64) << 40u64)
        | ((header[11] as u64) << 32u64) | ((header[12] as u64) << 24u64) | ((header[13] as u64) << 16u64) | ((
    header[14] as u64) << 8u64) | (header[15] as u64);
    (k0, k1)
}

/// The log header for the checksum keys `key0` and `key1`.
pub fn header_from_keys(key0: u64, key1: u64) -> (r: [u8; 16])
    ensures
        r@ == be_bytes(key0) + be_bytes(key1),
        be_u64(r@.subrange(0, 8)) == key0,
        be_u64(r@.subrange(8, 16)) == key1,
{
    let a = crate::address_tree::u64_to_be_bytes(key0);
    let b = crate::address_tree::u64_to_be_bytes(key1);
    let r = [a[0], a[1], a[2], a[3], a[4], a[5], a[6], a[7], b[0], b[1], b[2], b[3], b[4], b[5], b[6], b[7]];
    proof {
        assert(r@ =~= be_bytes(key0) + be_bytes(key1));
        lemma_be_round_trip(key0);
        lemma_be_round_trip(key1);
        assert(r@.subrange(0, 8) =~= be_bytes(key0));
        assert(r@.subrange(8, 16) =~= be_bytes(key1));
    }
    r
}

/// Reading back the eight bytes of a number gives the number.
pub proof fn lemma_be_round_trip(x: u64)
    ensures
        be_u64(be_bytes(x)) == x,
{
    let b = be_bytes(x);
    assert(((((x >> 56u64) & 0xffu64) as u8) as u64) << 56u64 | ((((x >> 48u64) & 0xffu64) as u8) as u64) << 48u64
        | ((((x >> 40u64) & 0xffu64) as u8) as u64) << 40u64 | ((((x >> 32u64) & 0xffu64) as u8) as u64) << 32u64
        | ((((x >> 24u64) & 0xffu64) as u8) as u64) << 24u64 | ((((x >> 16u64) & 0xffu64) as u8) as u64) << 16u64
        | ((((x >> 8u64) & 0xffu64) as u8) as u64) << 8u64 | ((((x >> 0u64) & 0xffu64) as u8) as u64) == x)
        by (bit_vector);
}

/// Replays one log record into a trie: decodes its operation, records it, and checks that the record this
/// produces is the stored one.
pub fn replay_record(tree: &mut AddressTree, record: &[u8; 25]) -> (r: Result<(), RecordError>)
    requires
        old(tree).wf(),
        old(tree).has_room(),
    ensures
        final(tree).wf(),
        decodes_to(record@.take(17), None) ==> r == Err::<(), RecordError>(RecordError::UnknownKind) && *final(tree)
            == *old(tree),
        !decodes_to(record@.take(17), None) ==> exists|op: TreeOperation, out: SerializedTreeOperation|
            #![trigger final(tree).applied(*old(tree), op, out)]
            decodes_to(record@.take(17), Some(op)) && final(tree).applied(*old(tree), op, out) && (r is Ok
                <==> out.bytes@ == record@) && (r is Err ==> r == Err::<(), RecordError>(
                RecordError::ChecksumMismatch,
            )),
{
    let mut head: [u8; 17] = [0u8; 17];
    let mut j: usize = 0;
    while j < 17
        invariant
            0 <= j <= 17,
            head@.len() == 17,
            forall|m: int| 0 <= m < j ==> #[trigger] head@[m] == record@[m],
        decreases 17 - j,
    {
        head[j] = record[j];
        j = j + 1;
    }
    assert(head@ =~= record@.take(17));
    let op = match TreeOperation::deserialize(&head) {
        Some(op) => op,
        None => {
            return Err(RecordError::UnknownKind);
        },
    };
    proof {
        if decodes_to(record@.take(17), None) {
            lemma_decode_unique(record@.take(17), None, Some(op));
        }
    }
    let out = tree.apply(op);
    if same_bytes(&out.bytes, record) {
        Ok(())
    } else {
        Err(RecordError::ChecksumMismatch)
    }
}

fn same_bytes(a: &[u8; 25], b: &[u8; 25]) -> (r: bool)
    ensures
        r == (a@ == b@),
{
    let mut k: usize = 0;
    while k < 25
        invariant
            0 <= k <= 25,
            a@.len() == 25,
            b@.len() == 25,
            forall|m: int| 0 <= m < k ==> #[trigger] a@[m] == b@[m],
        decreases 25 - k,
    {
        if a[k] != b[k] {
            return false;
        }
        k = k + 1;
    }
    assert(a@ =~= b@);
    true
}

/// Rebuilds the trie from a log: reads the keys from the header and replays every whole record in order,
/// stopping at the first that is refused. A trailing partial record is ignored; the length up to it is
/// returned with the trie, as the place to truncate the log.
pub fn replay_log(log: &Vec<u8>) -> (r: Result<(AddressTree, usize), LogError>)
    ensures
        (log@.len() < HEADER_BYTES) <==> r == Err::<(AddressTree, usize), LogError>(LogError::ShortHeader),
        r matches Ok((t, n)) ==> {
            &&& t.wf()
            &&& n == HEADER_BYTES + RECORD_BYTES * record_count(log@)
            &&& exists|ts: Seq<AddressTree>|
                #![trigger is_replay(ts, log@)]
                ts.len() == record_count(log@) + 1 && fresh_for(ts[0], log@) && is_replay(ts, log@) && ts.last()
                    == t
        },
        r matches Err(LogError::UnknownKind(i)) ==> {
            &&& 0 <= i < record_count(log@)
            &&& decodes_to(record_at(log@, i as int).take(17), None)
            &&& exists|ts: Seq<AddressTree>|
                #![trigger is_replay(ts, log@)]
                ts.len() == i + 1 && fresh_for(ts[0], log@) && is_replay(ts, log@)
        },
        r matches Err(LogError::ChecksumMismatch(i)) ==> {
            &&& 0 <= i < record_count(log@)
            &&& exists|ts: Seq<AddressTree>, op: TreeOperation, after: AddressTree, out: SerializedTreeOperation|
                #![trigger is_replay(ts, log@), after.applied(ts.last(), op, out)]
                ts.len() == i + 1 && fresh_for(ts[0], log@) && is_replay(ts, log@) && decodes_to(
                    record_at(log@, i as int).take(17),
                    Some(op),
                ) && after.applied(ts.last(), op, out) && out.bytes@ != record_at(log@, i as int)
        },
{
    if log.len() < HEADER_BYTES {
        return Err(LogError::ShortHeader);
    }
    let mut header: [u8; 16] = [0u8; 16];
    let mut j: usize = 0;
    while j < 16
        invariant
            0 <= j <= 16,
            header@.len() == 16,
            log@.len() >= 16,
            forall|m: int| 0 <= m < j ==> #[trigger] header@[m] == log@[m],
        decreases 16 - j,
    {
        header[j] = log[j];
        j = j + 1;
    }
    proof {
        assert(header@.subrange(0, 8) =~= log@.subrange(0, 8));
        assert(header@.subrange(8, 16) =~= log@.subrange(8, 16));
    }
    let (key0, key1) = keys_from_header(&header);
    let mut tree = AddressTree::new_with_keys(key0, key1);
    let len: usize = log.len();
    let count: usize = (len - HEADER_BYTES) / RECORD_BYTES;
    proof {
        let len = log@.len() as int;
        assert(RECORD_BYTES * count <= len - HEADER_BYTES) by (nonlinear_arith)
            requires
                count == (len - 16) / 25,
                len >= 16,
        ;
    }
    let ghost mut ts: Seq<AddressTree> = seq![tree];
    let mut i: usize = 0;
    while i < count
        invariant
            0 <= i <= count,
            len == log@.len(),
            count == record_count(log@),
            RECORD_BYTES * count <= log@.len() - HEADER_BYTES,
            tree.wf(),
            tree.log().len() == 17 * i,
            ts.len() == i + 1,
            ts.last() == tree,
            fresh_for(ts[0], log@),
            is_replay(ts, log@),
        decreases count - i,
    {
        proof {
            assert(17 * (i + 1) <= RECORD_BYTES * count) by (nonlinear_arith)
                requires
                    i < count,
            ;
            assert(RECORD_BYTES * (i + 1) <= RECORD_BYTES * count) by (nonlinear_arith)
                requires
                    i < count,
            ;
            assert(RECORD_BYTES * i + RECORD_BYTES <= len - HEADER_BYTES);
        }
        let start: usize = HEADER_BYTES + RECORD_BYTES * i;
        let mut rec: [u8; 25] = [0u8; 25];
        let mut k: usize = 0;
        while k < 25
            invariant
                0 <= k <= 25,
                rec@.len() == 25,
                start == HEADER_BYTES + RECORD_BYTES * i,
                start + 25 <= len,
                len == log@.len(),
                forall|m: int| 0 <= m < k ==> #[trigger] rec@[m] == log@[start + m],
            decreases 25 - k,
        {
            rec[k] = log[start + k];
            k = k + 1;
        }
        assert(rec@ =~= record_at(log@, i as int));
        let ghost before = tree;
        match replay_record(&mut tree, &rec) {
            Ok(()) => {
                proof {
                    let ts2 = ts.push(tree);
                    assert forall|m: int| 0 <= m < ts2.len() - 1 implies #[trigger] replays_record(
                        ts2[m + 1],
                        ts2[m],
                        record_at(log@, m),
                    ) by {
                        if m < i {
                            assert(ts2[m + 1] == ts[m + 1] && ts2[m] == ts[m]);
                        } else {
                            let (op, out) = choose|op: TreeOperation, out: SerializedTreeOperation|
                                decodes_to(rec@.take(17), Some(op)) && tree.applied(before, op, out) && (true
                                    <==> out.bytes@ == rec@);
                            assert(tree.applied(before, op, out));
                        }
                    }
                    ts = ts2;
                    assert(tree.log().len() == before.log().len() + 17);
                }
            },
            Err(RecordError::UnknownKind) => {
                return Err(LogError::UnknownKind(i));
            },
            Err(RecordError::ChecksumMismatch) => {
                proof {
                    let (op, out) = choose|op: TreeOperation, out: SerializedTreeOperation|
                        decodes_to(rec@.take(17), Some(op)) && tree.applied(before, op, out) && (false
                            <==> out.bytes@ == rec@);
                    assert(tree.applied(ts.last(), op, out));
                }
                return Err(LogError::ChecksumMismatch(i));
            },
        }
        i = i + 1;
    }
    proof {
        assert(RECORD_BYTES * count <= usize::MAX);
    }
    Ok((tree, HEADER_BYTES + RECORD_BYTES * count))
}

/// Replaying the log of a run of the trie rebuilds the run. The run starts from a fresh trie with the keys of
/// the log's header and records operations whose records are the log's. Then every replay of the first
/// records ends in the same state as the run at that point, with the checksum of the last record replayed;
/// and replaying the next record decodes it and reproduces it exactly, checksum included.
pub proof fn lemma_replay_reproduces(
    live: Seq<AddressTree>,
    ops: Seq<TreeOperation>,
    recs: Seq<SerializedTreeOperation>,
    log: Seq<u8>,
    ts: Seq<AddressTree>,
)
    requires
        live.len() == ops.len() + 1,
        recs.len() == ops.len(),
        forall|i: int| 0 <= i < ops.len() ==> (#[trigger] ops[i]).wf() && live[i + 1].applied(live[i], ops[i], recs[i]),
        fresh_for(live[0], log),
        forall|i: int| 0 <= i < recs.len() ==> #[trigger] record_at(log, i) == recs[i].bytes@,
        1 <= ts.len() <= live.len(),
        fresh_for(ts[0], log),
        is_replay(ts, log),
    ensures
        ts.last().same_state(live[ts.len() - 1]),
        ts.len() > 1 ==> record_at(log, ts.len() - 2).subrange(17, 25) == be_bytes(ts.last().tag()),
        ts.len() < live.len() ==> !decodes_to(record_at(log, ts.len() - 1).take(17), None),
        ts.len() < live.len() ==> forall|op: TreeOperation, after: AddressTree, out: SerializedTreeOperation|
            #![trigger after.applied(ts.last(), op, out)]
            decodes_to(record_at(log, ts.len() - 1).take(17), Some(op)) && after.applied(ts.last(), op, out)
                ==> out.bytes@ == record_at(log, ts.len() - 1) && after.same_state(live[ts.len() as int]),
    decreases ts.len(),
{
    let n = ts.len() - 1;
    if n == 0 {
        assert forall|p: Seq<u8>| #[trigger] ts[0].node(p) == live[0].node(p) by {
            if p.len() == 0 {
                assert(p =~= Seq::<u8>::empty());
            }
        }
    } else {
        let prev = ts.drop_last();
        assert forall|i: int| 0 <= i < prev.len() - 1 implies #[trigger] replays_record(prev[i + 1], prev[i], record_at(log, i)) by {
            assert(replays_record(ts[i + 1], ts[i], record_at(log, i)));
        }
        lemma_replay_reproduces(live, ops, recs, log, prev);
        assert(replays_record(ts[n], ts[n - 1], record_at(log, n - 1)));
        let (op, r) = choose|op: TreeOperation, r: SerializedTreeOperation|
            decodes_to(record_at(log, n - 1).take(17), Some(op)) && ts[n].applied(ts[n - 1], op, r) && r.bytes@
                == record_at(log, n - 1);
        assert(prev.last() == ts[n - 1]);
        assert(ts[n].applied(prev.last(), op, r));
        assert(live[n].applied(live[n - 1], ops[n - 1], recs[n - 1]));
        assert(r.bytes@.subrange(17, 25) =~= be_bytes(ts[n].tag()));
    }
    if n < ops.len() {
        let rec = record_at(log, n);
        let op = ops[n];
        assert(live[n + 1].applied(live[n], op, recs[n]));
        assert(rec.take(17) =~= op_bytes(op));
        lemma_decode_encode(op);
        if decodes_to(rec.take(17), None) {
            lemma_decode_unique(rec.take(17), None, Some(op));
        }
        assert forall|op2: TreeOperation, after: AddressTree, out: SerializedTreeOperation|
            #![trigger after.applied(ts.last(), op2, out)]
            decodes_to(rec.take(17), Some(op2)) && after.applied(ts.last(), op2, out) implies out.bytes@ == rec
                && after.same_state(live[n + 1]) by {
            lemma_decode_unique(rec.take(17), Some(op2), Some(op));
            lemma_apply_deterministic(ts.last(), live[n], after, live[n + 1], op, out, recs[n]);
        }
    }
}

} // verus!
