use crate::address::{agree_on, bit_of, byte_bit, prefix_of, Address, AddressPrefix};
use crate::node_index::{nibble, nibbles, AddressPath, NodeArray, NodeIndex};
use siphasher::sip::SipHasher24;
use vstd::prelude::*;

verus! {

/// The minimum number of bits of prefix to record for a trusted address, as a number of nibbles.
pub const MINIMUM_NIBBLES: usize = 5;

/// The bytes of a record before its checksum: a kind byte and sixteen address bytes.
pub const OPERATION_BYTES: usize = 17;

#[verifier::external_type_specification]
#[verifier::external_body]
pub struct ExSipHasher24(SipHasher24);

/// The bytes that a SipHash-2-4 hasher has absorbed since it was made.
pub uninterp spec fn sip_input(h: SipHasher24) -> Seq<u8>;

/// The two keys that a SipHash-2-4 hasher was made with.
pub uninterp spec fn sip_keys(h: SipHasher24) -> (u64, u64);

/// The SipHash-2-4 digest of `data` under the keys `k0` and `k1`.
pub uninterp spec fn siphash24(k0: u64, k1: u64, data: Seq<u8>) -> u64;

/// Relies on `SipHasher24::new_with_keys`: a hasher with the given keys that has absorbed nothing.
#[verifier::external_body]
fn sip_new(key0: u64, key1: u64) -> (r: SipHasher24)
    ensures
        sip_keys(r) == (key0, key1),
        sip_input(r) == Seq::<u8>::empty(),
{
    SipHasher24::new_with_keys(key0, key1)
}

/// Relies on `Hasher::write` of `SipHasher24`: the bytes are appended to what the hasher has absorbed.
/// It counts the absorbed bytes in a `usize`, hence the bound.
#[verifier::external_body]
fn sip_write(h: &mut SipHasher24, bytes: &[u8])
    requires
        sip_input(*old(h)).len() + bytes@.len() <= usize::MAX,
    ensures
        sip_keys(*final(h)) == sip_keys(*old(h)),
        sip_input(*final(h)) == sip_input(*old(h)) + bytes@,
{
    std::hash::Hasher::write(h, bytes)
}

/// Relies on `Hasher::finish` of `SipHasher24`: the digest of everything absorbed, leaving the hasher as
/// it was.
#[verifier::external_body]
fn sip_finish(h: &SipHasher24) -> (r: u64)
    ensures
        r == siphash24(sip_keys(*h).0, sip_keys(*h).1, sip_input(*h)),
{
    std::hash::Hasher::finish(h)
}

/// The eight bytes of `x`, most significant first.
pub open spec fn be_bytes(x: u64) -> Seq<u8> {
    Seq::new(8, |i: int| ((x >> ((56 - 8 * i) as u64)) & 0xffu64) as u8)
}

pub(crate) fn u64_to_be_bytes(x: u64) -> (r: [u8; 8])
    ensures
        r@ == be_bytes(x),
{
    let r = [
        ((x >> 56u64) & 0xff) as u8,
        ((x >> 48u64) & 0xff) as u8,
        ((x >> 40u64) & 0xff) as u8,
        ((x >> 32u64) & 0xff) as u8,
        ((x >> 24u64) & 0xff) as u8,
        ((x >> 16u64) & 0xff) as u8,
        ((x >> 8u64) & 0xff) as u8,
        (x & 0xff) as u8,
    ];
    assert(r@ =~= be_bytes(x)) by {
        assert(x >> 0u64 == x) by (bit_vector);
    }
    r
}

/// Counts at one prefix, as the trie reports them.
#[derive(Clone, Copy, Debug, PartialEq, Eq)]
pub struct QueryResult {
    pub trusted_count: u32,
    pub spam_count: u32,
    pub prefix_bits: u8,
}

/// An update of the trie, as the log records it.
#[derive(Clone, Copy, Debug)]
pub enum TreeOperation {
    /// Trust counted along a prefix.
    Trust(AddressPrefix),
    /// Spam counted along a whole address.
    Spam(Address),
}

/// A log record: a `TreeOperation` in seventeen bytes, then the running checksum.
#[derive(Clone, Copy, Debug)]
pub struct SerializedTreeOperation {
    pub bytes: [u8; 25],
}

/// The trie path that an operation counts along.
pub open spec fn op_path(op: TreeOperation) -> Seq<u8> {
    match op {
        TreeOperation::Trust(p) => nibbles(p.spec_first()@).take(p.spec_bits() as int / 4),
        TreeOperation::Spam(a) => nibbles(a@),
    }
}

pub open spec fn is_trust(op: TreeOperation) -> bool {
    op is Trust
}

/// The seventeen bytes of an operation: zero and the address for spam, the number of bits and the
/// prefix for trust.
pub open spec fn op_bytes(op: TreeOperation) -> Seq<u8> {
    match op {
        TreeOperation::Trust(p) => seq![p.spec_bits()] + p.spec_first()@,
        TreeOperation::Spam(a) => seq![0u8] + a@,
    }
}

/// `r` is the operation that the seventeen bytes `b` stand for: spam of the address for a zero first
/// byte, trust of the address's prefix with that many bits for a first byte up to 128, none otherwise.
pub open spec fn decodes_to(b: Seq<u8>, r: Option<TreeOperation>) -> bool {
    if b[0] == 0 {
        r matches Some(TreeOperation::Spam(a)) && a@ == b.subrange(1, 17)
    } else if b[0] <= 128 {
        r matches Some(TreeOperation::Trust(p)) && p.spec_bits() == b[0] && p.spec_first()@ == prefix_of(
            b.subrange(1, 17),
            b[0] as int,
        )
    } else {
        r is None
    }
}

impl TreeOperation {
    pub open spec fn wf(&self) -> bool {
        match self {
            TreeOperation::Trust(p) => p.wf() && p.spec_bits() > 0,
            TreeOperation::Spam(_) => true,
        }
    }

    /// The seventeen bytes of the operation.
    pub fn serialize(&self) -> (r: [u8; 17])
        requires
            self.wf(),
        ensures
            r@ == op_bytes(*self),
    {
        let mut buf: [u8; 17] = [0u8; 17];
        let (kind, address) = match self {
            TreeOperation::Trust(prefix) => (prefix.bits(), prefix.first()),
            TreeOperation::Spam(address) => (0u8, *address),
        };
        buf[0] = kind;
        let mut j: usize = 0;
        while j < 16
            invariant
                0 <= j <= 16,
                buf@.len() == 17,
                buf@[0] == kind,
                forall|m: int| 1 <= m <= j ==> #[trigger] buf@[m] == address@[m - 1],
            decreases 16 - j,
        {
            buf[j + 1] = address.0[j];
            j = j + 1;
        }
        assert(buf@ =~= op_bytes(*self));
        buf
    }

    /// The operation that seventeen bytes stand for; `None` when the first byte is over 128.
    pub fn deserialize(buf: &[u8; 17]) -> (r: Option<Self>)
        ensures
            decodes_to(buf@, r),
            r.is_some() ==> r.unwrap().wf(),
    {
        let mut bytes: [u8; 16] = [0u8; 16];
        let mut j: usize = 0;
        while j < 16
            invariant
                0 <= j <= 16,
                bytes@.len() == 16,
                forall|m: int| 0 <= m < j ==> #[trigger] bytes@[m] == buf@[m + 1],
            decreases 16 - j,
        {
            bytes[j] = buf[j + 1];
            j = j + 1;
        }
        let address = Address(bytes);
        assert(address@ =~= buf@.subrange(1, 17));
        if buf[0] == 0 {
            Some(TreeOperation::Spam(address))
        } else if buf[0] <= 128 {
            let prefix = address.prefix(buf[0]);
            Some(TreeOperation::Trust(prefix))
        } else {
            None
        }
    }

    /// Records the operation in a trie, trust along the prefix as given rather than by the stopping rule,
    /// and returns its log record. This is how a log is replayed.
    pub fn apply(self, tree: &mut AddressTree) -> (r: SerializedTreeOperation)
        requires
            old(tree).wf(),
            old(tree).has_room(),
            self.wf(),
        ensures
            final(tree).wf(),
            final(tree).applied(*old(tree), self, r),
    {
        tree.apply(self)
    }
}

/// A node of the trie: counts for one prefix, and the nodes for its sixteen extensions by one nibble.
struct AddressTreeNode {
    children: NodeArray<Option<Box<AddressTreeNode>>>,
    trusted_count: u32,
    spam_count: u32,
}

/// A count plus one, staying at `u32::MAX`.
pub open spec fn saturating_inc(x: u32) -> u32 {
    if x == u32::MAX {
        x
    } else {
        (x + 1) as u32
    }
}

/// The counts of a node after one more trusted or spam observation; an absent node counts as empty.
pub open spec fn bumped(c: Option<(u32, u32)>, trusted: bool) -> (u32, u32) {
    let (t, s) = match c {
        Some(x) => x,
        None => (0u32, 0u32),
    };
    if trusted {
        (saturating_inc(t), s)
    } else {
        (t, saturating_inc(s))
    }
}

/// `q` leads from depth `d` along the nibbles of `a`, and ends at depth `end` or above.
pub open spec fn within(q: Seq<u8>, a: Seq<u8>, d: int, end: int) -> bool {
    &&& q.len() <= end - d
    &&& forall|k: int| 0 <= k < q.len() ==> #[trigger] q[k] == nibble(a, d + k)
}

impl AddressTreeNode {
    /// The node at the end of a path from this one.
    spec fn sub(self, path: Seq<u8>) -> Option<AddressTreeNode>
        decreases path.len(),
    {
        if path.len() == 0 {
            Some(self)
        } else if path[0] < 16 {
            match self.children@[path[0] as int] {
                Some(c) => (*c).sub(path.drop_first()),
                None => None,
            }
        } else {
            None
        }
    }

    spec fn at(self, path: Seq<u8>) -> Option<(u32, u32)> {
        match self.sub(path) {
            Some(n) => Some((n.trusted_count, n.spam_count)),
            None => None,
        }
    }

    /// The depth at which recording trust stops, walking from this node at depth `d` along `a`: the first
    /// depth from the minimum on whose node no spam is counted, or the full depth.
    spec fn stop_depth(self, a: Seq<u8>, d: int) -> int
        decreases 32 - d,
    {
        if d >= 32 {
            32
        } else if d >= MINIMUM_NIBBLES && self.spam_count == 0 {
            d
        } else {
            match self.children@[nibble(a, d) as int] {
                Some(c) => (*c).stop_depth(a, d + 1),
                None => if d + 1 >= MINIMUM_NIBBLES {
                    d + 1
                } else {
                    MINIMUM_NIBBLES as int
                },
            }
        }
    }

    fn new() -> (r: Self)
        ensures
            r.trusted_count == 0,
            r.spam_count == 0,
            forall|i: int| 0 <= i < 16 ==> r.children@[i] is None,
    {
        AddressTreeNode {
            children: NodeArray(
                [
                    None,
                    None,
                    None,
                    None,
                    None,
                    None,
                    None,
                    None,
                    None,
                    None,
                    None,
                    None,
                    None,
                    None,
                    None,
                    None,
                ],
            ),
            trusted_count: 0,
            spam_count: 0,
        }
    }

    proof fn lemma_fresh(self, q: Seq<u8>)
        requires
            forall|i: int| 0 <= i < 16 ==> self.children@[i] is None,
        ensures
            q.len() > 0 ==> self.sub(q) is None,
    {
    }

    proof fn lemma_fresh_stop(self, a: Seq<u8>, d: int)
        requires
            forall|i: int| 0 <= i < 16 ==> self.children@[i] is None,
            self.spam_count == 0,
            0 <= d <= 32,
            a.len() == 16,
        ensures
            self.stop_depth(a, d) == if d >= MINIMUM_NIBBLES {
                d
            } else {
                MINIMUM_NIBBLES as int
            },
    {
        if d < 32 && d < MINIMUM_NIBBLES {
            lemma_nibble_bound(a, d);
        }
    }

    /// Takes the child at `i` out of this node, or a fresh node where there is none.
    fn take_child(&mut self, i: NodeIndex) -> (r: AddressTreeNode)
        requires
            i.wf(),
        ensures
            final(self).children@ == old(self).children@.update(i.spec_value(), None),
            final(self).trusted_count == old(self).trusted_count,
            final(self).spam_count == old(self).spam_count,
            match old(self).children@[i.spec_value()] {
                Some(c) => r == *c,
                None => r.is_fresh(),
            },
    {
        match self.children.replace(i, None) {
            Some(b) => *b,
            None => AddressTreeNode::new(),
        }
    }

    /// A node with no counts and no children.
    spec fn is_fresh(self) -> bool {
        &&& self.trusted_count == 0
        &&& self.spam_count == 0
        &&& forall|i: int| 0 <= i < 16 ==> self.children@[i] is None
    }

    /// Counts one more observation at this node, at depth `d`, and at each node below it along `a` down to
    /// depth `end`, creating the nodes that are missing.
    fn bump_path(&mut self, a: &Address, d: usize, end: usize, trusted: bool)
        requires
            d <= end <= 32,
        ensures
            forall|q: Seq<u8>|
                #[trigger] final(self).at(q) == if within(q, a@, d as int, end as int) {
                    Some(bumped(old(self).at(q), trusted))
                } else {
                    old(self).at(q)
                },
        decreases end - d,
    {
        let ghost before = *self;
        if trusted {
            self.trusted_count = self.trusted_count.saturating_add(1);
        } else {
            self.spam_count = self.spam_count.saturating_add(1);
        }
        if d == end {
            proof {
                assert forall|q: Seq<u8>| #[trigger] self.at(q) == if within(q, a@, d as int, end as int) {
                    Some(bumped(before.at(q), trusted))
                } else {
                    before.at(q)
                } by {
                    if q.len() > 0 {
                        assert(self.children == before.children);
                    }
                }
            }
            return;
        }
        let i = index_at(a, d);
        let ghost old_child = self.children@[i.spec_value()];
        let mut child = self.take_child(i);
        let ghost child_before = child;
        child.bump_path(a, d + 1, end, trusted);
        let _ = self.children.replace(i, Some(Box::new(child)));
        proof {
            assert(self.children@ =~= before.children@.update(i.spec_value(), Some(Box::new(child))));
        }
        proof {
            assert forall|q: Seq<u8>| #[trigger] self.at(q) == if within(q, a@, d as int, end as int) {
                Some(bumped(before.at(q), trusted))
            } else {
                before.at(q)
            } by {
                lemma_step(*self, before, q, i.spec_value(), old_child, child_before, child, a@, d as int, end as int, trusted);
            }
        }
    }

    /// The node at `q`, on the path along `a` from depth `d` down to `end`, exists and counts the kind at
    /// least once; where one less would leave it empty, it has no child off the path, and the next node on
    /// the path would be left empty too.
    spec fn removable_at(self, q: Seq<u8>, a: Seq<u8>, d: int, end: int, trusted: bool) -> bool {
        &&& self.at(q) is Some
        &&& kind_count(self.at(q), trusted) >= 1
        &&& dropped(self.at(q), trusted) == (0u32, 0u32) ==> forall|j: int|
            0 <= j < 16 && (q.len() == end - d || j != nibble(a, d + q.len())) ==> (#[trigger] self.at(
                q.push(j as u8),
            )) is None
        &&& q.len() < end - d && dropped(self.at(q), trusted) == (0u32, 0u32) ==> dropped(
            self.at(q.push(nibble(a, d + q.len()))),
            trusted,
        ) == (0u32, 0u32)
    }

    /// Every node along `a` from depth `d` down to `end` can lose one observation as `removable_at` says.
    #[verifier::opaque]
    spec fn removable(self, a: Seq<u8>, d: int, end: int, trusted: bool) -> bool {
        forall|q: Seq<u8>| within(q, a, d, end) ==> #[trigger] self.removable_at(q, a, d, end, trusted)
    }

    /// `self` is `before` with one observation less counted along `a` from depth `d` down to `end`, and the
    /// nodes below this one that were left empty removed.
    #[verifier::opaque]
    spec fn unbumped(self, before: AddressTreeNode, a: Seq<u8>, d: int, end: int, trusted: bool) -> bool {
        &&& self.at(Seq::empty()) == Some(dropped(before.at(Seq::empty()), trusted))
        &&& forall|q: Seq<u8>|
            q.len() > 0 ==> #[trigger] self.at(q) == if within(q, a, d, end) {
                if dropped(before.at(q), trusted) == (0u32, 0u32) {
                    None
                } else {
                    Some(dropped(before.at(q), trusted))
                }
            } else {
                before.at(q)
            }
    }

    fn has_children(&self) -> (r: bool)
        ensures
            r == exists|j: int| 0 <= j < 16 && #[trigger] self.children@[j] is Some,
    {
        let mut j: usize = 0;
        while j < 16
            invariant
                0 <= j <= 16,
                forall|m: int| 0 <= m < j ==> #[trigger] self.children@[m] is None,
            decreases 16 - j,
        {
            if self.children.0[j].is_some() {
                return true;
            }
            j = j + 1;
        }
        false
    }

    /// Counts one observation less at this node, at depth `d`, and below it along `a` down to depth `end`,
    /// removing the nodes below this one that are left empty with no children. Returns whether this node is
    /// left empty with no children.
    fn unbump_path(&mut self, a: &Address, d: usize, end: usize, trusted: bool) -> (empty: bool)
        requires
            d <= end <= 32,
        ensures
            empty ==> final(self).trusted_count == 0 && final(self).spam_count == 0,
            empty ==> forall|q: Seq<u8>| q.len() > 0 ==> #[trigger] final(self).at(q) is None,
            old(self).removable(a@, d as int, end as int, trusted) ==> {
                &&& final(self).unbumped(*old(self), a@, d as int, end as int, trusted)
                &&& empty == (dropped(old(self).at(Seq::empty()), trusted) == (0u32, 0u32))
            },
        decreases end - d,
    {
        let ghost before = *self;
        proof {
            if before.removable(a@, d as int, end as int, trusted) {
                lemma_removable_root(before, a@, d as int, end as int, trusted);
            }
        }
        if trusted {
            if self.trusted_count > 0 {
                self.trusted_count = self.trusted_count - 1;
            }
        } else {
            if self.spam_count > 0 {
                self.spam_count = self.spam_count - 1;
            }
        }
        let ghost child_empty = false;
        let ghost i: int = 0;
        let ghost child_before = before;
        let ghost child_after = before;
        if d < end {
            let index = index_at(a, d);
            proof {
                i = index.spec_value();
            }
            match self.children.replace(index, None) {
                Some(b) => {
                    let mut c = *b;
                    proof {
                        child_before = c;
                        if before.removable(a@, d as int, end as int, trusted) {
                            lemma_removable_child(before, a@, d as int, end as int, trusted, i, c);
                        }
                    }
                    let ce = c.unbump_path(a, d + 1, end, trusted);
                    proof {
                        child_empty = ce;
                        child_after = c;
                    }
                    if !ce {
                        let _ = self.children.replace(index, Some(Box::new(c)));
                    }
                    proof {
                        assert(self.children@ =~= before.children@.update(
                            i,
                            if child_empty {
                                None
                            } else {
                                Some(Box::new(child_after))
                            },
                        ));
                    }
                },
                None => {
                    proof {
                        if before.removable(a@, d as int, end as int, trusted) {
                            lemma_removable_has_child(before, a@, d as int, end as int, trusted);
                        }
                    }
                },
            }
        }
        let empty = self.trusted_count == 0 && self.spam_count == 0 && !self.has_children();
        proof {
            if empty {
                assert forall|q: Seq<u8>| q.len() > 0 implies #[trigger] self.at(q) is None by {
                    if q[0] < 16 {
                        assert(self.children@[q[0] as int] is None);
                    }
                }
            }
            if before.removable(a@, d as int, end as int, trusted) {
                lemma_unstep(*self, before, a@, d as int, end as int, trusted, i, child_before, child_after, child_empty);
            }
        }
        empty
    }

    /// Counts one more trusted observation at this node, at depth `d`, and below it along `a` until the
    /// stopping rule holds; returns the depth where it stopped.
    fn trust_from(&mut self, a: &Address, d: usize) -> (depth: usize)
        requires
            d <= 32,
            a@.len() == 16,
        ensures
            depth == old(self).stop_depth(a@, d as int),
            d <= depth <= 32,
            MINIMUM_NIBBLES <= depth,
            forall|q: Seq<u8>|
                #[trigger] final(self).at(q) == if within(q, a@, d as int, depth as int) {
                    Some(bumped(old(self).at(q), true))
                } else {
                    old(self).at(q)
                },
        decreases 32 - d,
    {
        let ghost before = *self;
        self.trusted_count = self.trusted_count.saturating_add(1);
        if d == 32 || (d >= MINIMUM_NIBBLES && self.spam_count == 0) {
            proof {
                assert forall|q: Seq<u8>| #[trigger] self.at(q) == if within(q, a@, d as int, d as int) {
                    Some(bumped(before.at(q), true))
                } else {
                    before.at(q)
                } by {
                    if q.len() > 0 {
                        assert(self.children == before.children);
                    }
                }
            }
            return d;
        }
        let i = index_at(a, d);
        let ghost old_child = self.children@[i.spec_value()];
        let mut child = self.take_child(i);
        let ghost child_before = child;
        proof {
            if old_child is None {
                child.lemma_fresh_stop(a@, d + 1);
            }
        }
        let depth = child.trust_from(a, d + 1);
        let _ = self.children.replace(i, Some(Box::new(child)));
        proof {
            assert(self.children@ =~= before.children@.update(i.spec_value(), Some(Box::new(child))));
        }
        proof {
            assert forall|q: Seq<u8>| #[trigger] self.at(q) == if within(q, a@, d as int, depth as int) {
                Some(bumped(before.at(q), true))
            } else {
                before.at(q)
            } by {
                lemma_step(*self, before, q, i.spec_value(), old_child, child_before, child, a@, d as int, depth as int, true);
            }
        }
        depth
    }
}

/// The removability of a node along `a` carries over to its child on the path.
proof fn lemma_removable_child(
    n: AddressTreeNode,
    a: Seq<u8>,
    d: int,
    end: int,
    trusted: bool,
    i: int,
    c: AddressTreeNode,
)
    requires
        n.removable(a, d, end, trusted),
        0 <= d < end <= 32,
        a.len() == 16,
        i == nibble(a, d),
        0 <= i < 16,
        n.children@[i] == Some(Box::new(c)),
    ensures
        c.removable(a, d + 1, end, trusted),
{
    reveal(AddressTreeNode::removable);
    assert forall|r: Seq<u8>| within(r, a, d + 1, end) implies #[trigger] c.removable_at(r, a, d + 1, end, trusted) by {
        let q = seq![i as u8] + r;
        assert(q.drop_first() =~= r);
        assert(q[0] == i as u8);
        assert(within(q, a, d, end)) by {
            assert forall|k: int| 0 <= k < q.len() implies #[trigger] q[k] == nibble(a, d + k) by {
                if k > 0 {
                    assert(q[k] == r[k - 1]);
                    assert(r[k - 1] == nibble(a, d + 1 + (k - 1)));
                }
            }
        }
        assert(n.removable_at(q, a, d, end, trusted));
        assert(n.at(q) == c.at(r));
        assert forall|j: int| 0 <= j < 16 implies #[trigger] c.at(r.push(j as u8)) == n.at(q.push(j as u8)) by {
            assert(q.push(j as u8).drop_first() =~= r.push(j as u8));
            assert(q.push(j as u8)[0] == i as u8);
        }
        if dropped(c.at(r), trusted) == (0u32, 0u32) {
            assert forall|j: int|
                0 <= j < 16 && (r.len() == end - (d + 1) || j != nibble(a, d + 1 + r.len())) implies (
                #[trigger] c.at(r.push(j as u8))) is None by {
                assert(c.at(r.push(j as u8)) == n.at(q.push(j as u8)));
            }
        }
        if r.len() < end - (d + 1) {
            let x = nibble(a, d + 1 + r.len());
            lemma_nibble_bound(a, d + 1 + r.len());
            assert(c.at(r.push(x as u8)) == n.at(q.push(x as u8)));
        }
    }
}

proof fn lemma_removable_root(n: AddressTreeNode, a: Seq<u8>, d: int, end: int, trusted: bool)
    requires
        n.removable(a, d, end, trusted),
        0 <= d <= end,
    ensures
        if trusted {
            n.trusted_count >= 1
        } else {
            n.spam_count >= 1
        },
{
    reveal(AddressTreeNode::removable);
    let q = Seq::<u8>::empty();
    assert(within(q, a, d, end));
    assert(n.removable_at(q, a, d, end, trusted));
}

proof fn lemma_removable_has_child(n: AddressTreeNode, a: Seq<u8>, d: int, end: int, trusted: bool)
    requires
        n.removable(a, d, end, trusted),
        0 <= d < end <= 32,
        a.len() == 16,
    ensures
        n.children@[nibble(a, d) as int] is Some,
{
    reveal(AddressTreeNode::removable);
    let q = seq![nibble(a, d)];
    lemma_nibble_bound(a, d);
    assert(within(q, a, d, end)) by {
        assert(q[0] == nibble(a, d + 0));
    }
    assert(n.removable_at(q, a, d, end, trusted));
    assert(q.drop_first() =~= Seq::<u8>::empty());
}

/// The pieces of one step of `unbump_path` make up its postcondition.
proof fn lemma_unstep(
    now: AddressTreeNode,
    before: AddressTreeNode,
    a: Seq<u8>,
    d: int,
    end: int,
    trusted: bool,
    i: int,
    child_before: AddressTreeNode,
    child_after: AddressTreeNode,
    child_empty: bool,
)
    requires
        before.removable(a, d, end, trusted),
        0 <= d <= end <= 32,
        a.len() == 16,
        (now.trusted_count, now.spam_count) == dropped(Some((before.trusted_count, before.spam_count)), trusted),
        d < end ==> {
            &&& i == nibble(a, d)
            &&& 0 <= i < 16
            &&& before.children@[i] == Some(Box::new(child_before))
            &&& now.children@ == before.children@.update(
                i,
                if child_empty {
                    None
                } else {
                    Some(Box::new(child_after))
                },
            )
            &&& child_empty ==> forall|q: Seq<u8>| q.len() > 0 ==> #[trigger] child_after.at(q) is None
            &&& child_before.removable(a, d + 1, end, trusted) ==> {
                &&& child_after.unbumped(child_before, a, d + 1, end, trusted)
                &&& child_empty == (dropped(child_before.at(Seq::empty()), trusted) == (0u32, 0u32))
            }
        },
        d == end ==> now.children == before.children,
    ensures
        now.unbumped(before, a, d, end, trusted),
        (now.trusted_count == 0 && now.spam_count == 0 && !(exists|j: int|
            0 <= j < 16 && #[trigger] now.children@[j] is Some)) == (dropped(before.at(Seq::empty()), trusted) == (
        0u32, 0u32)),
{
    reveal(AddressTreeNode::removable);
    reveal(AddressTreeNode::unbumped);
    let q0 = Seq::<u8>::empty();
    assert(within(q0, a, d, end));
    assert(before.removable_at(q0, a, d, end, trusted));
    if d < end {
        lemma_removable_child(before, a, d, end, trusted, i, child_before);
    }
    assert forall|q: Seq<u8>| q.len() > 0 implies #[trigger] now.at(q) == if within(q, a, d, end) {
        if dropped(before.at(q), trusted) == (0u32, 0u32) {
            None
        } else {
            Some(dropped(before.at(q), trusted))
        }
    } else {
        before.at(q)
    } by {
        if q[0] < 16 {
            let r = q.drop_first();
            if d < end && q[0] == i {
                assert(within(q, a, d, end) == within(r, a, d + 1, end)) by {
                    if within(r, a, d + 1, end) {
                        assert forall|k: int| 0 <= k < q.len() implies #[trigger] q[k] == nibble(a, d + k) by {
                            if k > 0 {
                                assert(q[k] == r[k - 1]);
                            }
                        }
                    }
                    if within(q, a, d, end) {
                        assert forall|k: int| 0 <= k < r.len() implies #[trigger] r[k] == nibble(a, d + 1 + k) by {
                            assert(r[k] == q[k + 1]);
                        }
                    }
                }
                assert(before.at(q) == child_before.at(r));
                if !child_empty {
                    assert(now.at(q) == child_after.at(r));
                }
            } else {
                assert(now.children@[q[0] as int] == before.children@[q[0] as int]);
                assert(!within(q, a, d, end)) by {
                    if q.len() <= end - d {
                        assert(q[0] != nibble(a, d + 0));
                    }
                }
            }
        }
    }
    if dropped(before.at(q0), trusted) == (0u32, 0u32) {
        assert forall|j: int| 0 <= j < 16 implies #[trigger] now.children@[j] is None by {
            assert(q0.push(j as u8).drop_first() =~= q0);
            assert(q0.push(j as u8)[0] == j as u8);
            if d < end && j == i {
                assert(q0.push(j as u8) =~= seq![i as u8]);
                assert(child_before.at(Seq::empty()) == before.at(q0.push(i as u8)));
            } else {
                assert(before.at(q0.push(j as u8)) is None);
                match before.children@[j] {
                    Some(c) => {
                        assert((*c).sub(q0) == Some(*c));
                    },
                    None => {},
                }
            }
        }
    }
}

/// The nibble of `a` at depth `d`, as a child index.
fn index_at(a: &Address, d: usize) -> (r: NodeIndex)
    requires
        d < 32,
    ensures
        r.wf(),
        0 <= r.spec_value() < 16,
        r.spec_value() == nibble(a@, d as int),
{
    let byte = a.0[d / 2];
    if d % 2 == 0 {
        NodeIndex::high(byte)
    } else {
        NodeIndex::low(byte)
    }
}

proof fn lemma_nibble_bound(a: Seq<u8>, d: int)
    requires
        0 <= d < 32,
        a.len() == 16,
    ensures
        nibble(a, d) < 16,
{
    let x = a[d / 2];
    assert(x >> 4u8 < 16 && x & 0xfu8 < 16) by (bit_vector);
}

/// One step of a walk down the trie: the node `now` holds `before`'s counts bumped as given, and in the
/// slot `i` of the path the child `after`, which is `child_before` bumped one level further down.
proof fn lemma_step(
    now: AddressTreeNode,
    before: AddressTreeNode,
    q: Seq<u8>,
    i: int,
    old_child: Option<Box<AddressTreeNode>>,
    child_before: AddressTreeNode,
    after: AddressTreeNode,
    a: Seq<u8>,
    d: int,
    end: int,
    trusted: bool,
)
    requires
        0 <= d < end <= 32,
        a.len() == 16,
        i == nibble(a, d),
        0 <= i < 16,
        old_child == before.children@[i],
        match old_child {
            Some(c) => child_before == *c,
            None => child_before.is_fresh(),
        },
        now.children@ == before.children@.update(i, Some(Box::new(after))),
        (now.trusted_count, now.spam_count) == bumped(Some((before.trusted_count, before.spam_count)), trusted),
        forall|r: Seq<u8>|
            #[trigger] after.at(r) == if within(r, a, d + 1, end) {
                Some(bumped(child_before.at(r), trusted))
            } else {
                child_before.at(r)
            },
    ensures
        now.at(q) == if within(q, a, d, end) {
            Some(bumped(before.at(q), trusted))
        } else {
            before.at(q)
        },
{
    if q.len() > 0 && q[0] < 16 {
        let r = q.drop_first();
        assert(now.sub(q) == if q[0] == i {
            after.sub(r)
        } else {
            match before.children@[q[0] as int] {
                Some(c) => (*c).sub(r),
                None => None,
            }
        });
        if q[0] == i {
            assert(within(q, a, d, end) == within(r, a, d + 1, end)) by {
                if within(r, a, d + 1, end) {
                    assert forall|k: int| 0 <= k < q.len() implies #[trigger] q[k] == nibble(a, d + k) by {
                        if k > 0 {
                            assert(q[k] == r[k - 1]);
                        }
                    }
                }
                if within(q, a, d, end) {
                    assert forall|k: int| 0 <= k < r.len() implies #[trigger] r[k] == nibble(a, d + 1 + k) by {
                        assert(r[k] == q[k + 1]);
                    }
                }
            }
            assert(after.at(r) == now.at(q));
            match old_child {
                Some(c) => {},
                None => {
                    child_before.lemma_fresh(r);
                    if r.len() == 0 {
                        assert(bumped(Some((0u32, 0u32)), trusted) == bumped(None, trusted));
                    }
                },
            }
        } else {
            assert(!within(q, a, d, end)) by {
                assert(q[0] != nibble(a, d + 0));
            }
        }
    }
}

/// The bytes of a well-formed operation decode to it.
pub proof fn lemma_decode_encode(op: TreeOperation)
    requires
        op.wf(),
    ensures
        decodes_to(op_bytes(op), Some(op)),
{
    match op {
        TreeOperation::Spam(a) => {
            assert(op_bytes(op).subrange(1, 17) =~= a@);
        },
        TreeOperation::Trust(p) => {
            assert(op_bytes(op).subrange(1, 17) =~= p.spec_first()@);
            crate::address::lemma_canonical_prefix(p.spec_first()@, p.spec_bits() as int);
        },
    }
}

/// Bytes decode to at most one operation.
pub proof fn lemma_decode_unique(b: Seq<u8>, r1: Option<TreeOperation>, r2: Option<TreeOperation>)
    requires
        decodes_to(b, r1),
        decodes_to(b, r2),
    ensures
        r1 == r2,
{
    if b[0] == 0 {
        crate::address::lemma_address_ext(r1.unwrap()->Spam_0, r2.unwrap()->Spam_0);
    } else if b[0] <= 128 {
        crate::address::lemma_prefix_ext(r1.unwrap()->Trust_0, r2.unwrap()->Trust_0);
    }
}

/// Recording the same operation in two tries in the same state leaves them in the same state, with the same
/// record.
pub proof fn lemma_apply_deterministic(
    a: AddressTree,
    b: AddressTree,
    c: AddressTree,
    d: AddressTree,
    op: TreeOperation,
    r1: SerializedTreeOperation,
    r2: SerializedTreeOperation,
)
    requires
        a.same_state(b),
        c.applied(a, op, r1),
        d.applied(b, op, r2),
    ensures
        c.same_state(d),
        r1 == r2,
{
    assert forall|p: Seq<u8>| #[trigger] c.node(p) == d.node(p) by {
        assert(a.node(p) == b.node(p));
    }
    assert(r1.bytes =~= r2.bytes);
}

} // verus!

verus! {

/// The 16-ary trie of trusted and spam counts over address prefixes, with the running checksum of the
/// records it has produced.
pub struct AddressTree {
    root: AddressTreeNode,
    checksum: SipHasher24,
    /// The number of bytes the checksum has absorbed.
    written: usize,
    /// The operations counted in the trie, oldest first.
    ops: Ghost<Seq<TreeOperation>>,
    /// No count has stayed at `u32::MAX` where it should have gone higher.
    exact: Ghost<bool>,
}

/// `p` is an initial part of `path`.
pub open spec fn on_path(p: Seq<u8>, path: Seq<u8>) -> bool {
    &&& p.len() <= path.len()
    &&& forall|k: int| 0 <= k < p.len() ==> #[trigger] p[k] == path[k]
}

/// Operation `op` is of the given kind and its path passes through the node at `p`.
pub open spec fn counts_at(op: TreeOperation, p: Seq<u8>, trusted: bool) -> bool {
    is_trust(op) == trusted && on_path(p, op_path(op))
}

/// The number of operations of the given kind in `ops` whose path passes through the node at `p`.
pub open spec fn count_through(ops: Seq<TreeOperation>, p: Seq<u8>, trusted: bool) -> nat
    decreases ops.len(),
{
    if ops.len() == 0 {
        0
    } else {
        count_through(ops.drop_last(), p, trusted) + if counts_at(ops.last(), p, trusted) {
            1nat
        } else {
            0nat
        }
    }
}

/// The node that the operations `ops` call for at `p`: the root always, any other node exactly where some
/// operation passes, with the numbers of trusted and spam operations that pass through it.
pub open spec fn expected(ops: Seq<TreeOperation>, p: Seq<u8>) -> Option<(u32, u32)> {
    let t = count_through(ops, p, true);
    let s = count_through(ops, p, false);
    if p.len() > 0 && t == 0 && s == 0 {
        None
    } else {
        Some((t as u32, s as u32))
    }
}

/// The count of the given kind at a node, zero where there is no node.
pub open spec fn kind_count(c: Option<(u32, u32)>, trusted: bool) -> u32 {
    match c {
        Some((t, s)) => if trusted {
            t
        } else {
            s
        },
        None => 0,
    }
}

/// The counts of a node after one observation less.
pub open spec fn dropped(c: Option<(u32, u32)>, trusted: bool) -> (u32, u32) {
    let (t, s) = match c {
        Some(x) => x,
        None => (0u32, 0u32),
    };
    if trusted {
        ((t - 1) as u32, s)
    } else {
        (t, (s - 1) as u32)
    }
}

/// The spam count of a node, zero where there is no node.
pub open spec fn spam_of(c: Option<(u32, u32)>) -> u32 {
    match c {
        Some((_, s)) => s,
        None => 0,
    }
}

impl AddressTree {
    /// The counts at the node that a path of nibbles leads to from the root, if there is such a node.
    pub closed spec fn node(&self, path: Seq<u8>) -> Option<(u32, u32)> {
        self.root.at(path)
    }

    pub closed spec fn hasher(&self) -> SipHasher24 {
        self.checksum
    }

    /// The checksum's byte count is kept; every counted operation is well formed; and while no count has
    /// saturated, each node holds the number of counted operations whose path passes through it.
    pub closed spec fn wf(&self) -> bool {
        &&& self.written == sip_input(self.checksum).len()
        &&& forall|i: int| 0 <= i < self.ops@.len() ==> (#[trigger] self.ops@[i]).wf()
        &&& self.exact@ ==> forall|p: Seq<u8>| #[trigger] self.root.at(p) == expected(self.ops@, p)
        &&& self.exact@ ==> forall|p: Seq<u8>|
            #[trigger] count_through(self.ops@, p, true) <= u32::MAX && count_through(self.ops@, p, false)
                <= u32::MAX
    }

    /// The operations counted in the trie, oldest first.
    pub closed spec fn ops(&self) -> Seq<TreeOperation> {
        self.ops@
    }

    /// No count has saturated at `u32::MAX` since the trie was made.
    pub closed spec fn exact(&self) -> bool {
        self.exact@
    }

    /// No node along `a` down to `depth` has its count of the given kind at `u32::MAX`.
    pub open spec fn room_along(&self, a: Seq<u8>, depth: int, trusted: bool) -> bool {
        forall|q: Seq<u8>| within(q, a, 0, depth) ==> #[trigger] kind_count(self.node(q), trusted) < u32::MAX
    }

    /// The keys of the checksum.
    pub open spec fn keys(&self) -> (u64, u64) {
        sip_keys(self.hasher())
    }

    /// The bytes that the checksum has absorbed: the first seventeen bytes of every record so far.
    pub open spec fn log(&self) -> Seq<u8> {
        sip_input(self.hasher())
    }

    /// The checksum can absorb one more record.
    pub open spec fn has_room(&self) -> bool {
        self.log().len() + OPERATION_BYTES <= usize::MAX
    }

    /// The checksum after everything absorbed so far.
    pub open spec fn tag(&self) -> u64 {
        siphash24(self.keys().0, self.keys().1, self.log())
    }

    /// The depth from `d` on at which recording trust of `a` stops: the first depth from the minimum whose
    /// node on the path has no spam counted, or the full depth.
    pub open spec fn trust_depth_from(&self, a: Seq<u8>, d: int) -> int
        decreases 32 - d,
    {
        if d >= 32 {
            32
        } else if d >= MINIMUM_NIBBLES && spam_of(self.node(nibbles(a).take(d))) == 0 {
            d
        } else {
            self.trust_depth_from(a, d + 1)
        }
    }

    pub open spec fn trust_depth(&self, a: Seq<u8>) -> int {
        self.trust_depth_from(a, 0)
    }

    /// Trust is recorded down to at least the minimum depth and at most the full one.
    pub proof fn lemma_trust_depth_bounds(&self, a: Seq<u8>)
        ensures
            MINIMUM_NIBBLES <= self.trust_depth(a) <= 32,
    {
        self.lemma_trust_depth_from_bounds(a, 0);
    }

    proof fn lemma_trust_depth_from_bounds(&self, a: Seq<u8>, d: int)
        requires
            d <= 32,
        ensures
            MINIMUM_NIBBLES <= self.trust_depth_from(a, d) <= 32,
            d <= self.trust_depth_from(a, d),
        decreases 32 - d,
    {
        if d < 32 {
            self.lemma_trust_depth_from_bounds(a, d + 1);
        }
    }

    /// `r` answers a query for `a`: the counts at the deepest node on the path to `a`, and the number of bits
    /// of that path.
    pub open spec fn query_answer(&self, a: Seq<u8>, r: QueryResult) -> bool {
        &&& r.prefix_bits % 4 == 0
        &&& r.prefix_bits <= 128
        &&& self.node(nibbles(a).take(r.prefix_bits as int / 4)) == Some((r.trusted_count, r.spam_count))
        &&& forall|d: int| r.prefix_bits as int / 4 < d <= 32 ==> #[trigger] self.node(nibbles(a).take(d)) is None
    }

    /// `self` is `old` with one more observation counted at each node along `a` down to `depth`.
    pub open spec fn bumped_along(&self, old: AddressTree, a: Seq<u8>, depth: int, trusted: bool) -> bool {
        forall|q: Seq<u8>|
            #[trigger] self.node(q) == if within(q, a, 0, depth) {
                Some(bumped(old.node(q), trusted))
            } else {
                old.node(q)
            }
    }

    /// `self` is `old` after logging the seventeen bytes `b` with record `r`: the checksum absorbed them,
    /// and the record is they followed by the new checksum.
    pub open spec fn logged(&self, old: AddressTree, b: Seq<u8>, r: SerializedTreeOperation) -> bool {
        &&& self.keys() == old.keys()
        &&& self.log() == old.log() + b
        &&& r.bytes@ == b + be_bytes(self.tag())
    }

    /// The two tries have the same nodes with the same counts, and checksums with the same keys that have
    /// absorbed the same bytes.
    pub open spec fn same_state(&self, other: AddressTree) -> bool {
        &&& forall|p: Seq<u8>| #[trigger] self.node(p) == other.node(p)
        &&& self.keys() == other.keys()
        &&& self.log() == other.log()
    }

    /// `self` is `old` after recording the operation `op` with record `r`.
    pub open spec fn applied(&self, old: AddressTree, op: TreeOperation, r: SerializedTreeOperation) -> bool {
        &&& match op {
            TreeOperation::Trust(p) => self.bumped_along(old, p.spec_first()@, p.spec_bits() as int / 4, true),
            TreeOperation::Spam(a) => self.bumped_along(old, a@, 32, false),
        }
        &&& self.logged(old, op_bytes(op), r)
    }

    /// An empty trie whose checksum is keyed with `key0` and `key1`.
    pub fn new_with_keys(key0: u64, key1: u64) -> (r: Self)
        ensures
            r.wf(),
            r.keys() == (key0, key1),
            r.log() == Seq::<u8>::empty(),
            r.ops() == Seq::<TreeOperation>::empty(),
            r.exact(),
            r.node(Seq::empty()) == Some((0u32, 0u32)),
            forall|q: Seq<u8>| q.len() > 0 ==> #[trigger] r.node(q) is None,
    {
        let root = AddressTreeNode::new();
        proof {
            assert forall|q: Seq<u8>| q.len() > 0 implies #[trigger] root.at(q) is None by {
                root.lemma_fresh(q);
            }
            assert forall|p: Seq<u8>| #[trigger] root.at(p) == expected(Seq::<TreeOperation>::empty(), p) by {
                root.lemma_fresh(p);
            }
        }
        AddressTree {
            root,
            checksum: sip_new(key0, key1),
            written: 0,
            ops: Ghost(Seq::empty()),
            exact: Ghost(true),
        }
    }

    pub fn has_room_for_record(&self) -> (r: bool)
        requires
            self.wf(),
        ensures
            r == self.has_room(),
    {
        self.written <= usize::MAX - OPERATION_BYTES
    }

    /// The counts at the deepest node on the path to `address`, and the number of bits of that path.
    pub fn query(&self, address: &Address) -> (r: QueryResult)
        ensures
            self.query_answer(address@, r),
    {
        let ghost path_bytes = nibbles(address@);
        let mut current: &AddressTreeNode = &self.root;
        let mut prefix_bits: u8 = 0;
        let mut d: usize = 0;
        let mut path = AddressPath::new(*address);
        assert(path_bytes.take(0) =~= Seq::<u8>::empty());
        while d < 32
            invariant_except_break
                path.wf(),
                path.address() == address@,
                path.position() == d,
            invariant
                d <= 32,
                prefix_bits == 4 * d,
                prefix_bits as int / 4 == d,
                address@.len() == 16,
                path_bytes == nibbles(address@),
                self.root.sub(path_bytes.take(d as int)) == Some(*current),
            ensures
                d <= 32,
                prefix_bits as int / 4 == d,
                self.root.sub(path_bytes.take(d as int)) == Some(*current),
                forall|e: int| d < e <= 32 ==> #[trigger] self.node(nibbles(address@).take(e)) is None,
            decreases 32 - d,
        {
            let index = match path.next() {
                Some(index) => index,
                None => {
                    break;
                },
            };
            proof {
                lemma_nibble_bound(address@, d as int);
            }
            match current.children.get(index) {
                Some(child) => {
                    proof {
                        lemma_sub_push(self.root, path_bytes.take(d as int), index.spec_value() as u8);
                        assert(path_bytes.take(d as int).push(index.spec_value() as u8) =~= path_bytes.take(d + 1));
                    }
                    current = child;
                    prefix_bits = prefix_bits + 4;
                    d = d + 1;
                },
                None => {
                    proof {
                        lemma_sub_push(self.root, path_bytes.take(d as int), index.spec_value() as u8);
                        assert(path_bytes.take(d as int).push(index.spec_value() as u8) =~= path_bytes.take(d + 1));
                        lemma_absent_below(self.root, path_bytes, d as int + 1);
                        assert(prefix_bits as int / 4 == d as int);
                        assert forall|e: int| d < e <= 32 implies #[trigger] self.node(
                            nibbles(address@).take(e),
                        ) is None by {
                            assert(self.root.sub(path_bytes.take(e)) is None);
                        }
                    }
                    break;
                },
            }
        }
        QueryResult { trusted_count: current.trusted_count, spam_count: current.spam_count, prefix_bits }
    }

    /// Absorbs the seventeen bytes of an operation into the checksum and returns them with the new
    /// checksum as a record.
    fn log_record(&mut self, b: [u8; 17]) -> (r: SerializedTreeOperation)
        requires
            old(self).wf(),
            old(self).has_room(),
        ensures
            final(self).wf(),
            final(self).root == old(self).root,
            final(self).ops == old(self).ops,
            final(self).exact == old(self).exact,
            final(self).logged(*old(self), b@, r),
    {
        sip_write(&mut self.checksum, b.as_slice());
        self.written = self.written + OPERATION_BYTES;
        let tag = u64_to_be_bytes(sip_finish(&self.checksum));
        let mut bytes: [u8; 25] = [0u8; 25];
        let mut j: usize = 0;
        while j < 25
            invariant
                0 <= j <= 25,
                bytes@.len() == 25,
                forall|m: int| 0 <= m < j ==> #[trigger] bytes@[m] == (b@ + tag@)[m],
            decreases 25 - j,
        {
            bytes[j] = if j < 17 {
                b[j]
            } else {
                tag[j - 17]
            };
            j = j + 1;
        }
        assert(bytes@ =~= b@ + tag@);
        SerializedTreeOperation { bytes }
    }

    /// Counts a trusted observation of `address` along its path, from the root down to the first depth of
    /// at least 20 bits whose node has no spam counted, or to the full address; returns the log record of
    /// the prefix that was reached.
    pub fn record_trusted(&mut self, address: Address) -> (r: SerializedTreeOperation)
        requires
            old(self).wf(),
            old(self).has_room(),
        ensures
            final(self).wf(),
            final(self).bumped_along(*old(self), address@, old(self).trust_depth(address@), true),
            final(self).logged(
                *old(self),
                seq![(4 * old(self).trust_depth(address@)) as u8] + prefix_of(
                    address@,
                    4 * old(self).trust_depth(address@),
                ),
                r,
            ),
            MINIMUM_NIBBLES <= old(self).trust_depth(address@) <= 32,
            final(self).ops().drop_last() == old(self).ops(),
            final(self).ops().len() == old(self).ops().len() + 1,
            final(self).ops().last() matches TreeOperation::Trust(p) && p.spec_bits() == 4 * old(
                self,
            ).trust_depth(address@) && p.spec_first()@ == prefix_of(address@, 4 * old(self).trust_depth(address@)),
            final(self).exact() == (old(self).exact() && old(self).room_along(
                address@,
                old(self).trust_depth(address@),
                true,
            )),
    {
        self.trusted_op(address).1
    }

    /// As `record_trusted`, also returning the operation that was counted.
    pub(crate) fn trusted_op(&mut self, address: Address) -> (out: (TreeOperation, SerializedTreeOperation))
        requires
            old(self).wf(),
            old(self).has_room(),
        ensures
            final(self).wf(),
            final(self).bumped_along(*old(self), address@, old(self).trust_depth(address@), true),
            out.0 == final(self).ops().last(),
            final(self).applied(*old(self), out.0, out.1),
            final(self).logged(
                *old(self),
                seq![(4 * old(self).trust_depth(address@)) as u8] + prefix_of(
                    address@,
                    4 * old(self).trust_depth(address@),
                ),
                out.1,
            ),
            MINIMUM_NIBBLES <= old(self).trust_depth(address@) <= 32,
            final(self).ops().drop_last() == old(self).ops(),
            final(self).ops().len() == old(self).ops().len() + 1,
            final(self).ops().last() matches TreeOperation::Trust(p) && p.spec_bits() == 4 * old(
                self,
            ).trust_depth(address@) && p.spec_first()@ == prefix_of(address@, 4 * old(self).trust_depth(address@)),
            final(self).exact() == (old(self).exact() && old(self).room_along(
                address@,
                old(self).trust_depth(address@),
                true,
            )),
    {
        let ghost before = *self;
        let depth = self.root.trust_from(&address, 0);
        proof {
            lemma_stop_depth(before, address@, 0);
            assert(before.root.sub(nibbles(address@).take(0)) == Some(before.root)) by {
                assert(nibbles(address@).take(0) =~= Seq::<u8>::empty());
            }
        }
        let prefix = address.prefix((4 * depth) as u8);
        let op = TreeOperation::Trust(prefix);
        proof {
            lemma_prefix_path(address@, depth as int);
            if before.exact@ && before.room_along(address@, depth as int, true) {
                lemma_bump_exact(before, *self, op, address@, depth as int, true);
            }
        }
        self.ops = Ghost(before.ops@.push(op));
        let ghost still_exact = before.exact@ && before.room_along(address@, depth as int, true);
        self.exact = Ghost(still_exact);
        let b = op.serialize();
        proof {
            assert(self.ops@.drop_last() =~= before.ops@);
            assert forall|q: Seq<u8>| within(q, address@, 0, depth as int) == within(q, prefix.spec_first()@, 0, depth as int) by {
                lemma_within_path(q, address@, depth as int);
                lemma_within_path(q, prefix.spec_first()@, depth as int);
            }
            assert(prefix.spec_bits() as int / 4 == depth);
        }
        (op, self.log_record(b))
    }

    /// Counts a spam observation of `address` at every node of its path, creating the missing ones;
    /// returns its log record.
    pub fn record_spam(&mut self, address: Address) -> (r: SerializedTreeOperation)
        requires
            old(self).wf(),
            old(self).has_room(),
        ensures
            final(self).wf(),
            final(self).applied(*old(self), TreeOperation::Spam(address), r),
            final(self).ops() == old(self).ops().push(TreeOperation::Spam(address)),
            final(self).exact() == (old(self).exact() && old(self).room_along(address@, 32, false)),
    {
        let ghost before = *self;
        self.root.bump_path(&address, 0, 32, false);
        let op = TreeOperation::Spam(address);
        proof {
            assert(nibbles(address@).take(32) =~= nibbles(address@));
            if before.exact@ && before.room_along(address@, 32, false) {
                lemma_bump_exact(before, *self, op, address@, 32, false);
            }
        }
        self.ops = Ghost(before.ops@.push(op));
        let ghost still_exact = before.exact@ && before.room_along(address@, 32, false);
        self.exact = Ghost(still_exact);
        let b = op.serialize();
        self.log_record(b)
    }

    /// Stops counting the operation at position `i` of the counted ones: one observation less at each node
    /// of its path, and the nodes below the root that are left empty with no children removed.
    pub(crate) fn unrecord(&mut self, op: &TreeOperation, Ghost(i): Ghost<int>)
        requires
            old(self).wf(),
            0 <= i < old(self).ops().len(),
            old(self).ops()[i] == *op,
        ensures
            final(self).wf(),
            final(self).ops() == old(self).ops().remove(i),
            final(self).exact() == old(self).exact(),
            final(self).keys() == old(self).keys(),
            final(self).log() == old(self).log(),
    {
        let ghost before = *self;
        let ghost x: Seq<u8>;
        let ghost end: int;
        match op {
            TreeOperation::Trust(prefix) => {
                let first = prefix.first();
                proof {
                    x = first@;
                    end = prefix.bits() as int / 4;
                    if before.exact@ {
                        lemma_removable_from_counts(before, i, x, end);
                    }
                }
                let _ = self.root.unbump_path(&first, 0, (prefix.bits() / 4) as usize, true);
            },
            TreeOperation::Spam(address) => {
                proof {
                    x = address@;
                    end = 32;
                    assert(nibbles(address@).take(32) =~= nibbles(address@));
                    if before.exact@ {
                        lemma_removable_from_counts(before, i, x, end);
                    }
                }
                let _ = self.root.unbump_path(address, 0, 32, false);
            },
        }
        proof {
            if before.exact@ {
                lemma_counts_after_unrecord(before, self.root, i, x, end);
            }
        }
        self.ops = Ghost(before.ops@.remove(i));
        proof {
            assert forall|k: int| 0 <= k < self.ops@.len() implies (#[trigger] self.ops@[k]).wf() by {
                if k < i {
                    assert(self.ops@[k] == before.ops@[k]);
                } else {
                    assert(self.ops@[k] == before.ops@[k + 1]);
                }
            }
        }
    }

    /// Records an operation as the log holds it: trust along the prefix as given, spam along the whole
    /// address.
    pub fn apply(&mut self, op: TreeOperation) -> (r: SerializedTreeOperation)
        requires
            old(self).wf(),
            old(self).has_room(),
            op.wf(),
        ensures
            final(self).wf(),
            final(self).applied(*old(self), op, r),
            final(self).ops() == old(self).ops().push(op),
            final(self).exact() == (old(self).exact() && match op {
                TreeOperation::Trust(p) => old(self).room_along(p.spec_first()@, p.spec_bits() as int / 4, true),
                TreeOperation::Spam(a) => old(self).room_along(a@, 32, false),
            }),
    {
        let ghost before = *self;
        let ghost room: bool;
        match op {
            TreeOperation::Trust(prefix) => {
                let first = prefix.first();
                self.root.bump_path(&first, 0, (prefix.bits() / 4) as usize, true);
                proof {
                    room = before.room_along(first@, prefix.bits() as int / 4, true);
                    if before.exact@ && room {
                        lemma_bump_exact(before, *self, op, first@, prefix.bits() as int / 4, true);
                    }
                }
            },
            TreeOperation::Spam(address) => {
                self.root.bump_path(&address, 0, 32, false);
                proof {
                    room = before.room_along(address@, 32, false);
                    assert(nibbles(address@).take(32) =~= nibbles(address@));
                    if before.exact@ && room {
                        lemma_bump_exact(before, *self, op, address@, 32, false);
                    }
                }
            },
        }
        self.ops = Ghost(before.ops@.push(op));
        let ghost still_exact = before.exact@ && room;
        self.exact = Ghost(still_exact);
        let b = op.serialize();
        self.log_record(b)
    }
}

/// Recording one more operation whose path is `a`'s down to `depth`, where no count on it saturates, keeps
/// every node equal to the count of operations through it.
proof fn lemma_bump_exact(before: AddressTree, after: AddressTree, op: TreeOperation, a: Seq<u8>, depth: int, trusted: bool)
    requires
        before.wf(),
        before.exact@,
        op.wf(),
        0 <= depth <= 32,
        a.len() == 16,
        op_path(op) == nibbles(a).take(depth),
        is_trust(op) == trusted,
        before.room_along(a, depth, trusted),
        after.bumped_along(before, a, depth, trusted),
    ensures
        forall|p: Seq<u8>| #[trigger] after.root.at(p) == expected(before.ops@.push(op), p),
        forall|p: Seq<u8>|
            #[trigger] count_through(before.ops@.push(op), p, true) <= u32::MAX && count_through(
                before.ops@.push(op),
                p,
                false,
            ) <= u32::MAX,
{
    let ops = before.ops@;
    let ops2 = ops.push(op);
    assert(ops2.drop_last() =~= ops);
    assert forall|p: Seq<u8>|
        #![trigger after.root.at(p)]
        #![trigger count_through(ops2, p, true)]
        after.root.at(p) == expected(ops2, p) && count_through(ops2, p, true) <= u32::MAX && count_through(
            ops2,
            p,
            false,
        ) <= u32::MAX by {
        assert(after.node(p) == after.root.at(p));
        assert(before.root.at(p) == expected(ops, p));
        assert(count_through(ops, p, true) <= u32::MAX);
        lemma_within_path(p, a, depth);
        if within(p, a, 0, depth) {
            assert(kind_count(before.node(p), trusted) < u32::MAX);
        }
    }
}

/// Walking from the root along `a` down to `depth` passes exactly the initial parts of its path.
proof fn lemma_within_path(p: Seq<u8>, a: Seq<u8>, depth: int)
    requires
        0 <= depth <= 32,
        a.len() == 16,
    ensures
        within(p, a, 0, depth) == on_path(p, nibbles(a).take(depth)),
{
    if within(p, a, 0, depth) {
        assert forall|k: int| 0 <= k < p.len() implies #[trigger] p[k] == nibbles(a).take(depth)[k] by {
            assert(p[k] == nibble(a, 0 + k));
        }
    }
    if on_path(p, nibbles(a).take(depth)) {
        assert forall|k: int| 0 <= k < p.len() implies #[trigger] p[k] == nibble(a, 0 + k) by {
            assert(p[k] == nibbles(a).take(depth)[k]);
        }
    }
}

/// The canonical prefix of `a` with `4 * d` bits has the first `d` nibbles of `a`.
proof fn lemma_prefix_path(a: Seq<u8>, d: int)
    requires
        0 <= d <= 32,
        a.len() == 16,
    ensures
        nibbles(prefix_of(a, 4 * d)).take(d) == nibbles(a).take(d),
{
    let f = prefix_of(a, 4 * d);
    assert forall|k: int| 0 <= k < d implies #[trigger] nibble(f, k) == nibble(a, k) by {
        let j = k / 2;
        if j >= (4 * d) / 8 {
            assert(j == (4 * d) / 8 && (4 * d) % 8 == 4 && k % 2 == 0);
            let x = a[j];
            assert((x & !(0xffu8 >> 4u8)) >> 4u8 == x >> 4u8) by (bit_vector);
        }
    }
    assert(nibbles(f).take(d) =~= nibbles(a).take(d));
}

/// Removing the operation at `i` takes away exactly its own contribution from every count.
proof fn lemma_count_remove(ops: Seq<TreeOperation>, i: int, p: Seq<u8>, trusted: bool)
    requires
        0 <= i < ops.len(),
    ensures
        count_through(ops.remove(i), p, trusted) + (if counts_at(ops[i], p, trusted) {
            1nat
        } else {
            0nat
        }) == count_through(ops, p, trusted),
    decreases ops.len(),
{
    if i == ops.len() - 1 {
        assert(ops.remove(i) =~= ops.drop_last());
    } else {
        lemma_count_remove(ops.drop_last(), i, p, trusted);
        assert(ops.remove(i).drop_last() =~= ops.drop_last().remove(i));
        assert(ops.remove(i).last() == ops.last());
    }
}

/// A node never counts more operations than its ancestors.
proof fn lemma_count_mono(ops: Seq<TreeOperation>, p: Seq<u8>, q: Seq<u8>, trusted: bool)
    requires
        on_path(p, q),
    ensures
        count_through(ops, q, trusted) <= count_through(ops, p, trusted),
    decreases ops.len(),
{
    if ops.len() > 0 {
        lemma_count_mono(ops.drop_last(), p, q, trusted);
        if counts_at(ops.last(), q, trusted) {
            let path = op_path(ops.last());
            assert forall|k: int| 0 <= k < p.len() implies #[trigger] p[k] == path[k] by {
                assert(p[k] == q[k]);
            }
        }
    }
}

/// Where the nodes count the operations exactly, the nodes on the path of a counted operation can each lose
/// one observation.
proof fn lemma_removable_from_counts(t: AddressTree, i: int, x: Seq<u8>, end: int)
    requires
        t.wf(),
        t.exact@,
        0 <= i < t.ops@.len(),
        0 <= end <= 32,
        x.len() == 16,
        op_path(t.ops@[i]) == nibbles(x).take(end),
    ensures
        t.root.removable(x, 0, end, is_trust(t.ops@[i])),
{
    reveal(AddressTreeNode::removable);
    let ops = t.ops@;
    let op = ops[i];
    let kind = is_trust(op);
    let rest = ops.remove(i);
    assert forall|q: Seq<u8>| within(q, x, 0, end) implies #[trigger] t.root.removable_at(q, x, 0, end, kind) by {
        lemma_within_path(q, x, end);
        lemma_count_remove(ops, i, q, true);
        lemma_count_remove(ops, i, q, false);
        assert(t.root.at(q) == expected(ops, q));
        assert(count_through(ops, q, true) <= u32::MAX);
        if dropped(t.root.at(q), kind) == (0u32, 0u32) {
            assert(count_through(rest, q, true) == 0 && count_through(rest, q, false) == 0);
            assert forall|j: int|
                0 <= j < 16 && (q.len() == end - 0 || j != nibble(x, 0int + q.len())) implies (#[trigger] t.root.at(
                q.push(j as u8),
            )) is None by {
                let qj = q.push(j as u8);
                assert(on_path(q, qj));
                lemma_count_mono(rest, q, qj, true);
                lemma_count_mono(rest, q, qj, false);
                lemma_count_remove(ops, i, qj, true);
                lemma_count_remove(ops, i, qj, false);
                assert(!on_path(qj, op_path(op))) by {
                    if q.len() < end {
                        assert(qj[q.len() as int] != nibbles(x).take(end)[q.len() as int]);
                    }
                }
                assert(t.root.at(qj) == expected(ops, qj));
            }
            if q.len() < end {
                let qn = q.push(nibble(x, 0int + q.len()));
                assert(on_path(q, qn));
                lemma_count_mono(rest, q, qn, true);
                lemma_count_mono(rest, q, qn, false);
                lemma_count_remove(ops, i, qn, true);
                lemma_count_remove(ops, i, qn, false);
                lemma_within_path(qn, x, end);
                assert(within(qn, x, 0, end)) by {
                    assert forall|k: int| 0 <= k < qn.len() implies #[trigger] qn[k] == nibble(x, 0 + k) by {
                        if k < q.len() {
                            assert(qn[k] == q[k]);
                        }
                    }
                }
                assert(t.root.at(qn) == expected(ops, qn));
                assert(count_through(ops, qn, true) <= u32::MAX);
                assert(count_through(ops, qn, false) <= u32::MAX);
            }
        }
    }
}

/// After the nodes on the path of the operation at `i` each lose one observation, the nodes count exactly
/// the remaining operations.
proof fn lemma_counts_after_unrecord(t: AddressTree, root: AddressTreeNode, i: int, x: Seq<u8>, end: int)
    requires
        t.wf(),
        t.exact@,
        0 <= i < t.ops@.len(),
        0 <= end <= 32,
        x.len() == 16,
        op_path(t.ops@[i]) == nibbles(x).take(end),
        t.root.removable(x, 0, end, is_trust(t.ops@[i])) ==> root.unbumped(t.root, x, 0, end, is_trust(t.ops@[i])),
    ensures
        forall|p: Seq<u8>| #[trigger] root.at(p) == expected(t.ops@.remove(i), p),
        forall|p: Seq<u8>|
            #[trigger] count_through(t.ops@.remove(i), p, true) <= u32::MAX && count_through(
                t.ops@.remove(i),
                p,
                false,
            ) <= u32::MAX,
{
    lemma_removable_from_counts(t, i, x, end);
    reveal(AddressTreeNode::unbumped);
    let ops = t.ops@;
    let op = ops[i];
    let kind = is_trust(op);
    let rest = ops.remove(i);
    assert forall|p: Seq<u8>|
        #![trigger root.at(p)]
        #![trigger count_through(rest, p, true)]
        root.at(p) == expected(rest, p) && count_through(rest, p, true) <= u32::MAX && count_through(
            rest,
            p,
            false,
        ) <= u32::MAX by {
        lemma_within_path(p, x, end);
        lemma_count_remove(ops, i, p, true);
        lemma_count_remove(ops, i, p, false);
        assert(t.root.at(p) == expected(ops, p));
        assert(count_through(ops, p, true) <= u32::MAX);
        if p.len() == 0 {
            assert(p =~= Seq::<u8>::empty());
        }
    }
}

/// A path one nibble longer leads to the matching child of the node the path led to.
proof fn lemma_sub_push(n: AddressTreeNode, p: Seq<u8>, x: u8)
    ensures
        n.sub(p.push(x)) == match n.sub(p) {
            Some(m) => if x < 16 {
                match m.children@[x as int] {
                    Some(c) => Some(*c),
                    None => None,
                }
            } else {
                None
            },
            None => None,
        },
    decreases p.len(),
{
    if p.len() > 0 {
        let q = p.push(x);
        assert(q.len() > 0 && q[0] == p[0]);
        assert(q.drop_first() =~= p.drop_first().push(x));
        if p[0] < 16 {
            match n.children@[p[0] as int] {
                Some(c) => {
                    lemma_sub_push(*c, p.drop_first(), x);
                    assert(n.sub(q) == (*c).sub(q.drop_first()));
                    assert(n.sub(p) == (*c).sub(p.drop_first()));
                },
                None => {},
            }
        }
    } else {
        assert(p.push(x).drop_first() =~= Seq::<u8>::empty());
        assert(p.push(x)[0] == x);
        assert(p =~= Seq::<u8>::empty());
        if x < 16 {
            match n.children@[x as int] {
                Some(c) => {
                    assert((*c).sub(Seq::<u8>::empty()) == Some(*c));
                },
                None => {},
            }
        }
    }
}

/// Where a path leads nowhere, every longer part of the same path leads nowhere too.
proof fn lemma_absent_below(n: AddressTreeNode, path: Seq<u8>, d: int)
    requires
        0 <= d <= path.len(),
        n.sub(path.take(d)) is None,
    ensures
        forall|e: int| d <= e <= path.len() ==> #[trigger] n.sub(path.take(e)) is None,
    decreases path.len() - d,
{
    if d < path.len() {
        lemma_sub_push(n, path.take(d), path[d]);
        assert(path.take(d).push(path[d]) =~= path.take(d + 1));
        lemma_absent_below(n, path, d + 1);
    }
}

/// The stopping depth computed from the node at depth `d` on the path is the one the whole trie gives.
proof fn lemma_stop_depth(t: AddressTree, a: Seq<u8>, d: int)
    requires
        0 <= d <= 32,
        a.len() == 16,
    ensures
        match t.root.sub(nibbles(a).take(d)) {
            Some(m) => m.stop_depth(a, d) == t.trust_depth_from(a, d),
            None => t.trust_depth_from(a, d) == if d >= MINIMUM_NIBBLES {
                d
            } else {
                MINIMUM_NIBBLES as int
            },
        },
    decreases 32 - d,
{
    if d < 32 {
        lemma_stop_depth(t, a, d + 1);
        let p = nibbles(a).take(d);
        lemma_nibble_bound(a, d);
        lemma_sub_push(t.root, p, nibble(a, d));
        assert(p.push(nibble(a, d)) =~= nibbles(a).take(d + 1));
    }
}


impl AddressTree {
    /// While no count has saturated, every node holds the number of counted trust and spam operations
    /// whose recorded path passes through it, and a node other than the root exists exactly where one does.
    pub proof fn lemma_counts_match_operations(&self)
        requires
            self.wf(),
            self.exact(),
        ensures
            forall|p: Seq<u8>| #[trigger] self.node(p) == expected(self.ops(), p),
            forall|p: Seq<u8>|
                #[trigger] count_through(self.ops(), p, true) <= u32::MAX && count_through(self.ops(), p, false)
                    <= u32::MAX,
    {
    }

    /// Where a path leads to no node, no longer path through it does.
    pub proof fn lemma_absent_stays_absent(&self, path: Seq<u8>, d: int)
        requires
            0 <= d <= path.len(),
            self.node(path.take(d)) is None,
        ensures
            forall|e: int| d <= e <= path.len() ==> #[trigger] self.node(path.take(e)) is None,
    {
        lemma_absent_below(self.root, path, d);
    }

    /// A query answers with the deepest prefix of the address that some counted operation passes through,
    /// with its counts; it answers zero bits exactly when no operation passes through any non-empty prefix.
    pub proof fn lemma_query_is_longest_prefix(&self, a: Seq<u8>, r: QueryResult)
        requires
            self.wf(),
            self.exact(),
            a.len() == 16,
            self.query_answer(a, r),
        ensures
            r.trusted_count == count_through(self.ops(), nibbles(a).take(r.prefix_bits as int / 4), true),
            r.spam_count == count_through(self.ops(), nibbles(a).take(r.prefix_bits as int / 4), false),
            r.prefix_bits > 0 ==> r.trusted_count + r.spam_count > 0,
            forall|d: int|
                r.prefix_bits as int / 4 < d <= 32 ==> count_through(self.ops(), #[trigger] nibbles(a).take(d), true)
                    == 0 && count_through(self.ops(), nibbles(a).take(d), false) == 0,
            (r.prefix_bits == 0) <==> forall|d: int|
                0 < d <= 32 ==> count_through(self.ops(), #[trigger] nibbles(a).take(d), true) + count_through(
                    self.ops(),
                    nibbles(a).take(d),
                    false,
                ) == 0,
    {
        let dd = r.prefix_bits as int / 4;
        let p = nibbles(a).take(dd);
        assert(self.node(p) == expected(self.ops(), p));
        assert(count_through(self.ops(), p, true) <= u32::MAX);
        assert forall|d: int| dd < d <= 32 implies count_through(self.ops(), #[trigger] nibbles(a).take(d), true) == 0
            && count_through(self.ops(), nibbles(a).take(d), false) == 0 by {
            assert(self.node(nibbles(a).take(d)) == expected(self.ops(), nibbles(a).take(d)));
        }
        if r.prefix_bits > 0 {
            assert(p.len() > 0);
        }
    }

    /// Two tries that count the same operations, with no count saturated, have the same nodes with the same
    /// counts, whatever else happened to them: an observation that has expired leaves no trace.
    pub proof fn lemma_same_operations_same_nodes(t1: AddressTree, t2: AddressTree)
        requires
            t1.wf(),
            t2.wf(),
            t1.exact(),
            t2.exact(),
            t1.ops() == t2.ops(),
        ensures
            forall|p: Seq<u8>| #[trigger] t1.node(p) == t2.node(p),
    {
        assert forall|p: Seq<u8>| #[trigger] t1.node(p) == t2.node(p) by {
            assert(t1.node(p) == expected(t1.ops(), p));
            assert(t2.node(p) == expected(t2.ops(), p));
        }
    }

    /// Recording an operation and then stopping counting it, with no count saturated, leaves every node as
    /// it was before.
    pub proof fn lemma_unrecord_restores(t0: AddressTree, t1: AddressTree, t2: AddressTree)
        requires
            t0.wf(),
            t1.wf(),
            t2.wf(),
            t0.exact(),
            t2.exact(),
            t1.ops().len() == t0.ops().len() + 1,
            t1.ops().drop_last() == t0.ops(),
            t2.ops() == t1.ops().remove(t1.ops().len() - 1),
        ensures
            forall|p: Seq<u8>| #[trigger] t2.node(p) == t0.node(p),
    {
        assert(t2.ops() =~= t0.ops());
        assert forall|p: Seq<u8>| #[trigger] t2.node(p) == t0.node(p) by {
            assert(t2.node(p) == expected(t2.ops(), p));
            assert(t0.node(p) == expected(t0.ops(), p));
        }
    }
}


/// The trie node that a prefix of whole nibbles names: the path of its nibbles.
pub open spec fn path_of(q: AddressPrefix) -> Seq<u8> {
    nibbles(q.spec_first()@).take(q.spec_bits() as int / 4)
}

proof fn lemma_nibble_bits(x: u8, y: u8)
    ensures
        (x >> 4u8 == y >> 4u8) == (byte_bit(x, 0) == byte_bit(y, 0) && byte_bit(x, 1) == byte_bit(y, 1) && byte_bit(
            x,
            2,
        ) == byte_bit(y, 2) && byte_bit(x, 3) == byte_bit(y, 3)),
        (x & 0xfu8 == y & 0xfu8) == (byte_bit(x, 4) == byte_bit(y, 4) && byte_bit(x, 5) == byte_bit(y, 5)
            && byte_bit(x, 6) == byte_bit(y, 6) && byte_bit(x, 7) == byte_bit(y, 7)),
{
    assert((x >> 4u8 == y >> 4u8) == (((x >> 7u8) & 1u8 == 1u8) == ((y >> 7u8) & 1u8 == 1u8) && ((x >> 6u8) & 1u8
        == 1u8) == ((y >> 6u8) & 1u8 == 1u8) && ((x >> 5u8) & 1u8 == 1u8) == ((y >> 5u8) & 1u8 == 1u8) && ((x
        >> 4u8) & 1u8 == 1u8) == ((y >> 4u8) & 1u8 == 1u8))) by (bit_vector);
    assert((x & 0xfu8 == y & 0xfu8) == (((x >> 3u8) & 1u8 == 1u8) == ((y >> 3u8) & 1u8 == 1u8) && ((x >> 2u8)
        & 1u8 == 1u8) == ((y >> 2u8) & 1u8 == 1u8) && ((x >> 1u8) & 1u8 == 1u8) == ((y >> 1u8) & 1u8 == 1u8)
        && ((x >> 0u8) & 1u8 == 1u8) == ((y >> 0u8) & 1u8 == 1u8))) by (bit_vector);
}

/// Two byte strings agree on their first `d` nibbles exactly when they agree on their first `4 * d` bits.
pub proof fn lemma_nibbles_agree(x: Seq<u8>, y: Seq<u8>, d: int)
    requires
        x.len() == 16,
        y.len() == 16,
        0 <= d <= 32,
    ensures
        (forall|k: int| 0 <= k < d ==> #[trigger] nibble(x, k) == nibble(y, k)) == agree_on(x, y, 4 * d),
{
    if forall|k: int| 0 <= k < d ==> #[trigger] nibble(x, k) == nibble(y, k) {
        assert forall|i: int| 0 <= i < 4 * d implies #[trigger] bit_of(x, i) == bit_of(y, i) by {
            let k = i / 4;
            assert(nibble(x, k) == nibble(y, k));
            assert(k / 2 == i / 8);
            lemma_nibble_bits(x[i / 8], y[i / 8]);
            if k % 2 == 0 {
                assert(i % 8 < 4);
            } else {
                assert(i % 8 >= 4);
            }
        }
    }
    if agree_on(x, y, 4 * d) {
        assert forall|k: int| 0 <= k < d implies #[trigger] nibble(x, k) == nibble(y, k) by {
            let j = k / 2;
            lemma_nibble_bits(x[j], y[j]);
            let base = 8 * j + 4 * (k % 2);
            assert(bit_of(x, base) == bit_of(y, base));
            assert(bit_of(x, base + 1) == bit_of(y, base + 1));
            assert(bit_of(x, base + 2) == bit_of(y, base + 2));
            assert(bit_of(x, base + 3) == bit_of(y, base + 3));
            assert(base / 8 == j && (base + 1) / 8 == j && (base + 2) / 8 == j && (base + 3) / 8 == j);
            assert(base % 8 == 4 * (k % 2) && (base + 1) % 8 == 4 * (k % 2) + 1 && (base + 2) % 8 == 4 * (k % 2) + 2
                && (base + 3) % 8 == 4 * (k % 2) + 3);
        }
    }
}

/// Recording an observation of `a` down to `depth` counts it at the node of a whole-nibble prefix `q` exactly
/// when `q` has at most `4 * depth` bits and is a prefix of `a`; every other node stays as it was.
pub proof fn lemma_contributes_iff_prefix(
    after: AddressTree,
    before: AddressTree,
    a: Address,
    depth: int,
    trusted: bool,
    q: AddressPrefix,
)
    requires
        after.bumped_along(before, a@, depth, trusted),
        0 <= depth <= 32,
        q.wf(),
        q.spec_bits() % 4 == 0,
    ensures
        after.node(path_of(q)) == if q.spec_bits() <= 4 * depth && agree_on(
            q.spec_first()@,
            a@,
            q.spec_bits() as int,
        ) {
            Some(bumped(before.node(path_of(q)), trusted))
        } else {
            before.node(path_of(q))
        },
{
    let n = q.spec_bits() as int / 4;
    let p = path_of(q);
    assert(after.node(p) == if within(p, a@, 0, depth) {
        Some(bumped(before.node(p), trusted))
    } else {
        before.node(p)
    });
    lemma_nibbles_agree(q.spec_first()@, a@, n);
    assert(4 * n == q.spec_bits());
    if within(p, a@, 0, depth) {
        assert forall|k: int| 0 <= k < n implies #[trigger] nibble(q.spec_first()@, k) == nibble(a@, k) by {
            assert(p[k] == nibble(a@, 0 + k));
        }
    }
    if q.spec_bits() <= 4 * depth && agree_on(q.spec_first()@, a@, q.spec_bits() as int) {
        assert forall|k: int| 0 <= k < p.len() implies #[trigger] p[k] == nibble(a@, 0 + k) by {
            assert(nibble(q.spec_first()@, k) == nibble(a@, k));
        }
    }
}

} // verus!
