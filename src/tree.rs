use crate::address::{prefix_of, Address};
use crate::address_tree::{
    bumped, kind_count, saturating_inc, spam_of, within, AddressTree, SerializedTreeOperation, TreeOperation,
};
use crate::node_index::nibbles;
use crate::time_list::{CoarseDuration, CoarseSystemTime, TimeList};
use std::collections::HashMap;
use vstd::prelude::*;

verus! {

broadcast use vstd::std_specs::hash::group_hash_axioms;

/// The most observations one user may have in the user window at once.
pub const ENTRIES_PER_USER: u8 = 5;

/// The hours before an observation's user is forgotten (30 days).
pub const USER_EXPIRY_HOURS: u16 = 720;

/// The hours before an observation stops counting at all (two years).
pub const ADDRESS_EXPIRY_HOURS: u16 = 17520;

pub const USER_BYTES: usize = 4;

/// The identifier of a client's user.
#[derive(Clone, Copy, Debug, PartialEq, Eq, Hash, PartialOrd, Ord)]
pub struct User(pub u32);

/// The number that four bytes make, most significant first.
pub open spec fn be_u32(b: Seq<u8>) -> int {
    b[0] * 16777216 + b[1] * 65536 + b[2] * 256 + b[3]
}

impl User {
    pub fn from_bytes(bytes: [u8; 4]) -> (r: Self)
        ensures
            r.0 == be_u32(bytes@),
    {
        User(
            (bytes[0] as u32) * 16777216 + (bytes[1] as u32) * 65536 + (bytes[2] as u32) * 256
                + bytes[3] as u32,
        )
    }
}

/// The numbers of trusted and spam observations counted at a prefix.
#[derive(Clone, Copy, Debug, PartialEq, Eq)]
pub struct SpamStats {
    pub trusted_users: u32,
    pub spam_users: u32,
}

impl SpamStats {
    pub fn empty() -> (r: Self)
        ensures
            r.trusted_users == 0,
            r.spam_users == 0,
    {
        SpamStats { trusted_users: 0, spam_users: 0 }
    }
}

/// The counts at the longest recorded prefix of an address, and that prefix's number of bits.
#[derive(Clone, Copy, Debug, PartialEq, Eq)]
pub struct QueryResult {
    pub stats: SpamStats,
    pub prefix_bits: u8,
}

/// An accepted observation while its user is still known: what was counted, and by whom.
#[derive(Clone, Copy, Debug)]
pub struct Operation {
    pub operation: TreeOperation,
    pub user: User,
}

/// The number of entries of user `u` in a user window.
pub open spec fn user_count(s: Seq<(Operation, int)>, u: u32) -> nat
    decreases s.len(),
{
    if s.len() == 0 {
        0
    } else {
        (if s[0].0.user.0 == u {
            1nat
        } else {
            0nat
        }) + user_count(s.drop_first(), u)
    }
}

/// The operations of an address window, oldest first.
pub open spec fn address_ops(s: Seq<(TreeOperation, int)>) -> Seq<TreeOperation> {
    s.map_values(|e: (TreeOperation, int)| e.0)
}

/// The operations of a user window, oldest first.
pub open spec fn user_ops(s: Seq<(Operation, int)>) -> Seq<TreeOperation> {
    s.map_values(|e: (Operation, int)| e.0.operation)
}

/// The entries of a user window as the address window takes them: without the user.
pub open spec fn without_users(s: Seq<(Operation, int)>) -> Seq<(TreeOperation, int)> {
    s.map_values(|e: (Operation, int)| (e.0.operation, e.1))
}

/// `after` is `before` without its leading entries older than `limit` before `now`, and no more.
pub open spec fn trimmed<A>(after: Seq<(A, int)>, before: Seq<(A, int)>, limit: int, now: int) -> bool {
    exists|k: int| trimmed_by(after, before, limit, now, k)
}

/// `after` is `before` without its first `k` entries, which are those older than `limit` before `now`.
pub open spec fn trimmed_by<A>(after: Seq<(A, int)>, before: Seq<(A, int)>, limit: int, now: int, k: int) -> bool {
    &&& 0 <= k <= before.len()
    &&& after == before.skip(k)
    &&& forall|i: int| 0 <= i < k ==> #[trigger] before[i].1 + limit < now
    &&& after.len() > 0 ==> after[0].1 + limit >= now
}

/// The reputation core: a trie of counts, a window of recent observations with their users, and a window
/// of older ones without users, whose expiry takes their counts out of the trie again.
pub struct SpamTree {
    users: HashMap<u32, u8>,
    tree: AddressTree,
    user_window: TimeList<Operation>,
    address_window: TimeList<TreeOperation>,
    /// The counted operations that are in neither window, such as those replayed from a log.
    base: Ghost<Seq<TreeOperation>>,
}

impl SpamTree {
    pub closed spec fn users(&self) -> Map<u32, u8> {
        self.users@
    }

    pub closed spec fn trie(&self) -> AddressTree {
        self.tree
    }

    /// The user window: accepted observations with their users and times, oldest first.
    pub closed spec fn user_entries(&self) -> Seq<(Operation, int)> {
        self.user_window.view()
    }

    /// The address window: observations whose user is forgotten, with their times, oldest first.
    pub closed spec fn address_entries(&self) -> Seq<(TreeOperation, int)> {
        self.address_window.view()
    }

    /// The counted operations that are in neither window.
    pub closed spec fn base(&self) -> Seq<TreeOperation> {
        self.base@
    }

    pub closed spec fn wf(&self) -> bool {
        &&& self.tree.wf()
        &&& self.user_window.wf()
        &&& self.address_window.wf()
        &&& self.user_window.limit() == USER_EXPIRY_HOURS
        &&& self.address_window.limit() == ADDRESS_EXPIRY_HOURS
        &&& self.tree.ops() == self.base@ + address_ops(self.address_window.view()) + user_ops(
            self.user_window.view(),
        )
        &&& forall|u: u32| #[trigger] self.users@.contains_key(u) == (user_count(self.user_window.view(), u) > 0)
        &&& forall|u: u32|
            #[trigger] self.users@.contains_key(u) ==> self.users@[u] == user_count(self.user_window.view(), u)
        &&& forall|u: u32| #[trigger] user_count(self.user_window.view(), u) <= ENTRIES_PER_USER
        &&& self.user_window.view().len() > 0 && self.address_window.view().len() > 0
            ==> self.address_window.last_time() <= self.user_window.view()[0].1
        &&& self.user_window.view().len() > 0 ==> self.user_window.last_time() <= self.user_window.view()[0].1
            + USER_EXPIRY_HOURS + 1
    }

    /// The latest time in either window, or zero.
    pub open spec fn latest(&self) -> int {
        let u = if self.user_entries().len() > 0 {
            self.user_entries().last().1
        } else {
            0
        };
        let a = if self.address_entries().len() > 0 {
            self.address_entries().last().1
        } else {
            0
        };
        if u >= a {
            u
        } else {
            a
        }
    }

    /// `now` is not more than an hour before any time the windows hold.
    pub open spec fn accepts_time(&self, now: int) -> bool {
        now + 1 >= self.latest()
    }

    /// `self` is `old` advanced to `now`: the expired entries of the user window have moved, without their
    /// users, to the address window, whose expired entries are gone from it and no longer counted.
    pub open spec fn advanced(&self, old: SpamTree, now: int) -> bool {
        &&& exists|k: int| self.advanced_by(old, now, k)
        &&& self.base() == old.base()
        &&& self.trie().keys() == old.trie().keys()
        &&& self.trie().log() == old.trie().log()
        &&& self.trie().exact() == old.trie().exact()
    }

    /// The windows part of `advanced`, where `k` entries of the user window expired.
    pub open spec fn advanced_by(&self, old: SpamTree, now: int, k: int) -> bool {
        &&& trimmed_by(self.user_entries(), old.user_entries(), USER_EXPIRY_HOURS as int, now, k)
        &&& trimmed(
            self.address_entries(),
            old.address_entries() + without_users(old.user_entries().take(k)),
            ADDRESS_EXPIRY_HOURS as int,
            now,
        )
        &&& self.address_entries().len() == old.address_entries().len() + k ==> self.trie() == old.trie()
    }

    /// An empty core whose log checksum is keyed with `key0` and `key1`.
    pub fn new_with_keys(key0: u64, key1: u64) -> (r: Self)
        ensures
            r.wf(),
            r.trie().keys() == (key0, key1),
            r.trie().log() == Seq::<u8>::empty(),
            r.trie().exact(),
            r.user_entries() == Seq::<(Operation, int)>::empty(),
            r.address_entries() == Seq::<(TreeOperation, int)>::empty(),
            r.base() == Seq::<TreeOperation>::empty(),
            r.users() == Map::<u32, u8>::empty(),
    {
        Self::from_tree(AddressTree::new_with_keys(key0, key1))
    }

    /// An empty core with unkeyed log checksum.
    pub fn new() -> (r: Self)
        ensures
            r.wf(),
            r.trie().keys() == (0u64, 0u64),
            r.trie().log() == Seq::<u8>::empty(),
            r.trie().exact(),
            r.user_entries() == Seq::<(Operation, int)>::empty(),
            r.address_entries() == Seq::<(TreeOperation, int)>::empty(),
            r.base() == Seq::<TreeOperation>::empty(),
            r.users() == Map::<u32, u8>::empty(),
    {
        Self::new_with_keys(0, 0)
    }

    /// A core around a trie, such as one rebuilt from a log, with empty windows: what the trie counts will
    /// not expire.
    pub fn from_tree(tree: AddressTree) -> (r: Self)
        requires
            tree.wf(),
        ensures
            r.wf(),
            r.trie() == tree,
            r.base() == tree.ops(),
            r.user_entries() == Seq::<(Operation, int)>::empty(),
            r.address_entries() == Seq::<(TreeOperation, int)>::empty(),
            r.users() == Map::<u32, u8>::empty(),
    {
        let r = SpamTree {
            users: HashMap::new(),
            base: Ghost(tree.ops()),
            tree,
            user_window: TimeList::new(CoarseDuration { hours: USER_EXPIRY_HOURS }),
            address_window: TimeList::new(CoarseDuration { hours: ADDRESS_EXPIRY_HOURS }),
        };
        proof {
            assert(r.tree.ops() =~= r.base@ + address_ops(r.address_window.view()) + user_ops(
                r.user_window.view(),
            ));
        }
        r
    }

    /// Each user's count is the number of its entries in the user window, from one to the
    /// cap, and users without entries have none.
    pub proof fn lemma_user_counts(&self)
        requires
            self.wf(),
        ensures
            forall|u: u32| #[trigger] self.users().contains_key(u) == (user_count(self.user_entries(), u) > 0),
            forall|u: u32|
                #[trigger] self.users().contains_key(u) ==> self.users()[u] == user_count(self.user_entries(), u)
                    && 1 <= self.users()[u] <= ENTRIES_PER_USER,
    {
    }
}

/// `r` answers a query for `a` on the trie `t`: the counts at the deepest node below the root on the path
/// to `a`, and the number of bits of that path; no counts and zero bits where there is no such node.
pub open spec fn answers(t: AddressTree, a: Seq<u8>, r: QueryResult) -> bool {
    &&& r.prefix_bits % 4 == 0
    &&& r.prefix_bits <= 128
    &&& r.prefix_bits > 0 ==> t.node(nibbles(a).take(r.prefix_bits as int / 4)) == Some(
        (r.stats.trusted_users, r.stats.spam_users),
    )
    &&& r.prefix_bits == 0 ==> r.stats.trusted_users == 0 && r.stats.spam_users == 0
    &&& forall|d: int| r.prefix_bits as int / 4 < d <= 32 ==> #[trigger] t.node(nibbles(a).take(d)) is None
}

/// The time an observation at `now` is entered at: `now`, or the latest time in the windows if that is later.
pub open spec fn entry_time(mid: SpamTree, now: int) -> int {
    if now >= mid.latest() {
        now
    } else {
        mid.latest()
    }
}

impl SpamTree {
    /// The user is at the cap.
    pub open spec fn at_cap(&self, user: User) -> bool {
        self.users().contains_key(user.0) && self.users()[user.0] == ENTRIES_PER_USER
    }

    /// What is the same after an accepted observation by `user` of `op` at `now`, starting from `mid`.
    pub open spec fn entered(&self, mid: SpamTree, op: TreeOperation, user: User, now: int) -> bool {
        &&& self.user_entries() == mid.user_entries().push((Operation { operation: op, user }, entry_time(mid, now)))
        &&& self.address_entries() == mid.address_entries()
        &&& self.base() == mid.base()
        &&& self.users() == mid.users().insert(user.0, (user_count(mid.user_entries(), user.0) + 1) as u8)
    }

    /// `self` is `mid` after accepting a trust observation of `address` by `user` at `now`, logged as `r`.
    pub open spec fn recorded_trust(&self, mid: SpamTree, address: Address, user: User, now: int, r: SerializedTreeOperation) -> bool {
        let depth = mid.trie().trust_depth(address@);
        let op = self.user_entries().last().0.operation;
        &&& op matches TreeOperation::Trust(p) && p.spec_bits() == 4 * depth && p.spec_first()@ == prefix_of(
            address@,
            4 * depth,
        )
        &&& self.entered(mid, op, user, now)
        &&& self.trie().bumped_along(mid.trie(), address@, depth, true)
        &&& self.trie().logged(mid.trie(), seq![(4 * depth) as u8] + prefix_of(address@, 4 * depth), r)
        &&& self.trie().exact() == (mid.trie().exact() && mid.trie().room_along(address@, depth, true))
    }

    /// `self` is `mid` after accepting a spam observation of `address` by `user` at `now`, logged as `r`.
    pub open spec fn recorded_spam(&self, mid: SpamTree, address: Address, user: User, now: int, r: SerializedTreeOperation) -> bool {
        let op = TreeOperation::Spam(address);
        &&& self.entered(mid, op, user, now)
        &&& self.trie().applied(mid.trie(), op, r)
        &&& self.trie().exact() == (mid.trie().exact() && mid.trie().room_along(address@, 32, false))
    }

    /// Moves the expired entries of the user window, without their users, to the end of the address window,
    /// and takes them off their users' counts; returns how many moved.
    fn move_expired_users(&mut self, now: CoarseSystemTime) -> (n: usize)
        requires
            old(self).tree.wf(),
            old(self).user_window.wf(),
            old(self).address_window.wf(),
            old(self).user_window.limit() == USER_EXPIRY_HOURS,
            old(self).address_window.limit() == ADDRESS_EXPIRY_HOURS,
            old(self).tree.ops() == old(self).base@ + address_ops(old(self).address_window.view()) + user_ops(
                old(self).user_window.view(),
            ),
            forall|u: u32| #[trigger] old(self).users@.contains_key(u) == (user_count(old(self).user_window.view(), u) > 0),
            forall|u: u32|
                #[trigger] old(self).users@.contains_key(u) ==> old(self).users@[u] == user_count(old(self).user_window.view(), u),
            forall|u: u32| #[trigger] user_count(old(self).user_window.view(), u) <= ENTRIES_PER_USER,
            old(self).user_window.view().len() > 0 && old(self).address_window.view().len() > 0
                ==> old(self).address_window.last_time() <= old(self).user_window.view()[0].1,
            old(self).user_window.view().len() > 0 ==> old(self).user_window.last_time() <= old(self).user_window.view()[0].1
                + USER_EXPIRY_HOURS + 1,
            old(self).address_window.view().len() > 0 ==> old(self).address_window.view()[0].1 + ADDRESS_EXPIRY_HOURS >= now.hours(),
        ensures
            final(self).tree == old(self).tree,
            final(self).base == old(self).base,
            final(self).user_window.wf(),
            final(self).address_window.wf(),
            final(self).user_window.limit() == USER_EXPIRY_HOURS,
            final(self).address_window.limit() == ADDRESS_EXPIRY_HOURS,
            n <= old(self).user_window.view().len(),
            final(self).user_window.view() == old(self).user_window.view().skip(n as int),
            forall|i: int| 0 <= i < n ==> #[trigger] old(self).user_window.view()[i].1 + USER_EXPIRY_HOURS < now.hours(),
            final(self).user_window.view().len() > 0 ==> final(self).user_window.view()[0].1 + USER_EXPIRY_HOURS >= now.hours(),
            final(self).address_window.view() == old(self).address_window.view() + without_users(
                old(self).user_window.view().take(n as int),
            ),
            final(self).tree.ops() == final(self).base@ + address_ops(final(self).address_window.view()) + user_ops(
                final(self).user_window.view(),
            ),
            forall|u: u32| #[trigger] final(self).users@.contains_key(u) == (user_count(final(self).user_window.view(), u) > 0),
            forall|u: u32|
                #[trigger] final(self).users@.contains_key(u) ==> final(self).users@[u] == user_count(final(self).user_window.view(), u),
            forall|u: u32| #[trigger] user_count(final(self).user_window.view(), u) <= ENTRIES_PER_USER,
            final(self).user_window.view().len() > 0 && final(self).address_window.view().len() > 0
                ==> final(self).address_window.last_time() <= final(self).user_window.view()[0].1,
            final(self).user_window.view().len() > 0 ==> final(self).user_window.last_time() <= final(self).user_window.view()[0].1
                + USER_EXPIRY_HOURS + 1,
    {
        let ghost u0 = self.user_window.view();
        let ghost aw1 = self.address_window.view();
        let ghost t1 = self.tree;
        proof {
            self.user_window.lemma_view_times();
            self.address_window.lemma_view_times();
            lemma_user_ops_split(u0, 0);
        }
        let moved = self.user_window.drain_expired(now);
        let ghost n = moved@.len() as int;
        proof {
            assert(self.tree.ops() =~= self.base@ + address_ops(aw1 + without_users(u0.take(0))) + user_ops(
                u0.skip(0),
            ));
            assert(aw1 + without_users(u0.take(0)) =~= aw1);
            assert(u0.skip(0) =~= u0);
        }
        let mut j: usize = 0;
        while j < moved.len()
            invariant
                0 <= j <= moved@.len(),
                n == moved@.len(),
                n <= u0.len(),
                forall|i: int|
                    0 <= i < n ==> {
                        &&& (#[trigger] moved@[i]).0 == u0[i].0
                        &&& moved@[i].1.hours() == u0[i].1
                        &&& u0[i].1 + USER_EXPIRY_HOURS < now.hours()
                    },
                forall|a: int, b: int| 0 <= a <= b < u0.len() ==> #[trigger] u0[a].1 <= #[trigger] u0[b].1,
                u0.len() > 0 ==> u0.last().1 <= u0[0].1 + USER_EXPIRY_HOURS + 1,
                aw1.len() > 0 && u0.len() > 0 ==> aw1.last().1 <= u0[0].1,
                aw1.len() > 0 ==> aw1[0].1 + ADDRESS_EXPIRY_HOURS >= now.hours(),
                self.user_window.wf(),
                self.user_window.limit() == USER_EXPIRY_HOURS,
                self.user_window.view() == u0.skip(n),
                self.address_window.wf(),
                self.address_window.limit() == ADDRESS_EXPIRY_HOURS,
                self.address_window.view() == aw1 + without_users(u0.take(j as int)),
                self.tree == t1,
                self.tree.wf(),
                self.tree.ops() == self.base@ + address_ops(self.address_window.view()) + user_ops(u0.skip(j as int)),
                self.base == old(self).base,
                forall|u: u32| #[trigger] self.users@.contains_key(u) == (user_count(u0.skip(j as int), u) > 0),
                forall|u: u32|
                    #[trigger] self.users@.contains_key(u) ==> self.users@[u] == user_count(u0.skip(j as int), u),
                forall|u: u32| #[trigger] user_count(u0.skip(j as int), u) <= ENTRIES_PER_USER,
            decreases moved@.len() - j,
        {
            let (op, t) = moved[j];
            let u = op.user.0;
            proof {
                assert(u0.skip(j as int)[0] == u0[j as int]);
                assert(u0.skip(j as int).drop_first() =~= u0.skip(j + 1));
                assert(user_count(u0.skip(j as int), u) >= 1);
                assert forall|v: u32| #[trigger] user_count(u0.skip(j + 1), v) <= ENTRIES_PER_USER by {
                    assert(user_count(u0.skip(j as int), v) <= ENTRIES_PER_USER);
                }
            }
            match self.users.get(&u) {
                Some(c) => {
                    let c = *c;
                    if c > 1 {
                        self.users.insert(u, c - 1);
                    } else {
                        self.users.remove(&u);
                    }
                },
                None => {},
            }
            proof {
                self.address_window.lemma_view_times();
                lemma_without_users_take(u0, j as int);
                if self.address_window.view().len() > 0 {
                    if j > 0 {
                        assert(self.address_window.last_time() == u0[j - 1].1);
                    } else {
                        assert(self.address_window.last_time() == aw1.last().1);
                    }
                    if aw1.len() > 0 {
                        assert(self.address_window.view()[0] == aw1[0]);
                    } else {
                        assert(self.address_window.view()[0].1 == u0[0].1);
                        assert(u0[j as int].1 <= u0.last().1);
                    }
                }
            }
            self.address_window.push(op.operation, t);
            proof {
                assert(self.address_window.view() =~= aw1 + without_users(u0.take(j + 1)));
                lemma_user_ops_split(u0, j as int);
                assert forall|v: u32| #[trigger] self.users@.contains_key(v) == (user_count(u0.skip(j + 1), v) > 0) by {
                    assert(user_count(u0.skip(j as int), v) == (if u0[j as int].0.user.0 == v {
                        1nat
                    } else {
                        0nat
                    }) + user_count(u0.skip(j + 1), v));
                }
                assert forall|v: u32| #[trigger] self.users@.contains_key(v) implies self.users@[v] == user_count(
                    u0.skip(j + 1),
                    v,
                ) by {
                    assert(user_count(u0.skip(j as int), v) == (if u0[j as int].0.user.0 == v {
                        1nat
                    } else {
                        0nat
                    }) + user_count(u0.skip(j + 1), v));
                }
            }
            j = j + 1;
        }
        proof {
            assert(u0.skip(n) =~= self.user_window.view());
            assert forall|i: int| 0 <= i < n implies #[trigger] u0[i].1 + USER_EXPIRY_HOURS < now.hours() by {
                assert(moved@[i].0 == u0[i].0);
            }
            self.address_window.lemma_view_times();
            self.user_window.lemma_view_times();
            if self.user_window.view().len() > 0 && self.address_window.view().len() > 0 {
                if n > 0 {
                    assert(self.address_window.last_time() == u0[n - 1].1);
                } else {
                    assert(self.address_window.view() =~= aw1);
                }
                assert(self.user_window.view()[0] == u0[n]);
            }
            if self.user_window.view().len() > 0 {
                assert(self.user_window.view()[0] == u0[n]);
                assert(self.user_window.last_time() == u0.last().1);
            }
        }
        moved.len()
    }

    /// Moves the expired entries of the user window, without their users, to the address window, and drops
    /// the expired entries of the address window, taking them out of the trie's counts.
    pub fn advance(&mut self, now: CoarseSystemTime)
        requires
            old(self).wf(),
        ensures
            final(self).wf(),
            final(self).advanced(*old(self), now.hours()),
    {
        let ghost s0 = *self;
        self.expire_addresses(now);
        let ghost s1 = *self;
        proof {
            self.user_window.lemma_view_times();
            self.address_window.lemma_view_times();
            s0.address_window.lemma_view_times();
            if self.user_window.view().len() > 0 && self.address_window.view().len() > 0 {
                assert(self.address_window.last_time() == s0.address_window.last_time());
            }
        }
        let n = self.move_expired_users(now);
        let ghost s2 = *self;
        self.expire_addresses(now);
        proof {
            self.address_window.lemma_view_times();
            s2.address_window.lemma_view_times();
            if self.user_window.view().len() > 0 && self.address_window.view().len() > 0 {
                assert(self.address_window.last_time() == s2.address_window.last_time());
            }
            lemma_advanced(s0, s1, s2, *self, n as int, now.hours());
        }
    }

    /// Whether `now` is not more than an hour before any time the windows hold.
    pub fn accepts(&self, now: CoarseSystemTime) -> (r: bool)
        requires
            self.wf(),
        ensures
            r == self.accepts_time(now.hours()),
    {
        let latest = self.latest_time();
        now.epoch_hours() as u64 + 1 >= latest as u64
    }

    /// Whether the log checksum can take one more record.
    pub fn log_has_room(&self) -> (r: bool)
        requires
            self.wf(),
        ensures
            r == self.trie().has_room(),
    {
        self.tree.has_room_for_record()
    }

    fn latest_time(&self) -> (r: u32)
        requires
            self.user_window.wf(),
            self.address_window.wf(),
        ensures
            r == self.latest(),
    {
        let u: u32 = match self.user_window.last() {
            Some(t) => t.epoch_hours(),
            None => 0,
        };
        let a: u32 = match self.address_window.last() {
            Some(t) => t.epoch_hours(),
            None => 0,
        };
        if u >= a {
            u
        } else {
            a
        }
    }

    /// Counts one more entry for `user`, unless it is at the cap; returns whether it was counted.
    fn try_increment(&mut self, user: User) -> (r: bool)
        requires
            forall|u: u32| #[trigger] old(self).users@.contains_key(u) ==> old(self).users@[u] <= ENTRIES_PER_USER,
        ensures
            r == !(old(self).users@.contains_key(user.0) && old(self).users@[user.0] == ENTRIES_PER_USER),
            r ==> final(self).users@ == old(self).users@.insert(
                user.0,
                if old(self).users@.contains_key(user.0) {
                    (old(self).users@[user.0] + 1) as u8
                } else {
                    1u8
                },
            ),
            !r ==> final(self).users@ == old(self).users@,
            final(self).tree == old(self).tree,
            final(self).user_window == old(self).user_window,
            final(self).address_window == old(self).address_window,
            final(self).base == old(self).base,
    {
        match self.users.get(&user.0) {
            Some(c) => {
                let c = *c;
                if c == ENTRIES_PER_USER {
                    return false;
                }
                self.users.insert(user.0, c + 1);
            },
            None => {
                self.users.insert(user.0, 1);
            },
        }
        true
    }

    /// Enters an accepted operation by `user` in the user window, after the trie has counted it.
    fn enter(&mut self, op: TreeOperation, user: User, now: CoarseSystemTime, Ghost(mid): Ghost<SpamTree>)
        requires
            mid.wf(),
            !mid.at_cap(user),
            mid.accepts_time(now.hours()),
            mid.user_entries().len() > 0 ==> mid.user_entries()[0].1 + USER_EXPIRY_HOURS >= now.hours(),
            old(self).users@ == mid.users@.insert(
                user.0,
                if mid.users@.contains_key(user.0) {
                    (mid.users@[user.0] + 1) as u8
                } else {
                    1u8
                },
            ),
            old(self).tree.wf(),
            old(self).tree.ops() == mid.tree.ops().push(op),
            old(self).user_window == mid.user_window,
            old(self).address_window == mid.address_window,
            old(self).base == mid.base,
        ensures
            final(self).wf(),
            final(self).entered(mid, op, user, now.hours()),
            final(self).tree == old(self).tree,
    {
        let time = if now.epoch_hours() >= self.latest_time() {
            now
        } else {
            CoarseSystemTime::from_epoch_hours(self.latest_time())
        };
        proof {
            mid.user_window.lemma_view_times();
            mid.address_window.lemma_view_times();
            lemma_user_count_bound(mid, user);
        }
        self.user_window.push(Operation { operation: op, user }, time);
        proof {
            let e = (Operation { operation: op, user }, entry_time(mid, now.hours()));
            assert(self.user_window.view() == mid.user_window.view().push(e));
            assert(self.tree.ops() =~= self.base@ + address_ops(self.address_window.view()) + user_ops(
                self.user_window.view(),
            ));
            assert forall|u: u32| #[trigger] user_count(self.user_window.view(), u) == user_count(mid.user_window.view(), u)
                + if u == user.0 {
                1nat
            } else {
                0nat
            } by {
                lemma_user_count_push(mid.user_window.view(), e, u);
            }
            assert forall|u: u32| #[trigger] user_count(self.user_window.view(), u) <= ENTRIES_PER_USER by {
                assert(user_count(mid.user_window.view(), u) <= ENTRIES_PER_USER);
            }
            self.user_window.lemma_view_times();
            if mid.user_window.view().len() > 0 {
                assert(self.user_window.view()[0] == mid.user_window.view()[0]);
            }
            assert(self.users@ == mid.users@.insert(user.0, (user_count(mid.user_window.view(), user.0) + 1) as u8));
        }
    }

    /// Accepts a trust observation of `address` by `user` at `now`, after advancing to `now`, unless the
    /// user is at the cap; returns the log record of what was counted, or `None` for a dropped observation.
    pub fn trust(&mut self, address: Address, user: User, now: CoarseSystemTime) -> (r: Option<SerializedTreeOperation>)
        requires
            old(self).wf(),
            old(self).accepts_time(now.hours()),
            old(self).trie().has_room(),
        ensures
            final(self).wf(),
            r is None ==> final(self).advanced(*old(self), now.hours()) && final(self).at_cap(user),
            r is Some ==> exists|mid: SpamTree|
                #![trigger mid.advanced(*old(self), now.hours())]
                mid.advanced(*old(self), now.hours()) && mid.wf() && !mid.at_cap(user) && final(self).recorded_trust(
                    mid,
                    address,
                    user,
                    now.hours(),
                    r.unwrap(),
                ),
    {
        self.advance(now);
        let ghost mid = *self;
        proof {
            lemma_advanced_accepts(*old(self), mid, now.hours());
        }
        if !self.try_increment(user) {
            proof {
                let k = choose|k: int| mid.advanced_by(*old(self), now.hours(), k);
                assert(self.advanced_by(*old(self), now.hours(), k));
            }
            return None;
        }
        let (op, record) = self.tree.trusted_op(address);
        proof {
            assert(self.tree.ops() =~= mid.tree.ops().push(op));
        }
        self.enter(op, user, now, Ghost(mid));
        proof {
            assert(self.user_entries().last().0.operation == op);
            assert(mid.advanced(*old(self), now.hours()));
        }
        Some(record)
    }

    /// Accepts a spam observation of `address` by `user` at `now`, after advancing to `now`, unless the user
    /// is at the cap; returns the log record of what was counted, or `None` for a dropped observation.
    pub fn spam(&mut self, address: Address, user: User, now: CoarseSystemTime) -> (r: Option<SerializedTreeOperation>)
        requires
            old(self).wf(),
            old(self).accepts_time(now.hours()),
            old(self).trie().has_room(),
        ensures
            final(self).wf(),
            r is None ==> final(self).advanced(*old(self), now.hours()) && final(self).at_cap(user),
            r is Some ==> exists|mid: SpamTree|
                #![trigger mid.advanced(*old(self), now.hours())]
                mid.advanced(*old(self), now.hours()) && mid.wf() && !mid.at_cap(user) && final(self).recorded_spam(
                    mid,
                    address,
                    user,
                    now.hours(),
                    r.unwrap(),
                ),
    {
        self.advance(now);
        let ghost mid = *self;
        proof {
            lemma_advanced_accepts(*old(self), mid, now.hours());
        }
        if !self.try_increment(user) {
            proof {
                let k = choose|k: int| mid.advanced_by(*old(self), now.hours(), k);
                assert(self.advanced_by(*old(self), now.hours(), k));
            }
            return None;
        }
        let record = self.tree.record_spam(address);
        self.enter(TreeOperation::Spam(address), user, now, Ghost(mid));
        proof {
            assert(mid.advanced(*old(self), now.hours()));
        }
        Some(record)
    }

    /// The counts at the longest recorded prefix of `address`, and its number of bits, without advancing.
    pub fn query_stale(&self, address: &Address) -> (r: QueryResult)
        ensures
            answers(self.trie(), address@, r),
    {
        let q = self.tree.query(address);
        if q.prefix_bits == 0 {
            QueryResult { stats: SpamStats::empty(), prefix_bits: 0 }
        } else {
            QueryResult {
                stats: SpamStats { trusted_users: q.trusted_count, spam_users: q.spam_count },
                prefix_bits: q.prefix_bits,
            }
        }
    }

    /// Advances to `now`, then answers as `query_stale`.
    pub fn query(&mut self, address: &Address, now: CoarseSystemTime) -> (r: QueryResult)
        requires
            old(self).wf(),
        ensures
            final(self).wf(),
            final(self).advanced(*old(self), now.hours()),
            answers(final(self).trie(), address@, r),
    {
        self.advance(now);
        self.query_stale(address)
    }

    /// Removes the expired entries of the address window and stops counting them in the trie.
    fn expire_addresses(&mut self, now: CoarseSystemTime)
        requires
            old(self).tree.wf(),
            old(self).address_window.wf(),
            old(self).address_window.limit() == ADDRESS_EXPIRY_HOURS,
            old(self).tree.ops() == old(self).base@ + address_ops(old(self).address_window.view()) + user_ops(
                old(self).user_window.view(),
            ),
        ensures
            final(self).tree.wf(),
            final(self).address_window.wf(),
            final(self).address_window.limit() == ADDRESS_EXPIRY_HOURS,
            final(self).tree.ops() == final(self).base@ + address_ops(final(self).address_window.view()) + user_ops(
                final(self).user_window.view(),
            ),
            trimmed(final(self).address_window.view(), old(self).address_window.view(), ADDRESS_EXPIRY_HOURS as int, now.hours()),
            final(self).address_window.view().len() == old(self).address_window.view().len() ==> final(self).tree == old(self).tree,
            final(self).tree.keys() == old(self).tree.keys(),
            final(self).tree.log() == old(self).tree.log(),
            final(self).tree.exact() == old(self).tree.exact(),
            final(self).user_window == old(self).user_window,
            final(self).users == old(self).users,
            final(self).base == old(self).base,
    {
        let trim = self.address_window.trim(now);
        let ghost start = self.address_window.view();
        let ghost k: int = 0;
        loop
            invariant
                self.tree.wf(),
                self.address_window.wf(),
                self.address_window.limit() == ADDRESS_EXPIRY_HOURS,
                self.tree.ops() == self.base@ + address_ops(self.address_window.view()) + user_ops(
                    self.user_window.view(),
                ),
                trim.now() == now.hours(),
                trim.limit() == ADDRESS_EXPIRY_HOURS,
                start == old(self).address_window.view(),
                0 <= k <= start.len(),
                self.address_window.view() == start.skip(k),
                forall|i: int| 0 <= i < k ==> #[trigger] start[i].1 + ADDRESS_EXPIRY_HOURS < now.hours(),
                k == 0 ==> self.tree == old(self).tree,
                self.tree.keys() == old(self).tree.keys(),
                self.tree.log() == old(self).tree.log(),
                self.tree.exact() == old(self).tree.exact(),
                self.user_window == old(self).user_window,
                self.users == old(self).users,
                self.base == old(self).base,
            ensures
                self.tree.wf(),
                self.address_window.wf(),
                self.address_window.limit() == ADDRESS_EXPIRY_HOURS,
                self.tree.ops() == self.base@ + address_ops(self.address_window.view()) + user_ops(
                    self.user_window.view(),
                ),
                0 <= k <= start.len(),
                self.address_window.view() == start.skip(k),
                forall|i: int| 0 <= i < k ==> #[trigger] start[i].1 + ADDRESS_EXPIRY_HOURS < now.hours(),
                self.address_window.view().len() > 0 ==> self.address_window.view()[0].1 + ADDRESS_EXPIRY_HOURS
                    >= now.hours(),
                k == 0 ==> self.tree == old(self).tree,
                self.tree.keys() == old(self).tree.keys(),
                self.tree.log() == old(self).tree.log(),
                self.tree.exact() == old(self).tree.exact(),
                self.user_window == old(self).user_window,
                self.users == old(self).users,
                self.base == old(self).base,
            decreases self.address_window.view().len(),
        {
            let ghost before = self.address_window.view();
            match trim.next(&mut self.address_window) {
                Some((op, _time)) => {
                    let ghost b = self.base@.len() as int;
                    proof {
                        let all = self.tree.ops();
                        assert(all[b] == address_ops(before)[0]);
                        assert(all.remove(b) =~= self.base@ + address_ops(self.address_window.view()) + user_ops(
                            self.user_window.view(),
                        ));
                    }
                    self.tree.unrecord(&op, Ghost(b));
                    proof {
                        k = k + 1;
                        assert(self.address_window.view() =~= start.skip(k));
                    }
                },
                None => {
                    break;
                },
            }
        }
        proof {
            assert(trimmed_by(self.address_window.view(), start, ADDRESS_EXPIRY_HOURS as int, now.hours(), k));
        }
    }
}

proof fn lemma_user_ops_split(u: Seq<(Operation, int)>, j: int)
    requires
        0 <= j < u.len() || j == 0,
    ensures
        0 <= j < u.len() ==> user_ops(u.skip(j)) =~= seq![u[j].0.operation] + user_ops(u.skip(j + 1)),
        0 <= j < u.len() ==> address_ops(without_users(u.take(j + 1))) =~= address_ops(without_users(u.take(j)))
            + seq![u[j].0.operation],
        address_ops(without_users(u.take(0))) =~= Seq::<TreeOperation>::empty(),
{
}

proof fn lemma_without_users_take(u: Seq<(Operation, int)>, j: int)
    requires
        0 <= j < u.len(),
    ensures
        without_users(u.take(j + 1)) =~= without_users(u.take(j)).push((u[j].0.operation, u[j].1)),
        j > 0 ==> without_users(u.take(j)).last() == (u[j - 1].0.operation, u[j - 1].1),
{
}

/// The three steps of `advance` make up `advanced`.
proof fn lemma_advanced(s0: SpamTree, s1: SpamTree, s2: SpamTree, s3: SpamTree, n: int, now: int)
    requires
        trimmed(s1.address_entries(), s0.address_entries(), ADDRESS_EXPIRY_HOURS as int, now),
        s1.address_entries().len() == s0.address_entries().len() ==> s1.tree == s0.tree,
        s1.user_entries() == s0.user_entries(),
        0 <= n <= s1.user_entries().len(),
        s2.user_entries() == s1.user_entries().skip(n),
        forall|i: int| 0 <= i < n ==> #[trigger] s1.user_entries()[i].1 + USER_EXPIRY_HOURS < now,
        s2.user_entries().len() > 0 ==> s2.user_entries()[0].1 + USER_EXPIRY_HOURS >= now,
        s2.address_entries() == s1.address_entries() + without_users(s1.user_entries().take(n)),
        s2.tree == s1.tree,
        trimmed(s3.address_entries(), s2.address_entries(), ADDRESS_EXPIRY_HOURS as int, now),
        s3.address_entries().len() == s2.address_entries().len() ==> s3.tree == s2.tree,
        s3.user_entries() == s2.user_entries(),
        s3.base == s0.base,
        s3.tree.keys() == s0.tree.keys(),
        s3.tree.log() == s0.tree.log(),
        s3.tree.exact() == s0.tree.exact(),
    ensures
        s3.advanced(s0, now),
{
    let a0 = s0.address_entries();
    let a1 = s1.address_entries();
    let a2 = s2.address_entries();
    let a3 = s3.address_entries();
    let w = without_users(s0.user_entries().take(n));
    let ka = choose|k: int| trimmed_by(a1, a0, ADDRESS_EXPIRY_HOURS as int, now, k);
    let kb = choose|k: int| trimmed_by(a3, a2, ADDRESS_EXPIRY_HOURS as int, now, k);
    let all = a0 + w;
    assert(a2 =~= all.skip(ka));
    assert(a3 =~= all.skip(ka + kb));
    assert forall|i: int| 0 <= i < ka + kb implies #[trigger] all[i].1 + ADDRESS_EXPIRY_HOURS < now by {
        if i >= ka {
            assert(all[i] == a2[i - ka]);
        }
    }
    assert(trimmed_by(a3, all, ADDRESS_EXPIRY_HOURS as int, now, ka + kb));
    assert(s3.advanced_by(s0, now, n));
}

proof fn lemma_user_count_push(s: Seq<(Operation, int)>, e: (Operation, int), u: u32)
    ensures
        user_count(s.push(e), u) == user_count(s, u) + if e.0.user.0 == u {
            1nat
        } else {
            0nat
        },
    decreases s.len(),
{
    if s.len() > 0 {
        assert(s.push(e).drop_first() =~= s.drop_first().push(e));
        lemma_user_count_push(s.drop_first(), e, u);
    } else {
        assert(s.push(e).drop_first() =~= s);
    }
}

proof fn lemma_user_count_bound(t: SpamTree, user: User)
    requires
        t.wf(),
        !t.at_cap(user),
    ensures
        user_count(t.user_window.view(), user.0) < ENTRIES_PER_USER,
        t.users@.contains_key(user.0) ==> t.users@[user.0] == user_count(t.user_window.view(), user.0),
        !t.users@.contains_key(user.0) ==> user_count(t.user_window.view(), user.0) == 0,
{
    assert(user_count(t.user_window.view(), user.0) <= ENTRIES_PER_USER);
}

/// Advancing keeps the windows' times, so a time accepted before is accepted after; and what is left of the
/// user window is not expired.
proof fn lemma_advanced_accepts(before: SpamTree, after: SpamTree, now: int)
    requires
        before.wf(),
        after.wf(),
        after.advanced(before, now),
        before.accepts_time(now),
    ensures
        after.accepts_time(now),
        after.user_entries().len() > 0 ==> after.user_entries()[0].1 + USER_EXPIRY_HOURS >= now,
{
    before.user_window.lemma_view_times();
    before.address_window.lemma_view_times();
    after.user_window.lemma_view_times();
    after.address_window.lemma_view_times();
    let k = choose|k: int| after.advanced_by(before, now, k);
    let all = before.address_entries() + without_users(before.user_entries().take(k));
    let k2 = choose|k2: int| trimmed_by(after.address_entries(), all, ADDRESS_EXPIRY_HOURS as int, now, k2);
    let bu = before.user_entries();
    let au = after.user_entries();
    if au.len() > 0 {
        assert(au[au.len() - 1] == bu[au.len() - 1 + k]);
        assert(au.last() == bu.last());
    }
    if after.address_entries().len() > 0 {
        assert(after.address_entries().last() == all.last());
        if k > 0 {
            let w = without_users(before.user_entries().take(k));
            assert(w.len() == k);
            assert(w[k - 1] == (before.user_entries()[k - 1].0.operation, before.user_entries()[k - 1].1));
            assert(all.last() == w[k - 1]);
            assert(before.user_entries()[k - 1].1 <= before.user_entries().last().1);
        } else {
            assert(all =~= before.address_entries());
        }
    }
    let ul = if au.len() > 0 {
        au.last().1
    } else {
        0
    };
    let al = if after.address_entries().len() > 0 {
        after.address_entries().last().1
    } else {
        0
    };
    let bul = if bu.len() > 0 {
        bu.last().1
    } else {
        0
    };
    let bal = if before.address_entries().len() > 0 {
        before.address_entries().last().1
    } else {
        0
    };
    assert(trimmed_by(au, bu, USER_EXPIRY_HOURS as int, now, k));
    if au.len() > 0 {
        assert(bu.len() > 0);
        assert(ul == bul);
    } else {
        assert(ul == 0);
    }
    assert(ul <= bul);
    if after.address_entries().len() > 0 {
        if k > 0 {
            assert(bu.len() > 0);
            assert(al <= bul);
        } else {
            assert(before.address_entries().len() > 0);
            assert(al == bal);
        }
    }
    assert(al <= bul || al <= bal);
    assert(after.latest() <= before.latest());
}


impl SpamTree {
    /// The operations the trie counts are those with no window entry, then those of the address window,
    /// then those of the user window.
    pub proof fn lemma_counted_operations(&self)
        requires
            self.wf(),
        ensures
            self.trie().wf(),
            self.trie().ops() == self.base() + address_ops(self.address_entries()) + user_ops(self.user_entries()),
    {
    }

    /// Advancing to `now` twice changes nothing the second time.
    pub proof fn lemma_advance_idempotent(s0: SpamTree, s1: SpamTree, s2: SpamTree, now: int)
        requires
            s1.wf(),
            s2.wf(),
            s1.advanced(s0, now),
            s2.advanced(s1, now),
        ensures
            s2.user_entries() == s1.user_entries(),
            s2.address_entries() == s1.address_entries(),
            s2.users() == s1.users(),
            s2.trie() == s1.trie(),
            s2.base() == s1.base(),
    {
        let k = choose|k: int| s2.advanced_by(s1, now, k);
        if k > 0 {
            assert(s1.user_entries()[0].1 + USER_EXPIRY_HOURS < now);
        }
        assert(s2.user_entries() =~= s1.user_entries());
        let all = s1.address_entries() + without_users(s1.user_entries().take(k));
        assert(all =~= s1.address_entries());
        let k0 = choose|k0: int| s1.advanced_by(s0, now, k0);
        let k2 = choose|k2: int| trimmed_by(s2.address_entries(), all, ADDRESS_EXPIRY_HOURS as int, now, k2);
        let k1 = choose|k1: int|
            trimmed_by(
                s1.address_entries(),
                s0.address_entries() + without_users(s0.user_entries().take(k0)),
                ADDRESS_EXPIRY_HOURS as int,
                now,
                k1,
            );
        if k2 > 0 {
            assert(all[0].1 + ADDRESS_EXPIRY_HOURS < now);
        }
        assert(s2.address_entries() =~= s1.address_entries());
        assert forall|u: u32| #[trigger] s2.users().contains_key(u) == s1.users().contains_key(u) by {
            assert(s2.users@.contains_key(u) == (user_count(s2.user_window.view(), u) > 0));
            assert(s1.users@.contains_key(u) == (user_count(s1.user_window.view(), u) > 0));
        }
        assert forall|u: u32| #[trigger] s2.users().contains_key(u) implies s2.users()[u] == s1.users()[u] by {
            assert(s2.users@[u] == user_count(s2.user_window.view(), u));
            assert(s1.users@[u] == user_count(s1.user_window.view(), u));
        }
        assert(s2.users() =~= s1.users());
    }

    /// After advancing to `now`, every entry left in the user window is less than the user expiry old, and
    /// every entry left in the address window less than the address expiry: an observation made more than
    /// both expiries before `now` is counted no more, unless it has no window entry.
    pub proof fn lemma_advance_expires(s0: SpamTree, s1: SpamTree, now: int)
        requires
            s1.wf(),
            s1.advanced(s0, now),
        ensures
            forall|i: int|
                0 <= i < s1.user_entries().len() ==> #[trigger] s1.user_entries()[i].1 + USER_EXPIRY_HOURS >= now,
            forall|i: int|
                0 <= i < s1.address_entries().len() ==> #[trigger] s1.address_entries()[i].1 + ADDRESS_EXPIRY_HOURS
                    >= now,
    {
        s1.user_window.lemma_view_times();
        s1.address_window.lemma_view_times();
        let k0 = choose|k0: int| s1.advanced_by(s0, now, k0);
        let k1 = choose|k1: int|
            trimmed_by(
                s1.address_entries(),
                s0.address_entries() + without_users(s0.user_entries().take(k0)),
                ADDRESS_EXPIRY_HOURS as int,
                now,
                k1,
            );
        assert forall|i: int| 0 <= i < s1.user_entries().len() implies #[trigger] s1.user_entries()[i].1
            + USER_EXPIRY_HOURS >= now by {
            assert(s1.user_entries()[0].1 <= s1.user_entries()[i].1);
        }
        assert forall|i: int| 0 <= i < s1.address_entries().len() implies #[trigger] s1.address_entries()[i].1
            + ADDRESS_EXPIRY_HOURS >= now by {
            assert(s1.address_entries()[0].1 <= s1.address_entries()[i].1);
        }
    }

    /// After a spam observation is accepted at `now`, a query at the same `now` finds the whole address with
    /// at least one spam observation.
    pub proof fn lemma_spam_then_query(
        s0: SpamTree,
        mid: SpamTree,
        s1: SpamTree,
        s2: SpamTree,
        address: Address,
        user: User,
        now: int,
        rec: SerializedTreeOperation,
        r: QueryResult,
    )
        requires
            mid.wf(),
            s1.wf(),
            s2.wf(),
            mid.advanced(s0, now),
            s1.recorded_spam(mid, address, user, now, rec),
            s2.advanced(s1, now),
            answers(s2.trie(), address@, r),
        ensures
            s2.trie() == s1.trie(),
            r.prefix_bits == 128,
            r.stats.spam_users == saturating_inc(spam_of(mid.trie().node(nibbles(address@)))),
            r.stats.spam_users >= 1,
    {
        lemma_accepted_then_advanced(s0, mid, s1, s2, now);
        let p = nibbles(address@).take(32);
        assert(within(p, address@, 0, 32));
        assert(s1.trie().node(p) == Some(bumped(mid.trie().node(p), false)));
        assert(p =~= nibbles(address@));
    }

    /// After a trust observation is accepted at `now`, a query at the same `now` finds a prefix at least as
    /// long as the one recorded, and the node of the recorded prefix counts at least one trust.
    pub proof fn lemma_trust_then_query(
        s0: SpamTree,
        mid: SpamTree,
        s1: SpamTree,
        s2: SpamTree,
        address: Address,
        user: User,
        now: int,
        rec: SerializedTreeOperation,
        r: QueryResult,
    )
        requires
            mid.wf(),
            s1.wf(),
            s2.wf(),
            mid.advanced(s0, now),
            s1.recorded_trust(mid, address, user, now, rec),
            s2.advanced(s1, now),
            answers(s2.trie(), address@, r),
        ensures
            s2.trie() == s1.trie(),
            r.prefix_bits >= 4 * mid.trie().trust_depth(address@),
            kind_count(s2.trie().node(nibbles(address@).take(mid.trie().trust_depth(address@))), true) >= 1,
    {
        lemma_accepted_then_advanced(s0, mid, s1, s2, now);
        let depth = mid.trie().trust_depth(address@);
        mid.trie().lemma_trust_depth_bounds(address@);
        let p = nibbles(address@).take(depth);
        assert(within(p, address@, 0, depth));
        assert(s1.trie().node(p) == Some(bumped(mid.trie().node(p), true)));
    }
}

/// After an accepted observation at `now`, advancing to the same `now` leaves the trie as it is.
proof fn lemma_accepted_then_advanced(s0: SpamTree, mid: SpamTree, s1: SpamTree, s2: SpamTree, now: int)
    requires
        mid.wf(),
        s1.wf(),
        mid.advanced(s0, now),
        exists|op: TreeOperation, user: User| #[trigger] s1.entered(mid, op, user, now),
        s2.advanced(s1, now),
    ensures
        s2.trie() == s1.trie(),
{
    let (op, user) = choose|op: TreeOperation, user: User| #[trigger] s1.entered(mid, op, user, now);
    let k0 = choose|k0: int| mid.advanced_by(s0, now, k0);
    let k1 = choose|k1: int|
        trimmed_by(
            mid.address_entries(),
            s0.address_entries() + without_users(s0.user_entries().take(k0)),
            ADDRESS_EXPIRY_HOURS as int,
            now,
            k1,
        );
    let k = choose|k: int| s2.advanced_by(s1, now, k);
    if k > 0 {
        assert(s1.user_entries()[0].1 + USER_EXPIRY_HOURS < now);
        if mid.user_entries().len() > 0 {
            assert(s1.user_entries()[0] == mid.user_entries()[0]);
        }
    }
    let all = s1.address_entries() + without_users(s1.user_entries().take(k));
    assert(all =~= s1.address_entries());
    let k2 = choose|k2: int| trimmed_by(s2.address_entries(), all, ADDRESS_EXPIRY_HOURS as int, now, k2);
    if k2 > 0 {
        assert(all[0].1 + ADDRESS_EXPIRY_HOURS < now);
    }
}

} // verus!
