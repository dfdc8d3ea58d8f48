use vstd::prelude::*;

verus! {

pub const ADDRESS_BYTES: usize = 16;

pub const ADDRESS_BITS: u8 = 128;

/// A 128-bit address, most significant byte first.
#[derive(Clone, Copy, Debug, PartialEq, Eq, Hash, PartialOrd, Ord)]
pub struct Address(pub [u8; 16]);

/// The leading `bits` bits of an address, with every later bit zero.
#[derive(Clone, Copy, Debug, PartialEq, Eq, Hash, PartialOrd, Ord)]
pub struct AddressPrefix {
    /// The first address with this prefix, i.e. the one ending with `ADDRESS_BITS - bits` zero bits.
    first: Address,
    /// The number of bits in the prefix.
    bits: u8,
}

/// Bit `k` of a byte, counting from the most significant one.
pub open spec fn byte_bit(x: u8, k: int) -> bool {
    (x >> ((7 - k) as u8)) & 1u8 == 1u8
}

/// Bit `i` of a byte string, counting from the most significant bit of its first byte.
pub open spec fn bit_of(bytes: Seq<u8>, i: int) -> bool {
    byte_bit(bytes[i / 8], i % 8)
}

/// The first `n` bits of `a` and `b` agree.
pub open spec fn agree_on(a: Seq<u8>, b: Seq<u8>, n: int) -> bool {
    forall|i: int| 0 <= i < n ==> #[trigger] bit_of(a, i) == bit_of(b, i)
}

/// `first` is the canonical form of the `bits`-bit prefix of `of`: it agrees with `of` on those bits and
/// every later bit is zero.
pub open spec fn is_prefix_form(first: Seq<u8>, of: Seq<u8>, bits: int) -> bool {
    &&& first.len() == 16
    &&& agree_on(first, of, bits)
    &&& forall|i: int| bits <= i < 128 ==> !#[trigger] bit_of(first, i)
}

/// A byte with its first `n` bits set.
pub open spec fn mask_spec(n: u8) -> u8 {
    !(0xffu8 >> n)
}

impl Address {
    pub open spec fn view(&self) -> Seq<u8> {
        self.0@
    }

    /// The prefix of this address with the given number of bits.
    pub fn prefix(&self, bits: u8) -> (r: AddressPrefix)
        requires
            bits <= 128,
        ensures
            r.bits() == bits,
            r.first()@ == prefix_of(self@, bits as int),
            is_prefix_form(r.first()@, self@, bits as int),
            r.wf(),
    {
        let wholes: usize = (bits / 8) as usize;
        let remainder: u8 = bits % 8;
        let mut result: [u8; 16] = [0u8; 16];
        let mut j: usize = 0;
        while j < 16
            invariant
                0 <= j <= 16,
                wholes == bits / 8,
                remainder == bits % 8,
                bits <= 128,
                result@.len() == 16,
                forall|m: int| 0 <= m < j ==> #[trigger] result@[m] == prefix_byte(self@, bits as int, m),
                forall|m: int| j <= m < 16 ==> #[trigger] result@[m] == 0,
            decreases 16 - j,
        {
            if j < wholes {
                result[j] = self.0[j];
            } else if j == wholes && remainder != 0 {
                result[j] = self.0[j] & mask(remainder);
            }
            j = j + 1;
        }
        proof {
            lemma_prefix_bytes(self@, result@, bits as int);
            assert(result@ =~= prefix_of(self@, bits as int));
        }
        AddressPrefix { first: Address(result), bits }
    }
}

/// The canonical `bits`-bit prefix of `a`: its first `bits` bits, then zeros.
pub open spec fn prefix_of(a: Seq<u8>, bits: int) -> Seq<u8> {
    Seq::new(16, |j: int| prefix_byte(a, bits, j))
}

/// Byte `j` of the canonical `bits`-bit prefix of `a`.
pub open spec fn prefix_byte(a: Seq<u8>, bits: int, j: int) -> u8 {
    if j < bits / 8 {
        a[j]
    } else if j == bits / 8 && bits % 8 != 0 {
        a[j] & mask_spec((bits % 8) as u8)
    } else {
        0u8
    }
}

proof fn lemma_masked_bits(x: u8, r: u8)
    requires
        r < 8,
    ensures
        forall|k: int| 0 <= k < r ==> #[trigger] byte_bit(x & mask_spec(r), k) == byte_bit(x, k),
        forall|k: int| r <= k < 8 ==> !#[trigger] byte_bit(x & mask_spec(r), k),
{
    assert forall|k: int| 0 <= k < r implies #[trigger] byte_bit(x & mask_spec(r), k) == byte_bit(x, k) by {
        let s: u8 = (7 - k) as u8;
        assert(s < 8 && 7 - s < r ==> ((x & !(0xffu8 >> r)) >> s) & 1u8 == (x >> s) & 1u8) by (bit_vector);
    }
    assert forall|k: int| r <= k < 8 implies !#[trigger] byte_bit(x & mask_spec(r), k) by {
        let s: u8 = (7 - k) as u8;
        assert(s < 8 && r < 8 && r <= 7 - s ==> ((x & !(0xffu8 >> r)) >> s) & 1u8 == 0u8) by (bit_vector);
    }
}

proof fn lemma_zero_bits()
    ensures
        forall|k: int| 0 <= k < 8 ==> !#[trigger] byte_bit(0u8, k),
{
    assert forall|k: int| 0 <= k < 8 implies !#[trigger] byte_bit(0u8, k) by {
        let s: u8 = (7 - k) as u8;
        assert(s < 8 ==> (0u8 >> s) & 1u8 == 0u8) by (bit_vector);
    }
}

/// A byte string built byte by byte with `prefix_byte` is the canonical prefix form.
proof fn lemma_prefix_bytes(a: Seq<u8>, result: Seq<u8>, bits: int)
    requires
        a.len() == 16,
        result.len() == 16,
        0 <= bits <= 128,
        forall|m: int| 0 <= m < 16 ==> #[trigger] result[m] == prefix_byte(a, bits, m),
    ensures
        is_prefix_form(result, a, bits),
{
    lemma_zero_bits();
    if bits % 8 != 0 {
        lemma_masked_bits(a[bits / 8], (bits % 8) as u8);
    }
    assert forall|i: int| 0 <= i < bits implies #[trigger] bit_of(result, i) == bit_of(a, i) by {
        assert(result[i / 8] == prefix_byte(a, bits, i / 8));
    }
    assert forall|i: int| bits <= i < 128 implies !#[trigger] bit_of(result, i) by {
        assert(result[i / 8] == prefix_byte(a, bits, i / 8));
        if i / 8 == bits / 8 && bits % 8 != 0 {
            assert(i % 8 >= bits % 8);
        }
    }
}

impl AddressPrefix {
    pub closed spec fn spec_first(&self) -> Address {
        self.first
    }

    pub closed spec fn spec_bits(&self) -> u8 {
        self.bits
    }

    /// The prefix has at most 128 bits and is in canonical form.
    pub open spec fn wf(&self) -> bool {
        self.spec_bits() <= 128 && is_prefix_form(self.spec_first()@, self.spec_first()@, self.spec_bits() as int)
    }

    #[verifier::when_used_as_spec(spec_first)]
    pub fn first(&self) -> (r: Address)
        ensures
            r == self.spec_first(),
    {
        self.first
    }

    #[verifier::when_used_as_spec(spec_bits)]
    pub fn bits(&self) -> (r: u8)
        ensures
            r == self.spec_bits(),
    {
        self.bits
    }

    /// Shortens the prefix in place by one bit, zeroing the bit that leaves it.
    pub fn shorten(&mut self)
        requires
            old(self).wf(),
            old(self).spec_bits() > 0,
        ensures
            final(self).wf(),
            final(self).spec_bits() == old(self).spec_bits() - 1,
            is_prefix_form(final(self).spec_first()@, old(self).spec_first()@, final(self).spec_bits() as int),
    {
        let ghost before = self.first@;
        self.bits = self.bits - 1;
        let new_byte: usize = (self.bits / 8) as usize;
        let new_bit: u8 = self.bits % 8;
        let x = self.first.0[new_byte];
        self.first.0[new_byte] = x & mask(new_bit);
        proof {
            let bits = self.bits as int;
            lemma_masked_bits(x, new_bit);
            assert forall|i: int| 0 <= i < bits implies #[trigger] bit_of(self.first@, i) == bit_of(before, i) by {
                if i / 8 == new_byte as int {
                    assert(i % 8 < new_bit);
                }
            }
            assert forall|i: int| bits <= i < 128 implies !#[trigger] bit_of(self.first@, i) by {
                if i / 8 == new_byte as int {
                    assert(i % 8 >= new_bit);
                } else {
                    assert(i > bits);
                    assert(!bit_of(before, i));
                }
            }
        }
    }

    /// Whether the address starts with the bits of this prefix.
    pub fn is_prefix_of(&self, address: &Address) -> (r: bool)
        requires
            self.wf(),
        ensures
            r == agree_on(self.spec_first()@, address@, self.spec_bits() as int),
    {
        let wholes: usize = (self.bits / 8) as usize;
        let remainder: u8 = self.bits % 8;
        let mut j: usize = 0;
        while j < wholes
            invariant
                0 <= j <= wholes,
                wholes == self.bits / 8,
                self.wf(),
                forall|m: int| 0 <= m < j ==> self.first@[m] == address@[m],
            decreases wholes - j,
        {
            if self.first.0[j] != address.0[j] {
                proof {
                    let x = self.first@[j as int];
                    let y = address@[j as int];
                    lemma_byte_eq(x, y);
                    let k = choose|k: int| 0 <= k < 8 && byte_bit(x, k) != byte_bit(y, k);
                    let i = 8 * j + k;
                    assert(i / 8 == j && i % 8 == k);
                    assert(bit_of(self.first@, i) != bit_of(address@, i));
                }
                return false;
            }
            j = j + 1;
        }
        let ghost bits = self.bits as int;
        assert forall|i: int| 0 <= i < 8 * wholes implies #[trigger] bit_of(self.first@, i) == bit_of(
            address@,
            i,
        ) by {
            assert(self.first@[i / 8] == address@[i / 8]);
        }
        if remainder == 0 {
            return true;
        }
        let x = self.first.0[wholes];
        let y = address.0[wholes];
        let r = (x ^ y) & mask(remainder) == 0;
        proof {
            lemma_masked_eq(x, y, remainder);
            if r {
                assert forall|i: int| 0 <= i < bits implies #[trigger] bit_of(self.first@, i) == bit_of(
                    address@,
                    i,
                ) by {
                    if i >= 8 * wholes {
                        assert(i / 8 == wholes && i % 8 < remainder);
                    }
                }
            } else {
                let k = choose|k: int| 0 <= k < remainder && byte_bit(x, k) != byte_bit(y, k);
                let i = 8 * wholes + k;
                assert(i / 8 == wholes && i % 8 == k);
                assert(bit_of(self.first@, i) != bit_of(address@, i));
            }
        }
        r
    }
}

/// Two bytes are equal exactly when each of their bits is.
proof fn lemma_byte_eq(x: u8, y: u8)
    ensures
        x == y <==> forall|k: int| 0 <= k < 8 ==> #[trigger] byte_bit(x, k) == byte_bit(y, k),
{
    if forall|k: int| 0 <= k < 8 ==> #[trigger] byte_bit(x, k) == byte_bit(y, k) {
        assert(byte_bit(x, 0) == byte_bit(y, 0));
        assert(byte_bit(x, 1) == byte_bit(y, 1));
        assert(byte_bit(x, 2) == byte_bit(y, 2));
        assert(byte_bit(x, 3) == byte_bit(y, 3));
        assert(byte_bit(x, 4) == byte_bit(y, 4));
        assert(byte_bit(x, 5) == byte_bit(y, 5));
        assert(byte_bit(x, 6) == byte_bit(y, 6));
        assert(byte_bit(x, 7) == byte_bit(y, 7));
        assert(((x >> 7u8) & 1u8 == 1u8) == ((y >> 7u8) & 1u8 == 1u8) && ((x >> 6u8) & 1u8 == 1u8) == ((y
            >> 6u8) & 1u8 == 1u8) && ((x >> 5u8) & 1u8 == 1u8) == ((y >> 5u8) & 1u8 == 1u8) && ((x >> 4u8)
            & 1u8 == 1u8) == ((y >> 4u8) & 1u8 == 1u8) && ((x >> 3u8) & 1u8 == 1u8) == ((y >> 3u8) & 1u8
            == 1u8) && ((x >> 2u8) & 1u8 == 1u8) == ((y >> 2u8) & 1u8 == 1u8) && ((x >> 1u8) & 1u8 == 1u8)
            == ((y >> 1u8) & 1u8 == 1u8) && ((x >> 0u8) & 1u8 == 1u8) == ((y >> 0u8) & 1u8 == 1u8) ==> x
            == y) by (bit_vector);
    }
}

/// The first `r` bits of two bytes agree exactly when their difference vanishes under the mask of `r` bits.
proof fn lemma_masked_eq(x: u8, y: u8, r: u8)
    requires
        0 < r < 8,
    ensures
        ((x ^ y) & mask_spec(r) == 0) <==> forall|k: int| 0 <= k < r ==> #[trigger] byte_bit(x, k) == byte_bit(
            y,
            k,
        ),
{
    assert forall|k: int| 0 <= k < r && (x ^ y) & mask_spec(r) == 0 implies #[trigger] byte_bit(x, k)
        == byte_bit(y, k) by {
        let s: u8 = (7 - k) as u8;
        assert(s < 8 && 7 - s < r && r < 8 && (x ^ y) & !(0xffu8 >> r) == 0 ==> (x >> s) & 1u8 == (y >> s)
            & 1u8) by (bit_vector);
    }
    if forall|k: int| 0 <= k < r ==> #[trigger] byte_bit(x, k) == byte_bit(y, k) {
        assert(byte_bit(x, 0) == byte_bit(y, 0));
        assert(1 < r ==> byte_bit(x, 1) == byte_bit(y, 1));
        assert(2 < r ==> byte_bit(x, 2) == byte_bit(y, 2));
        assert(3 < r ==> byte_bit(x, 3) == byte_bit(y, 3));
        assert(4 < r ==> byte_bit(x, 4) == byte_bit(y, 4));
        assert(5 < r ==> byte_bit(x, 5) == byte_bit(y, 5));
        assert(6 < r ==> byte_bit(x, 6) == byte_bit(y, 6));
        assert(0 < r < 8 && ((x >> 7u8) & 1u8 == 1u8) == ((y >> 7u8) & 1u8 == 1u8) && (1 < r ==> ((x >> 6u8)
            & 1u8 == 1u8) == ((y >> 6u8) & 1u8 == 1u8)) && (2 < r ==> ((x >> 5u8) & 1u8 == 1u8) == ((y
            >> 5u8) & 1u8 == 1u8)) && (3 < r ==> ((x >> 4u8) & 1u8 == 1u8) == ((y >> 4u8) & 1u8 == 1u8))
            && (4 < r ==> ((x >> 3u8) & 1u8 == 1u8) == ((y >> 3u8) & 1u8 == 1u8)) && (5 < r ==> ((x
            >> 2u8) & 1u8 == 1u8) == ((y >> 2u8) & 1u8 == 1u8)) && (6 < r ==> ((x >> 1u8) & 1u8 == 1u8)
            == ((y >> 1u8) & 1u8 == 1u8)) ==> (x ^ y) & !(0xffu8 >> r) == 0) by (bit_vector);
    }
}


/// A byte with the first `n` bits set.
pub fn mask(n: u8) -> (r: u8)
    requires
        n < 8,
    ensures
        r == mask_spec(n),
{
    !(0xffu8 >> n)
}

/// A prefix already in canonical form is its own canonical prefix.
pub proof fn lemma_canonical_prefix(first: Seq<u8>, bits: int)
    requires
        0 <= bits <= 128,
        is_prefix_form(first, first, bits),
    ensures
        prefix_of(first, bits) == first,
{
    lemma_zero_bits();
    assert forall|j: int| 0 <= j < 16 implies #[trigger] prefix_of(first, bits)[j] == first[j] by {
        let x = first[j];
        if j < bits / 8 {
        } else if j == bits / 8 && bits % 8 != 0 {
            let r = (bits % 8) as u8;
            lemma_masked_bits(x, r);
            lemma_byte_eq(x & mask_spec(r), x);
            assert forall|k: int| 0 <= k < 8 implies #[trigger] byte_bit(x & mask_spec(r), k) == byte_bit(x, k) by {
                if k >= r {
                    assert(!bit_of(first, 8 * j + k));
                    assert((8 * j + k) / 8 == j && (8 * j + k) % 8 == k);
                }
            }
        } else {
            lemma_byte_eq(0u8, x);
            assert forall|k: int| 0 <= k < 8 implies #[trigger] byte_bit(0u8, k) == byte_bit(x, k) by {
                assert(!bit_of(first, 8 * j + k));
                assert((8 * j + k) / 8 == j && (8 * j + k) % 8 == k);
            }
        }
    }
    assert(prefix_of(first, bits) =~= first);
}

/// Two prefixes with the same bits and the same first address are the same prefix.
pub proof fn lemma_prefix_ext(p: AddressPrefix, q: AddressPrefix)
    requires
        p.spec_bits() == q.spec_bits(),
        p.spec_first()@ == q.spec_first()@,
    ensures
        p == q,
{
    assert(p.first.0 =~= q.first.0);
}

/// Two addresses with the same bytes are the same address.
pub proof fn lemma_address_ext(a: Address, b: Address)
    requires
        a@ == b@,
    ensures
        a == b,
{
    assert(a.0 =~= b.0);
}

} // verus!
