use crate::address::Address;
use vstd::prelude::*;

verus! {

/// Nibble `i` of a byte string: the high half of byte `i / 2` for even `i`, the low half for odd `i`.
pub open spec fn nibble(a: Seq<u8>, i: int) -> u8 {
    if i % 2 == 0 {
        a[i / 2] >> 4u8
    } else {
        a[i / 2] & 0xfu8
    }
}

/// The 32 nibbles of an address, most significant first: the path to it in the trie.
pub open spec fn nibbles(a: Seq<u8>) -> Seq<u8> {
    Seq::new(32, |i: int| nibble(a, i))
}

/// One hex digit of an address: the index of a child in the trie.
#[derive(Clone, Copy, Debug, Default, PartialEq, Eq, Hash, PartialOrd, Ord)]
pub struct NodeIndex(u8);

impl NodeIndex {
    pub closed spec fn spec_value(&self) -> int {
        self.0 as int
    }

    pub closed spec fn wf(&self) -> bool {
        self.0 < 16
    }

    pub fn high(byte: u8) -> (r: Self)
        ensures
            r.spec_value() == byte >> 4u8,
            0 <= r.spec_value() < 16,
            r.wf(),
    {
        assert(byte >> 4u8 < 16) by (bit_vector);
        NodeIndex(byte >> 4)
    }

    pub fn low(byte: u8) -> (r: Self)
        ensures
            r.spec_value() == byte & 0xfu8,
            0 <= r.spec_value() < 16,
            r.wf(),
    {
        assert(byte & 0xfu8 < 16) by (bit_vector);
        NodeIndex(byte & 0xf)
    }

    pub fn value(&self) -> (r: usize)
        ensures
            r == self.spec_value(),
    {
        self.0 as usize
    }
}

/// An array of sixteen slots, indexed exactly by a `NodeIndex`.
pub struct NodeArray<T>(pub [T; 16]);

impl<T> NodeArray<T> {
    pub open spec fn view(&self) -> Seq<T> {
        self.0@
    }

    pub fn get(&self, i: NodeIndex) -> (r: &T)
        requires
            i.wf(),
        ensures
            *r == self@[i.spec_value()],
    {
        &self.0[i.0 as usize]
    }

    /// Puts a value in a slot and returns what was there.
    pub fn replace(&mut self, i: NodeIndex, value: T) -> (r: T)
        requires
            i.wf(),
        ensures
            r == old(self)@[i.spec_value()],
            final(self)@ == old(self)@.update(i.spec_value(), value),
    {
        let mut value = value;
        std::mem::swap(&mut self.0[i.0 as usize], &mut value);
        value
    }
}

/// The nibbles of an address in order, high half of each byte first.
pub struct AddressPath {
    address: Address,
    path_index: usize,
}

impl AddressPath {
    pub closed spec fn address(&self) -> Seq<u8> {
        self.address@
    }

    /// How many nibbles have been handed out.
    pub closed spec fn position(&self) -> int {
        self.path_index as int
    }

    pub closed spec fn wf(&self) -> bool {
        self.path_index <= 32
    }

    pub fn new(address: Address) -> (r: Self)
        ensures
            r.wf(),
            r.address() == address@,
            r.position() == 0,
    {
        AddressPath { address, path_index: 0 }
    }

    /// The next nibble of the path, or `None` after the last one.
    pub fn next(&mut self) -> (r: Option<NodeIndex>)
        requires
            old(self).wf(),
        ensures
            final(self).wf(),
            final(self).address() == old(self).address(),
            old(self).position() < 32 ==> {
                &&& final(self).position() == old(self).position() + 1
                &&& r.is_some()
                &&& r.unwrap().wf()
                &&& r.unwrap().spec_value() == nibble(old(self).address(), old(self).position())
            },
            old(self).position() == 32 ==> r.is_none() && final(self).position() == 32,
    {
        let address_index = self.path_index / 2;
        let low = self.path_index % 2 == 1;
        if address_index == 16 {
            return None;
        }
        let byte = self.address.0[address_index];
        self.path_index = self.path_index + 1;
        Some(
            if low {
                NodeIndex::low(byte)
            } else {
                NodeIndex::high(byte)
            },
        )
    }
}

} // verus!
