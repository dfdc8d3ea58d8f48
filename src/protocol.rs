use crate::address::Address;
use crate::tree::{be_u32, QueryResult, User};
use vstd::prelude::*;

verus! {

/// The kind of a request, from its first byte.
#[derive(Clone, Copy, Debug, PartialEq, Eq, Hash)]
pub enum RequestType {
    Query,
    Trust,
    Spam,
}

/// The kind that a first byte names, if any.
pub open spec fn request_type_of(code: u8) -> Option<RequestType> {
    if code == 0 {
        Some(RequestType::Query)
    } else if code == 1 {
        Some(RequestType::Trust)
    } else if code == 2 {
        Some(RequestType::Spam)
    } else {
        None
    }
}

impl RequestType {
    /// The kind that a first byte names: 0 a query, 1 trust, 2 spam; `None` for any other byte.
    pub fn from(code: u8) -> (r: Option<Self>)
        ensures
            r == request_type_of(code),
    {
        match code {
            0 => Some(RequestType::Query),
            1 => Some(RequestType::Trust),
            2 => Some(RequestType::Spam),
            _ => None,
        }
    }
}

/// A client's request.
#[derive(Clone, Copy, Debug)]
pub enum Request {
    Query(Address),
    Trust(Address, User),
    Spam(Address, User),
}

/// The length of a whole request of a kind: the kind byte, the address, and for trust and spam the user.
pub open spec fn request_len(t: RequestType) -> int {
    match t {
        RequestType::Query => 17,
        _ => 21,
    }
}

/// What the start of a byte stream holds.
#[derive(Clone, Copy, Debug)]
pub enum Parsed {
    /// A whole request, and the number of bytes it takes.
    Complete(Request, usize),
    /// The start of a request whose rest has not arrived.
    Incomplete,
    /// A first byte that names no kind of request.
    UnknownType(u8),
}

/// The request that the bytes `b` of a whole request of kind `t` stand for.
pub open spec fn request_of(t: RequestType, b: Seq<u8>, r: Request) -> bool {
    match t {
        RequestType::Query => r matches Request::Query(a) && a@ == b.subrange(1, 17),
        RequestType::Trust => r matches Request::Trust(a, u) && a@ == b.subrange(1, 17) && u.0 == be_u32(
            b.subrange(17, 21),
        ),
        RequestType::Spam => r matches Request::Spam(a, u) && a@ == b.subrange(1, 17) && u.0 == be_u32(
            b.subrange(17, 21),
        ),
    }
}

/// Reads the request at the start of `buf`.
pub fn parse_request(buf: &[u8]) -> (r: Parsed)
    ensures
        buf@.len() == 0 ==> r is Incomplete,
        buf@.len() > 0 ==> match request_type_of(buf@[0]) {
            None => r == Parsed::UnknownType(buf@[0]),
            Some(t) => if buf@.len() < request_len(t) {
                r is Incomplete
            } else {
                r matches Parsed::Complete(req, n) && n == request_len(t) && request_of(t, buf@, req)
            },
        },
{
    if buf.len() == 0 {
        return Parsed::Incomplete;
    }
    let t = match RequestType::from(buf[0]) {
        Some(t) => t,
        None => {
            return Parsed::UnknownType(buf[0]);
        },
    };
    let needed: usize = match t {
        RequestType::Query => 17,
        _ => 21,
    };
    if buf.len() < needed {
        return Parsed::Incomplete;
    }
    let mut bytes: [u8; 16] = [0u8; 16];
    let mut j: usize = 0;
    while j < 16
        invariant
            0 <= j <= 16,
            bytes@.len() == 16,
            buf@.len() >= 17,
            forall|m: int| 0 <= m < j ==> #[trigger] bytes@[m] == buf@[m + 1],
        decreases 16 - j,
    {
        bytes[j] = buf[j + 1];
        j = j + 1;
    }
    let address = Address(bytes);
    assert(address@ =~= buf@.subrange(1, 17));
    let req = match t {
        RequestType::Query => Request::Query(address),
        RequestType::Trust => {
            let user = User::from_bytes([buf[17], buf[18], buf[19], buf[20]]);
            assert(seq![buf@[17], buf@[18], buf@[19], buf@[20]] =~= buf@.subrange(17, 21));
            Request::Trust(address, user)
        },
        RequestType::Spam => {
            let user = User::from_bytes([buf[17], buf[18], buf[19], buf[20]]);
            assert(seq![buf@[17], buf@[18], buf@[19], buf@[20]] =~= buf@.subrange(17, 21));
            Request::Spam(address, user)
        },
    };
    Parsed::Complete(req, needed)
}

/// The four bytes of `x`, most significant first.
pub open spec fn be_bytes_u32(x: u32) -> Seq<u8> {
    seq![(x >> 24u32) as u8, ((x >> 16u32) & 0xffu32) as u8, ((x >> 8u32) & 0xffu32) as u8, (x & 0xffu32) as u8]
}

/// The nine-byte answer to a query: the trusted and spam counts, four bytes each, most significant first,
/// then the number of prefix bits.
pub fn query_response(r: &QueryResult) -> (out: [u8; 9])
    ensures
        out@ == be_bytes_u32(r.stats.trusted_users) + be_bytes_u32(r.stats.spam_users) + seq![r.prefix_bits],
{
    let t = r.stats.trusted_users;
    let s = r.stats.spam_users;
    let out = [
        (t >> 24u32) as u8,
        ((t >> 16u32) & 0xff) as u8,
        ((t >> 8u32) & 0xff) as u8,
        (t & 0xff) as u8,
        (s >> 24u32) as u8,
        ((s >> 16u32) & 0xff) as u8,
        ((s >> 8u32) & 0xff) as u8,
        (s & 0xff) as u8,
        r.prefix_bits,
    ];
    assert(out@ =~= be_bytes_u32(t) + be_bytes_u32(s) + seq![r.prefix_bits]);
    out
}

/// The one-byte answer to an accepted or dropped trust or spam request.
pub const ACK: u8 = 0;

} // verus!
