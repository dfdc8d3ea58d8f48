use iptooled::protocol::{parse_request, query_response, Parsed, Request, RequestType, ACK};
use iptooled::tree::{QueryResult, SpamStats, User};

#[test]
fn request_types_from_first_byte() {
    assert_eq!(RequestType::from(0), Some(RequestType::Query));
    assert_eq!(RequestType::from(1), Some(RequestType::Trust));
    assert_eq!(RequestType::from(2), Some(RequestType::Spam));
    assert_eq!(RequestType::from(3), None);
}

#[test]
fn parse_query_and_trust_requests() {
    let mut buf = vec![0u8];
    buf.extend_from_slice(&[0x20, 0x01, 0x0d, 0xb8, 0, 0, 0, 0, 0, 0, 0, 0, 0, 0, 0, 1]);
    match parse_request(&buf) {
        Parsed::Complete(Request::Query(a), 17) => assert_eq!(a.0[15], 1),
        other => panic!("unexpected {:?}", other),
    }
    let mut buf = vec![1u8];
    buf.extend_from_slice(&[0x20; 16]);
    buf.extend_from_slice(&[0, 0, 0, 7, 99]);
    match parse_request(&buf) {
        Parsed::Complete(Request::Trust(a, u), 21) => {
            assert_eq!(a.0, [0x20; 16]);
            assert_eq!(u, User(7));
        },
        other => panic!("unexpected {:?}", other),
    }
    buf[0] = 2;
    assert!(matches!(parse_request(&buf), Parsed::Complete(Request::Spam(_, User(7)), 21)));
}

#[test]
fn parse_incomplete_and_unknown_requests() {
    assert!(matches!(parse_request(&[]), Parsed::Incomplete));
    assert!(matches!(parse_request(&[1u8; 20]), Parsed::Incomplete));
    assert!(matches!(parse_request(&[0u8; 16]), Parsed::Incomplete));
    assert!(matches!(parse_request(&[9u8, 1, 2]), Parsed::UnknownType(9)));
}

#[test]
fn query_response_bytes() {
    let r = QueryResult { stats: SpamStats { trusted_users: 0x01020304, spam_users: 5 }, prefix_bits: 124 };
    assert_eq!(query_response(&r), [1, 2, 3, 4, 0, 0, 0, 5, 124]);
    assert_eq!(ACK, 0);
    assert_eq!(SpamStats::empty(), SpamStats { trusted_users: 0, spam_users: 0 });
}
