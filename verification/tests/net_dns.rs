use rustypi::net::dns::{parse, query, Answer, HEADER};
use rustypi::net::Ipv4;

/// A server's answer to `query`: a CNAME to another name, then that name's two A records,
/// with compression pointers like servers send.
fn answer(query: &[u8]) -> Vec<u8> {
    let mut bytes = query[..2].to_vec();
    bytes.extend_from_slice(&[0x81, 0x80, 0, 1, 0, 3, 0, 0, 0, 0]);
    bytes.extend_from_slice(&query[HEADER..]); // the question
    // CNAME: name -> pointer to the question's name (offset 12).
    bytes.extend_from_slice(&[0xC0, 12, 0, 5, 0, 1, 0, 0, 0, 60, 0, 6, 3, b'w', b'w', b'w', 0xC0, 12]);
    let cname = bytes.len() - 6;
    for address in [[93, 184, 216, 34], [93, 184, 216, 35]] {
        bytes.extend_from_slice(&[0xC0, cname as u8, 0, 1, 0, 1, 0, 0, 1, 0, 0, 4]);
        bytes.extend_from_slice(&address);
    }
    bytes
}

#[test]
fn queries_spell_the_name_in_labels() {
    let asked = query("example.com", 0xBEEF).unwrap();
    assert_eq!(&asked[..4], &[0xBE, 0xEF, 0x01, 0x00]);
    assert_eq!(&asked[HEADER..], b"\x07example\x03com\x00\x00\x01\x00\x01");
    assert_eq!(query("example.com.", 1).unwrap()[HEADER..], asked[HEADER..]);
    for bad in ["", "a..b", ".com", &"x".repeat(64), &"a.".repeat(130), "é.com"] {
        assert_eq!(query(bad, 1), None, "{bad}");
    }
}

#[test]
fn answers_give_the_addresses_through_cnames_and_pointers() {
    let query = query("example.com", 7).unwrap();
    let answer = answer(&query);
    assert_eq!(parse(&answer, 7), Some(Answer::Addresses(vec![Ipv4([93, 184, 216, 34]), Ipv4([93, 184, 216, 35])])));
    assert_eq!(parse(&answer, 8), None); // another query's
    assert_eq!(parse(&query, 7), None); // a query, not an answer
}

#[test]
fn failures_and_broken_answers() {
    let query = query("nope.invalid", 3).unwrap();
    let mut missing = query.clone();
    missing[2..4].copy_from_slice(&[0x81, 0x83]);
    assert_eq!(parse(&missing, 3), Some(Answer::NoSuchName));
    let mut refused = query.clone();
    refused[2..4].copy_from_slice(&[0x81, 0x85]);
    assert_eq!(parse(&refused, 3), Some(Answer::Failed(5)));
    let answer = answer(&query);
    assert_eq!(parse(&answer[..answer.len() - 2], 3), None); // cut short
    let mut looped = answer.clone();
    looped[HEADER] = 0x80; // a label length with reserved bits
    assert_eq!(parse(&looped, 3), None);
}
