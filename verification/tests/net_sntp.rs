use rustypi::net::sntp::{parse, request, LENGTH, MODE_SERVER, UNIX_OFFSET};

/// A server's answer to `cookie`, saying `unix` seconds and a half.
fn answer(cookie: u64, unix: u64, stratum: u8) -> [u8; LENGTH] {
    let mut bytes = [0; LENGTH];
    bytes[0] = 4 << 3 | MODE_SERVER;
    bytes[1] = stratum;
    bytes[24..32].copy_from_slice(&cookie.to_be_bytes());
    bytes[40..44].copy_from_slice(&((unix + UNIX_OFFSET) as u32).to_be_bytes());
    bytes[44..48].copy_from_slice(&0x8000_0000u32.to_be_bytes());
    bytes
}

#[test]
fn requests_carry_the_cookie() {
    let request = request(0x1122_3344_5566_7788);
    assert_eq!(request[0], 0x23);
    assert_eq!(&request[40..48], &[0x11, 0x22, 0x33, 0x44, 0x55, 0x66, 0x77, 0x88]);
}

#[test]
fn answers_give_the_time_plus_half_the_round_trip() {
    let bytes = answer(7, 1_790_000_000, 2);
    assert_eq!(parse(&bytes, 7, 10_000), Some(1_790_000_000_000_000 + 500_000 + 5_000));
}

#[test]
fn other_answers_and_refusals_are_ignored() {
    assert_eq!(parse(&answer(7, 1_790_000_000, 2), 8, 0), None); // not ours
    assert_eq!(parse(&answer(7, 1_790_000_000, 0), 7, 0), None); // kiss of death
    assert_eq!(parse(&request(7), 7, 0), None); // a request, not an answer
    assert_eq!(parse(&answer(7, 1_790_000_000, 2)[..40], 7, 0), None);
}
