//! SNTP (RFC 4330), the simple use of NTP: one request to a time server, one answer with the
//! time. Accurate to about half the round trip, plenty for a clock that says what day it is.

use crate::bytes;
use vstd::prelude::*;

verus! {

pub const PORT: u16 = 123;

pub const LENGTH: usize = 48;

/// Seconds from NTP's epoch (1900) to Unix's (1970).
pub const UNIX_OFFSET: u64 = 2_208_988_800;

/// Leap indicator 0, version 4, mode 3 (client); a server answers in mode 4.
pub const CLIENT: u8 = 0x23;

pub const MODE_SERVER: u8 = 4;

/// A request. `cookie` goes in its transmit time; the server copies it back, so the answer
/// can be told from anything else arriving.
pub fn request(cookie: u64) -> (r: [u8; 48])
    ensures
        r@ == seq![CLIENT] + bytes::zeros(39) + bytes::be64_bytes(cookie),
{
    let mut c: Vec<u8> = Vec::new();
    bytes::push_be64(&mut c, cookie);
    assert(c@ =~= bytes::be64_bytes(cookie));
    let r: [u8; 48] = [
        CLIENT, 0, 0, 0, 0, 0, 0, 0, 0, 0,
        0, 0, 0, 0, 0, 0, 0, 0, 0, 0,
        0, 0, 0, 0, 0, 0, 0, 0, 0, 0,
        0, 0, 0, 0, 0, 0, 0, 0, 0, 0,
        c[0], c[1], c[2], c[3], c[4], c[5], c[6], c[7],
    ];
    assert(r@ =~= seq![CLIENT] + bytes::zeros(39) + bytes::be64_bytes(cookie));
    r
}

/// Whether `data` is a server's answer to the request with `cookie`, and not a refusal
/// (stratum 0, a kiss of death).
pub open spec fn is_answer(data: Seq<u8>, cookie: u64) -> bool {
    &&& data.len() >= LENGTH
    &&& data[0] % 8 == MODE_SERVER
    &&& data[1] != 0
    &&& data.subrange(24, 32) == bytes::be64_bytes(cookie)
}

/// The time an answer gives, in microseconds since 1970: seconds since 1900, and a fraction of
/// a second in 32 bits.
pub open spec fn time_in(data: Seq<u8>) -> Option<int> {
    let seconds = bytes::be32(data, 40);
    let fraction = bytes::be32(data, 44);
    if seconds < UNIX_OFFSET {
        None
    } else {
        Some((seconds - UNIX_OFFSET) * 1_000_000 + fraction * 1_000_000 / 0x1_0000_0000)
    }
}

/// The time an answer to the request with `cookie` gives, in microseconds since 1970, moved
/// on by half of `round_trip_us` (the time the answer took to come back, about). `None` for
/// anything else: another request's answer, a server refusing, or not an answer at all.
pub open spec fn parsed(data: Seq<u8>, cookie: u64, round_trip_us: u64) -> Option<u64> {
    if is_answer(data, cookie) {
        match time_in(data) {
            Some(time) => Some((time + round_trip_us / 2) as u64),
            None => None,
        }
    } else {
        None
    }
}

/// The time an answer to the request with `cookie` gives, in microseconds since 1970, moved
/// on by half of `round_trip_us` (the time the answer took to come back, about). `None` for
/// anything else: another request's answer, a server refusing (stratum 0, a kiss of death),
/// or not an answer at all.
pub fn parse(data: &[u8], cookie: u64, round_trip_us: u64) -> (r: Option<u64>)
    ensures
        r == parsed(data@, cookie, round_trip_us),
        r matches Some(time) ==> time == time_in(data@)->0 + round_trip_us / 2,
{
    if data.len() < LENGTH || data[0] % 8 != MODE_SERVER || data[1] == 0 {
        return None;
    }
    let mut ours: Vec<u8> = Vec::new();
    bytes::push_be64(&mut ours, cookie);
    assert(ours@ =~= bytes::be64_bytes(cookie));
    if !bytes::same_bytes(&data[24..32], &ours) {
        return None;
    }
    let seconds = bytes::be32_at(data, 40) as u64;
    let fraction = bytes::be32_at(data, 44) as u64;
    if seconds < UNIX_OFFSET {
        return None;
    }
    Some((seconds - UNIX_OFFSET) * 1_000_000 + fraction * 1_000_000 / 0x1_0000_0000
        + round_trip_us / 2)
}

/// A request is never taken for an answer.
pub proof fn requests_are_not_answers(cookie: u64, other: u64, round_trip_us: u64)
    ensures
        parsed(
            seq![CLIENT] + bytes::zeros(39) + bytes::be64_bytes(cookie),
            other,
            round_trip_us,
        ) is None,
{
    assert((seq![CLIENT] + bytes::zeros(39) + bytes::be64_bytes(cookie))[0] == CLIENT);
}

} // verus!
