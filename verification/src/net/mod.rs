//! A small IPv4 network stack: frames in, frames out. Each protocol is parsing and building
//! (`ethernet`, `arp`, `ipv4`, `icmp`, `udp`, `dhcp`), and `interface` ties them together:
//! it answers ARP and pings, pings others, and gets an address by DHCP. The kernel moves the
//! frames, through `lan7800`'s framing, and supplies the time.

use crate::bytes;
use crate::text;
use crate::text::{chars_of, find_char, hex_char, push_decimal};
use vstd::prelude::*;

pub mod arp;
pub mod dhcp;
pub mod dns;
pub mod ethernet;
pub mod heard;
pub mod icmp;
pub mod interface;
pub mod ipv4;
pub mod lan7800;
pub mod served;
pub mod sntp;
pub mod udp;
pub mod wire;

verus! {

/// An Ethernet (MAC) address.
#[derive(Clone, Copy, Debug, Eq)]
pub struct Mac(pub [u8; 6]);

impl PartialEq for Mac {
    fn eq(&self, other: &Self) -> (r: bool) {
        bytes::same_bytes(&self.0, &other.0)
    }
}

impl vstd::std_specs::cmp::PartialEqSpecImpl for Mac {
    open spec fn obeys_eq_spec() -> bool {
        true
    }

    open spec fn eq_spec(&self, other: &Self) -> bool {
        self@ == other@
    }
}

impl Default for Mac {
    fn default() -> (r: Self)
        ensures
            r@ == seq![0u8, 0, 0, 0, 0, 0],
    {
        let r = Mac([0, 0, 0, 0, 0, 0]);
        assert(r@ =~= seq![0u8, 0, 0, 0, 0, 0]);
        r
    }
}

/// The address that every station takes frames for.
pub open spec fn broadcast_mac() -> Seq<u8> {
    seq![0xFFu8, 0xFF, 0xFF, 0xFF, 0xFF, 0xFF]
}

/// A byte as two hex digits.
pub open spec fn hex_byte(b: u8) -> Seq<char> {
    seq![text::hex_digit(b as int / 16), text::hex_digit(b as int % 16)]
}

/// The first `n` bytes of an address in hex, with `:` between them.
pub open spec fn colon_hex(address: Seq<u8>, n: nat) -> Seq<char>
    decreases n,
{
    if n == 0 {
        Seq::empty()
    } else if n == 1 {
        hex_byte(address[0])
    } else {
        colon_hex(address, (n - 1) as nat) + seq![':'] + hex_byte(address[n - 1])
    }
}

impl Mac {
    pub open spec fn view(&self) -> Seq<u8> {
        self.0@
    }

    pub fn broadcast() -> (r: Mac)
        ensures
            r@ == broadcast_mac(),
    {
        let r = Mac([0xFF, 0xFF, 0xFF, 0xFF, 0xFF, 0xFF]);
        assert(r@ =~= broadcast_mac());
        r
    }

    /// How it is shown, like "b8:27:eb:01:02:ab".
    pub fn to_string(&self) -> (r: String)
        ensures
            r@ == colon_hex(self@, 6),
    {
        let mut out = String::new();
        let mut i: usize = 0;
        while i < 6
            invariant
                i <= 6,
                out@ == colon_hex(self@, i as nat),
            decreases 6 - i,
        {
            if i > 0 {
                out.push(':');
            }
            out.push(hex_char(self.0[i] / 16));
            out.push(hex_char(self.0[i] % 16));
            i += 1;
            assert(out@ =~= colon_hex(self@, i as nat));
        }
        out
    }
}

/// An IPv4 address.
#[derive(Clone, Copy, Debug, Eq, PartialOrd, Ord)]
pub struct Ipv4(pub [u8; 4]);

impl PartialEq for Ipv4 {
    fn eq(&self, other: &Self) -> (r: bool) {
        bytes::same_bytes(&self.0, &other.0)
    }
}

impl vstd::std_specs::cmp::PartialEqSpecImpl for Ipv4 {
    open spec fn obeys_eq_spec() -> bool {
        true
    }

    open spec fn eq_spec(&self, other: &Self) -> bool {
        self@ == other@
    }
}

impl Default for Ipv4 {
    fn default() -> (r: Self)
        ensures
            r@ == no_address(),
    {
        Ipv4::unspecified()
    }
}

/// The address of a host that has none yet.
pub open spec fn no_address() -> Seq<u8> {
    seq![0u8, 0, 0, 0]
}

/// The address that every host takes packets for.
pub open spec fn broadcast_address() -> Seq<u8> {
    seq![255u8, 255, 255, 255]
}

/// The address there may be.
pub open spec fn address_of(address: Option<Ipv4>) -> Option<Seq<u8>> {
    match address {
        Some(address) => Some(address@),
        None => None,
    }
}

/// Whether `a` and `b` are on the same network under `netmask`.
pub open spec fn on_same_network(a: Seq<u8>, b: Seq<u8>, netmask: Seq<u8>) -> bool {
    bytes::be32(a, 0) & bytes::be32(netmask, 0) == bytes::be32(b, 0) & bytes::be32(netmask, 0)
}

/// A number from 0 to 255, of one to three digits.
pub open spec fn octet_in(part: Seq<char>) -> Option<u8> {
    if 1 <= part.len() <= 3 && text::all_digits(part) && text::decimal_value(part) <= 255 {
        Some(text::decimal_value(part) as u8)
    } else {
        None
    }
}

/// The address that `s` spells in dotted decimal: four numbers from 0 to 255.
pub open spec fn address_in(s: Seq<char>) -> Option<Seq<u8>> {
    let parts = text::pieces_from(s, 0, '.');
    if parts.len() == 4 && octet_in(parts[0]) is Some && octet_in(parts[1]) is Some && octet_in(
        parts[2],
    ) is Some && octet_in(parts[3]) is Some {
        Some(
            seq![
                octet_in(parts[0])->0,
                octet_in(parts[1])->0,
                octet_in(parts[2])->0,
                octet_in(parts[3])->0,
            ],
        )
    } else {
        None
    }
}

/// An address in dotted decimal.
pub open spec fn dotted(address: Seq<u8>) -> Seq<char> {
    text::decimal(address[0] as nat) + seq!['.'] + text::decimal(address[1] as nat) + seq!['.']
        + text::decimal(address[2] as nat) + seq!['.'] + text::decimal(address[3] as nat)
}

/// Splitting off the first part of a dotted address, when it starts with `n` in decimal.
proof fn lemma_first_part(s: Seq<char>, from: int, n: nat, more: bool)
    requires
        0 <= from,
        from + text::decimal(n).len() + (if more {
            1int
        } else {
            0
        }) <= s.len(),
        !more ==> from + text::decimal(n).len() == s.len(),
        s.subrange(from, from + text::decimal(n).len()) == text::decimal(n),
        more ==> s[(from + text::decimal(n).len()) as int] == '.',
    ensures
        text::pieces_from(s, from, '.') == (if more {
            seq![text::decimal(n)] + text::pieces_from(
                s,
                (from + text::decimal(n).len() + 1) as int,
                '.',
            )
        } else {
            seq![text::decimal(n)]
        }),
{
    let at = (from + text::decimal(n).len()) as int;
    text::lemma_decimal_length(n);
    assert forall|i: int| from <= i < at implies s[i] != '.' by {
        assert(s.subrange(from, at)[i - from] == s[i]);
        assert(text::is_digit(text::decimal(n)[i - from]));
    }
    text::lemma_find_unique(s, from, '.', at);
}

/// An address as it is shown reads back as itself.
pub proof fn addresses_read_back(address: Ipv4)
    ensures
        address_in(dotted(address@)) == Some(address@),
{
    let s = dotted(address@);
    let d0 = text::decimal(address@[0] as nat);
    let d1 = text::decimal(address@[1] as nat);
    let d2 = text::decimal(address@[2] as nat);
    let d3 = text::decimal(address@[3] as nat);
    let a = d0.len() as int;
    let b = a + 1 + d1.len();
    let c = b + 1 + d2.len();
    assert(s.subrange(0, a) =~= d0);
    assert(s.subrange(a + 1, b) =~= d1);
    assert(s.subrange(b + 1, c) =~= d2);
    assert(s.subrange(c + 1, s.len() as int) =~= d3);
    lemma_first_part(s, 0, address@[0] as nat, true);
    lemma_first_part(s, a + 1, address@[1] as nat, true);
    lemma_first_part(s, b + 1, address@[2] as nat, true);
    lemma_first_part(s, c + 1, address@[3] as nat, false);
    let parts = text::pieces_from(s, 0, '.');
    assert(parts =~= seq![d0, d1, d2, d3]);
    assert forall|i: int| 0 <= i < 4 implies #[trigger] octet_in(
        text::decimal(address@[i] as nat),
    ) == Some(address@[i]) by {
        text::lemma_decimal_length(address@[i] as nat);
        text::lemma_decimal_value(address@[i] as nat);
    }
    assert(seq![address@[0], address@[1], address@[2], address@[3]] =~= address@);
}

/// Reads one number of a dotted address.
fn read_octet(chars: &Vec<char>, from: usize, to: usize) -> (r: Option<u8>)
    requires
        from <= to <= chars@.len(),
    ensures
        r == octet_in(chars@.subrange(from as int, to as int)),
{
    let ghost part = chars@.subrange(from as int, to as int);
    if to == from || to - from > 3 {
        return None;
    }
    let mut value: u32 = 0;
    let mut i: usize = from;
    assert(part.subrange(0, 0) =~= Seq::<char>::empty());
    while i < to
        invariant
            from <= i <= to <= chars@.len(),
            to - from <= 3,
            part == chars@.subrange(from as int, to as int),
            forall|k: int| 0 <= k < i - from ==> text::is_digit(#[trigger] part[k]),
            value == text::decimal_value(part.subrange(0, i - from)),
            i - from == 0 ==> value == 0,
            i - from == 1 ==> value <= 9,
            i - from == 2 ==> value <= 99,
            i - from == 3 ==> value <= 999,
        decreases to - i,
    {
        let c = chars[i];
        assert(part[i - from] == c);
        if c < '0' || '9' < c {
            assert(!text::is_digit(part[i - from]));
            return None;
        }
        value = value * 10 + (c as u32 - 0x30);
        i += 1;
        assert(part.subrange(0, i - from).drop_last() =~= part.subrange(0, i - from - 1));
    }
    assert(part.subrange(0, i - from) =~= part);
    if value <= 255 {
        Some(value as u8)
    } else {
        None
    }
}

impl Ipv4 {
    pub open spec fn view(&self) -> Seq<u8> {
        self.0@
    }

    pub fn unspecified() -> (r: Ipv4)
        ensures
            r@ == no_address(),
    {
        let r = Ipv4([0, 0, 0, 0]);
        assert(r@ =~= no_address());
        r
    }

    pub fn broadcast() -> (r: Ipv4)
        ensures
            r@ == broadcast_address(),
    {
        let r = Ipv4([255, 255, 255, 255]);
        assert(r@ =~= broadcast_address());
        r
    }

    /// Dotted decimal, like `192.168.1.10`.
    pub fn parse(s: &str) -> (r: Option<Ipv4>)
        ensures
            match r {
                Some(address) => address_in(s@) == Some(address@),
                None => address_in(s@) is None,
            },
    {
        let chars = chars_of(s);
        let n = chars.len();
        let ghost parts = text::pieces_from(s@, 0, '.');
        let a = find_char(&chars, 0, '.');
        if a == n {
            return None;
        }
        let ghost after_a = text::pieces_from(s@, a + 1, '.');
        assert(parts =~= seq![s@.subrange(0, a as int)] + after_a);
        let b = find_char(&chars, a + 1, '.');
        if b == n {
            assert(parts.len() == 2);
            return None;
        }
        let ghost after_b = text::pieces_from(s@, b + 1, '.');
        assert(after_a =~= seq![s@.subrange(a + 1, b as int)] + after_b);
        let c = find_char(&chars, b + 1, '.');
        if c == n {
            assert(parts.len() == 3);
            return None;
        }
        let ghost after_c = text::pieces_from(s@, c + 1, '.');
        assert(after_b =~= seq![s@.subrange(b + 1, c as int)] + after_c);
        let d = find_char(&chars, c + 1, '.');
        if d < n {
            proof {
                let after_d = text::pieces_from(s@, d + 1, '.');
                assert(after_d.len() > 0);
                assert(after_c =~= seq![s@.subrange(c + 1, d as int)] + after_d);
            }
            return None;
        }
        assert(after_c =~= seq![s@.subrange(c + 1, n as int)]);
        let o0 = read_octet(&chars, 0, a)?;
        let o1 = read_octet(&chars, a + 1, b)?;
        let o2 = read_octet(&chars, b + 1, c)?;
        let o3 = read_octet(&chars, c + 1, n)?;
        let r = Ipv4([o0, o1, o2, o3]);
        assert(r@ =~= seq![o0, o1, o2, o3]);
        Some(r)
    }

    /// Whether `self` and `other` are on the same network under `netmask`.
    pub fn same_network(self, other: Ipv4, netmask: Ipv4) -> (r: bool)
        ensures
            r == on_same_network(self@, other@, netmask@),
    {
        let mask = bytes::be32_at(&netmask.0, 0);
        bytes::be32_at(&self.0, 0) & mask == bytes::be32_at(&other.0, 0) & mask
    }

    /// How it is shown, like "10.0.0.1".
    pub fn to_string(&self) -> (r: String)
        ensures
            r@ == dotted(self@),
    {
        let mut out = String::new();
        push_decimal(&mut out, self.0[0] as u64);
        out.push('.');
        push_decimal(&mut out, self.0[1] as u64);
        out.push('.');
        push_decimal(&mut out, self.0[2] as u64);
        out.push('.');
        push_decimal(&mut out, self.0[3] as u64);
        assert(out@ =~= dotted(self@));
        out
    }
}

/// The sum of `data` from `from` on as 16-bit big endian words, padded with a zero byte.
pub open spec fn word_sum(data: Seq<u8>, from: int) -> nat
    decreases data.len() - from,
{
    if from >= data.len() {
        0
    } else if from + 1 == data.len() {
        (0x100 * data[from]) as nat
    } else {
        bytes::be16(data, from) as nat + word_sum(data, from + 2)
    }
}

/// A sum folded to 16 bits, carries added back in.
pub open spec fn folded(sum: nat) -> nat {
    if sum == 0 {
        0
    } else {
        ((sum - 1) % 0xFFFF + 1) as nat
    }
}

/// The Internet checksum (RFC 1071) that a sum gives.
pub open spec fn checksum_of(sum: nat) -> u16 {
    (0xFFFF - folded(sum)) as u16
}

/// Adds `data` to a running one's complement sum, as 16-bit big endian words.
fn sum(start: u16, data: &[u8]) -> (r: u16)
    ensures
        folded(r as nat) == folded(start as nat + word_sum(data@, 0)),
        r == folded(r as nat),
{
    let mut acc: u32 = start as u32;
    let mut at: usize = 0;
    while data.len() - at > 1
        invariant
            at <= data@.len(),
            acc <= 0xFFFF,
            folded(start as nat + word_sum(data@, 0)) == folded(
                acc as nat + word_sum(data@, at as int),
            ),
        decreases data@.len() - at,
    {
        let ghost rest = word_sum(data@, at + 2);
        let ghost before = acc;
        let word = bytes::be16_at(data, at);
        acc = acc + word as u32;
        if acc > 0xFFFF {
            acc = acc - 0xFFFF;
        }
        proof {
            lemma_folding((before + word) as nat, rest);
        }
        at += 2;
    }
    if at < data.len() {
        let ghost before = acc;
        acc = acc + 0x100 * (data[at] as u32);
        if acc > 0xFFFF {
            acc = acc - 0xFFFF;
        }
        proof {
            lemma_folding((before + 0x100 * data@[at as int]) as nat, 0);
        }
    }
    acc as u16
}

/// Taking 0xFFFF off a sum that is more doesn't change what it folds to.
proof fn lemma_folding(sum: nat, rest: nat)
    ensures
        sum > 0xFFFF ==> folded((sum - 0xFFFF) as nat + rest) == folded(sum + rest),
{
    if sum > 0xFFFF {
        let a = sum - 0xFFFF + rest - 1;
        assert((a + 0xFFFF) % 0xFFFF == a % 0xFFFF);
    }
}

/// What folds alike still does when more is added.
proof fn lemma_folded_sums(a: nat, b: nat, more: nat)
    requires
        folded(a) == folded(b),
    ensures
        folded(a + more) == folded(b + more),
{
    if a > 0 {
        let p = (a - 1) / 0xFFFF;
        let q = (b - 1) / 0xFFFF;
        let r = (a - 1) % 0xFFFF;
        assert(a - 1 == 0xFFFF * p + r && b - 1 == 0xFFFF * q + r);
        let base = r + more;
        assert((0xFFFF * p + base) % 0xFFFF == base % 0xFFFF);
        assert((0xFFFF * q + base) % 0xFFFF == base % 0xFFFF);
    }
}

/// The Internet checksum of `data`. Over data that includes its own correct checksum, it is 0.
pub fn checksum(data: &[u8]) -> (r: u16)
    ensures
        r == checksum_of(word_sum(data@, 0)),
{
    0xFFFF - sum(0, data)
}

/// Only the words from `from` on count.
proof fn lemma_word_sum_depends(a: Seq<u8>, b: Seq<u8>, from: int)
    requires
        0 <= from,
        a.len() == b.len(),
        forall|i: int| from <= i < a.len() ==> a[i] == b[i],
    ensures
        word_sum(a, from) == word_sum(b, from),
    decreases a.len() - from,
{
    if from + 1 < a.len() {
        lemma_word_sum_depends(a, b, from + 2);
    }
}

/// Writing a word over another changes the sum by the difference.
proof fn lemma_word_replaced(data: Seq<u8>, from: int, at: int, v: u16)
    requires
        0 <= from <= at,
        (at - from) % 2 == 0,
        at + 2 <= data.len(),
    ensures
        word_sum(bytes::splice(data, at, bytes::be16_bytes(v)), from) + bytes::be16(data, at)
            == word_sum(data, from) + v,
    decreases at - from,
{
    let after = bytes::splice(data, at, bytes::be16_bytes(v));
    if from == at {
        bytes::lemma_words_round_trip(v, 0);
        assert(bytes::be16(after, at) == v);
        lemma_word_sum_depends(after, data, at + 2);
    } else {
        lemma_word_replaced(data, from + 2, at, v);
        assert(bytes::be16(after, from) == bytes::be16(data, from));
    }
}

/// Data that includes its own correct checksum sums to 0: `extra` stands for what else is
/// summed, and the word at `at` is where the checksum goes.
pub proof fn checksummed_data_sums_to_zero(data: Seq<u8>, at: int, extra: nat)
    requires
        0 <= at,
        at % 2 == 0,
        at + 2 <= data.len(),
        bytes::be16(data, at) == 0,
    ensures
        ({
            let sum = checksum_of(extra + word_sum(data, 0));
            checksum_of(
                extra + word_sum(bytes::splice(data, at, bytes::be16_bytes(sum)), 0),
            ) == 0
        }),
        checksum_of(extra + word_sum(data, 0)) == 0 ==> checksum_of(
            extra + word_sum(bytes::splice(data, at, bytes::be16_bytes(0xFFFF)), 0),
        ) == 0,
{
    let s = extra + word_sum(data, 0);
    let c = checksum_of(s);
    lemma_word_replaced(data, 0, at, c);
    lemma_word_replaced(data, 0, at, 0xFFFF);
    lemma_sum_and_checksum(s);
}

proof fn lemma_sum_and_checksum(s: nat)
    ensures
        folded((s + checksum_of(s)) as nat) == 0xFFFF,
        checksum_of(s) == 0 ==> folded(s + 0xFFFF) == 0xFFFF,
{
    if s > 0 {
        let q = (s - 1) / 0xFFFF;
        let r = (s - 1) % 0xFFFF;
        assert(s - 1 == 0xFFFF * q + r);
        assert(checksum_of(s) == 0xFFFF - r - 1);
        let total = s + checksum_of(s);
        assert(total - 1 == 0xFFFF * q + 0xFFFE);
        assert((total - 1) % 0xFFFF == 0xFFFE);
        if checksum_of(s) == 0 {
            assert(s + 0xFFFF - 1 == 0xFFFF * (q + 1) + 0xFFFE);
            assert((s + 0xFFFF - 1) % 0xFFFF == 0xFFFE);
        }
    }
}

fn ipv4_at(data: &[u8], at: usize) -> (r: Ipv4)
    requires
        at + 4 <= data@.len(),
    ensures
        r@ == data@.subrange(at as int, at + 4),
{
    assert(data.len() == data@.len());
    let r = Ipv4([data[at], data[at + 1], data[at + 2], data[at + 3]]);
    assert(r@ =~= data@.subrange(at as int, at + 4));
    r
}

fn mac_at(data: &[u8], at: usize) -> (r: Mac)
    requires
        at + 6 <= data@.len(),
    ensures
        r@ == data@.subrange(at as int, at + 6),
{
    assert(data.len() == data@.len());
    let r = Mac(
        [data[at], data[at + 1], data[at + 2], data[at + 3], data[at + 4], data[at + 5]],
    );
    assert(r@ =~= data@.subrange(at as int, at + 6));
    r
}

} // verus!
