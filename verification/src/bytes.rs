//! Integers in byte order: reading them out of a buffer, and spelling them out.

use vstd::prelude::*;

verus! {

/// The little endian 16-bit word at `at`.
pub open spec fn le16(s: Seq<u8>, at: int) -> u16 {
    (s[at] + 0x100 * s[at + 1]) as u16
}

/// The little endian 32-bit word at `at`.
pub open spec fn le32(s: Seq<u8>, at: int) -> u32 {
    (s[at] + 0x100 * s[at + 1] + 0x1_0000 * s[at + 2] + 0x100_0000 * s[at + 3]) as u32
}

/// The little endian 64-bit word at `at`.
pub open spec fn le64(s: Seq<u8>, at: int) -> u64 {
    (le32(s, at) + 0x1_0000_0000 * le32(s, at + 4)) as u64
}

/// The big endian 16-bit word at `at`.
pub open spec fn be16(s: Seq<u8>, at: int) -> u16 {
    (0x100 * s[at] + s[at + 1]) as u16
}

/// The big endian 32-bit word at `at`.
pub open spec fn be32(s: Seq<u8>, at: int) -> u32 {
    (0x1_0000 * be16(s, at) + be16(s, at + 2)) as u32
}

pub open spec fn le16_bytes(v: u16) -> Seq<u8> {
    seq![(v % 0x100) as u8, (v / 0x100) as u8]
}

pub open spec fn le32_bytes(v: u32) -> Seq<u8> {
    seq![
        (v % 0x100) as u8,
        (v / 0x100 % 0x100) as u8,
        (v / 0x1_0000 % 0x100) as u8,
        (v / 0x100_0000) as u8,
    ]
}

pub open spec fn le64_bytes(v: u64) -> Seq<u8> {
    le32_bytes((v % 0x1_0000_0000) as u32) + le32_bytes((v / 0x1_0000_0000) as u32)
}

pub open spec fn be16_bytes(v: u16) -> Seq<u8> {
    seq![(v / 0x100) as u8, (v % 0x100) as u8]
}

pub open spec fn be32_bytes(v: u32) -> Seq<u8> {
    be16_bytes((v / 0x1_0000) as u16) + be16_bytes((v % 0x1_0000) as u16)
}

pub open spec fn be64_bytes(v: u64) -> Seq<u8> {
    be32_bytes((v / 0x1_0000_0000) as u32) + be32_bytes((v % 0x1_0000_0000) as u32)
}

/// A word spelled out in either byte order reads back as itself.
pub proof fn lemma_words_round_trip(a: u16, b: u32)
    ensures
        le16(le16_bytes(a), 0) == a,
        be16(be16_bytes(a), 0) == a,
        le32(le32_bytes(b), 0) == b,
        be32(be32_bytes(b), 0) == b,
{
    lemma_word_in_bytes(b);
    let high = (b / 0x1_0000) as u16;
    let low = (b % 0x1_0000) as u16;
    let s = be32_bytes(b);
    assert(s =~= seq![
        (high / 0x100) as u8,
        (high % 0x100) as u8,
        (low / 0x100) as u8,
        (low % 0x100) as u8,
    ]);
    assert(be16(s, 0) == high);
    assert(be16(s, 2) == low);
}

/// A word is the sum of its bytes.
proof fn lemma_word_in_bytes(b: u32)
    ensures
        b == b % 0x100 + 0x100 * (b / 0x100 % 0x100) + 0x1_0000 * (b / 0x1_0000 % 0x100)
            + 0x100_0000 * (b / 0x100_0000),
        b / 0x100_0000 < 0x100,
{
    assert(b == b % 0x100 + 0x100 * (b / 0x100 % 0x100) + 0x1_0000 * (b / 0x1_0000 % 0x100)
        + 0x100_0000 * (b / 0x100_0000)) by (bit_vector);
}

/// Words read from a longer buffer are those read from the piece they lie in.
pub proof fn lemma_words_in_subrange(s: Seq<u8>, from: int, to: int, at: int)
    requires
        0 <= from <= to <= s.len(),
        0 <= at,
    ensures
        from + at + 2 <= to ==> le16(s.subrange(from, to), at) == le16(s, from + at),
        from + at + 2 <= to ==> be16(s.subrange(from, to), at) == be16(s, from + at),
        from + at + 4 <= to ==> le32(s.subrange(from, to), at) == le32(s, from + at),
        from + at + 4 <= to ==> be32(s.subrange(from, to), at) == be32(s, from + at),
{
}

/// The byte order in numbers: the first byte of a little endian word counts least, that of a
/// big endian word most.
pub proof fn first_byte_counts_least_or_most(a: u8, b: u8, c: u8, d: u8)
    ensures
        le16(seq![a, b], 0) == a + b * 256,
        be16(seq![a, b], 0) == a * 256 + b,
        le32(seq![a, b, c, d], 0) == a + b * 256 + c * 65536 + d * 16777216,
        be32(seq![a, b, c, d], 0) == a * 16777216 + b * 65536 + c * 256 + d,
{
    let s = seq![a, b, c, d];
    assert(be16(s, 0) == a * 256 + b);
    assert(be16(s, 2) == c * 256 + d);
}

/// The halves of a 64-bit word: the one that counts least comes first, in a little endian one.
pub proof fn low_half_comes_first(low: Seq<u8>, high: Seq<u8>)
    requires
        low.len() == 4,
        high.len() == 4,
    ensures
        le64(low + high, 0) == le32(low, 0) + le32(high, 0) * 4294967296,
{
    let s = low + high;
    assert(le32(s, 0) == le32(low, 0));
    assert(le32(s, 4) == le32(high, 0));
}

/// Whether `piece` stands in `s` at `at`.
pub open spec fn stands_at(s: Seq<u8>, at: int, piece: Seq<u8>) -> bool {
    &&& 0 <= at
    &&& at + piece.len() <= s.len()
    &&& s.subrange(at, at + piece.len()) == piece
}

/// Of a piece made of two, each stands where it should.
pub proof fn lemma_stands_in_two(s: Seq<u8>, at: int, a: Seq<u8>, b: Seq<u8>)
    requires
        stands_at(s, at, a + b),
    ensures
        stands_at(s, at, a),
        stands_at(s, at + a.len(), b),
{
    let whole = s.subrange(at, at + (a + b).len());
    assert(s.subrange(at, at + a.len()) =~= whole.subrange(0, a.len() as int));
    assert(whole.subrange(0, a.len() as int) =~= a);
    assert(s.subrange(at + a.len(), at + a.len() + b.len()) =~= whole.subrange(
        a.len() as int,
        whole.len() as int,
    ));
    assert(whole.subrange(a.len() as int, whole.len() as int) =~= b);
}

/// The bytes of a piece, where it stands.
pub proof fn lemma_stands_byte(s: Seq<u8>, at: int, piece: Seq<u8>, i: int)
    requires
        stands_at(s, at, piece),
        0 <= i < piece.len(),
    ensures
        s[at + i] == piece[i],
{
    assert(s.subrange(at, at + piece.len())[i] == piece[i]);
}

/// Words that stand somewhere are read there.
pub proof fn lemma_stands_words(s: Seq<u8>, at: int, a: u16, b: u32)
    ensures
        stands_at(s, at, be16_bytes(a)) ==> be16(s, at) == a,
        stands_at(s, at, le16_bytes(a)) ==> le16(s, at) == a,
        stands_at(s, at, be32_bytes(b)) ==> be32(s, at) == b,
        stands_at(s, at, le32_bytes(b)) ==> le32(s, at) == b,
{
    lemma_words_round_trip(a, b);
    if stands_at(s, at, be16_bytes(a)) {
        lemma_words_in_subrange(s, at, at + 2, 0);
    }
    if stands_at(s, at, le16_bytes(a)) {
        lemma_words_in_subrange(s, at, at + 2, 0);
    }
    if stands_at(s, at, be32_bytes(b)) {
        lemma_words_in_subrange(s, at, at + 4, 0);
    }
    if stands_at(s, at, le32_bytes(b)) {
        lemma_words_in_subrange(s, at, at + 4, 0);
    }
}

pub fn le16_at(bytes: &[u8], at: usize) -> (r: u16)
    requires
        at + 2 <= bytes@.len(),
    ensures
        r == le16(bytes@, at as int),
{
    bytes[at] as u16 + 0x100 * (bytes[at + 1] as u16)
}

pub fn le32_at(bytes: &[u8], at: usize) -> (r: u32)
    requires
        at + 4 <= bytes@.len(),
    ensures
        r == le32(bytes@, at as int),
{
    bytes[at] as u32 + 0x100 * (bytes[at + 1] as u32) + 0x1_0000 * (bytes[at + 2] as u32)
        + 0x100_0000 * (bytes[at + 3] as u32)
}

pub fn le64_at(bytes: &[u8], at: usize) -> (r: u64)
    requires
        at + 8 <= bytes@.len(),
    ensures
        r == le64(bytes@, at as int),
{
    assert(bytes.len() == bytes@.len());
    le32_at(bytes, at) as u64 + 0x1_0000_0000 * (le32_at(bytes, at + 4) as u64)
}

pub fn be16_at(bytes: &[u8], at: usize) -> (r: u16)
    requires
        at + 2 <= bytes@.len(),
    ensures
        r == be16(bytes@, at as int),
{
    0x100 * (bytes[at] as u16) + bytes[at + 1] as u16
}

pub fn be32_at(bytes: &[u8], at: usize) -> (r: u32)
    requires
        at + 4 <= bytes@.len(),
    ensures
        r == be32(bytes@, at as int),
{
    assert(bytes.len() == bytes@.len());
    0x1_0000 * (be16_at(bytes, at) as u32) + be16_at(bytes, at + 2) as u32
}

pub fn push_le16(out: &mut Vec<u8>, v: u16)
    ensures
        final(out)@ == old(out)@ + le16_bytes(v),
{
    out.push((v % 0x100) as u8);
    out.push((v / 0x100) as u8);
}

pub fn push_le32(out: &mut Vec<u8>, v: u32)
    ensures
        final(out)@ == old(out)@ + le32_bytes(v),
{
    out.push((v % 0x100) as u8);
    out.push((v / 0x100 % 0x100) as u8);
    out.push((v / 0x1_0000 % 0x100) as u8);
    out.push((v / 0x100_0000) as u8);
}

pub fn push_le64(out: &mut Vec<u8>, v: u64)
    ensures
        final(out)@ == old(out)@ + le64_bytes(v),
{
    push_le32(out, (v % 0x1_0000_0000) as u32);
    push_le32(out, (v / 0x1_0000_0000) as u32);
}

pub fn push_be16(out: &mut Vec<u8>, v: u16)
    ensures
        final(out)@ == old(out)@ + be16_bytes(v),
{
    out.push((v / 0x100) as u8);
    out.push((v % 0x100) as u8);
}

pub fn push_be32(out: &mut Vec<u8>, v: u32)
    ensures
        final(out)@ == old(out)@ + be32_bytes(v),
{
    push_be16(out, (v / 0x1_0000) as u16);
    push_be16(out, (v % 0x1_0000) as u16);
}

pub fn push_be64(out: &mut Vec<u8>, v: u64)
    ensures
        final(out)@ == old(out)@ + be64_bytes(v),
{
    push_be32(out, (v / 0x1_0000_0000) as u32);
    push_be32(out, (v % 0x1_0000_0000) as u32);
}

/// Appends `bytes` to `out`.
pub fn push_all(out: &mut Vec<u8>, bytes: &[u8])
    ensures
        final(out)@ == old(out)@ + bytes@,
{
    out.extend_from_slice(bytes);
    assert(out@ =~= old(out)@ + bytes@);
}

/// `s` with `with` written over it from `at` on.
pub open spec fn splice(s: Seq<u8>, at: int, with: Seq<u8>) -> Seq<u8> {
    Seq::new(s.len(), |i: int| if at <= i < at + with.len() { with[i - at] } else { s[i] })
}

/// Writes `with` over `out` from `at` on.
pub fn overwrite(out: &mut Vec<u8>, at: usize, with: &[u8])
    requires
        at + with@.len() <= old(out)@.len(),
    ensures
        final(out)@ == splice(old(out)@, at as int, with@),
{
    let mut i: usize = 0;
    while i < with.len()
        invariant
            i <= with@.len(),
            at + with@.len() <= out@.len(),
            out@ == splice(old(out)@, at as int, with@.subrange(0, i as int)),
        decreases with@.len() - i,
    {
        assert(out.len() == out@.len());
        out[at + i] = with[i];
        i += 1;
        assert(out@ =~= splice(old(out)@, at as int, with@.subrange(0, i as int)));
    }
    assert(with@.subrange(0, i as int) =~= with@);
    assert(out@ =~= splice(old(out)@, at as int, with@));
}

/// Whether two byte strings are the same.
pub fn same_bytes(a: &[u8], b: &[u8]) -> (r: bool)
    ensures
        r == (a@ == b@),
{
    if a.len() != b.len() {
        return false;
    }
    let mut i: usize = 0;
    while i < a.len()
        invariant
            i <= a@.len() == b@.len(),
            forall|j: int| 0 <= j < i ==> a@[j] == b@[j],
        decreases a@.len() - i,
    {
        if a[i] != b[i] {
            assert(a@[i as int] != b@[i as int]);
            return false;
        }
        i += 1;
    }
    assert(a@ =~= b@);
    true
}

/// `len` zero bytes.
pub open spec fn zeros(len: nat) -> Seq<u8> {
    Seq::new(len, |i: int| 0u8)
}

/// Pads `out` with `pad` up to `len` bytes, if it is shorter.
pub fn pad_to(out: &mut Vec<u8>, len: usize, pad: u8)
    ensures
        final(out)@ == (if old(out)@.len() < len {
            old(out)@ + Seq::new((len - old(out)@.len()) as nat, |i: int| pad)
        } else {
            old(out)@
        }),
{
    if out.len() < len {
        out.resize(len, pad);
        assert(out@ =~= old(out)@ + Seq::new((len - old(out)@.len()) as nat, |i: int| pad));
    }
}

} // verus!
