//! File names as FAT stores them: 8.3 names in one case or the other, long names as UTF-16 in
//! pieces of 13 units, and the aliases that go with long names.

use crate::bytes;
use crate::text;
use crate::text::{char_of, chars_of, push_decimal};
use vstd::prelude::*;

verus! {

pub const DIR_ENTRY_SIZE: usize = 32;

/// An 8.3 name really starting with 0xE5 is stored as 0x05.
pub const ENTRY_KANJI_E5: u8 = 0x05;

pub const LFN_LAST: u8 = 0x40;

pub const LFN_CHARS: usize = 13;

pub const ATTR_LONG_NAME: u8 = 0x0F;

/// Case flags in the reserved byte of 8.3 entries (set by Windows NT and later).
pub const CASE_LOWER_BASE: u8 = 0x08;

pub const CASE_LOWER_EXT: u8 = 0x10;

/// Longest name, in UTF-16 units.
pub const MAX_NAME: usize = 255;

// UTF-16.
/// A character in UTF-16: one unit, or two surrogates.
pub open spec fn utf16_char(c: char) -> Seq<u16> {
    let code = c as u32;
    if code < 0x1_0000 {
        seq![code as u16]
    } else {
        seq![
            (0xD800 + (code - 0x1_0000) / 0x400) as u16,
            (0xDC00 + (code - 0x1_0000) % 0x400) as u16,
        ]
    }
}

/// A text in UTF-16.
pub open spec fn utf16(s: Seq<char>) -> Seq<u16>
    decreases s.len(),
{
    if s.len() == 0 {
        Seq::empty()
    } else {
        utf16(s.drop_last()) + utf16_char(s.last())
    }
}

/// Whether a unit is the first of a pair of surrogates.
pub open spec fn is_high(unit: u16) -> bool {
    0xD800 <= unit < 0xDC00
}

/// Whether a unit is the second of a pair of surrogates.
pub open spec fn is_low(unit: u16) -> bool {
    0xDC00 <= unit < 0xE000
}

/// The text that units spell from `from` on, with U+FFFD for each surrogate without its other
/// half.
pub open spec fn decoded(units: Seq<u16>, from: int) -> Seq<char>
    decreases units.len() - from,
{
    if from >= units.len() {
        Seq::empty()
    } else if !is_high(units[from]) && !is_low(units[from]) {
        seq![(units[from] as u32) as char] + decoded(units, from + 1)
    } else if is_high(units[from]) && from + 1 < units.len() && is_low(units[from + 1]) {
        let code = 0x1_0000 + (units[from] - 0xD800) * 0x400 + (units[from + 1] - 0xDC00);
        seq![(code as u32) as char] + decoded(units, from + 2)
    } else {
        seq!['\u{FFFD}'] + decoded(units, from + 1)
    }
}

/// The units of `s`.
pub fn encode_utf16(s: &str) -> (r: Vec<u16>)
    ensures
        r@ == utf16(s@),
{
    let chars = chars_of(s);
    let mut out: Vec<u16> = Vec::new();
    let mut i: usize = 0;
    assert(s@.subrange(0, 0) =~= Seq::<char>::empty());
    while i < chars.len()
        invariant
            i <= chars@.len(),
            chars@ == s@,
            out@ == utf16(s@.subrange(0, i as int)),
        decreases chars@.len() - i,
    {
        let code = chars[i] as u32;
        let ghost before = out@;
        if code < 0x1_0000 {
            out.push(code as u16);
        } else {
            out.push((0xD800 + (code - 0x1_0000) / 0x400) as u16);
            out.push((0xDC00 + (code - 0x1_0000) % 0x400) as u16);
        }
        assert(out@ =~= before + utf16_char(chars@[i as int]));
        i += 1;
        assert(s@.subrange(0, i as int).drop_last() =~= s@.subrange(0, i - 1));
    }
    assert(s@.subrange(0, i as int) =~= s@);
    out
}

/// The text that `units` spell.
pub fn decode_utf16(units: &[u16]) -> (r: Vec<char>)
    ensures
        r@ == decoded(units@, 0),
{
    let mut out: Vec<char> = Vec::new();
    let mut i: usize = 0;
    assert(out@ + decoded(units@, 0) =~= decoded(units@, 0));
    while i < units.len()
        invariant
            i <= units@.len(),
            decoded(units@, 0) == out@ + decoded(units@, i as int),
        decreases units@.len() - i,
    {
        let unit = units[i];
        let ghost before = out@;
        let high = 0xD800 <= unit && unit < 0xDC00;
        let low = 0xDC00 <= unit && unit < 0xE000;
        let mut code: u32 = 0xFFFD;
        let mut used: usize = 1;
        if !high && !low {
            code = unit as u32;
        } else if high && units.len() - i > 1 && 0xDC00 <= units[i + 1] && units[i + 1] < 0xE000 {
            code = 0x1_0000 + (unit as u32 - 0xD800) * 0x400 + (units[i + 1] as u32 - 0xDC00);
            used = 2;
        }
        let c = match char_of(code) {
            Some(c) => c,
            None => '\u{FFFD}',
        };
        out.push(c);
        proof {
            vstd::utf8::char_u32_cast(c, code);
        }
        assert(decoded(units@, i as int) == seq![c] + decoded(units@, i + used));
        assert(before + (seq![c] + decoded(units@, i + used)) =~= out@ + decoded(units@, i + used));
        i += used;
    }
    assert(out@ + decoded(units@, i as int) =~= out@);
    out
}

pub proof fn lemma_utf16_length(s: Seq<char>)
    ensures
        s.len() <= utf16(s).len() <= 2 * s.len(),
    decreases s.len(),
{
    if s.len() > 0 {
        lemma_utf16_length(s.drop_last());
    }
}

/// Decoding starts over after each character.
proof fn lemma_decoded_step(s: Seq<char>, rest: Seq<u16>, n: int)
    requires
        0 <= n <= s.len(),
    ensures
        decoded(utf16(s) + rest, utf16(s.subrange(0, n)).len() as int) == s.subrange(
            n,
            s.len() as int,
        ) + decoded(utf16(s) + rest, utf16(s).len() as int),
    decreases s.len() - n,
{
    let whole = utf16(s) + rest;
    if n < s.len() {
        lemma_decoded_step(s, rest, n + 1);
        lemma_utf16_prefix(s, n);
        lemma_utf16_prefix(s, n + 1);
        let front = s.subrange(0, n);
        let more = s.subrange(0, n + 1);
        assert(more.drop_last() =~= front);
        let c = s[n];
        let at = utf16(front).len() as int;
        assert(more.last() == c);
        assert(utf16(more) == utf16(front) + utf16_char(c));
        assert forall|k: int| 0 <= k < utf16_char(c).len() implies whole[at + k] == utf16_char(c)[k] by {
            assert(utf16(more)[at + k] == utf16_char(c)[k]);
            assert(utf16(s)[at + k] == utf16(more)[at + k]);
        }
        let code = c as u32;
        assert(vstd::utf8::is_scalar(code)) by {
            vstd::utf8::char_is_scalar(c);
        }
        assert(whole[at] == utf16_char(c)[0]);
        if code < 0x1_0000 {
            assert(whole[at] == code);
            vstd::utf8::char_u32_cast(c, code);
        } else {
            assert(whole[at + 1] == utf16_char(c)[1]);
            let back = 0x1_0000 + (whole[at] - 0xD800) * 0x400 + (whole[at + 1] - 0xDC00);
            assert(back == code);
            vstd::utf8::char_u32_cast(c, code);
        }
        assert(s.subrange(n, s.len() as int) =~= seq![c] + s.subrange(n + 1, s.len() as int));
        let tail = decoded(whole, utf16(s).len() as int);
        assert(seq![c] + (s.subrange(n + 1, s.len() as int) + tail) =~= s.subrange(
            n,
            s.len() as int,
        ) + tail);
    } else {
        assert(s.subrange(0, n) =~= s);
        assert(s.subrange(n, s.len() as int) + decoded(whole, utf16(s).len() as int) =~= decoded(
            whole,
            utf16(s).len() as int,
        ));
    }
}

/// The units of a text start with those of its start.
proof fn lemma_utf16_prefix(s: Seq<char>, n: int)
    requires
        0 <= n <= s.len(),
    ensures
        utf16(s.subrange(0, n)).len() <= utf16(s).len(),
        utf16(s).subrange(0, utf16(s.subrange(0, n)).len() as int) == utf16(s.subrange(0, n)),
    decreases s.len() - n,
{
    let front = utf16(s.subrange(0, n));
    if n == s.len() {
        assert(s.subrange(0, n) =~= s);
        assert(utf16(s).subrange(0, utf16(s).len() as int) =~= utf16(s));
    } else {
        lemma_utf16_prefix(s, n + 1);
        let more = s.subrange(0, n + 1);
        assert(more.drop_last() =~= s.subrange(0, n));
        let mid = utf16(more);
        assert(mid.subrange(0, front.len() as int) =~= front);
        assert(utf16(s).subrange(0, front.len() as int) =~= utf16(s).subrange(
            0,
            mid.len() as int,
        ).subrange(0, front.len() as int));
    }
}

/// A text put into UTF-16 comes back.
pub proof fn utf16_comes_back(s: Seq<char>)
    ensures
        decoded(utf16(s), 0) == s,
{
    lemma_decoded_step(s, Seq::empty(), 0);
    assert(s.subrange(0, 0) =~= Seq::<char>::empty());
    assert(utf16(s) + Seq::<u16>::empty() =~= utf16(s));
    assert(s.subrange(0, s.len() as int) =~= s);
    assert(s + Seq::<char>::empty() =~= s);
}

// Letters and spaces.
/// `char::to_lowercase`: what it gives for `c`, one to three characters.
pub uninterp spec fn lowercase_of(c: char) -> Seq<char>;

/// An ASCII letter in lowercase; other characters as they are.
pub open spec fn ascii_lowercase(c: char) -> char {
    if 'A' <= c <= 'Z' {
        (c as u32 + 0x20) as char
    } else {
        c
    }
}

/// `char::to_lowercase`: the lowercase of `c`, by Unicode. Of its result it is stated that it
/// depends on `c` alone, and what it is for ASCII characters: a letter in lowercase, or the
/// character itself.
#[verifier::external_body]
fn to_lowercase(c: char) -> (r: Vec<char>)
    ensures
        r@ == lowercase_of(c),
        (c as u32) < 0x80 ==> r@ == seq![ascii_lowercase(c)],
{
    c.to_lowercase().collect()
}

/// `s` in lowercase, character by character.
pub open spec fn lowercased(s: Seq<char>) -> Seq<char>
    decreases s.len(),
{
    if s.len() == 0 {
        Seq::empty()
    } else {
        lowercased(s.drop_last()) + lowercase_of(s.last())
    }
}

fn lowercase_chars(s: &str) -> (r: Vec<char>)
    ensures
        r@ == lowercased(s@),
{
    let chars = chars_of(s);
    let mut out: Vec<char> = Vec::new();
    let mut i: usize = 0;
    assert(s@.subrange(0, 0) =~= Seq::<char>::empty());
    while i < chars.len()
        invariant
            i <= chars@.len(),
            chars@ == s@,
            out@ == lowercased(s@.subrange(0, i as int)),
        decreases chars@.len() - i,
    {
        let mut lower = to_lowercase(chars[i]);
        out.append(&mut lower);
        i += 1;
        assert(s@.subrange(0, i as int).drop_last() =~= s@.subrange(0, i - 1));
    }
    assert(s@.subrange(0, i as int) =~= s@);
    out
}

/// Whether two names are the same, but for case.
pub open spec fn same_name(a: Seq<char>, b: Seq<char>) -> bool {
    lowercased(a) == lowercased(b)
}

/// Whether two names are the same, but for case.
pub fn names_match(a: &str, b: &str) -> (r: bool)
    ensures
        r == same_name(a@, b@),
{
    let x = lowercase_chars(a);
    let y = lowercase_chars(b);
    if x.len() != y.len() {
        return false;
    }
    let mut i: usize = 0;
    while i < x.len()
        invariant
            i <= x@.len() == y@.len(),
            x@ == lowercased(a@),
            y@ == lowercased(b@),
            forall|k: int| 0 <= k < i ==> x@[k] == y@[k],
        decreases x@.len() - i,
    {
        if x[i] != y[i] {
            assert(x@[i as int] != y@[i as int]);
            return false;
        }
        i += 1;
    }
    assert(x@ =~= y@);
    true
}

/// Whether `c` is a space of some kind (Unicode's White_Space).
pub open spec fn is_space(c: char) -> bool {
    let code = c as u32;
    ||| 0x09 <= code <= 0x0D
    ||| code == 0x20
    ||| code == 0x85
    ||| code == 0xA0
    ||| code == 0x1680
    ||| 0x2000 <= code <= 0x200A
    ||| code == 0x2028
    ||| code == 0x2029
    ||| code == 0x202F
    ||| code == 0x205F
    ||| code == 0x3000
}

fn check_space(c: char) -> (r: bool)
    ensures
        r == is_space(c),
{
    let code = c as u32;
    (0x09 <= code && code <= 0x0D) || code == 0x20 || code == 0x85 || code == 0xA0 || code == 0x1680
        || (0x2000 <= code && code <= 0x200A) || code == 0x2028 || code == 0x2029 || code == 0x202F
        || code == 0x205F || code == 0x3000
}

/// `s` without the spaces at its end.
pub open spec fn trimmed(s: Seq<char>) -> Seq<char>
    decreases s.len(),
{
    if s.len() > 0 && is_space(s.last()) {
        trimmed(s.drop_last())
    } else {
        s
    }
}

/// Takes the spaces at the end off.
pub fn trim_end(chars: &mut Vec<char>)
    ensures
        final(chars)@ == trimmed(old(chars)@),
{
    while chars.len() > 0 && check_space(chars[chars.len() - 1])
        invariant
            trimmed(old(chars)@) == trimmed(chars@),
        decreases chars@.len(),
    {
        let ghost before = chars@;
        let _ = chars.pop();
        assert(chars@ =~= before.drop_last());
    }
}

/// A Latin-1 letter in lowercase; other characters as they are.
pub open spec fn latin_lowercase(b: u8) -> char {
    if 0x41 <= b <= 0x5A || 0xC0 <= b <= 0xD6 || 0xD8 <= b <= 0xDE {
        (b + 0x20) as char
    } else {
        b as char
    }
}

/// Part of an 8.3 name: its bytes but for the spaces at their end, in lowercase if its flag says
/// so.
pub open spec fn short_part(part: Seq<u8>, lower: bool) -> Seq<char> {
    let plain = trimmed(Seq::new(part.len(), |i: int| part[i] as char));
    if lower {
        Seq::new(plain.len(), |i: int| latin_lowercase(part[i]))
    } else {
        plain
    }
}

/// The first character of an 8.3 name's base, which may be escaped.
pub open spec fn unescaped(base: Seq<char>, first: u8) -> Seq<char> {
    if first == ENTRY_KANJI_E5 {
        base.update(0, '\u{E5}')
    } else {
        base
    }
}

/// The 8.3 name in a directory entry.
pub open spec fn short_name_in(entry: Seq<u8>) -> Seq<char> {
    let base = unescaped(
        short_part(entry.subrange(0, 8), entry[12] / CASE_LOWER_BASE % 2 == 1),
        entry[0],
    );
    let ext = short_part(entry.subrange(8, 11), entry[12] / CASE_LOWER_EXT % 2 == 1);
    if ext.len() == 0 {
        base
    } else {
        base + seq!['.'] + ext
    }
}

pub proof fn lemma_trimmed(s: Seq<char>)
    ensures
        trimmed(s).len() <= s.len(),
        trimmed(s) == s.subrange(0, trimmed(s).len() as int),
        trimmed(s).len() > 0 ==> !is_space(trimmed(s).last()),
        forall|i: int| trimmed(s).len() <= i < s.len() ==> is_space(#[trigger] s[i]),
    decreases s.len(),
{
    if s.len() > 0 && is_space(s.last()) {
        lemma_trimmed(s.drop_last());
        let n = trimmed(s).len() as int;
        assert(s.drop_last().subrange(0, n) =~= s.subrange(0, n));
        assert forall|i: int| n <= i < s.len() implies is_space(#[trigger] s[i]) by {
            if i < s.len() - 1 {
                assert(s.drop_last()[i] == s[i]);
            }
        }
    } else {
        assert(s.subrange(0, s.len() as int) =~= s);
    }
}

fn read_short_part(part: &[u8], lower: bool) -> (r: Vec<char>)
    ensures
        r@ == short_part(part@, lower),
{
    let mut out: Vec<char> = Vec::new();
    let mut i: usize = 0;
    let ghost all = Seq::new(part@.len(), |k: int| part@[k] as char);
    while i < part.len()
        invariant
            i <= part@.len(),
            all == Seq::new(part@.len(), |k: int| part@[k] as char),
            out@ == all.subrange(0, i as int),
        decreases part@.len() - i,
    {
        out.push(part[i] as char);
        i += 1;
        assert(out@ =~= all.subrange(0, i as int));
    }
    assert(out@ =~= all);
    trim_end(&mut out);
    proof {
        lemma_trimmed(all);
    }
    let ghost plain = out@;
    if lower {
        let mut k: usize = 0;
        while k < out.len()
            invariant
                k <= out@.len() == plain.len() <= part@.len(),
                forall|j: int| 0 <= j < k ==> #[trigger] out@[j] == latin_lowercase(part@[j]),
            decreases out@.len() - k,
        {
            let b = part[k];
            let c = if (0x41 <= b && b <= 0x5A) || (0xC0 <= b && b <= 0xD6) || (0xD8 <= b && b
                <= 0xDE) {
                (b + 0x20) as char
            } else {
                b as char
            };
            out.set(k, c);
            k += 1;
        }
        assert(out@ =~= short_part(part@, lower));
    }
    out
}

/// The 8.3 name in a directory entry.
pub fn short_name(entry: &[u8]) -> (r: String)
    requires
        entry@.len() >= 13,
    ensures
        r@ == short_name_in(entry@),
{
    let case = entry[12];
    let mut base = read_short_part(&entry[0..8], case / CASE_LOWER_BASE % 2 == 1);
    if entry[0] == ENTRY_KANJI_E5 {
        proof {
            let plain = Seq::new(8, |i: int| entry@.subrange(0, 8)[i] as char);
            lemma_trimmed(plain);
            assert(plain[0] == '\u{5}');
            assert(!is_space(plain[0]));
        }
        base.set(0, '\u{E5}');
    }
    let mut ext = read_short_part(&entry[8..11], case / CASE_LOWER_EXT % 2 == 1);
    if ext.len() > 0 {
        base.push('.');
        base.append(&mut ext);
    }
    assert(base@ =~= short_name_in(entry@));
    text::string_of(&base)
}

/// Checksum of an 8.3 name, stored in its long name entries to tie them together: each byte
/// is added after the sum is rotated right by a bit.
pub open spec fn short_checksum(name: Seq<u8>) -> u8
    decreases name.len(),
{
    if name.len() == 0 {
        0
    } else {
        let sum = short_checksum(name.drop_last());
        ((sum / 2 + sum % 2 * 0x80 + name.last()) % 0x100) as u8
    }
}

/// Checksum of an 8.3 name.
pub fn short_name_checksum(name: &[u8]) -> (r: u8)
    ensures
        r == short_checksum(name@),
{
    let mut sum: u8 = 0;
    let mut i: usize = 0;
    assert(name@.subrange(0, 0) =~= Seq::<u8>::empty());
    while i < name.len()
        invariant
            i <= name@.len(),
            sum == short_checksum(name@.subrange(0, i as int)),
        decreases name@.len() - i,
    {
        let rotated: u16 = (sum / 2) as u16 + (sum % 2) as u16 * 0x80;
        sum = ((rotated + name[i] as u16) % 0x100) as u8;
        i += 1;
        assert(name@.subrange(0, i as int).drop_last() =~= name@.subrange(0, i - 1));
    }
    assert(name@.subrange(0, i as int) =~= name@);
    sum
}

// Long names.
/// Where in a long name entry the unit number `k` is.
pub open spec fn lfn_offset(k: int) -> int {
    if k < 5 {
        1 + 2 * k
    } else if k < 11 {
        14 + 2 * (k - 5)
    } else {
        28 + 2 * (k - 11)
    }
}

pub fn unit_offset(k: usize) -> (r: usize)
    requires
        k < LFN_CHARS,
    ensures
        r == lfn_offset(k as int),
        r + 2 <= DIR_ENTRY_SIZE,
{
    if k < 5 {
        1 + 2 * k
    } else if k < 11 {
        14 + 2 * (k - 5)
    } else {
        28 + 2 * (k - 11)
    }
}

/// The 13 units in a long name entry.
pub open spec fn piece_units(entry: Seq<u8>) -> Seq<u16> {
    Seq::new(LFN_CHARS as nat, |k: int| bytes::le16(entry, lfn_offset(k)))
}

/// The units up to the first that ends a name: 0, or padding.
pub open spec fn name_units(units: Seq<u16>) -> Seq<u16>
    decreases units.len(),
{
    if units.len() == 0 {
        units
    } else {
        let front = name_units(units.drop_last());
        if front.len() == units.len() - 1 && units.last() != 0 && units.last() != 0xFFFF {
            units
        } else {
            front
        }
    }
}

/// How many units there are before the first that ends a name.
pub fn name_length(units: &[u16]) -> (r: usize)
    ensures
        r <= units@.len(),
        name_units(units@) == units@.subrange(0, r as int),
{
    let mut n: usize = 0;
    assert(units@.subrange(0, 0) =~= Seq::<u16>::empty());
    while n < units.len() && units[n] != 0 && units[n] != 0xFFFF
        invariant
            n <= units@.len(),
            name_units(units@.subrange(0, n as int)) == units@.subrange(0, n as int),
        decreases units@.len() - n,
    {
        n += 1;
        assert(units@.subrange(0, n as int).drop_last() =~= units@.subrange(0, n - 1));
    }
    proof {
        lemma_name_units_stop(units@, n as int, units@.len() as int);
        assert(units@.subrange(0, units@.len() as int) =~= units@);
    }
    n
}

/// What follows the end of a name isn't part of it.
proof fn lemma_name_units_stop(units: Seq<u16>, n: int, m: int)
    requires
        0 <= n <= m <= units.len(),
        n < units.len() ==> units[n] == 0 || units[n] == 0xFFFF,
        name_units(units.subrange(0, n)) == units.subrange(0, n),
    ensures
        name_units(units.subrange(0, m)) == units.subrange(0, n),
    decreases m,
{
    if m > n {
        lemma_name_units_stop(units, n, m - 1);
        assert(units.subrange(0, m).drop_last() =~= units.subrange(0, m - 1));
    }
}

// Names to be stored.
/// Whether FAT names may not contain `c`.
pub open spec fn is_forbidden(c: char) -> bool {
    ||| (c as u32) < 0x20
    ||| c == '"'
    ||| c == '*'
    ||| c == '/'
    ||| c == ':'
    ||| c == '<'
    ||| c == '>'
    ||| c == '?'
    ||| c == '\\'
    ||| c == '|'
}

/// Whether `name` is one FAT can store.
pub open spec fn storable(name: Seq<char>) -> bool {
    &&& name.len() > 0
    &&& utf16(name).len() <= MAX_NAME
    &&& name.last() != ' '
    &&& name.last() != '.'
    &&& forall|i: int| 0 <= i < name.len() ==> !is_forbidden(#[trigger] name[i])
}

/// Checks `name` is one FAT can store: not empty, not too long, not `.` or `..`, not ending in
/// a space or a dot, and without characters that FAT names may not contain.
pub fn is_storable(name: &str) -> (r: bool)
    ensures
        r == storable(name@),
{
    let chars = chars_of(name);
    let n = chars.len();
    if n == 0 || chars[n - 1] == ' ' || chars[n - 1] == '.' {
        return false;
    }
    let units = encode_utf16(name);
    if units.len() > MAX_NAME {
        return false;
    }
    let mut i: usize = 0;
    while i < n
        invariant
            i <= n == chars@.len(),
            chars@ == name@,
            forall|k: int| 0 <= k < i ==> !is_forbidden(#[trigger] name@[k]),
        decreases n - i,
    {
        let c = chars[i];
        if (c as u32) < 0x20 || c == '"' || c == '*' || c == '/' || c == ':' || c == '<' || c == '>'
            || c == '?' || c == '\\' || c == '|' {
            assert(is_forbidden(name@[i as int]));
            return false;
        }
        i += 1;
    }
    true
}

/// Whether 8.3 names may contain `c`: ASCII letters and digits, and a few others.
pub open spec fn is_short_char(c: char) -> bool {
    ||| 'a' <= c <= 'z'
    ||| 'A' <= c <= 'Z'
    ||| '0' <= c <= '9'
    ||| c == '!'
    ||| c == '#'
    ||| c == '$'
    ||| c == '%'
    ||| c == '&'
    ||| c == '\''
    ||| c == '('
    ||| c == ')'
    ||| c == '-'
    ||| c == '@'
    ||| c == '^'
    ||| c == '_'
    ||| c == '`'
    ||| c == '{'
    ||| c == '}'
    ||| c == '~'
}

fn check_short_char(c: char) -> (r: bool)
    ensures
        r == is_short_char(c),
{
    ('a' <= c && c <= 'z') || ('A' <= c && c <= 'Z') || ('0' <= c && c <= '9') || c == '!' || c
        == '#' || c == '$' || c == '%' || c == '&' || c == '\'' || c == '(' || c == ')' || c == '-'
        || c == '@' || c == '^' || c == '_' || c == '`' || c == '{' || c == '}' || c == '~'
}

/// The byte an 8.3 name has for `c`: an ASCII letter in uppercase, or the character itself.
pub open spec fn upper_byte(c: char) -> u8 {
    if 'a' <= c <= 'z' {
        (c as u32 - 0x20) as u8
    } else {
        c as u8
    }
}

fn uppercase_byte(c: char) -> (r: u8)
    requires
        (c as u32) < 0x80,
    ensures
        r == upper_byte(c),
{
    if 'a' <= c && c <= 'z' {
        (c as u32 - 0x20) as u8
    } else {
        c as u8
    }
}

pub open spec fn has_lower(part: Seq<char>) -> bool {
    exists|i: int| 0 <= i < part.len() && 'a' <= #[trigger] part[i] <= 'z'
}

pub open spec fn has_upper(part: Seq<char>) -> bool {
    exists|i: int| 0 <= i < part.len() && 'A' <= #[trigger] part[i] <= 'Z'
}

/// Whether a part of an 8.3 name can be stored as it is: in characters 8.3 names allow, and in
/// a single case.
pub open spec fn plain_part(part: Seq<char>) -> bool {
    &&& forall|i: int| 0 <= i < part.len() ==> is_short_char(#[trigger] part[i])
    &&& !(has_lower(part) && has_upper(part))
}

/// A part of an 8.3 name, in uppercase and padded with spaces.
pub open spec fn padded_part(part: Seq<char>, length: nat) -> Seq<u8> {
    Seq::new(
        length,
        |i: int|
            if i < part.len() {
                upper_byte(part[i])
            } else {
                0x20
            },
    )
}

/// `name` as an 8.3 name with its case flags, if it is one: up to 8 characters, maybe a dot
/// and up to 3 more, from the characters 8.3 names allow, each part in a single case.
pub open spec fn exact_short(name: Seq<char>) -> Option<(Seq<u8>, u8)> {
    let (base, ext) = text::split_once(name, '.');
    if 0 < base.len() <= 8 && ext.len() <= 3 && plain_part(base) && plain_part(ext) {
        let base_flag: int = if has_lower(base) {
            CASE_LOWER_BASE as int
        } else {
            0
        };
        let ext_flag: int = if has_lower(ext) {
            CASE_LOWER_EXT as int
        } else {
            0
        };
        Some((padded_part(base, 8) + padded_part(ext, 3), (base_flag + ext_flag) as u8))
    } else {
        None
    }
}

/// The part of a name that `chars` holds from `from` to `to`, as it stands in an 8.3 name, and
/// whether it is in lowercase; `None` if an 8.3 name can't have it.
fn read_plain_part(chars: &Vec<char>, from: usize, to: usize, length: usize) -> (r: Option<
    (Vec<u8>, bool),
>)
    requires
        from <= to <= chars@.len(),
        to - from <= length <= 8,
    ensures
        ({
            let part = chars@.subrange(from as int, to as int);
            match r {
                Some((bytes, lower)) => plain_part(part) && bytes@ == padded_part(
                    part,
                    length as nat,
                ) && lower == has_lower(part),
                None => !plain_part(part),
            }
        }),
{
    let ghost part = chars@.subrange(from as int, to as int);
    let mut out: Vec<u8> = Vec::new();
    let mut lower = false;
    let mut upper = false;
    let mut i: usize = from;
    while i < to
        invariant
            from <= i <= to <= chars@.len(),
            to - from <= length,
            part == chars@.subrange(from as int, to as int),
            forall|k: int| 0 <= k < i - from ==> is_short_char(#[trigger] part[k]),
            lower == (exists|k: int| 0 <= k < i - from && 'a' <= #[trigger] part[k] <= 'z'),
            upper == (exists|k: int| 0 <= k < i - from && 'A' <= #[trigger] part[k] <= 'Z'),
            out@ == padded_part(part, length as nat).subrange(0, i - from),
        decreases to - i,
    {
        let c = chars[i];
        assert(part[i - from] == c);
        if !check_short_char(c) {
            assert(!is_short_char(part[i - from]));
            return None;
        }
        if 'a' <= c && c <= 'z' {
            lower = true;
        }
        if 'A' <= c && c <= 'Z' {
            upper = true;
        }
        out.push(uppercase_byte(c));
        i += 1;
        assert(out@ =~= padded_part(part, length as nat).subrange(0, i - from));
    }
    if lower && upper {
        return None;
    }
    while out.len() < length
        invariant
            part.len() <= out@.len() <= length,
            out@ == padded_part(part, length as nat).subrange(0, out@.len() as int),
        decreases length - out@.len(),
    {
        out.push(0x20);
        assert(out@ =~= padded_part(part, length as nat).subrange(0, out@.len() as int));
    }
    assert(out@ =~= padded_part(part, length as nat));
    Some((out, lower))
}

/// `name` as an 8.3 name with its case flags, if it is one: up to 8 characters, maybe a dot
/// and up to 3 more, from the characters 8.3 names allow, each part in a single case.
pub fn exact_short_name(name: &str) -> (r: Option<(Vec<u8>, u8)>)
    ensures
        match r {
            Some((short, flags)) => exact_short(name@) == Some((short@, flags)),
            None => exact_short(name@) is None,
        },
{
    let chars = chars_of(name);
    let n = chars.len();
    let dot = text::find_char(&chars, 0, '.');
    let ghost (base, ext) = text::split_once(name@, '.');
    let ext_from: usize = if dot < n {
        dot + 1
    } else {
        n
    };
    assert(base =~= chars@.subrange(0, dot as int));
    assert(ext =~= chars@.subrange(ext_from as int, n as int));
    if dot == 0 || dot > 8 || n - ext_from > 3 {
        return None;
    }
    let (mut short, base_lower) = read_plain_part(&chars, 0, dot, 8)?;
    let (mut tail, ext_lower) = read_plain_part(&chars, ext_from, n, 3)?;
    short.append(&mut tail);
    let base_flag: u8 = if base_lower {
        CASE_LOWER_BASE
    } else {
        0
    };
    let ext_flag: u8 = if ext_lower {
        CASE_LOWER_EXT
    } else {
        0
    };
    assert(short@ =~= padded_part(base, 8) + padded_part(ext, 3));
    Some((short, base_flag + ext_flag))
}

// Aliases.
/// The bytes that an alias has for `part`: spaces and dots left out, letters in uppercase, and
/// `_` for what 8.3 names can't have.
pub open spec fn cleaned(part: Seq<char>) -> Seq<u8>
    decreases part.len(),
{
    if part.len() == 0 {
        Seq::empty()
    } else {
        let front = cleaned(part.drop_last());
        let c = part.last();
        if c == ' ' || c == '.' {
            front
        } else if is_short_char(c) {
            front.push(upper_byte(c))
        } else {
            front.push(0x5F)
        }
    }
}

/// The first `max` of `bytes`, or all of them if there are fewer.
pub open spec fn at_most(bytes: Seq<u8>, max: int) -> Seq<u8> {
    if bytes.len() > max {
        bytes.subrange(0, max)
    } else {
        bytes
    }
}

/// How many dots `s` starts with.
pub open spec fn leading_dots(s: Seq<char>, from: int) -> int
    decreases s.len() - from,
{
    if 0 <= from < s.len() && s[from] == '.' {
        leading_dots(s, from + 1)
    } else {
        from
    }
}

/// The last place before `to` that holds a `c`; -1 if none does.
pub open spec fn last_place(s: Seq<char>, c: char, to: int) -> int
    decreases to,
{
    if to <= 0 {
        -1
    } else if s[to - 1] == c {
        to - 1
    } else {
        last_place(s, c, to - 1)
    }
}

/// What an alias of `name` starts with (up to 6 bytes), and its extension.
pub open spec fn alias_basis(name: Seq<char>) -> (Seq<u8>, Seq<u8>) {
    let from = leading_dots(name, 0);
    let n = name.len() as int;
    let rest = name.subrange(from, n);
    let dot = last_place(rest, '.', rest.len() as int);
    let base = if dot < 0 {
        rest
    } else {
        rest.subrange(0, dot)
    };
    let ext = if dot < 0 {
        Seq::empty()
    } else {
        rest.subrange(dot + 1, rest.len() as int)
    };
    let basis = at_most(cleaned(base), 6);
    (
        if basis.len() == 0 {
            seq![0x5Fu8]
        } else {
            basis
        },
        at_most(cleaned(ext), 3),
    )
}

/// The number that tells an alias from others, as it stands in it: `~` and its digits.
pub open spec fn alias_tail(n: nat) -> Seq<u8> {
    seq![0x7Eu8] + Seq::new(text::decimal(n).len(), |i: int| text::decimal(n)[i] as u8)
}

/// The alias number `n`: the start of `basis`, as much as fits, then the number, and the
/// extension.
pub open spec fn numbered_alias(basis: Seq<u8>, ext: Seq<u8>, n: nat) -> Seq<u8> {
    let tail = alias_tail(n);
    let base = at_most(basis, 8 - tail.len()) + tail;
    base + spaces((8 - base.len()) as nat) + ext + spaces((3 - ext.len()) as nat)
}

/// `n` spaces.
pub open spec fn spaces(n: nat) -> Seq<u8> {
    Seq::new(n, |i: int| 0x20u8)
}

/// The numbers that fit an alias.
pub const MAX_ALIAS: u32 = 9_999_999;

/// The alias of `name` with the lowest number from `n` on that isn't among `taken`.
pub open spec fn alias_from(
    basis: Seq<u8>,
    ext: Seq<u8>,
    taken: Seq<Seq<u8>>,
    n: nat,
) -> Option<Seq<u8>>
    decreases MAX_ALIAS + 1 - n,
{
    if n > MAX_ALIAS {
        None
    } else if taken.contains(numbered_alias(basis, ext, n)) {
        alias_from(basis, ext, taken, n + 1)
    } else {
        Some(numbered_alias(basis, ext, n))
    }
}

/// A unique 8.3 alias for a long name, like `LONGFI~1TXT`: the start of the name and its
/// extension, uppercased with characters 8.3 names can't have left out or replaced. `None` if
/// every number is taken.
pub open spec fn alias_of(name: Seq<char>, taken: Seq<Seq<u8>>) -> Option<Seq<u8>> {
    let (basis, ext) = alias_basis(name);
    alias_from(basis, ext, taken, 1)
}

/// The bytes that an alias has for what `chars` holds from `from` to `to`, up to `max`.
fn clean(chars: &Vec<char>, from: usize, to: usize, max: usize) -> (r: Vec<u8>)
    requires
        from <= to <= chars@.len(),
    ensures
        r@ == at_most(cleaned(chars@.subrange(from as int, to as int)), max as int),
{
    let ghost part = chars@.subrange(from as int, to as int);
    let mut out: Vec<u8> = Vec::new();
    let mut i: usize = from;
    assert(part.subrange(0, 0) =~= Seq::<char>::empty());
    while i < to
        invariant
            from <= i <= to <= chars@.len(),
            part == chars@.subrange(from as int, to as int),
            out@ == cleaned(part.subrange(0, i - from)),
        decreases to - i,
    {
        let c = chars[i];
        if c != ' ' && c != '.' {
            if check_short_char(c) {
                out.push(uppercase_byte(c));
            } else {
                out.push(0x5F);
            }
        }
        i += 1;
        assert(part.subrange(0, i - from).drop_last() =~= part.subrange(0, i - from - 1));
        assert(part.subrange(0, i - from).last() == c);
    }
    assert(part.subrange(0, i - from) =~= part);
    if out.len() > max {
        out.truncate(max);
    }
    assert(out@ =~= at_most(cleaned(part), max as int));
    out
}

/// Whether `name` is among `taken`.
fn is_taken(taken: &Vec<Vec<u8>>, name: &Vec<u8>) -> (r: bool)
    ensures
        r == names_of(taken@).contains(name@),
{
    let mut i: usize = 0;
    while i < taken.len()
        invariant
            i <= taken@.len(),
            forall|k: int| 0 <= k < i ==> names_of(taken@)[k] != name@,
        decreases taken@.len() - i,
    {
        if bytes::same_bytes(&taken[i], name) {
            assert(names_of(taken@)[i as int] == name@);
            return true;
        }
        assert(names_of(taken@)[i as int] == taken@[i as int]@);
        i += 1;
    }
    false
}

/// The names in a list of them.
pub open spec fn names_of(list: Seq<Vec<u8>>) -> Seq<Seq<u8>> {
    Seq::new(list.len(), |i: int| list[i]@)
}

fn numbered(basis: &Vec<u8>, ext: &Vec<u8>, n: u32) -> (r: Vec<u8>)
    requires
        1 <= n <= MAX_ALIAS,
        basis@.len() <= 6,
        ext@.len() <= 3,
    ensures
        r@ == numbered_alias(basis@, ext@, n as nat),
        r@.len() == 11,
{
    proof {
        text::lemma_decimal_length(n as nat);
    }
    let mut digits = String::new();
    push_decimal(&mut digits, n as u64);
    assert(digits@ =~= text::decimal(n as nat));
    let chars = chars_of(&digits);
    let room: usize = 7 - chars.len();
    let mut out: Vec<u8> = Vec::new();
    if basis.len() > room {
        bytes::push_all(&mut out, &basis[0..room]);
    } else {
        bytes::push_all(&mut out, basis);
    }
    assert(out@ =~= at_most(basis@, 8 - alias_tail(n as nat).len()));
    out.push(0x7E);
    let ghost start = out@;
    let mut i: usize = 0;
    while i < chars.len()
        invariant
            i <= chars@.len(),
            chars@ == text::decimal(n as nat),
            out@ == start + Seq::new(i as nat, |k: int| chars@[k] as u8),
        decreases chars@.len() - i,
    {
        out.push(chars[i] as u8);
        i += 1;
        assert(out@ =~= start + Seq::new(i as nat, |k: int| chars@[k] as u8));
    }
    let ghost base = at_most(basis@, 8 - alias_tail(n as nat).len()) + alias_tail(n as nat);
    assert(out@ =~= base);
    bytes::pad_to(&mut out, 8, 0x20);
    assert(out@ =~= base + spaces((8 - base.len()) as nat));
    bytes::push_all(&mut out, ext);
    bytes::pad_to(&mut out, 11, 0x20);
    assert(out@ =~= numbered_alias(basis@, ext@, n as nat));
    out
}

/// A unique 8.3 alias for a long name, like `LONGFI~1TXT`: the start of the name and its
/// extension, uppercased with characters 8.3 names can't have left out or replaced. `None` if
/// every number is taken.
pub fn alias(name: &str, taken: &Vec<Vec<u8>>) -> (r: Option<Vec<u8>>)
    ensures
        match r {
            Some(short) => alias_of(name@, names_of(taken@)) == Some(short@) && short@.len() == 11,
            None => alias_of(name@, names_of(taken@)) is None,
        },
{
    let chars = chars_of(name);
    let n = chars.len();
    let mut from: usize = 0;
    while from < n && chars[from] == '.'
        invariant
            from <= n == chars@.len(),
            chars@ == name@,
            leading_dots(name@, 0) == leading_dots(name@, from as int),
        decreases n - from,
    {
        from += 1;
    }
    let ghost rest = name@.subrange(from as int, n as int);
    let mut end: usize = n;
    while end > from && chars[end - 1] != '.'
        invariant
            from <= end <= n == chars@.len(),
            chars@ == name@,
            rest == name@.subrange(from as int, n as int),
            last_place(rest, '.', rest.len() as int) == last_place(rest, '.', end - from),
        decreases end - from,
    {
        assert(rest[end - from - 1] == chars@[end - 1]);
        end -= 1;
    }
    let ghost dot = last_place(rest, '.', rest.len() as int);
    let mut basis: Vec<u8>;
    let ext: Vec<u8>;
    if end == from {
        assert(dot == -1);
        assert(chars@.subrange(from as int, n as int) =~= rest);
        assert(chars@.subrange(n as int, n as int) =~= Seq::<char>::empty());
        basis = clean(&chars, from, n, 6);
        ext = clean(&chars, n, n, 3);
    } else {
        assert(rest[end - from - 1] == chars@[end - 1]);
        assert(dot == end - from - 1);
        assert(chars@.subrange(from as int, end - 1) =~= rest.subrange(0, dot));
        assert(chars@.subrange(end as int, n as int) =~= rest.subrange(dot + 1, rest.len() as int));
        basis = clean(&chars, from, end - 1, 6);
        ext = clean(&chars, end, n, 3);
    }
    if basis.len() == 0 {
        basis.push(0x5F);
        assert(basis@ =~= seq![0x5Fu8]);
    }
    assert(alias_basis(name@) == (basis@, ext@));
    let mut number: u32 = 1;
    while number <= MAX_ALIAS
        invariant
            1 <= number <= MAX_ALIAS + 1,
            basis@.len() <= 6,
            ext@.len() <= 3,
            alias_of(name@, names_of(taken@)) == alias_from(
                basis@,
                ext@,
                names_of(taken@),
                number as nat,
            ),
        decreases MAX_ALIAS + 1 - number,
    {
        let short = numbered(&basis, &ext, number);
        if !is_taken(taken, &short) {
            return Some(short);
        }
        number += 1;
    }
    None
}

// What is stored comes back.
/// Characters that 8.3 names allow are ASCII, and no spaces.
proof fn lemma_short_char(c: char)
    requires
        is_short_char(c),
    ensures
        0x21 <= c as u32 <= 0x7E,
        !is_space(c),
        c != '.',
        !('A' <= c <= 'Z') ==> latin_lowercase(upper_byte(c)) == c,
        !('a' <= c <= 'z') ==> upper_byte(c) as char == c,
        0x21 <= upper_byte(c) <= 0x7E,
{
    vstd::utf8::char_u32_cast(c, c as u32);
}

/// A part of an 8.3 name comes back as it was stored.
proof fn lemma_part_comes_back(part: Seq<char>, length: nat)
    requires
        plain_part(part),
        part.len() <= length,
    ensures
        short_part(padded_part(part, length), has_lower(part)) == part,
{
    let padded = padded_part(part, length);
    let chars = Seq::new(length, |i: int| padded[i] as char);
    lemma_trimmed(chars);
    let n = trimmed(chars).len() as int;
    assert forall|i: int| part.len() <= i < length implies is_space(#[trigger] chars[i]) by {
        assert(padded[i] == 0x20);
    }
    assert forall|i: int| 0 <= i < part.len() implies !is_space(#[trigger] chars[i]) && (has_lower(
        part,
    ) ==> latin_lowercase(padded[i]) == part[i]) && (!has_lower(part) ==> chars[i] == part[i]) by {
        assert(is_short_char(part[i]));
        lemma_short_char(part[i]);
        assert(padded[i] == upper_byte(part[i]));
        let u = upper_byte(part[i]);
        assert((u as char) as u32 == u);
    }
    if n > part.len() {
        assert(trimmed(chars).last() == chars[n - 1]);
    }
    if n < part.len() {
        assert(is_space(chars[n]));
    }
    assert(n == part.len());
    assert(trimmed(chars) =~= chars.subrange(0, n));
    if has_lower(part) {
        assert(short_part(padded, true) =~= part);
    } else {
        assert(short_part(padded, false) =~= part);
    }
}

/// An 8.3 name that is stored as it is comes back, case and all.
pub proof fn short_names_come_back(name: Seq<char>, entry: Seq<u8>)
    requires
        storable(name),
        entry.len() >= 13,
        exact_short(name) matches Some((short, flags)) && entry.subrange(0, 11) == short
            && entry[12] == flags,
    ensures
        short_name_in(entry) == name,
        0x21 <= entry[0] <= 0x7E,
{
    let (base, ext) = text::split_once(name, '.');
    let (short, flags) = exact_short(name)->0;
    let dot = text::find_from(name, 0, '.');
    text::lemma_found(name, 0, '.');
    lemma_part_comes_back(base, 8);
    lemma_part_comes_back(ext, 3);
    assert(short.subrange(0, 8) =~= padded_part(base, 8));
    assert(short.subrange(8, 11) =~= padded_part(ext, 3));
    assert(entry.subrange(0, 8) =~= short.subrange(0, 8)) by {
        assert forall|i: int| 0 <= i < 8 implies entry[i] == short[i] by {
            assert(entry.subrange(0, 11)[i] == short[i]);
        }
    }
    assert(entry.subrange(8, 11) =~= short.subrange(8, 11)) by {
        assert forall|i: int| 8 <= i < 11 implies entry[i] == short[i] by {
            assert(entry.subrange(0, 11)[i] == short[i]);
        }
    }
    assert(entry[0] == short[0]);
    assert(is_short_char(base[0]));
    lemma_short_char(base[0]);
    assert(entry[12] / CASE_LOWER_BASE % 2 == 1 <==> has_lower(base));
    assert(entry[12] / CASE_LOWER_EXT % 2 == 1 <==> has_lower(ext));
    if dot < name.len() {
        if ext.len() == 0 {
            assert(dot == name.len() - 1);
            assert(name.last() == '.');
        }
        assert(base + seq!['.'] + ext =~= name);
    } else {
        assert(base =~= name);
    }
}

/// What an alias is made of is ASCII, and no spaces.
proof fn lemma_cleaned(part: Seq<char>)
    ensures
        forall|i: int| 0 <= i < cleaned(part).len() ==> 0x21 <= #[trigger] cleaned(part)[i] <= 0x7E,
    decreases part.len(),
{
    if part.len() > 0 {
        lemma_cleaned(part.drop_last());
        let front = cleaned(part.drop_last());
        let all = cleaned(part);
        if is_short_char(part.last()) {
            lemma_short_char(part.last());
        }
        assert forall|i: int| 0 <= i < all.len() implies 0x21 <= #[trigger] all[i] <= 0x7E by {
            if i < front.len() {
                assert(all[i] == front[i]);
            }
        }
    }
}

/// An alias has the length of an 8.3 name, and starts with none of the bytes that mark entries.
pub proof fn lemma_alias(name: Seq<char>, taken: Seq<Seq<u8>>)
    ensures
        alias_of(name, taken) matches Some(short) ==> short.len() == 11 && 0x21 <= short[0] <= 0x7E,
{
    let (basis, ext) = alias_basis(name);
    let from = leading_dots(name, 0);
    let rest = name.subrange(from, name.len() as int);
    let dot = last_place(rest, '.', rest.len() as int);
    lemma_cleaned(
        if dot < 0 {
            rest
        } else {
            rest.subrange(0, dot)
        },
    );
    lemma_alias_from(basis, ext, taken, 1);
}

proof fn lemma_alias_from(basis: Seq<u8>, ext: Seq<u8>, taken: Seq<Seq<u8>>, n: nat)
    requires
        1 <= n,
        0 < basis.len() <= 6,
        ext.len() <= 3,
        0x21 <= basis[0] <= 0x7E,
    ensures
        alias_from(basis, ext, taken, n) matches Some(short) ==> short.len() == 11 && 0x21
            <= short[0] <= 0x7E,
    decreases MAX_ALIAS + 1 - n,
{
    if n <= MAX_ALIAS {
        text::lemma_decimal_length(n);
        let short = numbered_alias(basis, ext, n);
        let tail = alias_tail(n);
        assert(tail[0] == 0x7E);
        if taken.contains(short) {
            lemma_alias_from(basis, ext, taken, n + 1);
        }
    }
}

/// The units of a storable name, but for those with U+FFFF in them, are those of a name: none
/// ends it early.
pub proof fn lemma_units_of_names(name: Seq<char>)
    requires
        forall|i: int| 0 <= i < name.len() ==> (#[trigger] name[i]) as u32 != 0 && name[i] as u32
            != 0xFFFF,
    ensures
        forall|i: int|
            0 <= i < utf16(name).len() ==> (#[trigger] utf16(name)[i]) != 0 && utf16(name)[i]
                != 0xFFFF,
    decreases name.len(),
{
    if name.len() > 0 {
        let front = name.drop_last();
        assert forall|i: int| 0 <= i < front.len() implies (#[trigger] front[i]) as u32 != 0
            && front[i] as u32 != 0xFFFF by {
            assert(front[i] == name[i]);
        }
        lemma_units_of_names(front);
        let c = name.last();
        assert(c == name[name.len() - 1]);
        vstd::utf8::char_is_scalar(c);
        let n = utf16(front).len();
        assert forall|i: int| 0 <= i < utf16(name).len() implies (#[trigger] utf16(name)[i]) != 0
            && utf16(name)[i] != 0xFFFF by {
            if i < n {
                assert(utf16(name)[i] == utf16(front)[i]);
            } else {
                assert(utf16(name)[i] == utf16_char(c)[i - n]);
            }
        }
    }
}

/// Units that don't end a name, followed by one that does or by nothing, are the name.
pub proof fn lemma_whole_name(name: Seq<u16>, rest: Seq<u16>)
    requires
        forall|i: int| 0 <= i < name.len() ==> (#[trigger] name[i]) != 0 && name[i] != 0xFFFF,
        rest.len() > 0 ==> rest[0] == 0 || rest[0] == 0xFFFF,
    ensures
        name_units(name + rest) == name,
{
    let whole = name + rest;
    lemma_all_name(whole, name.len() as int);
    assert(whole.subrange(0, name.len() as int) =~= name);
    lemma_name_units_stop(whole, name.len() as int, whole.len() as int);
    assert(whole.subrange(0, whole.len() as int) =~= whole);
}

proof fn lemma_all_name(units: Seq<u16>, n: int)
    requires
        0 <= n <= units.len(),
        forall|i: int| 0 <= i < n ==> (#[trigger] units[i]) != 0 && units[i] != 0xFFFF,
    ensures
        name_units(units.subrange(0, n)) == units.subrange(0, n),
    decreases n,
{
    if n > 0 {
        lemma_all_name(units, n - 1);
        assert(units.subrange(0, n).drop_last() =~= units.subrange(0, n - 1));
        assert(units.subrange(0, n).last() == units[n - 1]);
    }
}

/// Whether `c` is an ASCII letter or digit.
pub open spec fn is_alphanumeric(c: char) -> bool {
    'a' <= c <= 'z' || 'A' <= c <= 'Z' || '0' <= c <= '9'
}

/// An ASCII letter as a capital, and a digit as it is.
pub open spec fn capital(c: char) -> u8 {
    if 'a' <= c <= 'z' {
        (c as u32 - 32) as u8
    } else {
        c as u32 as u8
    }
}

proof fn lemma_cleaned_alphanumeric(part: Seq<char>)
    requires
        forall|i: int| 0 <= i < part.len() ==> is_alphanumeric(#[trigger] part[i]),
    ensures
        cleaned(part) == part.map_values(|c: char| capital(c)),
    decreases part.len(),
{
    let front = part.drop_last();
    if part.len() > 0 {
        assert forall|i: int| 0 <= i < front.len() implies is_alphanumeric(#[trigger] front[i]) by {
            assert(front[i] == part[i]);
        }
        lemma_cleaned_alphanumeric(front);
        assert(is_alphanumeric(part[part.len() - 1]));
        assert(cleaned(part) =~= part.map_values(|c: char| capital(c)));
    } else {
        assert(cleaned(part) =~= part.map_values(|c: char| capital(c)));
    }
}

/// The alias of a long name starts with the first 6 of its letters and digits, as capitals, and
/// has the first 3 of its extension's.
pub proof fn aliases_start_like_the_name(base: Seq<char>, ext: Seq<char>)
    requires
        base.len() > 0,
        forall|i: int| 0 <= i < base.len() ==> is_alphanumeric(#[trigger] base[i]),
        forall|i: int| 0 <= i < ext.len() ==> is_alphanumeric(#[trigger] ext[i]),
    ensures
        ({
            let (start, end) = alias_basis(base + seq!['.'] + ext);
            let all = base.map_values(|c: char| capital(c));
            let all_ext = ext.map_values(|c: char| capital(c));
            &&& start == all.subrange(
                0,
                if all.len() < 6 {
                    all.len() as int
                } else {
                    6
                },
            )
            &&& end == all_ext.subrange(
                0,
                if all_ext.len() < 3 {
                    all_ext.len() as int
                } else {
                    3
                },
            )
        }),
{
    let name = base + seq!['.'] + ext;
    assert(is_alphanumeric(base[0]));
    assert(name[0] == base[0]);
    assert(leading_dots(name, 0) == 0);
    let rest = name.subrange(0, name.len() as int);
    assert(rest =~= name);
    assert forall|i: int| base.len() < i < name.len() implies name[i] != '.' by {
        assert(is_alphanumeric(ext[i - base.len() - 1]));
    }
    lemma_last_dot(name, base.len() as int, name.len() as int);
    assert(name.subrange(0, base.len() as int) =~= base);
    assert(name.subrange(base.len() as int + 1, name.len() as int) =~= ext);
    lemma_cleaned_alphanumeric(base);
    lemma_cleaned_alphanumeric(ext);
    let all = base.map_values(|c: char| capital(c));
    let all_ext = ext.map_values(|c: char| capital(c));
    assert(all.subrange(0, all.len() as int) =~= all);
    assert(all_ext.subrange(0, all_ext.len() as int) =~= all_ext);
}

proof fn lemma_last_dot(s: Seq<char>, at: int, end: int)
    requires
        0 <= at < end <= s.len(),
        s[at] == '.',
        forall|i: int| at < i < s.len() ==> s[i] != '.',
    ensures
        last_place(s, '.', end) == at,
    decreases end,
{
    if end - 1 > at {
        lemma_last_dot(s, at, end - 1);
    }
}

/// Whether an 8.3 name is the start of a name, `~` and the number `n`, and an extension, both filled
/// up with spaces.
pub open spec fn is_alias_number(short: Seq<u8>, basis: Seq<u8>, ext: Seq<u8>, n: nat) -> bool {
    let digits = text::decimal(n).map_values(|c: char| c as u8);
    let room = 7 - digits.len();
    let start = basis.subrange(
        0,
        if basis.len() < room {
            basis.len() as int
        } else {
            room
        },
    );
    short == start + seq![126u8] + digits + spaces((room - start.len()) as nat) + ext + spaces(
        (3 - ext.len()) as nat,
    )
}

/// An alias is no name that is there already, and has the lowest number, from 1 on, with which it
/// is none.
pub proof fn aliases_are_new(name: Seq<char>, taken: Seq<Seq<u8>>)
    ensures
        alias_of(name, taken) matches Some(short) ==> {
            let (basis, ext) = alias_basis(name);
            &&& !taken.contains(short)
            &&& exists|n: nat|
                1 <= n <= 9_999_999 && #[trigger] is_alias_number(short, basis, ext, n) && (forall|
                    m: nat,
                |
                    1 <= m < n ==> taken.contains(#[trigger] numbered_alias(basis, ext, m)))
        },
{
    let (basis, ext) = alias_basis(name);
    lemma_alias_number(basis, ext, taken, 1);
}

proof fn lemma_alias_number(basis: Seq<u8>, ext: Seq<u8>, taken: Seq<Seq<u8>>, n: nat)
    requires
        1 <= n,
        ext.len() <= 3,
        forall|m: nat| 1 <= m < n ==> taken.contains(#[trigger] numbered_alias(basis, ext, m)),
    ensures
        alias_from(basis, ext, taken, n) matches Some(short) ==> !taken.contains(short) && exists|
            k: nat,
        |
            1 <= k <= 9_999_999 && #[trigger] is_alias_number(short, basis, ext, k) && (forall|
                m: nat,
            |
                1 <= m < k ==> taken.contains(#[trigger] numbered_alias(basis, ext, m))),
    decreases MAX_ALIAS + 1 - n,
{
    if n <= MAX_ALIAS {
        let short = numbered_alias(basis, ext, n);
        if taken.contains(short) {
            lemma_alias_number(basis, ext, taken, n + 1);
        } else {
            text::lemma_decimal_length(n);
            let digits = text::decimal(n).map_values(|c: char| c as u8);
            let room = 7 - digits.len();
            let start = at_most(basis, room);
            assert(basis.subrange(
                0,
                if basis.len() < room {
                    basis.len() as int
                } else {
                    room
                },
            ) =~= start);
            assert(alias_tail(n) =~= seq![126u8] + digits);
            assert(short =~= start + seq![126u8] + digits + spaces((room - start.len()) as nat) + ext
                + spaces((3 - ext.len()) as nat));
            assert(is_alias_number(short, basis, ext, n));
        }
    }
}

} // verus!
