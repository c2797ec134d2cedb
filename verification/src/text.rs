//! Text: characters in and out of strings, decimal numbers, and where UTF-8 text may be cut.

use vstd::prelude::*;
use vstd::string::StringSliceAdditionalSpecFns;
use vstd::utf8;

verus! {

/// `String::push`: the string gets the character at its end.
pub assume_specification[ String::push ](s: &mut String, c: char)
    ensures
        final(s)@ == old(s)@.push(c),
;

/// `core::str::from_utf8`: the text `bytes` spell, or `None` if they aren't valid UTF-8.
#[verifier::external_body]
pub(crate) fn utf8_text(bytes: &[u8]) -> (r: Option<&str>)
    ensures
        r is Some <==> utf8::valid_utf8(bytes@),
        r matches Some(s) ==> s.spec_bytes() == bytes@,
{
    core::str::from_utf8(bytes).ok()
}

/// `char::from_u32`: the character with that number, if there is one (surrogates and numbers
/// past 0x10FFFF have none).
#[verifier::external_body]
pub(crate) fn char_of(code: u32) -> (r: Option<char>)
    ensures
        r is Some <==> (code < 0xD800 || 0xE000 <= code <= 0x10_FFFF),
        r matches Some(c) ==> c as u32 == code,
{
    char::from_u32(code)
}

/// Equal texts are those spelled with the same bytes.
pub proof fn lemma_same_spelling(a: Seq<char>, b: Seq<char>)
    ensures
        utf8::encode_utf8(a) == utf8::encode_utf8(b) <==> a == b,
{
    utf8::encode_utf8_decode_utf8(a);
    utf8::encode_utf8_decode_utf8(b);
}

/// The characters of `s`.
pub fn chars_of(s: &str) -> (r: Vec<char>)
    ensures
        r@ == s@,
{
    let mut out: Vec<char> = Vec::new();
    for c in it: s.chars()
        invariant
            out@ == it.seq().subrange(0, it.index() as int),
            it.seq() == s@,
    {
        out.push(c);
        assert(out@ =~= it.seq().subrange(0, it.index() + 1));
    }
    assert(out@ =~= s@);
    out
}

/// `chars` as a string.
pub fn string_of(chars: &[char]) -> (r: String)
    ensures
        r@ == chars@,
{
    let mut out = String::new();
    let mut i: usize = 0;
    while i < chars.len()
        invariant
            i <= chars@.len(),
            out@ == chars@.subrange(0, i as int),
        decreases chars@.len() - i,
    {
        out.push(chars[i]);
        i += 1;
        assert(out@ =~= chars@.subrange(0, i as int));
    }
    assert(out@ =~= chars@);
    out
}

/// Whether two texts are the same.
pub fn same_text(a: &str, b: &str) -> (r: bool)
    ensures
        r == (a@ == b@),
{
    proof {
        lemma_same_spelling(a@, b@);
    }
    crate::bytes::same_bytes(a.as_bytes(), b.as_bytes())
}

/// The digit for `d`, 0 to 9.
pub open spec fn digit(d: int) -> char {
    (0x30 + d) as char
}

/// `n` in decimal, without leading zeros.
pub open spec fn decimal(n: nat) -> Seq<char>
    decreases n,
{
    if n < 10 {
        seq![digit(n as int)]
    } else {
        decimal(n / 10).push(digit((n % 10) as int))
    }
}

fn digit_char(d: u64) -> (c: char)
    requires
        d < 10,
    ensures
        c == digit(d as int),
{
    ((0x30 + d) as u8) as char
}

/// Appends `n` in decimal.
pub fn push_decimal(out: &mut String, n: u64)
    ensures
        final(out)@ == old(out)@ + decimal(n as nat),
    decreases n,
{
    if n < 10 {
        out.push(digit_char(n));
        assert(out@ =~= old(out)@ + decimal(n as nat));
    } else {
        push_decimal(out, n / 10);
        out.push(digit_char(n % 10));
        assert(out@ =~= old(out)@ + decimal(n as nat));
    }
}

/// The most bytes of `s`, at most `max`, that end between two characters.
pub open spec fn cut_length(s: Seq<u8>, max: int) -> int
    decreases max,
{
    if s.len() <= max {
        s.len() as int
    } else if max <= 0 || utf8::is_char_boundary(s, max) {
        max
    } else {
        cut_length(s, max - 1)
    }
}

/// Where `s` is cut so at most `max` bytes stay, between two characters.
pub fn cut_at(s: &str, max: usize) -> (end: usize)
    ensures
        end == cut_length(s.spec_bytes(), max as int),
        end <= max,
        end <= s.spec_bytes().len(),
        utf8::is_char_boundary(s.spec_bytes(), end as int),
{
    let bytes = s.as_bytes();
    proof {
        utf8::encode_utf8_valid_utf8(s@);
        utf8::is_char_boundary_start_end_of_seq(bytes@);
    }
    if bytes.len() <= max {
        return bytes.len();
    }
    let mut end = max;
    while !s.is_char_boundary(end)
        invariant
            end <= max < bytes@.len(),
            bytes@ == s.spec_bytes(),
            utf8::is_char_boundary(bytes@, 0),
            cut_length(bytes@, max as int) == cut_length(bytes@, end as int),
        decreases end,
    {
        end -= 1;
    }
    end
}

/// Whether `c` is a control character: one of the C0 and C1 controls, or delete.
pub open spec fn is_control_char(c: char) -> bool {
    (c as u32) < 0x20 || 0x7F <= c as u32 <= 0x9F
}

pub fn is_control(c: char) -> (r: bool)
    ensures
        r == is_control_char(c),
{
    (c as u32) < 0x20 || (0x7F <= c as u32 && c as u32 <= 0x9F)
}

/// The first place from `from` on that holds `c`; the length of `s` if none does.
pub open spec fn find_from(s: Seq<char>, from: int, c: char) -> int
    decreases s.len() - from,
{
    if from >= s.len() {
        s.len() as int
    } else if s[from] == c {
        from
    } else {
        find_from(s, from + 1, c)
    }
}

/// What `find_from` finds.
pub proof fn lemma_found(s: Seq<char>, from: int, c: char)
    requires
        0 <= from <= s.len(),
    ensures
        from <= find_from(s, from, c) <= s.len(),
        find_from(s, from, c) < s.len() ==> s[find_from(s, from, c)] == c,
        forall|i: int| from <= i < find_from(s, from, c) ==> s[i] != c,
    decreases s.len() - from,
{
    if from < s.len() && s[from] != c {
        lemma_found(s, from + 1, c);
    }
}

/// The first place that holds `c` is the one before which nothing does.
pub proof fn lemma_find_unique(s: Seq<char>, from: int, c: char, at: int)
    requires
        0 <= from <= at <= s.len(),
        at < s.len() ==> s[at] == c,
        forall|i: int| from <= i < at ==> s[i] != c,
    ensures
        find_from(s, from, c) == at,
    decreases at - from,
{
    if from < at {
        lemma_find_unique(s, from + 1, c, at);
    }
}

/// The first place from `from` on that holds `c`; the number of characters if none does.
pub fn find_char(chars: &[char], from: usize, c: char) -> (r: usize)
    requires
        from <= chars@.len(),
    ensures
        r == find_from(chars@, from as int, c),
        from <= r <= chars@.len(),
{
    proof {
        lemma_found(chars@, from as int, c);
    }
    let mut at = from;
    while at < chars.len() && chars[at] != c
        invariant
            from <= at <= chars@.len(),
            find_from(chars@, from as int, c) == find_from(chars@, at as int, c),
        decreases chars@.len() - at,
    {
        at += 1;
    }
    at
}

/// What is before the first `c`, and what is after it: nothing, if there is none.
pub open spec fn split_once(s: Seq<char>, c: char) -> (Seq<char>, Seq<char>) {
    let at = find_from(s, 0, c);
    if at < s.len() {
        (s.subrange(0, at), s.subrange(at + 1, s.len() as int))
    } else {
        (s, Seq::empty())
    }
}

/// Splits `s` at the first `c`.
pub fn split_at_char(s: &str, c: char) -> (r: (&str, &str))
    ensures
        (r.0@, r.1@) == split_once(s@, c),
{
    let chars = chars_of(s);
    let at = find_char(&chars, 0, c);
    if at < chars.len() {
        (s.substring_char(0, at), s.substring_char(at + 1, chars.len()))
    } else {
        let rest = s.substring_char(chars.len(), chars.len());
        assert(rest@ =~= Seq::<char>::empty());
        (s, rest)
    }
}

/// Text is spelled piece by piece.
pub proof fn lemma_spelled_in_pieces(a: Seq<char>, b: Seq<char>)
    ensures
        utf8::encode_utf8(a + b) == utf8::encode_utf8(a) + utf8::encode_utf8(b),
    decreases a.len(),
{
    if a.len() == 0 {
        assert(a + b =~= b);
        assert(utf8::encode_utf8(a) + utf8::encode_utf8(b) =~= utf8::encode_utf8(b));
    } else {
        assert((a + b).drop_first() =~= a.drop_first() + b);
        lemma_spelled_in_pieces(a.drop_first(), b);
        assert(utf8::encode_utf8(a + b) =~= utf8::encode_utf8(a) + utf8::encode_utf8(b));
    }
}

proof fn lemma_multibyte_spelling(c: u32)
    by (bit_vector)
    ensures
        c <= 0x7F ==> (c & 0x7F) as u8 == c,
        0x80 <= (0xC0 | ((c >> 6) & 0x1F) as u8),
        0x80 <= (0xE0 | ((c >> 12) & 0x0F) as u8),
        0x80 <= (0xF0 | ((c >> 18) & 0x7) as u8),
        0x80 <= (0x80 | (c & 0x3F) as u8),
        0x80 <= (0x80 | ((c >> 6) & 0x3F) as u8),
        0x80 <= (0x80 | ((c >> 12) & 0x3F) as u8),
{
}

/// A byte below 0x80 in the spelling of a text is a character of the text.
pub proof fn lemma_ascii_byte_is_a_char(s: Seq<char>, i: int)
    requires
        0 <= i < utf8::encode_utf8(s).len(),
        utf8::encode_utf8(s)[i] < 0x80,
    ensures
        s.contains(utf8::encode_utf8(s)[i] as char),
    decreases s.len(),
{
    let c = s[0] as u32;
    lemma_multibyte_spelling(c);
    utf8::char_is_scalar(s[0]);
    utf8::char_u32_cast(s[0], c);
    let first = utf8::encode_scalar(c);
    let whole = utf8::encode_utf8(s);
    if s.len() == 0 {
        assert(whole.len() == 0);
    }
    assert(whole =~= first + utf8::encode_utf8(s.drop_first()));
    if i < first.len() {
        assert(whole[i] == first[i]);
        assert(c <= 0x7F);
        assert(first[i] == c);
        assert(s[0] == utf8::encode_utf8(s)[i] as char);
    } else {
        lemma_ascii_byte_is_a_char(s.drop_first(), i - first.len());
        let rest = s.drop_first();
        let b = utf8::encode_utf8(s)[i] as char;
        let k = choose|k: int| 0 <= k < rest.len() && rest[k] == b;
        assert(s[k + 1] == b);
    }
}

/// A text of one ASCII character is spelled with one byte.
pub proof fn lemma_ascii_spelling(c: char)
    requires
        (c as u32) < 0x80,
    ensures
        utf8::encode_utf8(seq![c]) == seq![c as u8],
{
    lemma_multibyte_spelling(c as u32);
    let s = seq![c];
    assert(s.drop_first() =~= Seq::<char>::empty());
    assert(utf8::encode_utf8(s.drop_first()) =~= Seq::<u8>::empty());
    assert(utf8::encode_utf8(s) =~= seq![c as u8]);
}

pub open spec fn is_digit(c: char) -> bool {
    '0' <= c <= '9'
}

/// The number that decimal digits spell.
pub open spec fn decimal_value(digits: Seq<char>) -> nat
    decreases digits.len(),
{
    if digits.len() == 0 {
        0
    } else {
        decimal_value(digits.drop_last()) * 10 + (digits.last() as u32 - 0x30) as nat
    }
}

pub open spec fn all_digits(s: Seq<char>) -> bool {
    forall|i: int| 0 <= i < s.len() ==> is_digit(#[trigger] s[i])
}

/// The 16-bit number that `s` spells: decimal digits, with or without a `+` before them.
pub open spec fn number_in(s: Seq<char>) -> Option<u16> {
    let digits = if s.len() > 0 && s[0] == '+' {
        s.drop_first()
    } else {
        s
    };
    if digits.len() > 0 && all_digits(digits) && decimal_value(digits) <= u16::MAX {
        Some(decimal_value(digits) as u16)
    } else {
        None
    }
}

proof fn lemma_value_grows(digits: Seq<char>, n: int)
    requires
        0 <= n <= digits.len(),
        forall|i: int| 0 <= i < digits.len() ==> is_digit(#[trigger] digits[i]),
    ensures
        decimal_value(digits.subrange(0, n)) <= decimal_value(digits),
    decreases digits.len(),
{
    if n == digits.len() {
        assert(digits.subrange(0, n) =~= digits);
    } else {
        let before = digits.drop_last();
        assert(before.subrange(0, n) =~= digits.subrange(0, n));
        assert forall|i: int| 0 <= i < before.len() implies is_digit(#[trigger] before[i]) by {
            assert(is_digit(digits[i]));
        }
        assert(is_digit(digits[digits.len() - 1]));
        lemma_value_grows(before, n);
    }
}

/// The 16-bit number that `s` spells.
pub fn parse_u16(s: &str) -> (r: Option<u16>)
    ensures
        r == number_in(s@),
{
    let chars = chars_of(s);
    let from: usize = if chars.len() > 0 && chars[0] == '+' {
        1
    } else {
        0
    };
    let ghost digits = s@.subrange(from as int, s@.len() as int);
    assert(s@.len() > 0 && s@[0] == '+' ==> digits =~= s@.drop_first());
    assert(!(s@.len() > 0 && s@[0] == '+') ==> digits =~= s@);
    if from == chars.len() {
        return None;
    }
    let mut value: u32 = 0;
    let mut i: usize = from;
    assert(digits.subrange(0, 0) =~= Seq::<char>::empty());
    while i < chars.len()
        invariant
            from <= i <= chars@.len(),
            from <= 1,
            chars@ == s@,
            digits == s@.subrange(from as int, s@.len() as int),
            digits == (if s@.len() > 0 && s@[0] == '+' {
                s@.drop_first()
            } else {
                s@
            }),
            forall|k: int| 0 <= k < i - from ==> is_digit(#[trigger] digits[k]),
            value == decimal_value(digits.subrange(0, i - from)),
            value <= u16::MAX,
        decreases chars@.len() - i,
    {
        let c = chars[i];
        assert(digits[i - from] == c);
        if c < '0' || '9' < c {
            assert(!is_digit(digits[i - from]));
            assert(number_in(s@) is None);
            return None;
        }
        value = value * 10 + (c as u32 - 0x30);
        i += 1;
        assert(digits.subrange(0, i - from).drop_last() =~= digits.subrange(0, i - from - 1));
        if value > u16::MAX as u32 {
            proof {
                if all_digits(digits) {
                    lemma_value_grows(digits, i - from);
                }
            }
            return None;
        }
    }
    assert(digits.subrange(0, i - from) =~= digits);
    Some(value as u16)
}

/// The pieces of `s` from `from` on, between one `sep` and the next.
pub open spec fn pieces_from(s: Seq<char>, from: int, sep: char) -> Seq<Seq<char>>
    decreases s.len() - from,
    when 0 <= from <= s.len()
{
    proof {
        lemma_found(s, from, sep);
    }
    let at = find_from(s, from, sep);
    if at >= s.len() {
        seq![s.subrange(from, s.len() as int)]
    } else {
        seq![s.subrange(from, at)] + pieces_from(s, at + 1, sep)
    }
}

/// How many bytes `c` is spelled with.
pub open spec fn spelled_length(c: char) -> nat {
    utf8::encode_scalar(c as u32).len()
}

pub fn utf8_length(c: char) -> (r: usize)
    ensures
        r == spelled_length(c),
        1 <= r <= 4,
{
    let code = c as u32;
    proof {
        utf8::char_is_scalar(c);
    }
    if code < 0x80 {
        1
    } else if code < 0x800 {
        2
    } else if code < 0x1_0000 {
        3
    } else {
        4
    }
}

/// One more character adds its own bytes.
pub proof fn lemma_spelled_push(s: Seq<char>, c: char)
    ensures
        utf8::encode_utf8(s.push(c)).len() == utf8::encode_utf8(s).len() + spelled_length(c),
{
    lemma_spelled_in_pieces(s, seq![c]);
    assert(s + seq![c] =~= s.push(c));
    let one = seq![c];
    assert(one.drop_first() =~= Seq::<char>::empty());
    assert(utf8::encode_utf8(one.drop_first()) =~= Seq::<u8>::empty());
    assert(utf8::encode_utf8(one) =~= utf8::encode_scalar(c as u32));
}

/// Numbers have few digits.
pub proof fn lemma_decimal_length(n: nat)
    ensures
        1 <= decimal(n).len(),
        n < 10 ==> decimal(n).len() == 1,
        n < 100 ==> decimal(n).len() <= 2,
        n < 1000 ==> decimal(n).len() <= 3,
        n < 10000 ==> decimal(n).len() <= 4,
        n < 100000 ==> decimal(n).len() <= 5,
        n < 1000000 ==> decimal(n).len() <= 6,
        n < 10000000 ==> decimal(n).len() <= 7,
        forall|i: int| 0 <= i < decimal(n).len() ==> is_digit(#[trigger] decimal(n)[i]),
    decreases n,
{
    if n >= 10 {
        lemma_decimal_length(n / 10);
    }
}

/// A number reads back from its decimal digits.
pub proof fn lemma_decimal_value(n: nat)
    ensures
        decimal_value(decimal(n)) == n,
    decreases n,
{
    if n >= 10 {
        lemma_decimal_value(n / 10);
        assert(decimal(n).drop_last() =~= decimal(n / 10));
    } else {
        assert(decimal(n).drop_last() =~= Seq::<char>::empty());
        assert(decimal_value(decimal(n).drop_last()) == 0);
    }
}

/// The lowercase hex digit for `d`, 0 to 15.
pub open spec fn hex_digit(d: int) -> char {
    if d < 10 {
        (0x30 + d) as char
    } else {
        (0x61 + d - 10) as char
    }
}

pub fn hex_char(d: u8) -> (c: char)
    requires
        d < 16,
    ensures
        c == hex_digit(d as int),
{
    if d < 10 {
        (0x30 + d) as char
    } else {
        (0x61 + (d - 10)) as char
    }
}

/// A number in lowercase hex, with no zeros before it.
pub open spec fn hexadecimal(n: nat) -> Seq<char>
    decreases n,
{
    if n < 16 {
        seq![hex_digit(n as int)]
    } else {
        hexadecimal(n / 16).push(hex_digit((n % 16) as int))
    }
}

/// Appends `n` in lowercase hex.
pub fn push_hex(out: &mut String, n: u32)
    ensures
        final(out)@ == old(out)@ + hexadecimal(n as nat),
    decreases n,
{
    if n >= 16 {
        push_hex(out, n / 16);
    }
    out.push(hex_char((n % 16) as u8));
    assert(out@ =~= old(out)@ + hexadecimal(n as nat));
}

/// The number that hex digits spell, each 16 times what the next one is worth.
pub open spec fn hexadecimal_value(digits: Seq<char>) -> nat
    decreases digits.len(),
{
    if digits.len() == 0 {
        0
    } else {
        let c = digits.last();
        hexadecimal_value(digits.drop_last()) * 16 + (if c <= '9' {
            (c as u32 - 0x30) as nat
        } else {
            (c as u32 - 0x61 + 10) as nat
        })
    }
}

/// A number reads back from its hex digits, the first of which is no 0 but for the number 0.
pub proof fn numbers_read_back_from_hex(n: nat)
    ensures
        hexadecimal_value(hexadecimal(n)) == n,
        n > 0 ==> hexadecimal(n)[0] != '0',
        forall|i: int|
            0 <= i < hexadecimal(n).len() ==> '0' <= #[trigger] hexadecimal(n)[i] <= '9' || 'a'
                <= hexadecimal(n)[i] <= 'f',
        hexadecimal(n).len() > 0,
    decreases n,
{
    if n >= 16 {
        numbers_read_back_from_hex(n / 16);
        assert(hexadecimal(n).drop_last() =~= hexadecimal(n / 16));
    } else {
        assert(hexadecimal(n).drop_last() =~= Seq::<char>::empty());
        assert(hexadecimal_value(hexadecimal(n).drop_last()) == 0);
    }
}

/// A text that fits is kept whole, and of one that doesn't as much is kept as fits without
/// breaking a character up.
pub proof fn cuts_keep_what_fits(s: Seq<u8>, max: int, end: int)
    requires
        0 <= max,
    ensures
        s.len() <= max ==> cut_length(s, max) == s.len(),
        s.len() > max ==> 0 <= cut_length(s, max) <= max,
        s.len() > max && cut_length(s, max) < end <= max ==> !utf8::is_char_boundary(s, end),
    decreases max,
{
    if s.len() > max && max > 0 && !utf8::is_char_boundary(s, max) {
        cuts_keep_what_fits(s, max - 1, end);
    }
}

} // verus!
