//! DNS (RFC 1035), as far as asking a server for a name's IPv4 addresses (A records).

use super::{ipv4_at, Ipv4};
use crate::bytes;
use crate::text;
use crate::text::{chars_of, find_char};
use vstd::prelude::*;

verus! {

pub const PORT: u16 = 53;

pub const HEADER: usize = 12;

/// Recursion desired: the server looks the name up for us.
pub const RECURSION_DESIRED: u16 = 0x100;

pub const TYPE_A: u16 = 1;

pub const CLASS_IN: u16 = 1;

/// Longest name DNS allows, and longest label.
pub const MAX_NAME: usize = 253;

pub const MAX_LABEL: usize = 63;

/// `name` without the dots at its end.
pub open spec fn without_dots(name: Seq<char>) -> Seq<char>
    decreases name.len(),
{
    if name.len() > 0 && name.last() == '.' {
        without_dots(name.drop_last())
    } else {
        name
    }
}

/// Whether DNS can carry `label`: 1 to 63 characters, all ASCII.
pub open spec fn is_label(label: Seq<char>) -> bool {
    &&& 0 < label.len() <= MAX_LABEL
    &&& forall|i: int| 0 <= i < label.len() ==> (#[trigger] label[i] as u32) < 0x80
}

/// A label as it goes in a message: its length, and its characters.
pub open spec fn label_bytes(label: Seq<char>) -> Seq<u8> {
    seq![label.len() as u8] + Seq::new(label.len(), |i: int| label[i] as u8)
}

/// Labels as they go in a message, one after another.
pub open spec fn labels_bytes(labels: Seq<Seq<char>>) -> Seq<u8>
    decreases labels.len(),
{
    if labels.len() == 0 {
        Seq::empty()
    } else {
        labels_bytes(labels.drop_last()) + label_bytes(labels.last())
    }
}

/// Whether DNS can carry `name`, which has no dot at its end.
pub open spec fn is_name(name: Seq<char>) -> bool {
    &&& 0 < name.len() <= MAX_NAME
    &&& forall|i: int|
        0 <= i < text::pieces_from(name, 0, '.').len() ==> is_label(
            #[trigger] text::pieces_from(name, 0, '.')[i],
        )
}

/// A query's header: its ID, that recursion is desired, and that there is one question.
pub open spec fn query_header(id: u16) -> Seq<u8> {
    bytes::be16_bytes(id) + bytes::be16_bytes(RECURSION_DESIRED) + seq![0u8, 1, 0, 0, 0, 0, 0, 0]
}

/// A query for `name`'s A records, with ID `id`. `None` for a name DNS can't carry.
pub open spec fn query_for(name: Seq<char>, id: u16) -> Option<Seq<u8>> {
    let bare = without_dots(name);
    if is_name(bare) {
        Some(
            query_header(id) + labels_bytes(text::pieces_from(bare, 0, '.')) + seq![0u8]
                + bytes::be16_bytes(TYPE_A) + bytes::be16_bytes(CLASS_IN),
        )
    } else {
        None
    }
}

proof fn lemma_without_dots(name: Seq<char>, n: int)
    requires
        0 <= n <= name.len(),
        forall|i: int| n <= i < name.len() ==> name[i] == '.',
        n > 0 ==> name[n - 1] != '.',
    ensures
        without_dots(name) == name.subrange(0, n),
    decreases name.len(),
{
    if n < name.len() {
        assert(name.last() == '.');
        lemma_without_dots(name.drop_last(), n);
        assert(name.drop_last().subrange(0, n) =~= name.subrange(0, n));
    } else {
        assert(name.subrange(0, n) =~= name);
    }
}

/// Appends the label that `chars` holds from `from` to `to`, if DNS can carry it.
fn push_label(out: &mut Vec<u8>, chars: &Vec<char>, from: usize, to: usize) -> (r: bool)
    requires
        from <= to <= chars@.len(),
    ensures
        r == is_label(chars@.subrange(from as int, to as int)),
        r ==> final(out)@ == old(out)@ + label_bytes(chars@.subrange(from as int, to as int)),
{
    let ghost label = chars@.subrange(from as int, to as int);
    if from == to || to - from > MAX_LABEL {
        return false;
    }
    out.push((to - from) as u8);
    let mut i: usize = from;
    while i < to
        invariant
            from <= i <= to <= chars@.len(),
            0 < to - from <= MAX_LABEL,
            label == chars@.subrange(from as int, to as int),
            forall|k: int| 0 <= k < i - from ==> (#[trigger] label[k] as u32) < 0x80,
            out@ == old(out)@ + seq![label.len() as u8] + Seq::new(
                (i - from) as nat,
                |k: int| label[k] as u8,
            ),
        decreases to - i,
    {
        let c = chars[i];
        assert(label[i - from] == c);
        if c as u32 >= 0x80 {
            return false;
        }
        out.push(c as u8);
        i += 1;
        assert(out@ =~= old(out)@ + seq![label.len() as u8] + Seq::new(
            (i - from) as nat,
            |k: int| label[k] as u8,
        ));
    }
    assert(out@ =~= old(out)@ + label_bytes(label));
    true
}

/// A query for `name`'s A records, with ID `id`. `None` for a name DNS can't carry.
pub fn query(name: &str, id: u16) -> (r: Option<Vec<u8>>)
    ensures
        match r {
            Some(message) => query_for(name@, id) == Some(message@),
            None => query_for(name@, id) is None,
        },
{
    let mut chars = chars_of(name);
    let mut n = chars.len();
    while n > 0 && chars[n - 1] == '.'
        invariant
            n <= chars@.len(),
            chars@ == name@,
            forall|i: int| n <= i < chars@.len() ==> chars@[i] == '.',
        decreases n,
    {
        n -= 1;
    }
    proof {
        lemma_without_dots(name@, n as int);
    }
    chars.truncate(n);
    let ghost bare = without_dots(name@);
    assert(chars@ =~= bare);
    if n == 0 || n > MAX_NAME {
        return None;
    }
    let mut out: Vec<u8> = Vec::new();
    bytes::push_be16(&mut out, id);
    bytes::push_be16(&mut out, RECURSION_DESIRED);
    let one_question: [u8; 8] = [0, 1, 0, 0, 0, 0, 0, 0];
    bytes::push_all(&mut out, &one_question);
    let ghost all = text::pieces_from(bare, 0, '.');
    let ghost mut done: Seq<Seq<char>> = Seq::empty();
    let mut from: usize = 0;
    let mut more = true;
    assert(out@ =~= query_header(id) + labels_bytes(done));
    assert(done + all =~= all);
    while more
        invariant
            n == chars@.len() <= MAX_NAME,
            from <= n,
            chars@ == bare,
            bare == without_dots(name@),
            all == text::pieces_from(bare, 0, '.'),
            more ==> all == done + text::pieces_from(bare, from as int, '.'),
            !more ==> all == done,
            out@ == query_header(id) + labels_bytes(done),
            forall|i: int| 0 <= i < done.len() ==> is_label(#[trigger] done[i]),
        decreases
                (if more {
                    n - from + 1
                } else {
                    0
                }),
    {
        let at = find_char(&chars, from, '.');
        let ghost piece = bare.subrange(from as int, at as int);
        let ghost rest = text::pieces_from(bare, from as int, '.');
        assert(rest[0] == piece);
        assert(all[done.len() as int] == piece);
        if !push_label(&mut out, &chars, from, at) {
            assert(!is_label(all[done.len() as int]));
            return None;
        }
        proof {
            let before = done;
            done = done.push(piece);
            assert(done.drop_last() =~= before);
            assert(out@ =~= query_header(id) + labels_bytes(done));
            if at < n {
                assert(all =~= done + text::pieces_from(bare, at + 1, '.'));
            } else {
                assert(all =~= done);
            }
        }
        if at < n {
            from = at + 1;
        } else {
            more = false;
        }
    }
    out.push(0);
    bytes::push_be16(&mut out, TYPE_A);
    bytes::push_be16(&mut out, CLASS_IN);
    assert(out@ =~= query_header(id) + labels_bytes(all) + seq![0u8] + bytes::be16_bytes(TYPE_A)
        + bytes::be16_bytes(CLASS_IN));
    Some(out)
}

/// What a server said about our query.
#[derive(Debug, PartialEq, Eq)]
pub enum Answer {
    /// The name's addresses (empty if it has none, just other records).
    Addresses(Vec<Ipv4>),
    /// No such name.
    NoSuchName,
    /// The server couldn't answer (its response code).
    Failed(u8),
}

/// What a server said.
pub enum AnswerModel {
    Addresses(Seq<Seq<u8>>),
    NoSuchName,
    Failed(u8),
}

/// The addresses in a list of them.
pub open spec fn addresses_of(list: Seq<Ipv4>) -> Seq<Seq<u8>> {
    Seq::new(list.len(), |i: int| list[i]@)
}

impl Answer {
    pub open spec fn view(&self) -> AnswerModel {
        match self {
            Answer::Addresses(list) => AnswerModel::Addresses(addresses_of(list@)),
            Answer::NoSuchName => AnswerModel::NoSuchName,
            Answer::Failed(code) => AnswerModel::Failed(*code),
        }
    }
}

/// Where the name at `at` ends, if it has at most `labels` parts: past its labels, or past
/// the pointer that ends it (pointers are only skipped, never followed, so they can't loop).
pub open spec fn name_end(data: Seq<u8>, at: int, labels: nat) -> Option<int>
    decreases labels,
{
    if labels == 0 || at >= data.len() {
        None
    } else if data[at] == 0 {
        Some(at + 1)
    } else if data[at] >= 0xC0 {
        if at + 2 <= data.len() {
            Some(at + 2)
        } else {
            None
        }
    } else if data[at] >= 0x40 {
        None
    } else {
        name_end(data, at + 1 + data[at], (labels - 1) as nat)
    }
}

/// Where the name at `at` ends.
fn skip_name(data: &[u8], start: usize) -> (r: Option<usize>)
    ensures
        match r {
            Some(end) => name_end(data@, start as int, MAX_NAME as nat) == Some(end as int) && start
                < end <= data@.len(),
            None => name_end(data@, start as int, MAX_NAME as nat) is None,
        },
{
    let mut at: usize = start;
    let mut left: usize = MAX_NAME;
    while left > 0
        invariant
            start <= at,
            name_end(data@, start as int, MAX_NAME as nat) == name_end(
                data@,
                at as int,
                left as nat,
            ),
        decreases left,
    {
        if at >= data.len() {
            return None;
        }
        let length = data[at];
        if length == 0 {
            return Some(at + 1);
        }
        if length >= 0xC0 {
            if data.len() - at >= 2 {
                return Some(at + 2);
            }
            return None;
        }
        if length >= 0x40 {
            return None;
        }
        if data.len() - at - 1 < length as usize {
            assert(name_end(data@, at + 1 + length, (left - 1) as nat) is None);
            return None;
        }
        at = at + 1 + length as usize;
        left -= 1;
    }
    None
}

/// Where `questions` questions at `at` end: each is a name, its type and its class.
pub open spec fn questions_end(data: Seq<u8>, at: int, questions: nat) -> Option<int>
    decreases questions,
{
    if questions == 0 {
        Some(at)
    } else {
        match name_end(data, at, MAX_NAME as nat) {
            Some(end) => questions_end(data, end + 4, (questions - 1) as nat),
            None => None,
        }
    }
}

/// The addresses in the `records` records at `at`, or `None` if one of them is cut short.
pub open spec fn addresses_in(data: Seq<u8>, at: int, records: nat) -> Option<Seq<Seq<u8>>>
    decreases records,
{
    if records == 0 {
        Some(Seq::empty())
    } else {
        match name_end(data, at, MAX_NAME as nat) {
            None => None,
            Some(end) => if end + 10 > data.len() || end + 10 + bytes::be16(data, end + 8)
                > data.len() {
                None
            } else {
                let length = bytes::be16(data, end + 8);
                match addresses_in(data, end + 10 + length, (records - 1) as nat) {
                    Some(rest) => if bytes::be16(data, end) == TYPE_A && bytes::be16(data, end + 2)
                        == CLASS_IN && length == 4 {
                        Some(seq![data.subrange(end + 10, end + 14)] + rest)
                    } else {
                        Some(rest)
                    },
                    None => None,
                }
            },
        }
    }
}

/// What `data` says as the answer to our query `id`.
pub open spec fn parsed(data: Seq<u8>, id: u16) -> Option<AnswerModel> {
    if data.len() < HEADER || bytes::be16(data, 0) != id || bytes::be16(data, 2) < 0x8000 {
        None
    } else {
        let code = bytes::be16(data, 2) % 16;
        if code == 3 {
            Some(AnswerModel::NoSuchName)
        } else if code != 0 {
            Some(AnswerModel::Failed(code as u8))
        } else {
            match questions_end(data, HEADER as int, bytes::be16(data, 4) as nat) {
                Some(at) => match addresses_in(data, at, bytes::be16(data, 6) as nat) {
                    Some(list) => Some(AnswerModel::Addresses(list)),
                    None => None,
                },
                None => None,
            }
        }
    }
}

/// Past the `questions` questions at `start`: where they end, or the end of `data` if that is
/// before.
fn skip_questions(data: &[u8], start: usize, questions: u16) -> (r: Option<usize>)
    requires
        start <= data@.len(),
    ensures
        match r {
            Some(at) => at <= data@.len() && (questions_end(
                data@,
                start as int,
                questions as nat,
            ) matches Some(end) && at == clipped(data@, end)),
            None => questions_end(data@, start as int, questions as nat) is None,
        },
{
    let mut at: usize = start;
    let ghost mut exact: int = start as int;
    let mut left: u16 = questions;
    while left > 0
        invariant
            at == clipped(data@, exact),
            questions_end(data@, start as int, questions as nat) == questions_end(
                data@,
                exact,
                left as nat,
            ),
        decreases left,
    {
        proof {
            lemma_clipped_name(data@, exact);
        }
        let end = skip_name(data, at)?;
        proof {
            exact = end + 4;
        }
        at = if data.len() - end >= 4 {
            end + 4
        } else {
            data.len()
        };
        left -= 1;
    }
    assert(questions_end(data@, start as int, questions as nat) == Some(exact));
    Some(at)
}

/// `at`, or the end of `data` if `at` is past it.
pub open spec fn clipped(data: Seq<u8>, at: int) -> int {
    if at > data.len() {
        data.len() as int
    } else {
        at
    }
}

/// There is no name past the end, nor at it.
proof fn lemma_clipped_name(data: Seq<u8>, at: int)
    ensures
        name_end(data, clipped(data, at), MAX_NAME as nat) == name_end(data, at, MAX_NAME as nat),
{
}

/// The answer to our query `id`, or `None` if `data` isn't one (another query's, or broken).
pub fn parse(data: &[u8], id: u16) -> (r: Option<Answer>)
    ensures
        match r {
            Some(answer) => parsed(data@, id) == Some(answer@),
            None => parsed(data@, id) is None,
        },
{
    if data.len() < HEADER || bytes::be16_at(data, 0) != id || bytes::be16_at(data, 2) < 0x8000 {
        return None;
    }
    let code = (bytes::be16_at(data, 2) % 16) as u8;
    if code == 3 {
        return Some(Answer::NoSuchName);
    }
    if code != 0 {
        return Some(Answer::Failed(code));
    }
    let questions = bytes::be16_at(data, 4);
    let answers = bytes::be16_at(data, 6);
    let start = skip_questions(data, HEADER, questions)?;
    let ghost exact = questions_end(data@, HEADER as int, questions as nat)->0;
    let mut at: usize = start;
    let mut addresses: Vec<Ipv4> = Vec::new();
    let mut left: u16 = answers;
    proof {
        lemma_clipped_name(data@, exact);
    }
    assert(addresses_of(addresses@) =~= Seq::<Seq<u8>>::empty());
    assert(forall|rest: Seq<Seq<u8>>|
        #[trigger] (addresses_of(addresses@) + rest) =~= rest);
    while left > 0
        invariant
            at <= data@.len(),
            parsed(data@, id) == (match addresses_in(data@, exact, answers as nat) {
                Some(list) => Some(AnswerModel::Addresses(list)),
                None => None,
            }),
            addresses_in(data@, exact, answers as nat) == (match addresses_in(
                data@,
                at as int,
                left as nat,
            ) {
                Some(rest) => Some(addresses_of(addresses@) + rest),
                None => None,
            }),
        decreases left,
    {
        let end = skip_name(data, at)?;
        if data.len() - end < 10 {
            return None;
        }
        let kind = bytes::be16_at(data, end);
        let class = bytes::be16_at(data, end + 2);
        let length = bytes::be16_at(data, end + 8) as usize;
        if data.len() - end - 10 < length {
            return None;
        }
        let ghost before = addresses_of(addresses@);
        if kind == TYPE_A && class == CLASS_IN && length == 4 {
            let address = ipv4_at(data, end + 10);
            addresses.push(address);
            proof {
                assert(addresses_of(addresses@) =~= before.push(address@));
                if let Some(rest) = addresses_in(data@, end + 10 + length, (left - 1) as nat) {
                    assert(before + (seq![address@] + rest) =~= addresses_of(addresses@) + rest);
                }
            }
        }
        at = end + 10 + length;
        left -= 1;
    }
    assert(addresses_of(addresses@) + Seq::<Seq<u8>>::empty() =~= addresses_of(addresses@));
    Some(Answer::Addresses(addresses))
}

} // verus!
