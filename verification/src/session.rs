//! Reliable request/response on top of `link` frames.
//!
//! The Uno sends each command as `MSG,<seq>,<text>` and retransmits it until it has the
//! complete reply: zero or more numbered lines `RSP|HELP,<seq>,<index>,<text>`, then
//! `END,<seq>,<count>`. A request with the same `seq` as the last one handled is a
//! retransmit, so its reply is resent from the cache instead of running the command
//! twice (a retransmitted `led toggle` must not toggle again).
//!
//! A retransmit that arrives while its command is still running is answered with
//! `BUSY,<seq>` (by the kernel's link task, which reads frames while the shell works), so
//! the Uno keeps waiting instead of giving up on a slow command.

use crate::link;
use crate::text;
use crate::text::{cut_at, parse_u16, push_decimal, split_at_char};
use vstd::prelude::*;
use vstd::utf8;

verus! {

/// Longest line text that still fits in a frame: `$HELP,65535,99,<text>*HH` must stay
/// within the link's line limit.
pub const MAX_TEXT: usize = link::MAX_LINE - 18;

#[derive(Clone, Copy, Debug, PartialEq, Eq, Structural)]
pub enum LineKind {
    /// Reply text.
    Rsp,
    /// One entry of the command list.
    Help,
}

impl LineKind {
    pub open spec fn word(self) -> Seq<char> {
        match self {
            LineKind::Rsp => "RSP"@,
            LineKind::Help => "HELP"@,
        }
    }

    fn frame_kind(self) -> (r: &'static str)
        ensures
            r@ == self.word(),
    {
        match self {
            LineKind::Rsp => "RSP",
            LineKind::Help => "HELP",
        }
    }
}

/// The lines a command replies with, kept so they can be resent. Lines longer than `MAX_TEXT`
/// are cut short.
pub struct Reply {
    pub lines: Vec<(LineKind, String)>,
}

/// The lines of a reply.
pub type Lines = Seq<(LineKind, Seq<char>)>;

/// Whether `cut` is what is kept of a line's text: as many whole characters as fit.
pub open spec fn is_cut(cut: Seq<char>, text: Seq<char>) -> bool {
    utf8::encode_utf8(cut) == utf8::encode_utf8(text).subrange(
        0,
        text::cut_length(utf8::encode_utf8(text), MAX_TEXT as int),
    )
}

impl Reply {
    pub open spec fn view(&self) -> Lines {
        Seq::new(self.lines@.len(), |i: int| (self.lines@[i].0, self.lines@[i].1@))
    }

    pub fn new() -> (r: Self)
        ensures
            r@ == Lines::empty(),
    {
        let r = Reply { lines: Vec::new() };
        assert(r@ =~= Lines::empty());
        r
    }

    /// Adds a line.
    pub fn line(&mut self, kind: LineKind, text: &str)
        ensures
            final(self)@.len() == old(self)@.len() + 1,
            final(self)@.drop_last() == old(self)@,
            final(self)@.last().0 == kind,
            is_cut(final(self)@.last().1, text@),
            utf8::encode_utf8(final(self)@.last().1).len() <= MAX_TEXT,
    {
        let end = cut_at(text, MAX_TEXT);
        let (kept, _) = text.split_at(end);
        self.lines.push((kind, kept.to_owned()));
        assert(self@.drop_last() =~= old(self)@);
    }

    /// Adds a plain reply line.
    pub fn rsp(&mut self, text: &str)
        ensures
            final(self)@.len() == old(self)@.len() + 1,
            final(self)@.drop_last() == old(self)@,
            final(self)@.last().0 == LineKind::Rsp,
            is_cut(final(self)@.last().1, text@),
            utf8::encode_utf8(final(self)@.last().1).len() <= MAX_TEXT,
    {
        self.line(LineKind::Rsp, text);
    }
}

/// A frame to send: its kind and its payload.
#[derive(Debug, PartialEq, Eq)]
pub struct Frame {
    pub kind: &'static str,
    pub payload: String,
}

impl Frame {
    pub open spec fn view(&self) -> (Seq<char>, Seq<char>) {
        (self.kind@, self.payload@)
    }
}

pub open spec fn frame_views(frames: Seq<Frame>) -> Seq<(Seq<char>, Seq<char>)> {
    Seq::new(frames.len(), |i: int| frames[i]@)
}

/// Line `index` of the reply to request `seq`.
pub open spec fn line_frame(seq: u16, index: int, line: (LineKind, Seq<char>)) -> (
    Seq<char>,
    Seq<char>,
) {
    (
        line.0.word(),
        text::decimal(seq as nat) + seq![','] + text::decimal(index as nat) + seq![','] + line.1,
    )
}

/// What is sent in reply to request `seq`: its lines, numbered, and how many they are.
pub open spec fn reply_frames(seq: u16, lines: Lines) -> Seq<(Seq<char>, Seq<char>)> {
    Seq::new(lines.len(), |i: int| line_frame(seq, i, lines[i])).push(
        ("END"@, text::decimal(seq as nat) + seq![','] + text::decimal(lines.len())),
    )
}

/// What is sent in reply to something that isn't a request.
pub open spec fn rejection() -> Seq<(Seq<char>, Seq<char>)> {
    seq![("ERR"@, "MSG needs a sequence number"@)]
}

/// The number and the text of a request, if it is one.
pub open spec fn request(payload: Seq<char>) -> Option<(u16, Seq<char>)> {
    let (seq, text) = text::split_once(payload, ',');
    match text::number_in(seq) {
        Some(number) => Some((number, text)),
        None => None,
    }
}

pub struct Session {
    last_seq: Option<u16>,
    reply: Reply,
}

impl Session {
    /// The sequence number of the request that was handled last.
    pub closed spec fn last(&self) -> Option<u16> {
        self.last_seq
    }

    /// The reply to it.
    pub closed spec fn kept(&self) -> Reply {
        self.reply
    }
}

/// Whether a payload is answered with `frames` and then `action`: what isn't a request is
/// rejected; a request that was handled last gets its reply once more; and the reply to any other
/// is kept.
pub open spec fn answered<A>(
    before: Session,
    payload: Seq<char>,
    frames: Seq<(Seq<char>, Seq<char>)>,
    action: Option<A>,
    after: Session,
) -> bool {
    match request(payload) {
        None => {
            &&& frames == rejection()
            &&& action is None
            &&& after == before
        },
        Some((seq, _)) => if before.last() == Some(seq) {
            &&& frames == reply_frames(seq, before.kept()@)
            &&& action is None
            &&& after == before
        } else {
            &&& frames == reply_frames(seq, after.kept()@)
            &&& after.last() == Some(seq)
        },
    }
}

/// A request that is sent again is answered as it was, and nothing else happens: no command runs
/// twice.
pub proof fn retransmits_get_the_same_answer<A>(
    first: Session,
    payload: Seq<char>,
    frames: Seq<(Seq<char>, Seq<char>)>,
    action: Option<A>,
    second: Session,
    again: Seq<(Seq<char>, Seq<char>)>,
    more: Option<A>,
    third: Session,
)
    requires
        answered(first, payload, frames, action, second),
        answered(second, payload, again, more, third),
    ensures
        again == frames,
        more is None,
        third == second,
{
}

impl Default for Session {
    fn default() -> (r: Self)
        ensures
            r.last() is None,
            r.kept()@ == Lines::empty(),
    {
        Session { last_seq: None, reply: Reply::new() }
    }
}

impl Session {
    pub fn new() -> (r: Self)
        ensures
            r.last() is None,
            r.kept()@ == Lines::empty(),
    {
        Session { last_seq: None, reply: Reply::new() }
    }

    /// Forgets the last request. Called when the Uno (re)starts, since its sequence
    /// numbers start over.
    pub fn reset(&mut self)
        ensures
            final(self).last() is None,
            final(self).kept() == old(self).kept(),
    {
        self.last_seq = None;
    }

    /// Handles the payload of a `MSG` frame. For a new request, `run` executes the command
    /// and fills in the reply; it may return an action (like a reboot) that the caller
    /// performs after the reply has been sent. Returns the frames to send, and the action.
    /// A request that was handled last is not run again: `run` need not be callable then.
    pub fn handle<'a, A, R: FnOnce(&'a str, Reply) -> (Reply, Option<A>)>(
        &mut self,
        payload: &'a str,
        run: R,
    ) -> (r: (Vec<Frame>, Option<A>))
        requires
            forall|text: &'a str, reply: Reply|
                request(payload@) is Some && old(self).last() != Some((request(payload@)->0).0)
                    && text@ == (request(payload@)->0).1 && reply@ == Lines::empty()
                    ==> #[trigger] call_requires(run, (text, reply)),
        ensures
            answered(*old(self), payload@, frame_views(r.0@), r.1, *final(self)),
            // A new request is run, once, with its text and an empty reply to fill in.
            request(payload@) matches Some(asked) ==> old(self).last() != Some(asked.0)
                ==> exists|t: &'a str, reply: Reply|
                t@ == asked.1 && reply@ == Lines::empty() && #[trigger] call_ensures(
                    run,
                    (t, reply),
                    (final(self).kept(), r.1),
                ),
    {
        let (seq, text) = match parse_request(payload) {
            Some(request) => request,
            None => {
                let mut frames: Vec<Frame> = Vec::new();
                frames.push(
                    Frame { kind: "ERR", payload: "MSG needs a sequence number".to_owned() },
                );
                assert(frame_views(frames@) =~= rejection());
                return (frames, None);
            },
        };
        if self.last_seq == Some(seq) {
            return (self.send_reply(seq), None);
        }
        let (reply, action) = run(text, Reply::new());
        self.reply = reply;
        self.last_seq = Some(seq);
        (self.send_reply(seq), action)
    }

    /// The frames of the last reply.
    fn send_reply(&self, seq: u16) -> (r: Vec<Frame>)
        ensures
            frame_views(r@) == reply_frames(seq, self.reply@),
    {
        let mut frames: Vec<Frame> = Vec::new();
        let mut index: usize = 0;
        while index < self.reply.lines.len()
            invariant
                index <= self.reply.lines@.len(),
                frames@.len() == index,
                forall|k: int|
                    0 <= k < index ==> (#[trigger] frames@[k])@ == line_frame(
                        seq,
                        k,
                        self.reply@[k],
                    ),
            decreases self.reply.lines@.len() - index,
        {
            let (kind, line) = &self.reply.lines[index];
            let mut payload = String::new();
            push_decimal(&mut payload, seq as u64);
            payload.push(',');
            push_decimal(&mut payload, index as u64);
            payload.push(',');
            payload.append(line.as_str());
            proof {
                assert(payload@ =~= line_frame(seq, index as int, self.reply@[index as int]).1);
            }
            frames.push(Frame { kind: kind.frame_kind(), payload });
            index += 1;
        }
        let mut payload = String::new();
        push_decimal(&mut payload, seq as u64);
        payload.push(',');
        push_decimal(&mut payload, self.reply.lines.len() as u64);
        proof {
            assert(payload@ =~= text::decimal(seq as nat) + seq![','] + text::decimal(
                self.reply@.len(),
            ));
        }
        frames.push(Frame { kind: "END", payload });
        assert(frame_views(frames@) =~= reply_frames(seq, self.reply@));
        frames
    }
}

/// The sequence number of a `MSG` payload, without handling it.
pub fn request_seq(payload: &str) -> (r: Option<u16>)
    ensures
        r == match request(payload@) {
            Some((seq, _)) => Some(seq),
            None => None,
        },
{
    match parse_request(payload) {
        Some((seq, _)) => Some(seq),
        None => None,
    }
}

/// Splits `<seq>,<text>`.
fn parse_request(payload: &str) -> (r: Option<(u16, &str)>)
    ensures
        match r {
            Some((seq, text)) => request(payload@) == Some((seq, text@)),
            None => request(payload@) is None,
        },
{
    let (seq, text) = split_at_char(payload, ',');
    match parse_u16(seq) {
        Some(number) => Some((number, text)),
        None => None,
    }
}

proof fn lemma_ascii_length(s: Seq<char>)
    requires
        forall|i: int| 0 <= i < s.len() ==> (#[trigger] s[i] as u32) < 0x80,
    ensures
        utf8::encode_utf8(s).len() == s.len(),
    decreases s.len(),
{
    if s.len() == 0 {
        assert(utf8::encode_utf8(s).len() == 0);
    } else {
        lemma_ascii_length(s.drop_last());
        text::lemma_spelled_push(s.drop_last(), s.last());
        assert(s.drop_last().push(s.last()) =~= s);
    }
}

proof fn lemma_cleaned_length(s: Seq<char>)
    ensures
        utf8::encode_utf8(link::cleaned(s)).len() == utf8::encode_utf8(s).len(),
    decreases s.len(),
{
    if s.len() == 0 {
        assert(link::cleaned(s) =~= s);
    } else {
        let before = s.drop_last();
        lemma_cleaned_length(before);
        assert(before.push(s.last()) =~= s);
        text::lemma_spelled_push(before, s.last());
        assert(link::cleaned(s) =~= link::cleaned(before).push(link::cleaned(s).last()));
        text::lemma_spelled_push(link::cleaned(before), link::cleaned(s).last());
    }
}

/// The first hundred lines of a reply fit a frame, whatever the sequence number.
pub proof fn reply_lines_fit_a_frame(seq: u16, index: int, line: (LineKind, Seq<char>))
    requires
        0 <= index < 100,
        utf8::encode_utf8(line.1).len() <= 78,
    ensures
        utf8::encode_utf8(
            link::frame_line(line_frame(seq, index, line).0, line_frame(seq, index, line).1),
        ).len() <= 96,
{
    let (kind, payload) = line_frame(seq, index, line);
    reveal_strlit("RSP");
    reveal_strlit("HELP");
    text::lemma_decimal_length(seq as nat);
    text::lemma_decimal_length(index as nat);
    let head = text::decimal(seq as nat) + seq![','] + text::decimal(index as nat) + seq![','];
    assert(head + line.1 =~= payload);
    assert forall|i: int| 0 <= i < head.len() implies (#[trigger] head[i] as u32) < 0x80 by {
        let a = text::decimal(seq as nat);
        let b = text::decimal(index as nat);
        if i < a.len() {
            assert(text::is_digit(a[i]));
        } else if a.len() < i < a.len() + 1 + b.len() {
            assert(text::is_digit(b[i - a.len() - 1]));
        }
    }
    lemma_ascii_length(head);
    text::lemma_spelled_in_pieces(head, line.1);
    lemma_cleaned_length(payload);
    let body = link::frame_body(kind, payload);
    let sum = link::xor_of(utf8::encode_utf8(body)) as int;
    assert forall|i: int| 0 <= i < kind.len() implies (#[trigger] kind[i] as u32) < 0x80 by {}
    assert(kind.len() <= 4);
    let start = kind + seq![','];
    lemma_ascii_length(start);
    text::lemma_spelled_in_pieces(start, link::cleaned(payload));
    let tail = seq!['*', link::hex_digit(sum / 16), link::hex_digit(sum % 16)];
    lemma_ascii_length(tail);
    lemma_ascii_length(seq!['$']);
    text::lemma_spelled_in_pieces(seq!['$'], body);
    text::lemma_spelled_in_pieces(seq!['$'] + body, tail);
}

/// A request is a number, a comma and the command's text, which may have commas of its own; a
/// number alone asks for nothing. What starts with no number is no request.
pub proof fn requests_have_a_number_and_a_text(seq: u16, text: Seq<char>)
    ensures
        request(text::decimal(seq as nat) + seq![','] + text) == Some((seq, text)),
        request(text::decimal(seq as nat)) == Some((seq, Seq::<char>::empty())),
        request(seq![','] + text) is None,
{
    let digits = text::decimal(seq as nat);
    let payload = digits + seq![','] + text;
    let n = digits.len() as int;
    text::lemma_decimal_value(seq as nat);
    text::lemma_decimal_length(seq as nat);
    assert forall|i: int| 0 <= i < n implies digits[i] != ',' && digits[i] != '+' by {
        assert(text::is_digit(digits[i]));
    }
    assert forall|i: int| 0 <= i < n implies payload[i] != ',' by {
        assert(payload[i] == digits[i]);
    }
    text::lemma_find_unique(payload, 0, ',', n);
    assert(payload.subrange(0, n) =~= digits);
    assert(payload.subrange(n + 1, payload.len() as int) =~= text);
    text::lemma_find_unique(digits, 0, ',', n);
    let none = seq![','] + text;
    text::lemma_find_unique(none, 0, ',', 0);
    assert(none.subrange(0, 0) =~= Seq::<char>::empty());
}

/// A reply is its lines in order, each with the request's number and its own, from 0 on; and then
/// how many there were.
pub proof fn replies_are_numbered(seq: u16, lines: Lines, i: int)
    requires
        0 <= i < lines.len(),
    ensures
        ({
            let frames = reply_frames(seq, lines);
            let number = text::decimal(seq as nat);
            &&& frames.len() == lines.len() + 1
            &&& frames[i].0 == (if lines[i].0 == LineKind::Help {
                "HELP"@
            } else {
                "RSP"@
            })
            &&& frames[i].1 == number + seq![','] + text::decimal(i as nat) + seq![','] + lines[i].1
            &&& frames.last() == ("END"@, number + seq![','] + text::decimal(lines.len()))
        }),
{
}

/// A line of up to 78 bytes is kept whole, and of a longer one as much as fits in 78 bytes without
/// breaking a character up.
pub proof fn lines_are_kept(cut: Seq<char>, line: Seq<char>)
    requires
        is_cut(cut, line),
    ensures
        ({
            let all = utf8::encode_utf8(line);
            let kept = utf8::encode_utf8(cut);
            &&& all.len() <= 78 ==> kept == all
            &&& kept.len() <= 78
            &&& all.len() > 78 ==> forall|end: int|
                kept.len() < end <= 78 ==> !#[trigger] utf8::is_char_boundary(all, end)
        }),
{
    let all = utf8::encode_utf8(line);
    let kept = utf8::encode_utf8(cut);
    text::cuts_keep_what_fits(all, 78, 0);
    assert forall|end: int| all.len() > 78 && kept.len() < end
        <= 78 implies !#[trigger] utf8::is_char_boundary(all, end) by {
        text::cuts_keep_what_fits(all, 78, end);
    }
    assert(all.subrange(0, all.len() as int) =~= all);
}

} // verus!
