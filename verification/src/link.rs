//! Line-framed message protocol spoken with the Arduino bridge.
//!
//! Every message is one line terminated by `\n` (`\r` is ignored):
//!
//! ```text
//! $<KIND>[,<payload>]*<HH>\n
//! ```
//!
//! `HH` is the XOR of every byte between `$` and `*`, as two uppercase hex digits.
//! Lines that do not start with `$` are plain console text; the Arduino passes them
//! straight through to the host, so console logging keeps working.
//!
//! A `$` always starts a new frame, so line noise before a frame can't swallow it.
//! Payloads therefore must not contain `$`.

use crate::text;
use crate::text::{chars_of, split_at_char, utf8_text};
use vstd::prelude::*;
use vstd::utf8;

verus! {

/// Longest line (excluding the `\n`) we accept. Keep in sync with the Arduino sketch.
pub const MAX_LINE: usize = 96;

/// Receive-side counters, reported to the Arduino in `STAT` frames.
#[derive(Clone, Copy, Debug, PartialEq, Eq, Structural)]
pub struct Stats {
    /// Bytes received, damaged or not.
    pub rx_bytes: u32,
    /// Bytes the UART flagged with a framing, parity, break or overrun error.
    pub rx_errors: u32,
    /// Partial or non-frame lines thrown away.
    pub dropped: u32,
    /// Frames with a bad checksum or layout.
    pub bad_frames: u32,
    /// Lines longer than `MAX_LINE`.
    pub overflows: u32,
}

impl Default for Stats {
    fn default() -> (r: Self)
        ensures
            r == no_stats(),
    {
        Stats { rx_bytes: 0, rx_errors: 0, dropped: 0, bad_frames: 0, overflows: 0 }
    }
}

/// The counters before anything was received.
pub open spec fn no_stats() -> Stats {
    Stats { rx_bytes: 0, rx_errors: 0, dropped: 0, bad_frames: 0, overflows: 0 }
}

/// What a completed line turned out to be.
#[derive(Debug, PartialEq, Eq)]
pub enum Event<'a> {
    /// A checksum-valid frame.
    Frame { kind: &'a str, payload: &'a str },
    /// A line that should be answered with an `ERR` frame carrying this reason.
    Rejected(&'static str),
}

/// What an [`Event`] says.
pub enum Message {
    Frame { kind: Seq<char>, payload: Seq<char> },
    Rejected(Seq<char>),
}

impl Event<'_> {
    pub open spec fn view(&self) -> Message {
        match self {
            Event::Frame { kind, payload } => Message::Frame { kind: kind@, payload: payload@ },
            Event::Rejected(reason) => Message::Rejected(reason@),
        }
    }
}

/// What a [`Receiver`] has so far.
pub struct Pending {
    /// The line being received.
    pub line: Seq<u8>,
    /// Whether more came than the line can hold.
    pub overflow: bool,
    pub stats: Stats,
}

/// One more, starting over at 2^32.
pub open spec fn counted(n: u32) -> u32 {
    if n == u32::MAX {
        0
    } else {
        (n + 1) as u32
    }
}

impl Pending {
    /// The partial line thrown away, and counted if there was one.
    pub open spec fn discarded(self) -> Pending {
        Pending {
            line: Seq::empty(),
            overflow: false,
            stats: if self.line.len() > 0 || self.overflow {
                Stats { dropped: counted(self.stats.dropped), ..self.stats }
            } else {
                self.stats
            },
        }
    }

    /// One more byte in the line.
    pub open spec fn stored(self, byte: u8) -> Pending {
        if self.line.len() < MAX_LINE {
            Pending { line: self.line.push(byte), ..self }
        } else {
            Pending { overflow: true, ..self }
        }
    }

    /// The line is complete.
    pub open spec fn completed(self) -> (Pending, Option<Message>) {
        let (stats, message) = if self.overflow {
            (
                Stats { overflows: counted(self.stats.overflows), ..self.stats },
                Some(Message::Rejected("line too long"@)),
            )
        } else if self.line.len() == 0 {
            (self.stats, None)
        } else if self.line[0] != 0x24 {
            (Stats { dropped: counted(self.stats.dropped), ..self.stats }, None)
        } else {
            match parsed(self.line) {
                Some((kind, payload)) => (self.stats, Some(Message::Frame { kind, payload })),
                None => (
                    Stats { bad_frames: counted(self.stats.bad_frames), ..self.stats },
                    Some(Message::Rejected("bad frame"@)),
                ),
            }
        };
        (Pending { line: Seq::empty(), overflow: false, stats }, message)
    }

    /// What a received byte does.
    pub open spec fn received(self, received: Result<u8, u8>) -> (Pending, Option<Message>) {
        let counting = Pending {
            stats: Stats { rx_bytes: counted(self.stats.rx_bytes), ..self.stats },
            ..self
        };
        match received {
            Err(_) => (
                Pending {
                    stats: Stats { rx_errors: counted(self.stats.rx_errors), ..counting.stats },
                    ..counting
                }.discarded(),
                None,
            ),
            Ok(byte) => if byte == 0x0D {
                (counting, None)
            } else if byte == 0x0A {
                counting.completed()
            } else if byte == 0x24 {
                (counting.discarded().stored(byte), None)
            } else {
                (counting.stored(byte), None)
            },
        }
    }
}

/// Assembles received bytes into frames.
pub struct Receiver {
    buf: [u8; MAX_LINE],
    len: usize,
    overflow: bool,
    pub stats: Stats,
}

impl Receiver {
    pub closed spec fn wf(&self) -> bool {
        self.len <= MAX_LINE
    }

    pub closed spec fn view(&self) -> Pending {
        Pending {
            line: self.buf@.subrange(0, self.len as int),
            overflow: self.overflow,
            stats: self.stats,
        }
    }

    pub fn new() -> (r: Self)
        ensures
            r.wf(),
            r@ == (Pending { line: Seq::empty(), overflow: false, stats: no_stats() }),
    {
        let r = Receiver {
            buf: [0u8;MAX_LINE],
            len: 0,
            overflow: false,
            stats: Stats { rx_bytes: 0, rx_errors: 0, dropped: 0, bad_frames: 0, overflows: 0 },
        };
        assert(r@.line =~= Seq::<u8>::empty());
        r
    }

    /// Feeds one received byte, `Err` if the UART flagged it as damaged. Returns an event
    /// when it completes a frame or a line that must be rejected; plain text lines are
    /// dropped.
    pub fn push(&mut self, received: Result<u8, u8>) -> (r: Option<Event<'_>>)
        requires
            old(self).wf(),
        ensures
            final(self).wf(),
            final(self)@ == old(self)@.received(received).0,
            match r {
                Some(event) => old(self)@.received(received).1 == Some(event@),
                None => old(self)@.received(received).1 is None,
            },
    {
        self.stats.rx_bytes = self.stats.rx_bytes.wrapping_add(1);
        let byte = match received {
            Ok(byte) => byte,
            Err(_) => {
                // The line this byte belonged to is damaged; discard it.
                self.stats.rx_errors = self.stats.rx_errors.wrapping_add(1);
                self.discard();
                return None;
            },
        };
        match byte {
            0x0D => None,
            0x0A => self.complete(),
            0x24 => {
                self.discard();
                self.store(byte);
                None
            },
            _ => {
                self.store(byte);
                None
            },
        }
    }

    fn store(&mut self, byte: u8)
        requires
            old(self).wf(),
        ensures
            final(self).wf(),
            final(self)@ == old(self)@.stored(byte),
    {
        if self.len < MAX_LINE {
            let ghost before = self.buf@.subrange(0, self.len as int);
            self.buf[self.len] = byte;
            self.len += 1;
            assert(self.buf@.subrange(0, self.len as int) =~= before.push(byte));
        } else {
            self.overflow = true;
        }
    }

    /// Throws away the partial line, counting it if there was one.
    fn discard(&mut self)
        requires
            old(self).wf(),
        ensures
            final(self).wf(),
            final(self)@ == old(self)@.discarded(),
    {
        if self.len > 0 || self.overflow {
            self.stats.dropped = self.stats.dropped.wrapping_add(1);
        }
        self.len = 0;
        self.overflow = false;
        assert(self.buf@.subrange(0, 0) =~= Seq::<u8>::empty());
    }

    /// Ends the line, and says what it was.
    fn complete(&mut self) -> (r: Option<Event<'_>>)
        requires
            old(self).wf(),
        ensures
            final(self).wf(),
            final(self)@ == old(self)@.completed().0,
            match r {
                Some(event) => old(self)@.completed().1 == Some(event@),
                None => old(self)@.completed().1 is None,
            },
    {
        let len = self.len;
        let overflow = self.overflow;
        self.len = 0;
        self.overflow = false;
        assert(self.buf@.subrange(0, 0) =~= Seq::<u8>::empty());
        if overflow {
            self.stats.overflows = self.stats.overflows.wrapping_add(1);
            return Some(Event::Rejected("line too long"));
        }
        if len == 0 {
            return None;
        }
        let buf: &[u8] = &self.buf;
        let line = &buf[0..len];
        if line[0] != 0x24 {
            self.stats.dropped = self.stats.dropped.wrapping_add(1);
            return None;
        }
        match parse(line) {
            Some((kind, payload)) => Some(Event::Frame { kind, payload }),
            None => {
                self.stats.bad_frames = self.stats.bad_frames.wrapping_add(1);
                Some(Event::Rejected("bad frame"))
            },
        }
    }
}

/// The XOR of all bytes.
pub open spec fn xor_of(bytes: Seq<u8>) -> u8
    decreases bytes.len(),
{
    if bytes.len() == 0 {
        0
    } else {
        xor_of(bytes.drop_last()) ^ bytes.last()
    }
}

fn checksum(bytes: &[u8]) -> (r: u8)
    ensures
        r == xor_of(bytes@),
{
    let mut sum: u8 = 0;
    let mut i: usize = 0;
    while i < bytes.len()
        invariant
            i <= bytes@.len(),
            sum == xor_of(bytes@.subrange(0, i as int)),
        decreases bytes@.len() - i,
    {
        sum = sum ^ bytes[i];
        i += 1;
        assert(bytes@.subrange(0, i as int).drop_last() =~= bytes@.subrange(0, i - 1));
    }
    assert(bytes@.subrange(0, i as int) =~= bytes@);
    sum
}

/// The value of a hex digit of either case.
pub open spec fn nibble_value(c: u8) -> Option<u8> {
    if 0x30 <= c <= 0x39 {
        Some((c - 0x30) as u8)
    } else if 0x41 <= c <= 0x46 {
        Some((c - 0x41 + 10) as u8)
    } else if 0x61 <= c <= 0x66 {
        Some((c - 0x61 + 10) as u8)
    } else {
        None
    }
}

/// The byte that two hex digits spell.
pub open spec fn hex_value(hi: u8, lo: u8) -> Option<u8> {
    match (nibble_value(hi), nibble_value(lo)) {
        (Some(h), Some(l)) => Some((16 * h + l) as u8),
        _ => None,
    }
}

fn nibble(c: u8) -> (r: Option<u8>)
    ensures
        r == nibble_value(c),
        r matches Some(n) ==> n < 16,
{
    if 0x30 <= c && c <= 0x39 {
        Some(c - 0x30)
    } else if 0x41 <= c && c <= 0x46 {
        Some(c - 0x41 + 10)
    } else if 0x61 <= c && c <= 0x66 {
        Some(c - 0x61 + 10)
    } else {
        None
    }
}

fn hex_byte(hi: u8, lo: u8) -> (r: Option<u8>)
    ensures
        r == hex_value(hi, lo),
{
    match (nibble(hi), nibble(lo)) {
        (Some(h), Some(l)) => Some(16 * h + l),
        _ => None,
    }
}

/// What a line carries, if it is a frame with a matching checksum: its kind and its payload.
pub open spec fn parsed(line: Seq<u8>) -> Option<(Seq<char>, Seq<char>)> {
    let n = line.len();
    if n < 4 || line[0] != 0x24 || line[n - 3] != 0x2A {
        None
    } else {
        let body = line.subrange(1, n - 3);
        if hex_value(line[n - 2], line[n - 1]) == Some(xor_of(body)) && utf8::valid_utf8(body) {
            Some(text::split_once(utf8::decode_utf8(body), ','))
        } else {
            None
        }
    }
}

/// Splits `$KIND,payload*HH` into `(KIND, payload)` after verifying the checksum.
pub fn parse(line: &[u8]) -> (r: Option<(&str, &str)>)
    ensures
        match r {
            Some((kind, payload)) => parsed(line@) == Some((kind@, payload@)),
            None => parsed(line@) is None,
        },
{
    let n = line.len();
    if n < 4 || line[0] != 0x24 || line[n - 3] != 0x2A {
        return None;
    }
    let body = &line[1..n - 3];
    let expected = hex_byte(line[n - 2], line[n - 1])?;
    if checksum(body) != expected {
        return None;
    }
    let body = utf8_text(body)?;
    proof {
        utf8::encode_utf8_decode_utf8(body@);
    }
    Some(split_at_char(body, ','))
}

/// The uppercase hex digit for `d`, 0 to 15.
pub open spec fn hex_digit(d: int) -> char {
    if d < 10 {
        (0x30 + d) as char
    } else {
        (0x41 + d - 10) as char
    }
}

fn hex_char(d: u8) -> (c: char)
    requires
        d < 16,
    ensures
        c == hex_digit(d as int),
{
    if d < 10 {
        (0x30 + d) as char
    } else {
        (0x41 + (d - 10)) as char
    }
}

/// Whether `c` can't appear inside a frame.
pub open spec fn frame_breaking(c: char) -> bool {
    c == '$' || c == '\r' || c == '\n'
}

/// `payload` with `?` in place of every character that can't appear inside a frame.
pub open spec fn cleaned(payload: Seq<char>) -> Seq<char> {
    Seq::new(
        payload.len(),
        |i: int|
            if frame_breaking(payload[i]) {
                '?'
            } else {
                payload[i]
            },
    )
}

/// What a frame has between `$` and `*`. The `,` is only there if there is a payload.
pub open spec fn frame_body(kind: Seq<char>, payload: Seq<char>) -> Seq<char> {
    if payload.len() == 0 {
        kind
    } else {
        kind + seq![','] + cleaned(payload)
    }
}

/// A frame, up to the end of its line.
pub open spec fn frame_line(kind: Seq<char>, payload: Seq<char>) -> Seq<char> {
    let body = frame_body(kind, payload);
    let sum = xor_of(utf8::encode_utf8(body)) as int;
    seq!['$'] + body + seq!['*', hex_digit(sum / 16), hex_digit(sum % 16)]
}

/// Appends one frame to `out`. A `$`, `\r` or `\n` in the payload would break the framing, so
/// each is sent as `?` instead.
pub fn write_frame(out: &mut String, kind: &str, payload: &str)
    ensures
        final(out)@ == old(out)@ + frame_line(kind@, payload@) + seq!['\n'],
{
    let ghost start = out@;
    let mut body = String::new();
    body.append(kind);
    assert(body@ =~= kind@);
    let chars = chars_of(payload);
    if chars.len() > 0 {
        body.push(',');
    }
    let ghost head = body@;
    let mut i: usize = 0;
    while i < chars.len()
        invariant
            i <= chars@.len(),
            chars@ == payload@,
            body@ == head + cleaned(payload@).subrange(0, i as int),
        decreases chars@.len() - i,
    {
        let c = chars[i];
        if c == '$' || c == '\r' || c == '\n' {
            body.push('?');
        } else {
            body.push(c);
        }
        i += 1;
        assert(cleaned(payload@).subrange(0, i as int) =~= cleaned(payload@).subrange(
            0,
            i - 1,
        ).push(cleaned(payload@)[i - 1]));
        assert(body@ =~= head + cleaned(payload@).subrange(0, i as int));
    }
    assert(cleaned(payload@).subrange(0, i as int) =~= cleaned(payload@));
    assert(body@ =~= frame_body(kind@, payload@));
    let sum = checksum(body.as_str().as_bytes());
    out.push('$');
    out.append(body.as_str());
    out.push('*');
    out.push(hex_char(sum / 16));
    out.push(hex_char(sum % 16));
    out.push('\n');
    assert(out@ =~= start + frame_line(kind@, payload@) + seq!['\n']);
}

/// A kind of message that a frame can carry: nothing in it breaks the framing.
pub open spec fn is_kind(kind: Seq<char>) -> bool {
    forall|i: int| 0 <= i < kind.len() ==> !frame_breaking(#[trigger] kind[i])
}

proof fn lemma_frame_bytes(kind: Seq<char>, payload: Seq<char>)
    ensures
        utf8::encode_utf8(frame_line(kind, payload)) == seq![0x24u8] + utf8::encode_utf8(
            frame_body(kind, payload),
        ) + seq![
            0x2Au8,
            hex_digit(xor_of(utf8::encode_utf8(frame_body(kind, payload))) as int / 16) as u8,
            hex_digit(xor_of(utf8::encode_utf8(frame_body(kind, payload))) as int % 16) as u8,
        ],
{
    let body = frame_body(kind, payload);
    let sum = xor_of(utf8::encode_utf8(body)) as int;
    let hi = hex_digit(sum / 16);
    let lo = hex_digit(sum % 16);
    text::lemma_spelled_in_pieces(seq!['$'] + body, seq!['*', hi, lo]);
    text::lemma_spelled_in_pieces(seq!['$'], body);
    text::lemma_ascii_spelling('$');
    text::lemma_spelled_in_pieces(seq!['*'], seq![hi, lo]);
    text::lemma_spelled_in_pieces(seq![hi], seq![lo]);
    text::lemma_ascii_spelling('*');
    text::lemma_ascii_spelling(hi);
    text::lemma_ascii_spelling(lo);
    assert(seq!['*'] + seq![hi, lo] =~= seq!['*', hi, lo]);
    assert(seq![hi] + seq![lo] =~= seq![hi, lo]);
    assert(seq![0x2Au8] + (seq![hi as u8] + seq![lo as u8]) =~= seq![0x2Au8, hi as u8, lo as u8]);
}

/// What is written is parsed, split at its first comma: a kind without one and the payload come
/// back, with `?` for what can't be sent.
pub proof fn parses_what_it_writes(kind: Seq<char>, payload: Seq<char>)
    ensures
        parsed(utf8::encode_utf8(frame_line(kind, payload))) == Some(
            text::split_once(frame_body(kind, payload), ','),
        ),
        !kind.contains(',') ==> parsed(utf8::encode_utf8(frame_line(kind, payload))) == Some(
            (kind, cleaned(payload)),
        ),
{
    let body = frame_body(kind, payload);
    let bytes = utf8::encode_utf8(body);
    let line = utf8::encode_utf8(frame_line(kind, payload));
    lemma_frame_bytes(kind, payload);
    assert(line.subrange(1, line.len() - 3) =~= bytes);
    utf8::encode_utf8_valid_utf8(body);
    utf8::encode_utf8_decode_utf8(body);
    let sum = xor_of(bytes) as int;
    assert(hex_value(hex_digit(sum / 16) as u8, hex_digit(sum % 16) as u8) == Some(sum as u8));
    if !kind.contains(',') {
        if payload.len() == 0 {
            text::lemma_find_unique(body, 0, ',', body.len() as int);
            assert(cleaned(payload) =~= Seq::<char>::empty());
        } else {
            assert forall|i: int| 0 <= i < kind.len() implies body[i] != ',' by {
                assert(body[i] == kind[i]);
            }
            text::lemma_find_unique(body, 0, ',', kind.len() as int);
            assert(body.subrange(0, kind.len() as int) =~= kind);
            assert(body.subrange((kind.len() + 1) as int, body.len() as int) =~= cleaned(payload));
        }
    }
}

/// Everything that comes of receiving `bytes`, undamaged, one after the other.
pub open spec fn fed(state: Pending, bytes: Seq<u8>) -> (Pending, Seq<Message>)
    decreases bytes.len(),
{
    if bytes.len() == 0 {
        (state, Seq::empty())
    } else {
        let (before, messages) = fed(state, bytes.drop_last());
        let (after, message) = before.received(Ok(bytes.last()));
        (
            after,
            match message {
                Some(m) => messages.push(m),
                None => messages,
            },
        )
    }
}

/// A line without its carriage returns, which are ignored.
pub open spec fn without_returns(line: Seq<u8>) -> Seq<u8>
    decreases line.len(),
{
    if line.len() == 0 {
        Seq::empty()
    } else if line.last() == 0x0D {
        without_returns(line.drop_last())
    } else {
        without_returns(line.drop_last()).push(line.last())
    }
}

proof fn lemma_line_builds_up(state: Pending, line: Seq<u8>)
    requires
        0 < line.len(),
        line[0] == 0x24,
        forall|i: int| 0 < i < line.len() ==> #[trigger] line[i] != 0x24 && line[i] != 0x0A,
    ensures
        without_returns(line).len() > 0,
        without_returns(line)[0] == 0x24,
        fed(state, line).1 == Seq::<Message>::empty(),
        ({
            let kept = without_returns(line);
            let after = fed(state, line).0;
            &&& after.overflow <==> kept.len() > MAX_LINE
            &&& after.line.len() <= MAX_LINE
            &&& kept.len() <= MAX_LINE ==> after.line == kept
            &&& kept.len() > MAX_LINE ==> after.line.len() == MAX_LINE
        }),
    decreases line.len(),
{
    let before = line.drop_last();
    if line.len() == 1 {
        assert(before =~= Seq::<u8>::empty());
        assert(fed(state, before) == (state, Seq::<Message>::empty()));
        assert(without_returns(before) =~= Seq::<u8>::empty());
        assert(without_returns(line) =~= line);
        assert(fed(state, line).0.line =~= line);
    } else {
        assert forall|i: int| 0 < i < before.len() implies #[trigger] before[i] != 0x24 && before[i]
            != 0x0A by {
            assert(before[i] == line[i]);
        }
        lemma_line_builds_up(state, before);
        assert(line.last() == line[line.len() - 1]);
    }
}

/// Whatever was received before it, a line that starts with `$` and has no other is answered by
/// itself alone: with the frame it is, or as a bad one, or as one that is too long. Nothing of
/// it is left for the next line.
pub proof fn lines_get_through(state: Pending, line: Seq<u8>)
    requires
        0 < line.len(),
        line[0] == 0x24,
        forall|i: int| 0 < i < line.len() ==> #[trigger] line[i] != 0x24 && line[i] != 0x0A,
    ensures
        ({
            let kept = without_returns(line);
            let (after, messages) = fed(state, line.push(0x0A));
            &&& after.line.len() == 0
            &&& !after.overflow
            &&& messages == seq![
                if kept.len() > MAX_LINE {
                    Message::Rejected("line too long"@)
                } else {
                    match parsed(kept) {
                        Some((kind, payload)) => Message::Frame { kind, payload },
                        None => Message::Rejected("bad frame"@),
                    }
                },
            ]
        }),
{
    lemma_line_builds_up(state, line);
    let whole = line.push(0x0A);
    assert(whole.drop_last() =~= line);
    let kept = without_returns(line);
    assert(fed(state, whole).1 =~= seq![
        if kept.len() > MAX_LINE {
            Message::Rejected("line too long"@)
        } else {
            match parsed(kept) {
                Some((kind, payload)) => Message::Frame { kind, payload },
                None => Message::Rejected("bad frame"@),
            }
        },
    ]);
}

proof fn lemma_without_returns(line: Seq<u8>)
    requires
        forall|i: int| 0 <= i < line.len() ==> #[trigger] line[i] != 0x0D,
    ensures
        without_returns(line) == line,
    decreases line.len(),
{
    if line.len() > 0 {
        let before = line.drop_last();
        assert forall|i: int| 0 <= i < before.len() implies #[trigger] before[i] != 0x0D by {
            assert(before[i] == line[i]);
        }
        lemma_without_returns(before);
        assert(line.last() == line[line.len() - 1]);
        assert(before.push(line.last()) =~= line);
    } else {
        assert(line =~= Seq::<u8>::empty());
    }
}

/// Whatever was received before it, a frame that fits a line gets through, as one message.
pub proof fn frames_get_through(state: Pending, kind: Seq<char>, payload: Seq<char>)
    requires
        is_kind(kind),
        utf8::encode_utf8(frame_line(kind, payload)).len() <= 96,
    ensures
        ({
            let (shown, rest) = text::split_once(frame_body(kind, payload), ',');
            fed(state, utf8::encode_utf8(frame_line(kind, payload)).push(0x0A)).1 == seq![
                Message::Frame { kind: shown, payload: rest },
            ]
        }),
        !kind.contains(',') ==> fed(
            state,
            utf8::encode_utf8(frame_line(kind, payload)).push(0x0A),
        ).1 == seq![Message::Frame { kind, payload: cleaned(payload) }],
{
    let line = utf8::encode_utf8(frame_line(kind, payload));
    let body = frame_body(kind, payload);
    let bytes = utf8::encode_utf8(body);
    lemma_frame_bytes(kind, payload);
    assert forall|i: int| 0 < i < line.len() implies #[trigger] line[i] != 0x24 && line[i] != 0x0D
        && line[i] != 0x0A by {
        if i < 1 + bytes.len() {
            assert(line[i] == bytes[i - 1]);
            if line[i] < 0x80 {
                text::lemma_ascii_byte_is_a_char(body, i - 1);
                let k = choose|k: int| 0 <= k < body.len() && body[k] == bytes[i - 1] as char;
                assert(!frame_breaking(body[k])) by {
                    if k < kind.len() {
                        assert(body[k] == kind[k]);
                    } else if k > kind.len() {
                        assert(body[k] == cleaned(payload)[k - kind.len() - 1]);
                    }
                }
            }
        }
    }
    assert(line[0] == 0x24);
    lemma_without_returns(line);
    lines_get_through(state, line);
    parses_what_it_writes(kind, payload);
}

/// The XOR of all bytes, from the first on.
pub open spec fn parity(bytes: Seq<u8>) -> u8
    decreases bytes.len(),
{
    if bytes.len() == 0 {
        0
    } else {
        bytes[0] ^ parity(bytes.drop_first())
    }
}

proof fn lemma_parity(bytes: Seq<u8>)
    ensures
        xor_of(bytes) == parity(bytes),
    decreases bytes.len(),
{
    if bytes.len() == 1 {
        let b = bytes[0];
        reveal_with_fuel(xor_of, 2);
        reveal_with_fuel(parity, 2);
        assert(bytes.drop_last() =~= Seq::<u8>::empty());
        assert(bytes.drop_first() =~= Seq::<u8>::empty());
        assert(0u8 ^ b == b ^ 0u8) by (bit_vector);
    } else if bytes.len() > 1 {
        let inner = bytes.drop_first().drop_last();
        assert(inner =~= bytes.drop_last().drop_first());
        lemma_parity(bytes.drop_last());
        lemma_parity(bytes.drop_first());
        lemma_parity(inner);
        let (a, b, p) = (bytes[0], bytes.last(), parity(inner));
        assert((a ^ p) ^ b == a ^ (p ^ b)) by (bit_vector);
        assert(bytes.drop_last()[0] == a);
        assert(bytes.drop_first().last() == b);
        assert(xor_of(bytes.drop_first()) == xor_of(inner) ^ b);
        assert(parity(bytes.drop_last()) == a ^ p);
    }
}

/// A line that any sender puts together is a frame: `$`, a kind, a comma and a payload, `*`, and in
/// two hex digits of either case the XOR of what is between. With other digits it is not.
pub proof fn lines_are_checked(kind: Seq<char>, payload: Seq<char>, high: u8, low: u8)
    requires
        !kind.contains(','),
        high < 16,
        low < 16,
    ensures
        ({
            let body = utf8::encode_utf8(kind + seq![','] + payload);
            let upper = |d: u8|
                if d < 10 {
                    (48 + d) as u8
                } else {
                    (55 + d) as u8
                };
            let lower = |d: u8|
                if d < 10 {
                    (48 + d) as u8
                } else {
                    (87 + d) as u8
                };
            let line = seq![36u8] + body + seq![42u8, upper(high), upper(low)];
            let other = seq![36u8] + body + seq![42u8, lower(high), lower(low)];
            &&& 16 * high + low == parity(body) ==> parsed(line) == Some((kind, payload))
                && parsed(other) == Some((kind, payload))
            &&& 16 * high + low != parity(body) ==> parsed(line) is None && parsed(other) is None
        }),
{
    let text = kind + seq![','] + payload;
    let body = utf8::encode_utf8(text);
    lemma_parity(body);
    utf8::encode_utf8_valid_utf8(text);
    utf8::encode_utf8_decode_utf8(text);
    let h = if high < 10 {
        (48 + high) as u8
    } else {
        (55 + high) as u8
    };
    let l = if low < 10 {
        (48 + low) as u8
    } else {
        (55 + low) as u8
    };
    let h2 = if high < 10 {
        (48 + high) as u8
    } else {
        (87 + high) as u8
    };
    let l2 = if low < 10 {
        (48 + low) as u8
    } else {
        (87 + low) as u8
    };
    let line = seq![36u8] + body + seq![42u8, h, l];
    let other = seq![36u8] + body + seq![42u8, h2, l2];
    assert(line.subrange(1, line.len() - 3) =~= body);
    assert(other.subrange(1, other.len() - 3) =~= body);
    let n = kind.len() as int;
    assert forall|i: int| 0 <= i < n implies text[i] != ',' by {
        if text[i] == ',' {
            assert(kind[i] == ',');
            assert(kind.contains(','));
        }
    }
    text::lemma_find_unique(text, 0, ',', n);
    assert(text.subrange(0, n) =~= kind);
    assert(text.subrange(n + 1, text.len() as int) =~= payload);
    assert(hex_value(h, l) == Some((16 * high + low) as u8));
    assert(hex_value(h2, l2) == Some((16 * high + low) as u8));
}

/// Every received byte is counted. A damaged one is counted as that too, and what was received of
/// the line before it is thrown away, as it is when a frame starts in the middle of a line:
/// that counts as one dropped line, if there was anything of it. Returns don't count for the
/// line.
pub proof fn received_bytes_are_counted(p: Pending, byte: u8)
    ensures
        ({
            let bytes = (p.stats.rx_bytes + 1) % 0x1_0000_0000;
            let begun = p.line.len() > 0 || p.overflow;
            let dropped = if begun {
                (p.stats.dropped + 1) % 0x1_0000_0000
            } else {
                p.stats.dropped as int
            };
            let (damaged, none) = p.received(Err(byte));
            let (restarted, nothing) = p.received(Ok(0x24));
            &&& none is None && nothing is None
            &&& damaged.line == Seq::<u8>::empty() && !damaged.overflow
            &&& damaged.stats == (Stats {
                rx_bytes: bytes as u32,
                rx_errors: ((p.stats.rx_errors + 1) % 0x1_0000_0000) as u32,
                dropped: dropped as u32,
                ..p.stats
            })
            &&& restarted.line == seq![0x24u8] && !restarted.overflow
            &&& restarted.stats == (Stats {
                rx_bytes: bytes as u32,
                dropped: dropped as u32,
                ..p.stats
            })
            &&& p.received(Ok(0x0D)) == (
                Pending { stats: Stats { rx_bytes: bytes as u32, ..p.stats }, ..p },
                None::<Message>,
            )
            &&& byte != 0x0D && byte != 0x0A && byte != 0x24 ==> p.received(Ok(byte)).1 is None
                && p.received(Ok(byte)).0.stats == (Stats { rx_bytes: bytes as u32, ..p.stats })
        }),
{
    assert(Seq::<u8>::empty().push(0x24u8) =~= seq![0x24u8]);
}

/// A line that ends is done with, and counted where nothing is made of it: as an overflow if it
/// was longer than 96 bytes, as a dropped line if it doesn't start like a frame, and as a bad frame
/// if it isn't one after all. The first and the last are answered; an empty line is nothing.
pub proof fn useless_lines_are_counted(p: Pending)
    ensures
        ({
            let (after, message) = p.received(Ok(0x0A));
            let counting = Stats {
                rx_bytes: ((p.stats.rx_bytes + 1) % 0x1_0000_0000) as u32,
                ..p.stats
            };
            &&& after.line == Seq::<u8>::empty() && !after.overflow
            &&& if p.overflow {
                &&& message == Some(Message::Rejected("line too long"@))
                &&& after.stats == (Stats {
                    overflows: ((p.stats.overflows + 1) % 0x1_0000_0000) as u32,
                    ..counting
                })
            } else if p.line.len() == 0 {
                message is None && after.stats == counting
            } else if p.line[0] != 0x24 {
                &&& message is None
                &&& after.stats == (Stats {
                    dropped: ((p.stats.dropped + 1) % 0x1_0000_0000) as u32,
                    ..counting
                })
            } else if parsed(p.line) is None {
                &&& message == Some(Message::Rejected("bad frame"@))
                &&& after.stats == (Stats {
                    bad_frames: ((p.stats.bad_frames + 1) % 0x1_0000_0000) as u32,
                    ..counting
                })
            } else {
                message is Some && message->0 is Frame && after.stats == counting
            }
        }),
{
}

} // verus!
