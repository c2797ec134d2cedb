//! Turning typed characters into lines: what a local keyboard needs before the shell can take
//! its input, since the shell works a line at a time.

use crate::text;
use crate::text::{is_control, string_of, utf8_length};
use vstd::prelude::*;
use vstd::utf8;

verus! {

/// A line being typed. Characters are echoed as they come, and backspace takes the last one
/// back, on screen too.
pub struct LineEditor {
    chars: Vec<char>,
    /// How many bytes the line takes in UTF-8.
    bytes: usize,
    /// Longest line it takes, in bytes: more characters are dropped.
    max: usize,
}

/// What the screen shows to take a character back: over it, blank it, and over it again.
pub open spec fn erasure() -> Seq<char> {
    seq!['\x08', ' ', '\x08']
}

/// Taking `n` characters back.
pub open spec fn erasures(n: nat) -> Seq<char>
    decreases n,
{
    if n == 0 {
        Seq::empty()
    } else {
        erasures((n - 1) as nat) + erasure()
    }
}

/// What typing `c` does to the line: what it is then, what is echoed, and the line that comes
/// out.
pub open spec fn typed(line: Seq<char>, max: int, c: char) -> (
    Seq<char>,
    Seq<char>,
    Option<Seq<char>>,
) {
    if c == '\n' {
        (Seq::empty(), seq!['\n'], Some(line))
    } else if c == '\x08' {
        if line.len() > 0 {
            (line.drop_last(), erasure(), None)
        } else {
            (line, Seq::empty(), None)
        }
    } else if text::is_control_char(c) {
        (line, Seq::empty(), None)
    } else if utf8::encode_utf8(line).len() + text::spelled_length(c) <= max {
        (line.push(c), seq![c], None)
    } else {
        (line, Seq::empty(), None)
    }
}

impl LineEditor {
    /// The line so far.
    pub closed spec fn view(&self) -> Seq<char> {
        self.chars@
    }

    /// How many bytes the line may take.
    pub closed spec fn max(&self) -> usize {
        self.max
    }

    pub closed spec fn wf(&self) -> bool {
        &&& self.bytes == utf8::encode_utf8(self.chars@).len()
        &&& self.bytes <= self.max
    }

    /// The line fits in as many bytes as it may take.
    pub proof fn the_line_fits(&self)
        requires
            self.wf(),
        ensures
            utf8::encode_utf8(self@).len() <= self.max(),
    {
    }

    pub fn new(max: usize) -> (r: Self)
        ensures
            r.wf(),
            r@ == Seq::<char>::empty(),
            r.max() == max,
    {
        LineEditor { chars: Vec::new(), bytes: 0, max }
    }

    /// Takes a typed character, adding what the screen should show to `echo`. Returns the
    /// finished line, without its newline, once one is typed.
    pub fn feed(&mut self, c: char, echo: &mut String) -> (r: Option<String>)
        requires
            old(self).wf(),
        ensures
            final(self).wf(),
            final(self).max() == old(self).max(),
            final(self)@ == typed(old(self)@, old(self).max() as int, c).0,
            final(echo)@ == old(echo)@ + typed(old(self)@, old(self).max() as int, c).1,
            match r {
                Some(line) => typed(old(self)@, old(self).max() as int, c).2 == Some(line@),
                None => typed(old(self)@, old(self).max() as int, c).2 is None,
            },
    {
        let ghost shown = echo@;
        if c == '\n' {
            echo.push('\n');
            assert(echo@ =~= shown + seq!['\n']);
            let line = string_of(&self.chars);
            self.chars = Vec::new();
            self.bytes = 0;
            return Some(line);
        }
        if c == '\x08' {
            if self.take_back(echo) {
                assert(echo@ =~= shown + erasure());
            } else {
                assert(echo@ =~= shown + Seq::<char>::empty());
            }
            return None;
        }
        if is_control(c) {
            assert(echo@ =~= shown + Seq::<char>::empty());
            return None;
        }
        let more = utf8_length(c);
        if more <= self.max - self.bytes {
            proof {
                text::lemma_spelled_push(self.chars@, c);
            }
            self.chars.push(c);
            self.bytes += more;
            echo.push(c);
            assert(echo@ =~= shown + seq![c]);
        } else {
            assert(echo@ =~= shown + Seq::<char>::empty());
        }
        None
    }

    /// Takes the last character back, if there is one.
    fn take_back(&mut self, echo: &mut String) -> (r: bool)
        requires
            old(self).wf(),
        ensures
            final(self).wf(),
            final(self).max() == old(self).max(),
            r == (old(self)@.len() > 0),
            r ==> final(self)@ == old(self)@.drop_last() && final(echo)@ == old(echo)@ + erasure(),
            !r ==> final(self)@ == old(self)@ && final(echo)@ == old(echo)@,
    {
        match self.chars.pop() {
            None => false,
            Some(c) => {
                proof {
                    text::lemma_spelled_push(self.chars@, c);
                    assert(self.chars@.push(c) =~= old(self).chars@);
                }
                self.bytes -= utf8_length(c);
                echo.push('\x08');
                echo.push(' ');
                echo.push('\x08');
                assert(echo@ =~= old(echo)@ + erasure());
                true
            },
        }
    }

    /// Throws the line away, taking it back off the screen too.
    pub fn clear(&mut self, echo: &mut String)
        requires
            old(self).wf(),
        ensures
            final(self).wf(),
            final(self).max() == old(self).max(),
            final(self)@ == Seq::<char>::empty(),
            final(echo)@ == old(echo)@ + erasures(old(self)@.len()),
    {
        let ghost mut taken: nat = 0;
        assert(echo@ =~= old(echo)@ + erasures(0));
        while self.chars.len() > 0
            invariant
                self.wf(),
                self.max() == old(self).max(),
                taken + self@.len() == old(self)@.len(),
                echo@ == old(echo)@ + erasures(taken),
            decreases self@.len(),
        {
            self.take_back(echo);
            proof {
                taken = taken + 1;
                assert(echo@ =~= old(echo)@ + erasures(taken));
            }
        }
        assert(self@ =~= Seq::<char>::empty());
    }

    /// The line so far, to show again (after the screen was cleared, say).
    pub fn line(&self) -> (r: String)
        ensures
            r@ == self@,
    {
        string_of(&self.chars)
    }
}

/// A typed line never gets longer than it may.
pub proof fn lines_stay_short(line: Seq<char>, max: int, c: char)
    requires
        utf8::encode_utf8(line).len() <= max,
        0 <= max,
    ensures
        utf8::encode_utf8(typed(line, max, c).0).len() <= max,
{
    text::lemma_spelled_push(line, c);
    if line.len() > 0 {
        text::lemma_spelled_push(line.drop_last(), line.last());
        assert(line.drop_last().push(line.last()) =~= line);
    }
    assert(utf8::encode_utf8(Seq::<char>::empty()).len() == 0);
}

/// Backspace takes back what was typed, on screen too.
pub proof fn backspace_undoes_typing(line: Seq<char>, max: int, c: char)
    requires
        typed(line, max, c).0 == line.push(c),
    ensures
        typed(typed(line, max, c).0, max, '\x08').0 == line,
        typed(typed(line, max, c).0, max, '\x08').1 == erasure(),
{
    assert(line.push(c).drop_last() =~= line);
}

/// The line after `chars` are typed, and what was echoed.
pub open spec fn typed_all(line: Seq<char>, max: int, chars: Seq<char>) -> (Seq<char>, Seq<char>)
    decreases chars.len(),
{
    if chars.len() == 0 {
        (line, Seq::empty())
    } else {
        let (before, echo) = typed_all(line, max, chars.drop_last());
        let (after, more, _) = typed(before, max, chars.last());
        (after, echo + more)
    }
}

/// Whether a character is no control character: none below the space, nor from DEL to 9F.
pub open spec fn prints(c: char) -> bool {
    (c as u32) >= 0x20 && !(0x7F <= (c as u32) < 0xA0)
}

/// What is typed comes out: a line of printing characters that takes as many bytes as it may, or
/// less, is echoed as it is typed and comes out with the newline, and the next line is empty.
pub proof fn typed_lines_come_out(max: int, chars: Seq<char>)
    requires
        utf8::encode_utf8(chars).len() <= max,
        forall|i: int| 0 <= i < chars.len() ==> prints(#[trigger] chars[i]),
    ensures
        typed_all(Seq::empty(), max, chars) == (chars, chars),
        typed(chars, max, '\n') == (Seq::<char>::empty(), seq!['\n'], Some(chars)),
    decreases chars.len(),
{
    if chars.len() > 0 {
        let before = chars.drop_last();
        let c = chars.last();
        text::lemma_spelled_push(before, c);
        assert(before.push(c) =~= chars);
        assert(prints(chars[chars.len() - 1]));
        assert forall|i: int| 0 <= i < before.len() implies prints(#[trigger] before[i]) by {
            assert(before[i] == chars[i]);
        }
        typed_lines_come_out(max, before);
        assert(before + seq![c] =~= chars);
    } else {
        assert(chars =~= Seq::<char>::empty());
    }
}

/// A character that the line has no room for and a control character other than newline and
/// backspace do nothing.
pub proof fn other_characters_do_nothing(line: Seq<char>, max: int, c: char)
    requires
        c != '\n',
        c != '\x08',
        !prints(c) || utf8::encode_utf8(line.push(c)).len() > max,
    ensures
        typed(line, max, c) == (line, Seq::<char>::empty(), None::<Seq<char>>),
{
    text::lemma_spelled_push(line, c);
}

} // verus!
