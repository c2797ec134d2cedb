//! Keyboard input between keys and characters: accents that combine with the next letter
//! (dead keys), and keys that repeat while held. Keyboards report only which keys are down,
//! so both are the host's job.

use crate::text;
use crate::text::{chars_of, find_char};
use vstd::prelude::*;

verus! {

/// Puts an accent from a dead key on the next letter.
pub struct Composer {
    pub accent: Option<char>,
}

impl Default for Composer {
    fn default() -> (r: Self)
        ensures
            r.accent is None,
    {
        Composer { accent: None }
    }
}

/// What pressing the dead key of `accent` types, and the accent that waits then.
pub open spec fn dead_key(waiting: Option<char>, accent: char) -> (Seq<char>, Option<char>) {
    match waiting {
        Some(pending) => if pending == accent {
            (seq![accent], None)
        } else {
            (seq![pending], Some(accent))
        },
        None => (Seq::empty(), Some(accent)),
    }
}

/// What typing `c` gives with an accent waiting, or none.
pub open spec fn typed(waiting: Option<char>, c: char) -> Seq<char> {
    match waiting {
        None => seq![c],
        Some(accent) => match composed(accent, c) {
            Some(accented) => seq![accented],
            None => if c == '\x08' {
                Seq::empty()
            } else if c == ' ' {
                seq![accent]
            } else {
                seq![accent, c]
            },
        },
    }
}

impl Composer {
    pub fn new() -> (r: Self)
        ensures
            r.accent is None,
    {
        Composer { accent: None }
    }

    /// A dead key was pressed: its accent goes on the next character. Pressed twice, it types
    /// the accent itself.
    pub fn dead(&mut self, accent: char, out: &mut String)
        ensures
            final(out)@ == old(out)@ + dead_key(old(self).accent, accent).0,
            final(self).accent == dead_key(old(self).accent, accent).1,
    {
        match self.accent {
            Some(pending) => {
                out.push(pending);
                assert(out@ =~= old(out)@ + seq![pending]);
                self.accent = if pending == accent {
                    None
                } else {
                    Some(accent)
                };
            },
            None => {
                assert(out@ =~= old(out)@ + Seq::<char>::empty());
                self.accent = Some(accent);
            },
        }
    }

    /// A character was typed: with an accent waiting, the accented letter if there is one,
    /// else the accent and then the character (a space just gives the accent). Backspace
    /// takes a waiting accent back instead.
    pub fn char(&mut self, c: char, out: &mut String)
        ensures
            final(out)@ == old(out)@ + typed(old(self).accent, c),
            final(self).accent is None,
    {
        match self.accent {
            None => {
                out.push(c);
                assert(out@ =~= old(out)@ + seq![c]);
            },
            Some(accent) => {
                self.accent = None;
                match compose(accent, c) {
                    Some(accented) => {
                        out.push(accented);
                        assert(out@ =~= old(out)@ + seq![accented]);
                    },
                    None => {
                        if c == '\x08' {
                            assert(out@ =~= old(out)@ + Seq::<char>::empty());
                        } else if c == ' ' {
                            out.push(accent);
                            assert(out@ =~= old(out)@ + seq![accent]);
                        } else {
                            out.push(accent);
                            out.push(c);
                            assert(out@ =~= old(out)@ + seq![accent, c]);
                        }
                    },
                }
            },
        }
    }

    /// Forgets a waiting accent.
    pub fn reset(&mut self)
        ensures
            final(self).accent is None,
    {
        self.accent = None;
    }
}

/// The letters an accent goes on, and the accented letters, in the same order.
pub open spec fn accented_letters(accent: char) -> (Seq<char>, Seq<char>) {
    if accent == '´' {
        ("aeiouyAEIOUY"@, "áéíóúýÁÉÍÓÚÝ"@)
    } else if accent == '`' {
        ("aeiouAEIOU"@, "àèìòùÀÈÌÒÙ"@)
    } else if accent == '¨' {
        ("aeiouyAEIOU"@, "äëïöüÿÄËÏÖÜ"@)
    } else if accent == '^' {
        ("aeiouAEIOU"@, "âêîôûÂÊÎÔÛ"@)
    } else if accent == '~' {
        ("anoANO"@, "ãñõÃÑÕ"@)
    } else {
        (Seq::empty(), Seq::empty())
    }
}

/// `letter` with `accent` on it, if Latin-1 has it.
pub open spec fn composed(accent: char, letter: char) -> Option<char> {
    let (plain, accented) = accented_letters(accent);
    let at = text::find_from(plain, 0, letter);
    if at < plain.len() {
        Some(accented[at])
    } else {
        None
    }
}

/// `letter` with `accent` on it, if Latin-1 has it.
fn compose(accent: char, letter: char) -> (r: Option<char>)
    ensures
        r == composed(accent, letter),
{
    proof {
        reveal_strlit("aeiouyAEIOUY");
        reveal_strlit("áéíóúýÁÉÍÓÚÝ");
        reveal_strlit("aeiouAEIOU");
        reveal_strlit("àèìòùÀÈÌÒÙ");
        reveal_strlit("aeiouyAEIOU");
        reveal_strlit("äëïöüÿÄËÏÖÜ");
        reveal_strlit("âêîôûÂÊÎÔÛ");
        reveal_strlit("anoANO");
        reveal_strlit("ãñõÃÑÕ");
    }
    let (plain, accented): (&str, &str) = match accent {
        '´' => ("aeiouyAEIOUY", "áéíóúýÁÉÍÓÚÝ"),
        '`' => ("aeiouAEIOU", "àèìòùÀÈÌÒÙ"),
        '¨' => ("aeiouyAEIOU", "äëïöüÿÄËÏÖÜ"),
        '^' => ("aeiouAEIOU", "âêîôûÂÊÎÔÛ"),
        '~' => ("anoANO", "ãñõÃÑÕ"),
        _ => return None,
    };
    assert(plain@.len() == accented@.len());
    let plain = chars_of(plain);
    let accented = chars_of(accented);
    let at = find_char(&plain, 0, letter);
    if at < plain.len() {
        Some(accented[at])
    } else {
        None
    }
}

/// Makes a held key type again: after `DELAY_US`, then every `RATE_US`, like a PC's typematic
/// repeat. Only the key pressed last repeats.
pub struct Repeater {
    /// The key, and when it next repeats.
    pub held: Option<(u8, u64)>,
}

impl Default for Repeater {
    fn default() -> (r: Self)
        ensures
            r.held is None,
    {
        Repeater { held: None }
    }
}

impl Repeater {
    pub const DELAY_US: u64 = 500_000;

    pub const RATE_US: u64 = 33_000;

    pub fn new() -> (r: Self)
        ensures
            r.held is None,
    {
        Repeater { held: None }
    }

    /// A key that repeats was pressed at `now_us`.
    pub fn pressed(&mut self, key: u8, now_us: u64)
        requires
            now_us + Self::DELAY_US <= u64::MAX,
        ensures
            final(self).held == Some((key, (now_us + 500_000) as u64)),
    {
        self.held = Some((key, now_us + Self::DELAY_US));
    }

    /// Stops repeating, whatever is held.
    pub fn stop(&mut self)
        ensures
            final(self).held is None,
    {
        self.held = None;
    }

    /// Called often, with the keys held now: the key to type again, if its time has come. A
    /// released key stops repeating.
    pub fn due(&mut self, held: &[u8], now_us: u64) -> (r: Option<u8>)
        requires
            now_us + Self::RATE_US <= u64::MAX,
        ensures
            match old(self).held {
                None => r is None && final(self).held is None,
                Some((key, next)) => if !held@.contains(key) {
                    r is None && final(self).held is None
                } else if now_us < next {
                    r is None && final(self).held == old(self).held
                } else {
                    // From when it was due rather than now, so a slightly late poll doesn't slow
                    // the rate; but a whole repeat or more behind, it starts afresh.
                    r == Some(key) && final(self).held == Some(
                        (
                            key,
                            if next + 33_000 > now_us {
                                (next + 33_000) as u64
                            } else {
                                (now_us + 33_000) as u64
                            },
                        ),
                    )
                },
            },
    {
        let (key, next) = match self.held {
            Some(held) => held,
            None => return None,
        };
        if !contains(held, key) {
            self.held = None;
            return None;
        }
        if now_us < next {
            return None;
        }
        let following = if next + Self::RATE_US > now_us {
            next + Self::RATE_US
        } else {
            now_us + Self::RATE_US
        };
        self.held = Some((key, following));
        Some(key)
    }
}

fn contains(keys: &[u8], key: u8) -> (r: bool)
    ensures
        r == keys@.contains(key),
{
    let mut i: usize = 0;
    while i < keys.len()
        invariant
            i <= keys@.len(),
            forall|k: int| 0 <= k < i ==> #[trigger] keys@[k] != key,
        decreases keys@.len() - i,
    {
        if keys[i] == key {
            return true;
        }
        i += 1;
    }
    false
}

proof fn lemma_composed(accent: char, letter: char, i: int)
    requires
        0 <= i < accented_letters(accent).0.len(),
        accented_letters(accent).0[i] == letter,
        forall|k: int| 0 <= k < i ==> accented_letters(accent).0[k] != letter,
    ensures
        composed(accent, letter) == Some(accented_letters(accent).1[i]),
{
    text::lemma_find_unique(accented_letters(accent).0, 0, letter, i);
}

proof fn lemma_not_composed(accent: char, letter: char)
    requires
        forall|k: int|
            0 <= k < accented_letters(accent).0.len() ==> accented_letters(accent).0[k] != letter,
    ensures
        composed(accent, letter) is None,
{
    let plain = accented_letters(accent).0;
    text::lemma_find_unique(plain, 0, letter, plain.len() as int);
}

/// An accent goes on the letters that Latin-1 has with it, and the accented letter is the one of
/// that code: `code` is that of the capital, and the small letter's is 32 more.
pub open spec fn accented_as(accent: char, capital: char, small: char, code: u32) -> bool {
    &&& composed(accent, capital) == Some(code as char)
    &&& composed(accent, small) == Some((code + 32) as char)
}

/// The accents and the letters they go on, by the Latin-1 codes of the accented letters.
#[verifier::rlimit(60)]
#[verifier::spinoff_prover]
pub proof fn accents_go_on_letters()
    ensures
        accented_as('`', 'A', 'a', 0xC0) && accented_as('`', 'E', 'e', 0xC8),
        accented_as('`', 'I', 'i', 0xCC) && accented_as('`', 'O', 'o', 0xD2),
        accented_as('`', 'U', 'u', 0xD9),
        accented_as('´', 'A', 'a', 0xC1) && accented_as('´', 'E', 'e', 0xC9),
        accented_as('´', 'I', 'i', 0xCD) && accented_as('´', 'O', 'o', 0xD3),
        accented_as('´', 'U', 'u', 0xDA) && accented_as('´', 'Y', 'y', 0xDD),
        accented_as('^', 'A', 'a', 0xC2) && accented_as('^', 'E', 'e', 0xCA),
        accented_as('^', 'I', 'i', 0xCE) && accented_as('^', 'O', 'o', 0xD4),
        accented_as('^', 'U', 'u', 0xDB),
        accented_as('~', 'A', 'a', 0xC3) && accented_as('~', 'N', 'n', 0xD1),
        accented_as('~', 'O', 'o', 0xD5),
        accented_as('¨', 'A', 'a', 0xC4) && accented_as('¨', 'E', 'e', 0xCB),
        accented_as('¨', 'I', 'i', 0xCF) && accented_as('¨', 'O', 'o', 0xD6),
        accented_as('¨', 'U', 'u', 0xDC),
        composed('¨', 'y') == Some('\u{FF}'),
{
    reveal_strlit("aeiouyAEIOUY");
    reveal_strlit("áéíóúýÁÉÍÓÚÝ");
    reveal_strlit("aeiouAEIOU");
    reveal_strlit("àèìòùÀÈÌÒÙ");
    reveal_strlit("aeiouyAEIOU");
    reveal_strlit("äëïöüÿÄËÏÖÜ");
    reveal_strlit("âêîôûÂÊÎÔÛ");
    reveal_strlit("anoANO");
    reveal_strlit("ãñõÃÑÕ");
    lemma_composed('`', 'a', 0);
    lemma_composed('`', 'e', 1);
    lemma_composed('`', 'i', 2);
    lemma_composed('`', 'o', 3);
    lemma_composed('`', 'u', 4);
    lemma_composed('`', 'A', 5);
    lemma_composed('`', 'E', 6);
    lemma_composed('`', 'I', 7);
    lemma_composed('`', 'O', 8);
    lemma_composed('`', 'U', 9);
    lemma_composed('^', 'a', 0);
    lemma_composed('^', 'e', 1);
    lemma_composed('^', 'i', 2);
    lemma_composed('^', 'o', 3);
    lemma_composed('^', 'u', 4);
    lemma_composed('^', 'A', 5);
    lemma_composed('^', 'E', 6);
    lemma_composed('^', 'I', 7);
    lemma_composed('^', 'O', 8);
    lemma_composed('^', 'U', 9);
    lemma_composed('´', 'a', 0);
    lemma_composed('´', 'e', 1);
    lemma_composed('´', 'i', 2);
    lemma_composed('´', 'o', 3);
    lemma_composed('´', 'u', 4);
    lemma_composed('´', 'y', 5);
    lemma_composed('´', 'A', 6);
    lemma_composed('´', 'E', 7);
    lemma_composed('´', 'I', 8);
    lemma_composed('´', 'O', 9);
    lemma_composed('´', 'U', 10);
    lemma_composed('´', 'Y', 11);
    lemma_composed('¨', 'a', 0);
    lemma_composed('¨', 'e', 1);
    lemma_composed('¨', 'i', 2);
    lemma_composed('¨', 'o', 3);
    lemma_composed('¨', 'u', 4);
    lemma_composed('¨', 'y', 5);
    lemma_composed('¨', 'A', 6);
    lemma_composed('¨', 'E', 7);
    lemma_composed('¨', 'I', 8);
    lemma_composed('¨', 'O', 9);
    lemma_composed('¨', 'U', 10);
    lemma_composed('~', 'a', 0);
    lemma_composed('~', 'n', 1);
    lemma_composed('~', 'o', 2);
    lemma_composed('~', 'A', 3);
    lemma_composed('~', 'N', 4);
    lemma_composed('~', 'O', 5);
}

/// A letter typed after an accent that it can't have comes after the accent itself, a space gives
/// the accent alone, and backspace takes it back; a dead key pressed twice gives the accent,
/// and after another one types that and waits. Without an accent a character is typed as it
/// is.
pub proof fn accents_wait_for_a_letter(accent: char, other: char, c: char)
    ensures
        dead_key(None, accent) == (Seq::<char>::empty(), Some(accent)),
        dead_key(Some(accent), accent) == (seq![accent], None::<char>),
        other != accent ==> dead_key(Some(other), accent) == (seq![other], Some(accent)),
        typed(None, c) == seq![c],
        composed(accent, c) matches Some(accented) ==> typed(Some(accent), c) == seq![accented],
        composed(accent, c) is None && c != ' ' && c != '\x08' ==> typed(Some(accent), c) == seq![
            accent,
            c,
        ],
        typed(Some(accent), ' ') == seq![accent],
        typed(Some(accent), '\x08') == Seq::<char>::empty(),
        !(accent == '`' || accent == '´' || accent == '^' || accent == '~' || accent == '¨')
            ==> composed(accent, c) is None,
{
    reveal_strlit("aeiouyAEIOUY");
    reveal_strlit("aeiouAEIOU");
    reveal_strlit("aeiouyAEIOU");
    reveal_strlit("anoANO");
    lemma_not_composed(accent, ' ');
    lemma_not_composed(accent, '\x08');
    if !(accent == '`' || accent == '´' || accent == '^' || accent == '~' || accent == '¨') {
        lemma_not_composed(accent, c);
    }
}

} // verus!
