use rustypi::keys::{Composer, Repeater};

fn typed(steps: &[Result<char, char>]) -> String {
    let mut composer = Composer::new();
    let mut out = String::new();
    for step in steps {
        match *step {
            Ok(c) => composer.char(c, &mut out),
            Err(accent) => composer.dead(accent, &mut out),
        }
    }
    out
}

#[test]
fn accents_combine_with_the_next_letter() {
    assert_eq!(typed(&[Err('´'), Ok('e')]), "é");
    assert_eq!(typed(&[Err('¨'), Ok('U'), Err('~'), Ok('n')]), "Üñ");
    assert_eq!(typed(&[Ok('c'), Err('^'), Ok('o'), Ok('t'), Ok('e')]), "côte");
}

#[test]
fn accents_that_dont_combine_are_typed_themselves() {
    // Before a space, twice, or before a letter it doesn't go on.
    assert_eq!(typed(&[Err('´'), Ok(' ')]), "´");
    assert_eq!(typed(&[Err('^'), Err('^')]), "^");
    assert_eq!(typed(&[Err('~'), Ok('x')]), "~x");
    // Another accent: the first is typed, the second waits.
    assert_eq!(typed(&[Err('´'), Err('¨'), Ok('o')]), "´ö");
    // Backspace takes a waiting accent back.
    assert_eq!(typed(&[Err('´'), Ok('\x08'), Ok('e')]), "e");
}

#[test]
fn a_held_key_repeats_after_a_delay() {
    let mut repeater = Repeater::new();
    repeater.pressed(0x04, 0);
    let held = [0x04];
    assert_eq!(repeater.due(&held, Repeater::DELAY_US - 1), None);
    assert_eq!(repeater.due(&held, Repeater::DELAY_US), Some(0x04));
    assert_eq!(repeater.due(&held, Repeater::DELAY_US + 1), None);
    assert_eq!(repeater.due(&held, Repeater::DELAY_US + Repeater::RATE_US), Some(0x04));
    // Released: it stops, and stays stopped.
    assert_eq!(repeater.due(&[], Repeater::DELAY_US + 2 * Repeater::RATE_US), None);
    assert_eq!(repeater.due(&held, Repeater::DELAY_US + 3 * Repeater::RATE_US), None);
}

#[test]
fn only_the_last_key_pressed_repeats() {
    let mut repeater = Repeater::new();
    repeater.pressed(0x04, 0);
    repeater.pressed(0x05, 100_000);
    let held = [0x04, 0x05];
    let at = 100_000 + Repeater::DELAY_US;
    assert_eq!(repeater.due(&held, at), Some(0x05));
    let repeats: Vec<_> = (1..5).filter_map(|i| repeater.due(&held, at + i * Repeater::RATE_US)).collect();
    assert_eq!(repeats, [0x05; 4]);
    // A slow poll catches up by one repeat, not a burst.
    let late = at + 100 * Repeater::RATE_US;
    assert_eq!(repeater.due(&held, late), Some(0x05));
    assert_eq!(repeater.due(&held, late + 1), None);
}
