use rustypi::console::{Console, Screen};

#[test]
fn writes_and_breaks_lines() {
    let mut console = Console::new(5, 3);
    let mut screen = Screen::new(&console);
    console.write_str("ab\ncd", &mut screen);
    assert_eq!([screen.row(0), screen.row(1)], ["ab   ", "cd   "]);
    // Only the four characters were drawn.
    assert_eq!(screen.draws, 4);
}

#[test]
fn wraps_long_lines() {
    let mut console = Console::new(4, 3);
    let mut screen = Screen::new(&console);
    console.write_str("abcdef", &mut screen);
    assert_eq!([screen.row(0), screen.row(1)], ["abcd", "ef  "]);
}

#[test]
fn exactly_full_lines_do_not_leave_a_blank_line() {
    let mut console = Console::new(4, 3);
    let mut screen = Screen::new(&console);
    console.write_str("abcd\nef", &mut screen);
    assert_eq!([screen.row(0), screen.row(1)], ["abcd", "ef  "]);
}

#[test]
fn scrolls_when_full_and_redraws_what_moved() {
    let mut console = Console::new(3, 2);
    let mut screen = Screen::new(&console);
    console.write_str("one\ntwo\nsix", &mut screen);
    assert_eq!([screen.row(0), screen.row(1)], ["two", "six"]);
    assert_eq!([console.cell(0, 0), console.cell(0, 1)], ['t', 's']);
}

#[test]
fn handles_carriage_returns_tabs_and_control_characters() {
    let mut console = Console::new(12, 2);
    let mut screen = Screen::new(&console);
    console.write_str("abc\rX\x07\ta", &mut screen);
    assert_eq!(screen.row(0), "Xbc     a   ");
}

#[test]
fn backspace_moves_back_so_a_space_erases() {
    let mut console = Console::new(5, 2);
    let mut screen = Screen::new(&console);
    console.write_str("abc\x08 \x08d", &mut screen);
    assert_eq!(screen.row(0), "abd  ");
    // Not past the start of the line.
    console.write_str("\r\x08\x08X", &mut screen);
    assert_eq!(screen.row(0), "Xbd  ");
}

#[test]
fn clear_empties_everything() {
    let mut console = Console::new(3, 2);
    let mut screen = Screen::new(&console);
    console.write_str("abc\ndef", &mut screen);
    console.clear(&mut screen);
    console.write_str("z", &mut screen);
    assert_eq!([screen.row(0), screen.row(1)], ["z  ", "   "]);
}

#[test]
fn a_zero_sized_console_still_works() {
    let mut console = Console::new(0, 0);
    let mut screen = Screen::new(&console);
    console.write_str("hi\n", &mut screen);
    assert_eq!(console.cell(0, 0), ' ');
}
