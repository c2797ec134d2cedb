use rustypi::line::LineEditor;

fn type_in(editor: &mut LineEditor, text: &str) -> (String, Option<String>) {
    let mut shown = String::new();
    let mut line = None;
    for c in text.chars() {
        if let Some(done) = editor.feed(c, &mut shown) {
            line = Some(done);
        }
    }
    (shown, line)
}

#[test]
fn a_line_comes_out_when_enter_is_pressed() {
    let mut editor = LineEditor::new(80);
    assert_eq!(type_in(&mut editor, "ls /bin"), ("ls /bin".into(), None));
    assert_eq!(type_in(&mut editor, "\n"), ("\n".into(), Some("ls /bin".into())));
    // The next line starts empty.
    assert_eq!(type_in(&mut editor, "pwd\n").1, Some("pwd".into()));
}

#[test]
fn backspace_takes_back_a_character_on_screen_too() {
    let mut editor = LineEditor::new(80);
    let (shown, line) = type_in(&mut editor, "lx\x08s\n");
    assert_eq!(shown, "lx\x08 \x08s\n");
    assert_eq!(line, Some("ls".into()));
    // Nothing to take back: nothing happens.
    assert_eq!(type_in(&mut editor, "\x08"), (String::new(), None));
}

#[test]
fn clearing_takes_the_whole_line_back() {
    let mut editor = LineEditor::new(80);
    type_in(&mut editor, "oops");
    let mut shown = String::new();
    editor.clear(&mut shown);
    assert_eq!(shown, "\x08 \x08".repeat(4));
    assert_eq!(editor.line(), "");
    assert_eq!(type_in(&mut editor, "ok\n").1, Some("ok".into()));
}

#[test]
fn long_lines_are_cut_and_control_characters_dropped() {
    let mut editor = LineEditor::new(3);
    let (shown, line) = type_in(&mut editor, "ab\tcdef\n");
    assert_eq!(shown, "abc\n");
    assert_eq!(line, Some("abc".into()));
}
