use rustypi::link::{write_frame, MAX_LINE};
use rustypi::session::{request_seq, LineKind, Reply, Session, MAX_TEXT};

/// Runs one `MSG` payload through `session`, returning the frames sent and how many
/// times the command ran.
fn exchange(session: &mut Session, payload: &str, runs: &mut u32) -> Vec<String> {
    let (frames, action) = session.handle(payload, |text: &str, mut reply: Reply| {
        *runs += 1;
        match text {
            "help" => {
                reply.line(LineKind::Help, "a  first");
                reply.line(LineKind::Help, "b  second");
            }
            "quiet" => {}
            "reboot" => {
                reply.rsp("rebooting");
                return (reply, Some("reboot"));
            }
            _ => reply.line(LineKind::Rsp, &format!("echo: {text}")),
        }
        (reply, None)
    });
    let mut sent: Vec<String> = frames.iter().map(|frame| format!("{} {}", frame.kind, frame.payload)).collect();
    if let Some(action) = action {
        sent.push(format!("action {action}"));
    }
    sent
}

#[test]
fn numbers_reply_lines_and_ends_with_the_count() {
    let mut session = Session::new();
    let mut runs = 0;
    assert_eq!(
        exchange(&mut session, "7,help", &mut runs),
        ["HELP 7,0,a  first", "HELP 7,1,b  second", "END 7,2"],
    );
    assert_eq!(exchange(&mut session, "8,quiet", &mut runs), ["END 8,0"]);
}

#[test]
fn retransmits_are_answered_from_the_cache_without_rerunning() {
    let mut session = Session::new();
    let mut runs = 0;
    let first = exchange(&mut session, "5,led toggle", &mut runs);
    let again = exchange(&mut session, "5,led toggle", &mut runs);
    assert_eq!(first, again);
    assert_eq!(runs, 1);
    // A new sequence number runs it again.
    exchange(&mut session, "6,led toggle", &mut runs);
    assert_eq!(runs, 2);
}

#[test]
fn reset_forgets_the_last_request() {
    let mut session = Session::new();
    let mut runs = 0;
    exchange(&mut session, "1,x", &mut runs);
    session.reset();
    exchange(&mut session, "1,x", &mut runs);
    assert_eq!(runs, 2);
}

#[test]
fn actions_come_after_the_reply_and_only_once() {
    let mut session = Session::new();
    let mut runs = 0;
    assert_eq!(
        exchange(&mut session, "9,reboot", &mut runs),
        ["RSP 9,0,rebooting", "END 9,1", "action reboot"],
    );
    // A retransmit gets the reply again but not the action.
    assert_eq!(exchange(&mut session, "9,reboot", &mut runs), ["RSP 9,0,rebooting", "END 9,1"]);
}

#[test]
fn requests_without_a_sequence_number_are_rejected() {
    let mut session = Session::new();
    let mut runs = 0;
    for payload in ["help", "", "x,help", "70000,help"] {
        assert_eq!(
            exchange(&mut session, payload, &mut runs),
            ["ERR MSG needs a sequence number"],
        );
    }
    assert_eq!(runs, 0);
    // An empty command is fine.
    assert_eq!(exchange(&mut session, "3", &mut runs), ["RSP 3,0,echo: ", "END 3,1"]);
}

#[test]
fn request_seq_reads_the_sequence_number_only() {
    assert_eq!(request_seq("42,led toggle"), Some(42));
    assert_eq!(request_seq("7"), Some(7));
    assert_eq!(request_seq("x,help"), None);
    assert_eq!(request_seq("70000,help"), None);
}

#[test]
fn the_longest_line_text_fits_the_largest_frame() {
    let mut frame = String::new();
    let text = "x".repeat(MAX_TEXT);
    write_frame(&mut frame, "HELP", &format!("65535,99,{text}"));
    assert_eq!(frame.trim_end().len(), MAX_LINE);
}

#[test]
fn long_lines_are_cut_at_a_character_boundary() {
    let mut reply = Reply::new();
    let long = "é".repeat(MAX_TEXT); // twice MAX_TEXT bytes
    reply.line(LineKind::Rsp, &long);
    let text = &reply.lines[0].1;
    assert!(text.len() <= MAX_TEXT);
    assert_eq!(*text, "é".repeat(MAX_TEXT / 2));
    // Short lines are kept whole.
    reply.rsp("short");
    assert_eq!(reply.lines[1].1, "short".to_string());
}
