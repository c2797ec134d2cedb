use rustypi::link::{parse, write_frame, Event, Receiver, MAX_LINE};

fn frame(kind: &str, payload: &str) -> String {
    let mut out = String::new();
    write_frame(&mut out, kind, payload);
    out
}

/// Feeds `input` and returns the events as owned strings.
fn feed(receiver: &mut Receiver, input: &[u8]) -> Vec<String> {
    let mut events = Vec::new();
    for &byte in input {
        if let Some(event) = receiver.push(Ok(byte)) {
            events.push(match event {
                Event::Frame { kind, payload } => format!("{}|{}", kind, payload),
                Event::Rejected(reason) => format!("ERR {}", reason),
            });
        }
    }
    events
}

#[test]
fn writes_frames_matching_the_arduino() {
    assert_eq!(frame("PING", "1"), "$PING,1*0D\n");
    assert_eq!(frame("PONG", ""), "$PONG*16\n");
}

#[test]
fn empty_formatted_parts_do_not_add_a_separator() {
    let mut out = String::new();
    write_frame(&mut out, "PONG", &format!("{}{}", "", ""));
    assert_eq!(out, "$PONG*16\n");
}

#[test]
fn frame_breaking_characters_are_replaced() {
    let line = frame("RSP", "cost $5\r\nnext");
    assert_eq!(line, frame("RSP", "cost ?5??next"));
    assert_eq!(line.matches('\n').count(), 1);
}

#[test]
fn parses_what_it_writes() {
    let line = frame("RSP", "3,0,led is on, really");
    let line = line.trim_end().as_bytes();
    assert_eq!(parse(line), Some(("RSP", "3,0,led is on, really")));
}

#[test]
fn parse_rejects_malformed_lines() {
    assert_eq!(parse(b"$PING,1*0d"), Some(("PING", "1")));
    assert_eq!(parse(b"$PING,1*0E"), None);
    assert_eq!(parse(b"$PING,1*ZZ"), None);
    assert_eq!(parse(b"$PING,1"), None);
    assert_eq!(parse(b"PING,1*0D"), None);
    assert_eq!(parse(b"$*0"), None);
}

#[test]
fn receiver_delivers_frames_and_drops_plain_text() {
    let mut receiver = Receiver::new();
    let mut input = Vec::from(b"hello there\r\n" as &[u8]);
    input.extend_from_slice(frame("MSG", "1,help").as_bytes());
    assert_eq!(feed(&mut receiver, &input), ["MSG|1,help"]);
    assert_eq!(receiver.stats.dropped, 1);
    assert_eq!(receiver.stats.rx_bytes, input.len() as u32);
}

#[test]
fn receiver_resyncs_on_dollar() {
    // A frame that lost its end is cut off by the next one.
    let mut receiver = Receiver::new();
    let mut input = Vec::from(b"$PONG,jf)" as &[u8]);
    input.extend_from_slice(frame("PONG", "16").as_bytes());
    assert_eq!(feed(&mut receiver, &input), ["PONG|16"]);
    assert_eq!(receiver.stats.dropped, 1);
}

#[test]
fn receiver_rejects_bad_checksums_and_long_lines() {
    let mut receiver = Receiver::new();
    assert_eq!(feed(&mut receiver, b"$PING,1*0E\n"), ["ERR bad frame"]);
    assert_eq!(receiver.stats.bad_frames, 1);

    let mut long = Vec::from([b'x'; MAX_LINE + 5]);
    long.push(b'\n');
    assert_eq!(feed(&mut receiver, &long), ["ERR line too long"]);
    assert_eq!(receiver.stats.overflows, 1);

    // It recovers for the next frame.
    assert_eq!(feed(&mut receiver, frame("PING", "2").as_bytes()), ["PING|2"]);
}

#[test]
fn receiver_discards_lines_with_damaged_bytes() {
    let mut receiver = Receiver::new();
    let good = frame("PING", "3");
    let mut events = feed(&mut receiver, &good.as_bytes()[..4]);
    assert!(receiver.push(Err(0)).is_none(), "no event expected");
    events.extend(feed(&mut receiver, &good.as_bytes()[4..]));
    assert!(events.is_empty());
    assert_eq!(receiver.stats.rx_errors, 1);
    assert_eq!(receiver.stats.dropped, 2); // the damaged start, then its orphaned rest
}

#[test]
fn any_line_that_starts_with_a_dollar_is_answered_by_itself() {
    let mut receiver = Receiver::new();
    // Whatever came before, and carriage returns anywhere.
    assert_eq!(feed(&mut receiver, b"noise$PI$PI\rNG,1*0D\r\n"), ["PING|1"]);
    assert_eq!(feed(&mut receiver, b"$ping,1*0d\n"), ["ping|1"]);
    assert_eq!(feed(&mut receiver, b"$nonsense\n"), ["ERR bad frame"]);
    let long = format!("${}\n", "x".repeat(MAX_LINE));
    assert_eq!(feed(&mut receiver, long.as_bytes()), ["ERR line too long"]);
    assert_eq!(feed(&mut receiver, b"$PONG*16\n"), ["PONG|"]);
}

#[test]
fn frames_split_at_the_first_comma() {
    let mut receiver = Receiver::new();
    assert_eq!(feed(&mut receiver, frame("A,B", "1,2").as_bytes()), ["A|B,1,2"]);
}
