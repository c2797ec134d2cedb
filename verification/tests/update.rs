use rustypi::update::{crc32, Receiver, Response, CHUNK, MAX_IMAGE};

fn begin(size: u32, crc: u32) -> Vec<u8> {
    let mut datagram = vec![b'B'];
    datagram.extend_from_slice(&size.to_le_bytes());
    datagram.extend_from_slice(&crc.to_le_bytes());
    datagram
}

fn data(offset: usize, bytes: &[u8]) -> Vec<u8> {
    let mut datagram = vec![b'D'];
    datagram.extend_from_slice(&(offset as u32).to_le_bytes());
    datagram.extend_from_slice(bytes);
    datagram
}

fn ack(offset: usize) -> Response {
    let mut reply = vec![b'A'];
    reply.extend_from_slice(&(offset as u32).to_le_bytes());
    Response::Reply(reply)
}

fn refused(reason: &str) -> Response {
    let mut reply = vec![b'X'];
    reply.extend_from_slice(reason.as_bytes());
    Response::Reply(reply)
}

/// An image of `len` bytes that isn't all one value.
fn image(len: usize) -> Vec<u8> {
    (0..len).map(|i| (i * 7 % 251) as u8).collect()
}

#[test]
fn crc32_matches_the_standard_check_value() {
    assert_eq!(crc32(b"123456789"), 0xCBF4_3926);
    assert_eq!(crc32(b""), 0);
}

#[test]
fn an_image_sent_in_chunks_comes_out_whole() {
    let image = image(2 * CHUNK + 100);
    let mut receiver = Receiver::new();
    assert_eq!(receiver.handle(&begin(image.len() as u32, crc32(&image))), Response::Reply(vec![b'K']));
    // Out of order, and one sent twice: fine.
    for offset in [CHUNK, 0, 2 * CHUNK, CHUNK] {
        let end = (offset + CHUNK).min(image.len());
        assert_eq!(receiver.handle(&data(offset, &image[offset..end])), ack(offset));
    }
    assert_eq!(receiver.handle(b"E"), Response::Complete(image));
}

#[test]
fn an_incomplete_image_isnt_let_out_until_it_is_whole() {
    let image = image(CHUNK + 1);
    let mut receiver = Receiver::new();
    receiver.handle(&begin(image.len() as u32, crc32(&image)));
    receiver.handle(&data(0, &image[..CHUNK]));
    assert_eq!(receiver.handle(b"E"), refused("chunks missing"));
    // The transfer carries on: the missing chunk, then done.
    receiver.handle(&data(CHUNK, &image[CHUNK..]));
    assert_eq!(receiver.handle(b"E"), Response::Complete(image));
}

#[test]
fn a_crc_mismatch_is_refused_and_the_transfer_dropped() {
    let image = image(100);
    let mut receiver = Receiver::new();
    receiver.handle(&begin(100, crc32(&image) ^ 1));
    receiver.handle(&data(0, &image));
    assert_eq!(receiver.handle(b"E"), refused("CRC-32 mismatch"));
    assert_eq!(receiver.handle(b"E"), refused("not begun"));
}

#[test]
fn bad_datagrams_are_refused() {
    let mut receiver = Receiver::new();
    assert_eq!(receiver.handle(&data(0, b"x")), refused("not begun"));
    assert_eq!(receiver.handle(&begin(0, 0)), refused("bad size"));
    assert_eq!(receiver.handle(&begin(MAX_IMAGE as u32 + 1, 0)), refused("bad size"));
    assert_eq!(receiver.handle(b"B12"), refused("short begin"));
    receiver.handle(&begin(2 * CHUNK as u32, 0));
    assert_eq!(receiver.handle(&data(1, &[0; CHUNK])), refused("bad chunk")); // not on a boundary
    assert_eq!(receiver.handle(&data(0, &[0; 10])), refused("bad chunk")); // short, not the last
    assert_eq!(receiver.handle(&data(2 * CHUNK, &[0; 1])), refused("bad chunk")); // past the end
    assert_eq!(receiver.handle(b"?"), refused("unknown"));
    assert_eq!(receiver.handle(b""), refused("unknown"));
}

#[test]
fn beginning_again_starts_over() {
    let image = image(10);
    let mut receiver = Receiver::new();
    receiver.handle(&begin(10, 0));
    receiver.handle(&data(0, &[0; 10]));
    receiver.handle(&begin(10, crc32(&image)));
    assert_eq!(receiver.handle(b"E"), refused("chunks missing"));
    receiver.handle(&data(0, &image));
    assert_eq!(receiver.handle(b"E"), Response::Complete(image));
}

#[test]
fn chunks_stay_as_first_acknowledged() {
    let image = image(CHUNK + 10);
    let mut receiver = Receiver::new();
    receiver.handle(&begin(image.len() as u32, crc32(&image)));
    assert_eq!(receiver.handle(&data(CHUNK, &image[CHUNK..])), ack(CHUNK));
    // Other bytes for a chunk that is there are acknowledged, and dropped.
    assert_eq!(receiver.handle(&data(CHUNK, &[0xEE; 10])), ack(CHUNK));
    assert_eq!(receiver.handle(b"E"), refused("chunks missing"));
    assert_eq!(receiver.handle(&data(5, &[1])), refused("bad chunk"));
    assert_eq!(receiver.handle(&data(0, &image[..CHUNK])), ack(0));
    assert_eq!(receiver.handle(&data(0, &[0; CHUNK])), ack(0));
    assert_eq!(receiver.handle(b"E"), Response::Complete(image));
}
