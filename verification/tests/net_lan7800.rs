use rustypi::net::lan7800::{rx, tx, FCS, RX_CMD_A_ERROR};

/// A frame as the controller hands it over: header, frame, 4-byte FCS, padding.
fn received(frame: &[u8], error: bool) -> Vec<u8> {
    let size = frame.len() + FCS;
    let cmd_a = size as u32 | if error { RX_CMD_A_ERROR } else { 0 };
    let mut bytes = cmd_a.to_le_bytes().to_vec();
    bytes.extend_from_slice(&[0; 6]);
    bytes.extend_from_slice(frame);
    bytes.extend_from_slice(&[0xFC; FCS]);
    bytes.resize(bytes.len() + (4 - (size + 2) % 4) % 4, 0xEE);
    bytes
}

#[test]
fn frames_sent_get_their_header() {
    let bytes = tx(&[1, 2, 3]);
    assert_eq!(&bytes[..8], &[3, 0, 0x40, 0, 0, 0, 0, 0]);
    assert_eq!(&bytes[8..], &[1, 2, 3]);
}

#[test]
fn several_frames_in_a_transfer_come_apart() {
    let mut transfer = received(&[1; 60], false);
    transfer.extend(received(&[2; 61], false));
    transfer.extend(received(&[3; 63], true)); // bad: left out
    transfer.extend(received(&[4; 64], false));
    let frames = rx(&transfer);
    assert_eq!(frames.len(), 3);
    assert_eq!(frames[0], &[1; 60]);
    assert_eq!(frames[1], &[2; 61]);
    assert_eq!(frames[2], &[4; 64]);
}

#[test]
fn empty_and_cut_transfers_give_what_is_whole() {
    assert!(rx(&[]).is_empty());
    let whole = received(&[7; 60], false);
    let mut transfer = whole.clone();
    transfer.extend_from_slice(&received(&[8; 60], false)[..30]);
    assert_eq!(rx(&transfer), [&[7; 60][..]]);
}
