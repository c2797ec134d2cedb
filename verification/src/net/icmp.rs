//! ICMP echo, which is ping.

use super::checksum;
use crate::bytes;
use vstd::prelude::*;

verus! {

pub const ECHO_REPLY: u8 = 0;

pub const ECHO_REQUEST: u8 = 8;

#[derive(Debug, PartialEq, Eq)]
pub struct Echo<'a> {
    /// `ECHO_REQUEST` or `ECHO_REPLY`.
    pub kind: u8,
    pub id: u16,
    pub seq: u16,
    pub data: &'a [u8],
}

/// What an echo says.
pub struct EchoModel {
    pub kind: u8,
    pub id: u16,
    pub seq: u16,
    pub data: Seq<u8>,
}

/// What `bytes` say as an echo, if they are one with a correct checksum.
pub open spec fn parsed(message: Seq<u8>) -> Option<EchoModel> {
    if message.len() < 8 || (message[0] != ECHO_REQUEST && message[0] != ECHO_REPLY) || message[1]
        != 0 || super::checksum_of(super::word_sum(message, 0)) != 0 {
        None
    } else {
        Some(
            EchoModel {
                kind: message[0],
                id: bytes::be16(message, 4),
                seq: bytes::be16(message, 6),
                data: message.subrange(8, message.len() as int),
            },
        )
    }
}

impl EchoModel {
    /// The message, with nothing for a checksum.
    pub open spec fn bare(self) -> Seq<u8> {
        seq![self.kind, 0, 0, 0] + bytes::be16_bytes(self.id) + bytes::be16_bytes(self.seq)
            + self.data
    }

    /// The message, with its checksum.
    pub open spec fn message(self) -> Seq<u8> {
        bytes::splice(
            self.bare(),
            2,
            bytes::be16_bytes(super::checksum_of(super::word_sum(self.bare(), 0))),
        )
    }
}

impl<'a> Echo<'a> {
    pub open spec fn view(&self) -> EchoModel {
        EchoModel { kind: self.kind, id: self.id, seq: self.seq, data: self.data@ }
    }

    pub fn parse(message: &'a [u8]) -> (r: Option<Echo<'a>>)
        ensures
            match r {
                Some(echo) => parsed(message@) == Some(echo@),
                None => parsed(message@) is None,
            },
    {
        if message.len() < 8 || (message[0] != ECHO_REQUEST && message[0] != ECHO_REPLY)
            || message[1] != 0 || checksum(message) != 0 {
            return None;
        }
        Some(
            Echo {
                kind: message[0],
                id: bytes::be16_at(message, 4),
                seq: bytes::be16_at(message, 6),
                data: &message[8..message.len()],
            },
        )
    }

    pub fn to_bytes(&self) -> (r: Vec<u8>)
        ensures
            r@ == self@.message(),
    {
        let mut out: Vec<u8> = Vec::new();
        out.push(self.kind);
        out.push(0);
        out.push(0);
        out.push(0);
        bytes::push_be16(&mut out, self.id);
        bytes::push_be16(&mut out, self.seq);
        bytes::push_all(&mut out, self.data);
        assert(out@ =~= self@.bare());
        let sum = checksum(&out);
        let mut word: Vec<u8> = Vec::new();
        bytes::push_be16(&mut word, sum);
        assert(word@ =~= bytes::be16_bytes(sum));
        bytes::overwrite(&mut out, 2, &word);
        out
    }
}

/// What is built is parsed.
pub proof fn echoes_round_trip(echo: EchoModel)
    requires
        echo.kind == ECHO_REQUEST || echo.kind == ECHO_REPLY,
    ensures
        parsed(echo.message()) == Some(echo),
{
    let bare = echo.bare();
    let message = echo.message();
    super::checksummed_data_sums_to_zero(bare, 2, 0);
    assert(0 + super::word_sum(bare, 0) == super::word_sum(bare, 0));
    assert(0 + super::word_sum(message, 0) == super::word_sum(message, 0));
    bytes::lemma_words_round_trip(echo.id, 0);
    bytes::lemma_words_round_trip(echo.seq, 0);
    assert(message.subrange(4, 6) =~= bytes::be16_bytes(echo.id));
    bytes::lemma_words_in_subrange(message, 4, 6, 0);
    assert(message.subrange(6, 8) =~= bytes::be16_bytes(echo.seq));
    bytes::lemma_words_in_subrange(message, 6, 8, 0);
    assert(message.subrange(8, message.len() as int) =~= echo.data);
}

} // verus!
