//! Reading files and directories on the SD card. Paths start at its root, with or without a
//! leading `/`. The card is read-only for programs.

use crate::abi::{DirEntry, Errno};
use crate::text::utf8_text;
use vstd::prelude::*;

verus! {

/// A file open for reading.
#[derive(Debug, PartialEq, Eq, Structural)]
pub struct File {
    pub handle: u64,
}

impl File {
    /// The file, from the handle that opening it came back with.
    pub fn open(result: Result<u64, Errno>) -> (r: Result<File, Errno>)
        ensures
            r == match result {
                Ok(handle) => Ok::<File, Errno>(File { handle }),
                Err(error) => Err(error),
            },
    {
        match result {
            Ok(handle) => Ok(File { handle }),
            Err(error) => Err(error),
        }
    }
}

/// The rest of a file or of what comes out of a pipe, as it is read piece by piece.
pub struct ReadToEnd {
    bytes: Vec<u8>,
    /// How many of the bytes were there before.
    start: usize,
}

impl ReadToEnd {
    /// The bytes there were before.
    pub closed spec fn before(&self) -> Seq<u8> {
        self.bytes@.subrange(0, self.start as int)
    }

    /// The bytes read so far.
    pub closed spec fn got(&self) -> Seq<u8> {
        self.bytes@.subrange(self.start as int, self.bytes@.len() as int)
    }

    pub closed spec fn wf(&self) -> bool {
        self.start <= self.bytes@.len()
    }

    /// To read onto the end of `bytes`.
    pub fn new(bytes: Vec<u8>) -> (r: Self)
        ensures
            r.wf(),
            r.before() == bytes@,
            r.got() == Seq::<u8>::empty(),
    {
        let start = bytes.len();
        let r = ReadToEnd { bytes, start };
        assert(r.before() =~= r.bytes@);
        assert(r.got() =~= Seq::<u8>::empty());
        r
    }

    /// Takes in what the next read came back with. Returns what the whole came to once there is
    /// no more: how many bytes were read, or why reading failed.
    pub fn feed(&mut self, read: Result<&[u8], Errno>) -> (r: Option<Result<usize, Errno>>)
        requires
            old(self).wf(),
        ensures
            final(self).wf(),
            final(self).before() == old(self).before(),
            match read {
                Err(error) => {
                    &&& r == Some(Err::<usize, Errno>(error))
                    &&& final(self).got() == old(self).got()
                },
                Ok(piece) => {
                    &&& final(self).got() == old(self).got() + piece@
                    &&& if piece@.len() == 0 {
                        r matches Some(Ok(total)) && total == old(self).got().len()
                    } else {
                        r is None
                    }
                },
            },
    {
        match read {
            Err(error) => Some(Err(error)),
            Ok(piece) => {
                if piece.len() == 0 {
                    assert(self.got() + piece@ =~= self.got());
                    return Some(Ok(self.bytes.len() - self.start));
                }
                crate::bytes::push_all(&mut self.bytes, piece);
                assert(self.got() =~= old(self).got() + piece@);
                assert(self.before() =~= old(self).before());
                None
            },
        }
    }

    /// All the bytes: those from before, and those read.
    pub fn finish(self) -> (r: Vec<u8>)
        requires
            self.wf(),
        ensures
            r@ == self.before() + self.got(),
    {
        assert(self.bytes@ =~= self.before() + self.got());
        self.bytes
    }
}

/// The pieces one after the other.
pub open spec fn joined(pieces: Seq<Seq<u8>>) -> Seq<u8>
    decreases pieces.len(),
{
    if pieces.len() == 0 {
        Seq::empty()
    } else {
        joined(pieces.drop_last()) + pieces.last()
    }
}

/// Whether `states` are the ones a reader goes through as it takes in `pieces` one by one.
pub open spec fn takes_in(states: Seq<ReadToEnd>, pieces: Seq<Seq<u8>>) -> bool {
    &&& states.len() == pieces.len() + 1
    &&& states[0].got() == Seq::<u8>::empty()
    &&& forall|i: int|
        0 <= i < pieces.len() ==> #[trigger] states[i + 1].got() == states[i].got() + pieces[i]
            && states[i + 1].before() == states[i].before()
}

/// Reading to the end gives every piece once, in order, behind the bytes there were before.
pub proof fn pieces_are_joined(states: Seq<ReadToEnd>, pieces: Seq<Seq<u8>>)
    requires
        takes_in(states, pieces),
    ensures
        states.last().got() == joined(pieces),
        states.last().before() == states[0].before(),
    decreases pieces.len(),
{
    if pieces.len() > 0 {
        let n = pieces.len() - 1;
        let fewer = states.drop_last();
        assert forall|i: int| 0 <= i < n implies #[trigger] fewer[i + 1].got() == fewer[i].got()
            + pieces.drop_last()[i] && fewer[i + 1].before() == fewer[i].before() by {
            assert(states[i + 1].got() == states[i].got() + pieces[i]);
        }
        pieces_are_joined(fewer, pieces.drop_last());
        assert(states[n + 1].got() == states[n].got() + pieces[n]);
    }
}

/// Whether `r` is the text that `bytes` spell: `Invalid` if they aren't UTF-8.
pub open spec fn is_text_of(r: Result<String, Errno>, bytes: Seq<u8>) -> bool {
    if vstd::utf8::valid_utf8(bytes) {
        r matches Ok(text) && vstd::utf8::encode_utf8(text@) == bytes
    } else {
        r == Err::<String, Errno>(Errno::Invalid)
    }
}

/// The text that `bytes` spell. `Invalid` if they aren't UTF-8.
pub fn text_of(bytes: &[u8]) -> (r: Result<String, Errno>)
    ensures
        is_text_of(r, bytes@),
{
    match utf8_text(bytes) {
        Some(text) => Ok(text.to_owned()),
        None => Err(Errno::Invalid),
    }
}

/// A whole text file, from what reading its bytes came to. `Invalid` if it isn't UTF-8.
pub fn read_to_string(bytes: Result<Vec<u8>, Errno>) -> (r: Result<String, Errno>)
    ensures
        match bytes {
            Ok(bytes) => is_text_of(r, bytes@),
            Err(error) => r == Err::<String, Errno>(error),
        },
{
    match bytes {
        Ok(bytes) => text_of(&bytes),
        Err(error) => Err(error),
    }
}

/// The entries of a directory, in the order they are stored.
#[derive(Debug, PartialEq, Eq, Structural)]
pub struct ReadDir {
    pub handle: u64,
}

/// The directory, from the handle that opening it came back with.
pub fn read_dir(result: Result<u64, Errno>) -> (r: Result<ReadDir, Errno>)
    ensures
        r == match result {
            Ok(handle) => Ok::<ReadDir, Errno>(ReadDir { handle }),
            Err(error) => Err(error),
        },
{
    match result {
        Ok(handle) => Ok(ReadDir { handle }),
        Err(error) => Err(error),
    }
}

impl ReadDir {
    /// The next entry, from what asking for it came back with and the entry that the kernel
    /// wrote. `None` once all have been read.
    pub fn next(&self, result: Result<u64, Errno>, entry: DirEntry) -> (r: Option<
        Result<DirEntry, Errno>,
    >)
        ensures
            r == match result {
                Ok(count) => if count == 0 {
                    None::<Result<DirEntry, Errno>>
                } else {
                    Some(Ok(entry))
                },
                Err(error) => Some(Err(error)),
            },
    {
        match result {
            Ok(count) => if count == 0 {
                None
            } else {
                Some(Ok(entry))
            },
            Err(error) => Some(Err(error)),
        }
    }
}

} // verus!
