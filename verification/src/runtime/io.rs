//! Console output.

use crate::abi::{Errno, MAX_WRITE};
use vstd::prelude::*;
use vstd::string::StringSliceAdditionalSpecFns;

verus! {

/// How many bytes a write came to.
pub fn write(result: Result<u64, Errno>) -> (r: Result<usize, Errno>)
    requires
        result matches Ok(written) ==> written <= usize::MAX,
    ensures
        match result {
            Ok(written) => r matches Ok(count) && count == written,
            Err(error) => r == Err::<usize, Errno>(error),
        },
{
    match result {
        Ok(written) => Ok(written as usize),
        Err(error) => Err(error),
    }
}

/// Bytes on their way out: a write may take only some of them.
pub struct Unwritten<'a> {
    pub rest: &'a [u8],
}

/// Where writing all of `bytes` starts.
pub fn write_all(bytes: &[u8]) -> (r: Unwritten<'_>)
    ensures
        r.rest@ == bytes@,
{
    Unwritten { rest: bytes }
}

impl<'a> Unwritten<'a> {
    /// What to write next, until nothing is left.
    pub fn next(&self) -> (r: Option<&'a [u8]>)
        ensures
            self.rest@.len() == 0 ==> r is None,
            self.rest@.len() > 0 ==> (r matches Some(piece) && piece@ == self.rest@),
    {
        if self.rest.len() == 0 {
            None
        } else {
            Some(self.rest)
        }
    }

    /// Takes off what a write came to, or gives up with its error.
    pub fn advance(&mut self, result: Result<usize, Errno>) -> (r: Result<(), Errno>)
        requires
            result matches Ok(written) ==> written <= old(self).rest@.len(),
        ensures
            match result {
                Ok(written) => {
                    &&& r == Ok::<(), Errno>(())
                    &&& old(self).rest@ == old(self).rest@.subrange(0, written as int)
                        + final(self).rest@
                },
                Err(error) => {
                    &&& r == Err::<(), Errno>(error)
                    &&& final(self).rest@ == old(self).rest@
                },
            },
    {
        match result {
            Ok(written) => {
                let bytes: &'a [u8] = self.rest;
                self.rest = &bytes[written..bytes.len()];
                assert(old(self).rest@ =~= old(self).rest@.subrange(0, written as int)
                    + self.rest@);
                Ok(())
            },
            Err(error) => Err(error),
        }
    }
}

/// Whether `rests` is what is left after each write, when the writes took `counts` bytes.
pub open spec fn goes_out(rests: Seq<Seq<u8>>, counts: Seq<int>) -> bool {
    &&& rests.len() == counts.len() + 1
    &&& forall|i: int|
        0 <= i < counts.len() ==> 0 <= #[trigger] counts[i] <= rests[i].len() && rests[i]
            == rests[i].subrange(0, counts[i]) + rests[i + 1]
}

/// The bytes that the writes took, one write after the other.
pub open spec fn taken(rests: Seq<Seq<u8>>, counts: Seq<int>) -> Seq<u8>
    decreases counts.len(),
{
    if counts.len() == 0 {
        Seq::empty()
    } else {
        taken(rests, counts.drop_last()) + rests[counts.len() - 1].subrange(0, counts.last())
    }
}

/// However many bytes each write takes, the bytes go out in order, and each once: what was
/// written and what is left are the bytes there were at first.
pub proof fn bytes_go_out_once(rests: Seq<Seq<u8>>, counts: Seq<int>)
    requires
        goes_out(rests, counts),
    ensures
        taken(rests, counts) + rests[counts.len() as int] == rests[0],
    decreases counts.len(),
{
    if counts.len() == 0 {
        assert(taken(rests, counts) + rests[0] =~= rests[0]);
    } else {
        let n = counts.len() - 1;
        let fewer = rests.drop_last();
        assert forall|i: int| 0 <= i < n implies 0 <= #[trigger] counts.drop_last()[i]
            <= fewer[i].len() && fewer[i] == fewer[i].subrange(0, counts.drop_last()[i])
            + fewer[i + 1] by {
            assert(0 <= counts[i] <= rests[i].len());
        }
        bytes_go_out_once(fewer, counts.drop_last());
        lemma_taken_from_the_same(rests, fewer, counts.drop_last());
        assert(0 <= counts[n] <= rests[n].len());
        let sent = taken(rests, counts.drop_last());
        assert(sent + (rests[n].subrange(0, counts[n]) + rests[n + 1]) =~= taken(rests, counts)
            + rests[n + 1]);
    }
}

proof fn lemma_taken_from_the_same(a: Seq<Seq<u8>>, b: Seq<Seq<u8>>, counts: Seq<int>)
    requires
        counts.len() <= a.len(),
        counts.len() <= b.len(),
        forall|i: int| 0 <= i < counts.len() ==> #[trigger] a[i] == b[i],
    ensures
        taken(a, counts) == taken(b, counts),
    decreases counts.len(),
{
    if counts.len() > 0 {
        lemma_taken_from_the_same(a, b, counts.drop_last());
    }
}

/// Collects formatted output, so a `println!` is usually a single system call.
pub struct Buffered {
    bytes: Vec<u8>,
}

/// The full buffers that `output` takes when it is `MAX_WRITE` bytes at a time, the last of
/// which stays behind though it be full.
pub open spec fn full_buffers(output: Seq<u8>) -> nat {
    if output.len() == 0 {
        0
    } else {
        ((output.len() - 1) / MAX_WRITE as int) as nat
    }
}

/// Buffer `i` of `output`.
pub open spec fn buffer_of(output: Seq<u8>, i: int) -> Seq<u8> {
    output.subrange(i * MAX_WRITE, (i + 1) * MAX_WRITE)
}

impl Buffered {
    /// The bytes collected and not written yet.
    pub closed spec fn pending(&self) -> Seq<u8> {
        self.bytes@
    }

    pub fn new() -> (r: Self)
        ensures
            r.pending() == Seq::<u8>::empty(),
    {
        Buffered { bytes: Vec::new() }
    }

    /// Collects `s`, and returns the buffers that got full, to be written in this order. A full
    /// buffer is kept until there is more.
    pub fn write_str(&mut self, s: &str) -> (r: Vec<Vec<u8>>)
        requires
            old(self).pending().len() <= MAX_WRITE,
        ensures
            ({
                let output = old(self).pending() + s.spec_bytes();
                let count = full_buffers(output);
                &&& r@.len() == count
                &&& forall|i: int| 0 <= i < count ==> (#[trigger] r@[i])@ == buffer_of(output, i)
                &&& final(self).pending() == output.subrange(
                    count * MAX_WRITE,
                    output.len() as int,
                )
                &&& final(self).pending().len() <= MAX_WRITE
            }),
    {
        let bytes = s.as_bytes();
        let mut full: Vec<Vec<u8>> = Vec::new();
        let ghost before = self.bytes@;
        let ghost output = before + bytes@;
        let mut i: usize = 0;
        assert(before + bytes@.subrange(0, 0) =~= before);
        while i < bytes.len()
            invariant
                i <= bytes@.len(),
                output == before + bytes@,
                before.len() <= MAX_WRITE,
                self.bytes@.len() <= MAX_WRITE,
                full@.len() * MAX_WRITE + self.bytes@.len() == before.len() + i,
                self.bytes@.len() == 0 ==> full@.len() == 0,
                self.bytes@ == output.subrange(
                    full@.len() * MAX_WRITE,
                    (before.len() + i) as int,
                ),
                forall|k: int|
                    0 <= k < full@.len() ==> (#[trigger] full@[k])@ == buffer_of(output, k),
            decreases bytes@.len() - i,
        {
            if self.bytes.len() == MAX_WRITE {
                let mut buffer: Vec<u8> = Vec::new();
                std::mem::swap(&mut buffer, &mut self.bytes);
                assert(buffer@ == buffer_of(output, full@.len() as int));
                full.push(buffer);
            }
            self.bytes.push(bytes[i]);
            i += 1;
            assert(self.bytes@ =~= output.subrange(
                full@.len() * MAX_WRITE,
                (before.len() + i) as int,
            ));
        }
        assert(full@.len() == full_buffers(output));
        full
    }

    /// The bytes left to write at the end.
    pub fn flush(self) -> (r: Vec<u8>)
        ensures
            r@ == self.pending(),
    {
        self.bytes
    }
}

/// What is printed comes out whole and in order: the full buffers, and then what is left.
pub proof fn output_comes_out_whole(output: Seq<u8>, i: int)
    requires
        0 <= i < output.len(),
    ensures
        ({
            let count = full_buffers(output);
            let k = i / MAX_WRITE as int;
            if k < count {
                buffer_of(output, k)[i % MAX_WRITE as int] == output[i]
            } else {
                output.subrange(count * MAX_WRITE, output.len() as int)[i - count * MAX_WRITE]
                    == output[i]
            }
        }),
{
}

} // verus!
