//! Starting other programs, waiting for them, and pipes between them.

use crate::abi::{Errno, ExitStatus, Syscall};
use vstd::prelude::*;

verus! {

/// A program this one started.
#[derive(Debug, PartialEq, Eq, Structural)]
pub struct Child {
    pub handle: u64,
}

/// A child's input: this program's own, or what comes out of a pipe.
pub enum Input<'a> {
    Inherit,
    Pipe(&'a PipeReader),
}

/// A child's output: this program's own, or into a pipe.
pub enum Output<'a> {
    Inherit,
    Pipe(&'a PipeWriter),
}

/// Which handles a child gets for its input and output: `None` for those of the program that
/// starts it.
#[derive(Clone, Copy, Debug, PartialEq, Eq, Structural)]
pub struct Ends {
    pub input: Option<u64>,
    pub output: Option<u64>,
}

/// The ends of a child that shares this program's input and output.
pub fn spawn() -> (r: Ends)
    ensures
        r == (Ends { input: None, output: None }),
{
    spawn_with(Input::Inherit, Output::Inherit)
}

/// The ends of a child that is started with the given input and output. The child gets its own
/// handles on any pipe ends: this program's are closed once it doesn't need them, or readers
/// never see the end.
pub fn spawn_with(input: Input<'_>, output: Output<'_>) -> (r: Ends)
    ensures
        r.input == match input {
            Input::Inherit => None,
            Input::Pipe(reader) => Some(reader.handle),
        },
        r.output == match output {
            Output::Inherit => None,
            Output::Pipe(writer) => Some(writer.handle),
        },
{
    Ends {
        input: match input {
            Input::Inherit => None,
            Input::Pipe(reader) => Some(reader.handle),
        },
        output: match output {
            Output::Inherit => None,
            Output::Pipe(writer) => Some(writer.handle),
        },
    }
}

impl Child {
    /// The child, from the handle that starting it came back with.
    pub fn started(result: Result<u64, Errno>) -> (r: Result<Child, Errno>)
        ensures
            r == match result {
                Ok(handle) => Ok::<Child, Errno>(Child { handle }),
                Err(error) => Err(error),
            },
    {
        match result {
            Ok(handle) => Ok(Child { handle }),
            Err(error) => Err(error),
        }
    }

    /// The call that waits for it to end, and closes its handle. Input this program gets
    /// meanwhile goes to the child.
    pub fn wait(self) -> (r: Syscall)
        ensures
            r == (Syscall::Wait { handle: self.handle }),
    {
        Syscall::Wait { handle: self.handle }
    }
}

/// How a child ended, from what waiting for it came back with. `Unknown` if that is no exit
/// status.
pub fn ended(result: Result<u64, Errno>) -> (r: Result<ExitStatus, Errno>)
    ensures
        result matches Err(error) ==> r == Err::<ExitStatus, Errno>(error),
        forall|status: ExitStatus|
            result == Ok::<u64, Errno>(#[trigger] status.encoded()) ==> r == Ok::<
                ExitStatus,
                Errno,
            >(status),
        result is Ok && (forall|status: ExitStatus|
            result != Ok::<u64, Errno>(#[trigger] status.encoded())) ==> r == Err::<
            ExitStatus,
            Errno,
        >(Errno::Unknown),
{
    match result {
        Ok(value) => match ExitStatus::decode(value) {
            Some(status) => {
                proof {
                    assert forall|other: ExitStatus|
                        #[trigger] other.encoded() == value implies other == status by {
                        crate::abi::exit_statuses_survive_encoding(other, status);
                    }
                }
                Ok(status)
            },
            None => {
                proof {
                    assert forall|other: ExitStatus| #[trigger] other.encoded() != value by {
                        crate::abi::exit_statuses_survive_encoding(other, other);
                    }
                }
                Err(Errno::Unknown)
            },
        },
        Err(error) => Err(error),
    }
}

/// The end of a pipe that bytes come out of.
#[derive(Debug, PartialEq, Eq, Structural)]
pub struct PipeReader {
    pub handle: u64,
}

/// The end of a pipe that bytes go into.
#[derive(Debug, PartialEq, Eq, Structural)]
pub struct PipeWriter {
    pub handle: u64,
}

/// A pipe, from what making it came back with and the two handles that the kernel wrote: what
/// goes into the writer comes out of the reader.
pub fn pipe(result: Result<u64, Errno>, ends: [u64; 2]) -> (r: Result<
    (PipeReader, PipeWriter),
    Errno,
>)
    ensures
        r == match result {
            Ok(_) => Ok::<(PipeReader, PipeWriter), Errno>(
                (PipeReader { handle: ends@[0] }, PipeWriter { handle: ends@[1] }),
            ),
            Err(error) => Err(error),
        },
{
    match result {
        Ok(_) => Ok((PipeReader { handle: ends[0] }, PipeWriter { handle: ends[1] })),
        Err(error) => Err(error),
    }
}

} // verus!
