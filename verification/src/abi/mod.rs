//! The system call interface between the RustyPI kernel and its user programs.
//!
//! A program asks for a system call with `svc #0` ([`SVC_SYSCALL`]), the call's
//! [`Number`] in x8 and up to six arguments in x0 to x5. The result comes back in x0,
//! encoded by [`encode_result`]. Other registers are preserved.
//!
//! Both sides go through the typed [`Syscall`]: programs `encode` one into registers and
//! the kernel `decode`s the registers back, so neither handles raw numbers. Arguments are
//! always integers.
//!
//! A program starts at its ELF entry point with x0 pointing at its arguments (the rest of
//! the command line, UTF-8) and x1 holding their length in bytes. They lie at the top of its
//! stack, which the stack pointer starts just below.

use crate::bytes::{push_all, push_le16, push_le64};
use crate::text::{cut_at, utf8_text};
use vstd::prelude::*;
use vstd::string::StringSliceAdditionalSpecFns;

pub mod layout;

verus! {

/// The `svc` immediate for a system call.
pub const SVC_SYSCALL: u16 = 0;

/// Most bytes one `Write` takes. Longer writes are cut short, and return how much was written.
pub const MAX_WRITE: usize = 256;

/// Most bytes one `Read` returns.
pub const MAX_READ: usize = 256;

/// Most bytes one `Random` fills.
pub const MAX_RANDOM: usize = 256;

/// Longest path `Open` and `OpenDir` take, in bytes.
pub const MAX_PATH: usize = 256;

/// Biggest file `Open` takes, in bytes: the kernel reads it whole.
pub const MAX_FILE: usize = 4 * 1024 * 1024;

/// Most handles a program can have open at once (files, directories and children), besides
/// `INPUT`.
pub const MAX_HANDLES: usize = 16;

/// The handle every program starts with: what the user types while it runs in the
/// foreground, a line at a time, each ending with `\n`.
pub const INPUT: u64 = 0;

/// Identifies a system call, in x8: the variants are numbered from 0 in this order.
#[derive(Clone, Copy, Debug, PartialEq, Eq, Structural)]
pub enum Number {
    Exit,
    Write,
    Yield,
    Sleep,
    Uptime,
    Grow,
    Read,
    Random,
    Open,
    OpenDir,
    ReadDir,
    Close,
    Spawn,
    Wait,
}

impl Number {
    /// The number that goes in x8.
    pub open spec fn raw(self) -> u64 {
        match self {
            Number::Exit => 0,
            Number::Write => 1,
            Number::Yield => 2,
            Number::Sleep => 3,
            Number::Uptime => 4,
            Number::Grow => 5,
            Number::Read => 6,
            Number::Random => 7,
            Number::Open => 8,
            Number::OpenDir => 9,
            Number::ReadDir => 10,
            Number::Close => 11,
            Number::Spawn => 12,
            Number::Wait => 13,
        }
    }

    fn to_raw(self) -> (raw: u64)
        ensures
            raw == self.raw(),
    {
        match self {
            Number::Exit => 0,
            Number::Write => 1,
            Number::Yield => 2,
            Number::Sleep => 3,
            Number::Uptime => 4,
            Number::Grow => 5,
            Number::Read => 6,
            Number::Random => 7,
            Number::Open => 8,
            Number::OpenDir => 9,
            Number::ReadDir => 10,
            Number::Close => 11,
            Number::Spawn => 12,
            Number::Wait => 13,
        }
    }

    pub fn from_raw(raw: u64) -> (r: Option<Number>)
        ensures
            r is Some <==> raw <= 13,
            r matches Some(number) ==> number.raw() == raw,
    {
        let number = match raw {
            0 => Number::Exit,
            1 => Number::Write,
            2 => Number::Yield,
            3 => Number::Sleep,
            4 => Number::Uptime,
            5 => Number::Grow,
            6 => Number::Read,
            7 => Number::Random,
            8 => Number::Open,
            9 => Number::OpenDir,
            10 => Number::ReadDir,
            11 => Number::Close,
            12 => Number::Spawn,
            13 => Number::Wait,
            _ => return None,
        };
        Some(number)
    }
}

/// No two system calls share a number.
pub proof fn numbers_are_distinct(a: Number, b: Number)
    ensures
        a.raw() == b.raw() ==> a == b,
        a.raw() <= 13,
{
}

#[derive(Clone, Copy, Debug, PartialEq, Eq, Structural)]
pub enum Syscall {
    /// Ends the program with an exit code. Never returns.
    Exit { code: i32 },
    /// Writes up to `MAX_WRITE` bytes from `ptr` to the console. Returns how many were
    /// written. Invalid UTF-8 and `$` are shown as `?`.
    Write { ptr: u64, len: u64 },
    /// Lets other tasks run. Returns 0.
    Yield,
    /// Sleeps for at least `micros` microseconds. Returns 0.
    Sleep { micros: u64 },
    /// Returns the microseconds since the board was reset.
    Uptime,
    /// Grows the program's heap by `len` bytes (rounded up to whole pages) of zeroed,
    /// readable and writable memory. Returns where the new memory starts; each call's memory
    /// follows straight on from the last. With `len` 0, returns where the next would start.
    /// `NoMemory` if the heap can't grow that far.
    Grow { len: u64 },
    /// Reads up to `len` bytes (at most `MAX_READ`) from a handle into `ptr`. Returns how
    /// many were read: 0 at the end of a file. Reading `INPUT` waits until there is some.
    Read { handle: u64, ptr: u64, len: u64 },
    /// Fills up to `len` bytes (at most `MAX_RANDOM`) at `ptr` with random bytes from the
    /// hardware generator. Returns how many were filled.
    Random { ptr: u64, len: u64 },
    /// Opens the file at the UTF-8 path `path..path + len` for reading. Returns a handle.
    /// Paths start at the root of the SD card, with or without a leading `/`.
    Open { path: u64, len: u64 },
    /// Opens a directory, to list with `ReadDir`. Returns a handle.
    OpenDir { path: u64, len: u64 },
    /// Writes the directory's next [`DirEntry`] to `entry`. Returns 1, or 0 once all have
    /// been read.
    ReadDir { handle: u64, entry: u64 },
    /// Closes a handle from `Open`, `OpenDir` or `Spawn` (the child runs on, unwatched).
    /// Exiting closes them all.
    Close { handle: u64 },
    /// Starts the program in the file at `path..path + path_len`, with the arguments at
    /// `args..args + args_len`. Returns a handle for `Wait`. While this program waits on it,
    /// input sent to this program goes to the child.
    Spawn { path: u64, path_len: u64, args: u64, args_len: u64 },
    /// Waits for a child from `Spawn` to end, and closes its handle. Returns its
    /// [`ExitStatus`], encoded.
    Wait { handle: u64 },
}

/// The registers a system call is made with.
#[derive(Clone, Copy, Debug, PartialEq, Eq)]
pub struct Registers {
    /// x8.
    pub number: u64,
    /// x0 to x5. Arguments a call doesn't take are zero.
    pub args: [u64; 6],
}

/// An `i32` in a 64-bit register: sign-extended.
pub open spec fn sign_extended(code: i32) -> u64 {
    if code >= 0 {
        code as u64
    } else {
        (0x1_0000_0000_0000_0000 + code) as u64
    }
}

fn sign_extend(code: i32) -> (r: u64)
    ensures
        r == sign_extended(code),
{
    if code >= 0 {
        code as u64
    } else {
        u64::MAX - (-1 - code as i64) as u64
    }
}

impl Syscall {
    pub open spec fn call_number(self) -> Number {
        match self {
            Syscall::Exit { .. } => Number::Exit,
            Syscall::Write { .. } => Number::Write,
            Syscall::Yield => Number::Yield,
            Syscall::Sleep { .. } => Number::Sleep,
            Syscall::Uptime => Number::Uptime,
            Syscall::Grow { .. } => Number::Grow,
            Syscall::Read { .. } => Number::Read,
            Syscall::Random { .. } => Number::Random,
            Syscall::Open { .. } => Number::Open,
            Syscall::OpenDir { .. } => Number::OpenDir,
            Syscall::ReadDir { .. } => Number::ReadDir,
            Syscall::Close { .. } => Number::Close,
            Syscall::Spawn { .. } => Number::Spawn,
            Syscall::Wait { .. } => Number::Wait,
        }
    }

    /// What goes in x0 to x5.
    pub open spec fn arguments(self) -> Seq<u64> {
        match self {
            Syscall::Exit { code } => seq![sign_extended(code), 0, 0, 0, 0, 0],
            Syscall::Write { ptr, len } => seq![ptr, len, 0, 0, 0, 0],
            Syscall::Yield => seq![0, 0, 0, 0, 0, 0],
            Syscall::Sleep { micros } => seq![micros, 0, 0, 0, 0, 0],
            Syscall::Uptime => seq![0, 0, 0, 0, 0, 0],
            Syscall::Grow { len } => seq![len, 0, 0, 0, 0, 0],
            Syscall::Read { handle, ptr, len } => seq![handle, ptr, len, 0, 0, 0],
            Syscall::Random { ptr, len } => seq![ptr, len, 0, 0, 0, 0],
            Syscall::Open { path, len } => seq![path, len, 0, 0, 0, 0],
            Syscall::OpenDir { path, len } => seq![path, len, 0, 0, 0, 0],
            Syscall::ReadDir { handle, entry } => seq![handle, entry, 0, 0, 0, 0],
            Syscall::Close { handle } => seq![handle, 0, 0, 0, 0, 0],
            Syscall::Spawn { path, path_len, args, args_len } => seq![
                path,
                path_len,
                args,
                args_len,
                0,
                0,
            ],
            Syscall::Wait { handle } => seq![handle, 0, 0, 0, 0, 0],
        }
    }

    /// How many of the argument registers the call with that number reads.
    pub open spec fn arity(number: Number) -> int {
        match number {
            Number::Yield | Number::Uptime => 0,
            Number::Exit | Number::Sleep | Number::Grow | Number::Close | Number::Wait => 1,
            Number::Write | Number::Random | Number::Open | Number::OpenDir | Number::ReadDir => 2,
            Number::Read => 3,
            Number::Spawn => 4,
        }
    }

    pub fn number(&self) -> (r: Number)
        ensures
            r == self.call_number(),
    {
        match self {
            Syscall::Exit { .. } => Number::Exit,
            Syscall::Write { .. } => Number::Write,
            Syscall::Yield => Number::Yield,
            Syscall::Sleep { .. } => Number::Sleep,
            Syscall::Uptime => Number::Uptime,
            Syscall::Grow { .. } => Number::Grow,
            Syscall::Read { .. } => Number::Read,
            Syscall::Random { .. } => Number::Random,
            Syscall::Open { .. } => Number::Open,
            Syscall::OpenDir { .. } => Number::OpenDir,
            Syscall::ReadDir { .. } => Number::ReadDir,
            Syscall::Close { .. } => Number::Close,
            Syscall::Spawn { .. } => Number::Spawn,
            Syscall::Wait { .. } => Number::Wait,
        }
    }

    pub fn encode(&self) -> (r: Registers)
        ensures
            r.number == self.call_number().raw(),
            r.args@ == self.arguments(),
    {
        let args: [u64; 6] = match *self {
            Syscall::Exit { code } => [sign_extend(code), 0, 0, 0, 0, 0],
            Syscall::Write { ptr, len } => [ptr, len, 0, 0, 0, 0],
            Syscall::Random { ptr, len } => [ptr, len, 0, 0, 0, 0],
            Syscall::Read { handle, ptr, len } => [handle, ptr, len, 0, 0, 0],
            Syscall::Open { path, len } => [path, len, 0, 0, 0, 0],
            Syscall::OpenDir { path, len } => [path, len, 0, 0, 0, 0],
            Syscall::ReadDir { handle, entry } => [handle, entry, 0, 0, 0, 0],
            Syscall::Close { handle } => [handle, 0, 0, 0, 0, 0],
            Syscall::Wait { handle } => [handle, 0, 0, 0, 0, 0],
            Syscall::Spawn { path, path_len, args, args_len } => [
                path,
                path_len,
                args,
                args_len,
                0,
                0,
            ],
            Syscall::Sleep { micros } => [micros, 0, 0, 0, 0, 0],
            Syscall::Grow { len } => [len, 0, 0, 0, 0, 0],
            Syscall::Yield => [0, 0, 0, 0, 0, 0],
            Syscall::Uptime => [0, 0, 0, 0, 0, 0],
        };
        assert(args@ =~= self.arguments());
        Registers { number: self.number().to_raw(), args }
    }

    /// Unknown numbers are `NoSys`; arguments out of range for their type are `Invalid`.
    /// Arguments a call doesn't take are ignored.
    pub fn decode(registers: Registers) -> (r: Result<Syscall, Errno>)
        ensures
            registers.number > 13 <==> r == Err::<Syscall, Errno>(Errno::NoSys),
            (registers.number == 0 && i32::MAX < registers.args@[0] < 0x1_0000_0000_0000_0000
                + i32::MIN) <==> r == Err::<Syscall, Errno>(Errno::Invalid),
            r matches Err(e) ==> e == Errno::NoSys || e == Errno::Invalid,
            r matches Ok(call) ==> {
                &&& call.call_number().raw() == registers.number
                &&& forall|i: int|
                    0 <= i < Self::arity(call.call_number()) ==> #[trigger] call.arguments()[i]
                        == registers.args@[i]
            },
    {
        let a0 = registers.args[0];
        let a1 = registers.args[1];
        let a2 = registers.args[2];
        let a3 = registers.args[3];
        let number = match Number::from_raw(registers.number) {
            Some(number) => number,
            None => return Err(Errno::NoSys),
        };
        let call = match number {
            Number::Exit => {
                let code: i32 = if a0 <= i32::MAX as u64 {
                    a0 as i32
                } else if a0 >= 0xFFFF_FFFF_8000_0000 {
                    (-1 - (u64::MAX - a0) as i64) as i32
                } else {
                    return Err(Errno::Invalid);
                };
                Syscall::Exit { code }
            },
            Number::Write => Syscall::Write { ptr: a0, len: a1 },
            Number::Yield => Syscall::Yield,
            Number::Sleep => Syscall::Sleep { micros: a0 },
            Number::Uptime => Syscall::Uptime,
            Number::Grow => Syscall::Grow { len: a0 },
            Number::Read => Syscall::Read { handle: a0, ptr: a1, len: a2 },
            Number::Random => Syscall::Random { ptr: a0, len: a1 },
            Number::Open => Syscall::Open { path: a0, len: a1 },
            Number::OpenDir => Syscall::OpenDir { path: a0, len: a1 },
            Number::ReadDir => Syscall::ReadDir { handle: a0, entry: a1 },
            Number::Close => Syscall::Close { handle: a0 },
            Number::Spawn => Syscall::Spawn { path: a0, path_len: a1, args: a2, args_len: a3 },
            Number::Wait => Syscall::Wait { handle: a0 },
        };
        Ok(call)
    }
}

/// The registers of a call say which call it was: whatever call `decoded` has the number and
/// arguments that `call` was encoded into is `call` itself.
pub proof fn encoding_identifies_the_call(call: Syscall, decoded: Syscall)
    requires
        decoded.call_number().raw() == call.call_number().raw(),
        forall|i: int|
            0 <= i < Syscall::arity(decoded.call_number()) ==> #[trigger] decoded.arguments()[i]
                == call.arguments()[i],
    ensures
        decoded == call,
        call.call_number().raw() <= 13,
        call.call_number() == Number::Exit ==> !(i32::MAX < call.arguments()[0]
            < 0x1_0000_0000_0000_0000 + i32::MIN),
{
    let a = Syscall::arity(decoded.call_number());
    if a > 0 {
        assert(decoded.arguments()[0] == call.arguments()[0]);
    }
    if a > 1 {
        assert(decoded.arguments()[1] == call.arguments()[1]);
    }
    if a > 2 {
        assert(decoded.arguments()[2] == call.arguments()[2]);
    }
    if a > 3 {
        assert(decoded.arguments()[3] == call.arguments()[3]);
    }
}

/// Why a system call failed.
#[derive(Clone, Copy, Debug, PartialEq, Eq, Structural)]
pub enum Errno {
    /// No system call has that number.
    NoSys,
    /// An argument is out of range.
    Invalid,
    /// A pointer argument points outside the program's memory.
    Fault,
    /// There isn't enough memory, or room in the address space.
    NoMemory,
    /// No file or directory has that path.
    NotFound,
    /// It's a directory, where a file was wanted.
    IsADirectory,
    /// It's not a directory, where one was wanted.
    NotADirectory,
    /// Not an open handle, or the wrong kind for the call.
    BadHandle,
    /// Too many open already (handles, or programs).
    TooMany,
    /// The SD card or its filesystem failed.
    Io,
    /// Not a program RustyPI can run.
    NotExecutable,
    /// A code this version of the ABI doesn't know, from a newer kernel.
    Unknown,
}

impl Errno {
    /// The positive code; x0 holds its negation.
    pub open spec fn number(self) -> u64 {
        match self {
            Errno::NoSys => 1,
            Errno::Invalid => 2,
            Errno::Fault => 3,
            Errno::NoMemory => 4,
            Errno::NotFound => 5,
            Errno::IsADirectory => 6,
            Errno::NotADirectory => 7,
            Errno::BadHandle => 8,
            Errno::TooMany => 9,
            Errno::Io => 10,
            Errno::NotExecutable => 11,
            Errno::Unknown => 4095,
        }
    }

    /// The positive code; x0 holds its negation.
    pub fn code(self) -> (r: u64)
        ensures
            r == self.number(),
    {
        match self {
            Errno::NoSys => 1,
            Errno::Invalid => 2,
            Errno::Fault => 3,
            Errno::NoMemory => 4,
            Errno::NotFound => 5,
            Errno::IsADirectory => 6,
            Errno::NotADirectory => 7,
            Errno::BadHandle => 8,
            Errno::TooMany => 9,
            Errno::Io => 10,
            Errno::NotExecutable => 11,
            Errno::Unknown => 4095,
        }
    }

    /// The error with that code; `Unknown` for any other.
    fn from_code(code: u64) -> (r: Errno)
        ensures
            1 <= code <= 11 ==> r.number() == code,
            !(1 <= code <= 11) ==> r == Errno::Unknown,
    {
        match code {
            1 => Errno::NoSys,
            2 => Errno::Invalid,
            3 => Errno::Fault,
            4 => Errno::NoMemory,
            5 => Errno::NotFound,
            6 => Errno::IsADirectory,
            7 => Errno::NotADirectory,
            8 => Errno::BadHandle,
            9 => Errno::TooMany,
            10 => Errno::Io,
            11 => Errno::NotExecutable,
            _ => Errno::Unknown,
        }
    }
}

/// How a program ended, as `Wait` reports it.
#[derive(Clone, Copy, Debug, PartialEq, Eq, Structural)]
pub enum ExitStatus {
    /// It exited with this code.
    Code(i32),
    /// It faulted, and the kernel killed it.
    Crashed,
    /// It was killed.
    Killed,
}

const STATUS_CRASHED: u64 = 0x1_0000_0000;

const STATUS_KILLED: u64 = 0x2_0000_0000;

impl ExitStatus {
    /// The kind above bit 32, a code's bits below.
    pub open spec fn encoded(self) -> u64 {
        match self {
            ExitStatus::Code(code) => if code >= 0 {
                code as u64
            } else {
                (0x1_0000_0000 + code) as u64
            },
            ExitStatus::Crashed => 0x1_0000_0000,
            ExitStatus::Killed => 0x2_0000_0000,
        }
    }

    /// Into a system call result: the kind above bit 32, a code's bits below.
    pub fn encode(self) -> (r: u64)
        ensures
            r == self.encoded(),
    {
        match self {
            ExitStatus::Code(code) => if code >= 0 {
                code as u64
            } else {
                (0x1_0000_0000 + code as i64) as u64
            },
            ExitStatus::Crashed => STATUS_CRASHED,
            ExitStatus::Killed => STATUS_KILLED,
        }
    }

    pub fn decode(value: u64) -> (r: Option<ExitStatus>)
        ensures
            r is Some <==> value <= 0x1_0000_0000 || value == 0x2_0000_0000,
            r matches Some(status) ==> status.encoded() == value,
    {
        if value <= i32::MAX as u64 {
            Some(ExitStatus::Code(value as i32))
        } else if value < 0x1_0000_0000 {
            Some(ExitStatus::Code((value as i64 - 0x1_0000_0000) as i32))
        } else if value == STATUS_CRASHED {
            Some(ExitStatus::Crashed)
        } else if value == STATUS_KILLED {
            Some(ExitStatus::Killed)
        } else {
            None
        }
    }
}

/// An encoded exit status fits a system call result, and no other status has that encoding.
pub proof fn exit_statuses_survive_encoding(status: ExitStatus, decoded: ExitStatus)
    ensures
        status.encoded() <= MAX_RESULT,
        status.encoded() <= 0x1_0000_0000 || status.encoded() == 0x2_0000_0000,
        decoded.encoded() == status.encoded() ==> decoded == status,
{
}

/// Longest name a `DirEntry` holds, in bytes. Longer names are cut at a character boundary.
pub const MAX_NAME: usize = 248;

/// The kind of a file.
pub const KIND_FILE: u8 = 0;

/// The kind of a directory.
pub const KIND_DIRECTORY: u8 = 1;

/// One directory entry, as `ReadDir` writes it into program memory: plain bytes on both sides.
#[derive(Clone, Copy, Debug, PartialEq, Eq)]
pub struct DirEntry {
    /// Bytes; 0 for directories.
    pub size: u64,
    pub name_len: u16,
    pub kind: u8,
    pub reserved: [u8; 5],
    pub name: [u8; MAX_NAME],
}

impl DirEntry {
    /// The bytes of the name.
    pub open spec fn name_bytes(self) -> Seq<u8> {
        self.name@.subrange(
            0,
            if self.name_len <= MAX_NAME {
                self.name_len as int
            } else {
                MAX_NAME as int
            },
        )
    }

    pub open spec fn directory(self) -> bool {
        self.kind == KIND_DIRECTORY
    }

    /// The entry in program memory: size, length of the name, kind, five reserved bytes and
    /// room for the name.
    pub open spec fn layout(self) -> Seq<u8> {
        crate::bytes::le64_bytes(self.size) + crate::bytes::le16_bytes(self.name_len)
            + seq![self.kind] + self.reserved@ + self.name@
    }

    /// The entry that nothing was written to.
    pub fn empty() -> (r: DirEntry)
        ensures
            r.size == 0,
            !r.directory(),
            r.name_bytes() == Seq::<u8>::empty(),
            r.layout() == crate::bytes::zeros((16 + MAX_NAME) as nat),
    {
        let r = DirEntry {
            size: 0,
            name_len: 0,
            kind: KIND_FILE,
            reserved: [0u8;5],
            name: [0u8;MAX_NAME],
        };
        assert(r.name_bytes() =~= Seq::<u8>::empty());
        assert(r.layout() =~= crate::bytes::zeros((16 + MAX_NAME) as nat));
        r
    }

    pub fn new(name: &str, is_dir: bool, size: u64) -> (r: DirEntry)
        ensures
            r.size == size,
            r.directory() == is_dir,
            r.name_bytes() == name.spec_bytes().subrange(
                0,
                crate::text::cut_length(name.spec_bytes(), MAX_NAME as int),
            ),
            vstd::utf8::valid_utf8(r.name_bytes()),
            r.name_len <= MAX_NAME,
            // The name is followed by zeros, as the reserved bytes are.
            r.layout() == crate::bytes::le64_bytes(size) + crate::bytes::le16_bytes(
                r.name_bytes().len() as u16,
            ) + seq![
                if is_dir {
                    KIND_DIRECTORY
                } else {
                    KIND_FILE
                },
            ] + crate::bytes::zeros(5) + r.name_bytes() + crate::bytes::zeros(
                (MAX_NAME - r.name_bytes().len()) as nat,
            ),
    {
        let len = cut_at(name, MAX_NAME);
        let bytes = name.as_bytes();
        let mut stored: [u8; MAX_NAME] = [0u8;MAX_NAME];
        let mut i: usize = 0;
        while i < len
            invariant
                i <= len <= MAX_NAME,
                len <= bytes@.len(),
                stored@.len() == MAX_NAME,
                stored@.subrange(0, i as int) == bytes@.subrange(0, i as int),
                forall|k: int| i <= k < MAX_NAME ==> stored@[k] == 0,
            decreases len - i,
        {
            stored[i] = bytes[i];
            i += 1;
            assert(stored@.subrange(0, i as int) =~= stored@.subrange(0, i - 1).push(
                bytes@[i - 1],
            ));
            assert(bytes@.subrange(0, i as int) =~= bytes@.subrange(0, i - 1).push(bytes@[i - 1]));
        }
        let kind = if is_dir {
            KIND_DIRECTORY
        } else {
            KIND_FILE
        };
        proof {
            vstd::utf8::encode_utf8_valid_utf8(name@);
            vstd::utf8::valid_utf8_split(bytes@, len as int);
        }
        let r = DirEntry { size, name_len: len as u16, kind, reserved: [0u8;5], name: stored };
        proof {
            let kept = r.name_bytes();
            assert(r.reserved@ =~= crate::bytes::zeros(5));
            assert(r.name@ =~= kept + crate::bytes::zeros((MAX_NAME - kept.len()) as nat));
            let head = crate::bytes::le64_bytes(size) + crate::bytes::le16_bytes(
                kept.len() as u16,
            ) + seq![kind] + crate::bytes::zeros(5);
            assert(r.layout() =~= head + kept + crate::bytes::zeros(
                (MAX_NAME - kept.len()) as nat,
            ));
        }
        r
    }

    /// The name, or `""` if the bytes (from a buggy kernel) aren't valid.
    pub fn name(&self) -> (r: &str)
        ensures
            vstd::utf8::valid_utf8(self.name_bytes()) ==> r.spec_bytes() == self.name_bytes(),
            !vstd::utf8::valid_utf8(self.name_bytes()) ==> r@ == ""@,
    {
        let len: usize = if self.name_len as usize <= MAX_NAME {
            self.name_len as usize
        } else {
            MAX_NAME
        };
        let bytes: &[u8] = &self.name;
        match utf8_text(&bytes[0..len]) {
            Some(name) => name,
            None => "",
        }
    }

    pub fn is_dir(&self) -> (r: bool)
        ensures
            r == self.directory(),
    {
        self.kind == KIND_DIRECTORY
    }

    /// Its bytes, as the kernel copies them into program memory.
    pub fn as_bytes(&self) -> (r: Vec<u8>)
        ensures
            r@ == self.layout(),
            r@.len() == 16 + MAX_NAME,
    {
        let mut out: Vec<u8> = Vec::new();
        push_le64(&mut out, self.size);
        push_le16(&mut out, self.name_len);
        out.push(self.kind);
        push_all(&mut out, &self.reserved);
        push_all(&mut out, &self.name);
        assert(out@ =~= self.layout());
        out
    }
}

/// Largest successful result: values with the top bit set would read as errors.
pub const MAX_RESULT: u64 = 0x7FFF_FFFF_FFFF_FFFF;

/// A result in x0: the value, or the error's code subtracted from 2^64.
pub open spec fn packed_result(result: Result<u64, Errno>) -> u64 {
    match result {
        Ok(value) => value,
        Err(errno) => (0x1_0000_0000_0000_0000 - errno.number()) as u64,
    }
}

/// Packs a result into x0: a value from 0 to `MAX_RESULT`, or a negated error code.
pub fn encode_result(result: Result<u64, Errno>) -> (r: u64)
    requires
        result matches Ok(value) ==> value <= MAX_RESULT,
    ensures
        r == packed_result(result),
{
    match result {
        Ok(value) => value,
        Err(errno) => u64::MAX - (errno.code() - 1),
    }
}

pub fn decode_result(x0: u64) -> (r: Result<u64, Errno>)
    ensures
        x0 <= MAX_RESULT ==> r == Ok::<u64, Errno>(x0),
        x0 > MAX_RESULT ==> (r matches Err(errno) && if 1 <= 0x1_0000_0000_0000_0000 - x0 <= 11 {
            errno.number() == 0x1_0000_0000_0000_0000 - x0
        } else {
            errno == Errno::Unknown
        }),
{
    if x0 <= MAX_RESULT {
        Ok(x0)
    } else {
        Err(Errno::from_code(u64::MAX - x0 + 1))
    }
}

/// A packed result says which result it was: errors never read as values, and two different
/// results never pack alike.
pub proof fn results_survive_encoding(a: Result<u64, Errno>, b: Result<u64, Errno>)
    requires
        a matches Ok(value) ==> value <= MAX_RESULT,
        b matches Ok(value) ==> value <= MAX_RESULT,
    ensures
        packed_result(a) <= MAX_RESULT <==> a is Ok,
        packed_result(a) == packed_result(b) ==> a == b,
{
}

/// What registers each call is made with: its number in x8, counted from 0 in the order in which
/// the calls are listed, and its arguments in their order from x0 on.
pub proof fn calls_are_made_with_their_numbers(call: Syscall)
    ensures
        ({
            let number = call.call_number().raw();
            let args = call.arguments();
            match call {
                Syscall::Exit { code } => number == 0 && args[0] == (if code < 0 {
                    0x1_0000_0000_0000_0000 + code
                } else {
                    code as int
                }),
                Syscall::Write { ptr, len } => number == 1 && args[0] == ptr && args[1] == len,
                Syscall::Yield => number == 2,
                Syscall::Sleep { micros } => number == 3 && args[0] == micros,
                Syscall::Uptime => number == 4,
                Syscall::Grow { len } => number == 5 && args[0] == len,
                Syscall::Read { handle, ptr, len } => number == 6 && args[0] == handle && args[1]
                    == ptr && args[2] == len,
                Syscall::Random { ptr, len } => number == 7 && args[0] == ptr && args[1] == len,
                Syscall::Open { path, len } => number == 8 && args[0] == path && args[1] == len,
                Syscall::OpenDir { path, len } => number == 9 && args[0] == path && args[1] == len,
                Syscall::ReadDir { handle, entry } => number == 10 && args[0] == handle && args[1]
                    == entry,
                Syscall::Close { handle } => number == 11 && args[0] == handle,
                Syscall::Spawn { path, path_len, args: at, args_len } => number == 12 && args[0]
                    == path && args[1] == path_len && args[2] == at && args[3] == args_len,
                Syscall::Wait { handle } => number == 13 && args[0] == handle,
            }
        }),
        call.arguments().len() == 6,
{
}

/// The error codes; x0 holds them negated, and an exit status its kind above bit 32.
pub proof fn errors_have_their_codes(code: i32)
    ensures
        Errno::NoSys.number() == 1,
        Errno::Invalid.number() == 2,
        Errno::Fault.number() == 3,
        Errno::NoMemory.number() == 4,
        Errno::NotFound.number() == 5,
        Errno::IsADirectory.number() == 6,
        Errno::NotADirectory.number() == 7,
        Errno::BadHandle.number() == 8,
        Errno::TooMany.number() == 9,
        Errno::Io.number() == 10,
        Errno::NotExecutable.number() == 11,
        packed_result(Err(Errno::NotFound)) == 0xFFFF_FFFF_FFFF_FFFB,
        ExitStatus::Crashed.encoded() / 0x1_0000_0000 == 1,
        ExitStatus::Killed.encoded() / 0x1_0000_0000 == 2,
        ExitStatus::Code(code).encoded() / 0x1_0000_0000 == 0,
        (ExitStatus::Code(code).encoded() - code) % 0x1_0000_0000 == 0,
{
}

} // verus!
