use rustypi::abi::{
    decode_result, encode_result, DirEntry, Errno, ExitStatus, Number, Registers, Syscall, MAX_NAME,
    MAX_RESULT,
};

const ALL: [Syscall; 15] = [
    Syscall::Exit { code: 0 },
    Syscall::Exit { code: -7 },
    Syscall::Write { ptr: 0x8000_0000, len: 12 },
    Syscall::Yield,
    Syscall::Sleep { micros: 1_500 },
    Syscall::Uptime,
    Syscall::Grow { len: 8192 },
    Syscall::Read { handle: 3, ptr: 0x8000_1000, len: 64 },
    Syscall::Random { ptr: 0x8000_2000, len: 16 },
    Syscall::Open { path: 0x8000_3000, len: 9 },
    Syscall::OpenDir { path: 0x8000_3000, len: 4 },
    Syscall::ReadDir { handle: 2, entry: 0x8000_4000 },
    Syscall::Close { handle: 2 },
    Syscall::Spawn { path: 0x8000_3000, path_len: 9, args: 0x8000_3100, args_len: 3 },
    Syscall::Wait { handle: 4 },
];

#[test]
fn every_call_survives_encoding() {
    for call in ALL {
        assert_eq!(Syscall::decode(call.encode()), Ok(call));
    }
}

#[test]
fn numbers_survive_their_raw_form() {
    for call in ALL {
        assert_eq!(Number::from_raw(call.number() as u64), Some(call.number()));
    }
}

#[test]
fn unused_argument_registers_are_zero_and_ignored() {
    assert_eq!(Syscall::Yield.encode().args, [0; 6]);
    let mut registers = Syscall::Sleep { micros: 5 }.encode();
    registers.args[3] = 0xDEAD;
    assert_eq!(Syscall::decode(registers), Ok(Syscall::Sleep { micros: 5 }));
}

#[test]
fn exit_codes_are_sign_extended() {
    assert_eq!(Syscall::Exit { code: -1 }.encode().args[0], u64::MAX);
}

#[test]
fn unknown_numbers_and_bad_arguments_are_rejected() {
    assert_eq!(Syscall::decode(Registers { number: 999, args: [0; 6] }), Err(Errno::NoSys));
    // 2^32 isn't an i32, and neither is a zero-extended -1.
    let exit = |a0| Registers { number: Number::Exit as u64, args: [a0, 0, 0, 0, 0, 0] };
    assert_eq!(Syscall::decode(exit(1 << 32)), Err(Errno::Invalid));
    assert_eq!(Syscall::decode(exit(0xFFFF_FFFF)), Err(Errno::Invalid));
}

#[test]
fn results_survive_encoding() {
    let errors = [
        Errno::NoSys,
        Errno::Invalid,
        Errno::Fault,
        Errno::NoMemory,
        Errno::NotFound,
        Errno::IsADirectory,
        Errno::NotADirectory,
        Errno::BadHandle,
        Errno::TooMany,
        Errno::Io,
        Errno::NotExecutable,
    ]
    .map(Err);
    for result in [Ok(0), Ok(42), Ok(MAX_RESULT)].into_iter().chain(errors) {
        assert_eq!(decode_result(encode_result(result)), result);
    }
    assert_eq!(encode_result(Err(Errno::Fault)), -3i64 as u64);
}

#[test]
fn unknown_error_codes_decode_as_unknown() {
    assert_eq!(decode_result(-77i64 as u64), Err(Errno::Unknown));
    assert_eq!(decode_result(u64::MAX - MAX_RESULT), Err(Errno::Unknown)); // i64::MIN
}

#[test]
fn exit_statuses_survive_encoding_as_results() {
    for status in [ExitStatus::Code(0), ExitStatus::Code(-1), ExitStatus::Code(i32::MAX), ExitStatus::Crashed, ExitStatus::Killed] {
        assert_eq!(decode_result(encode_result(Ok(status.encode()))).map(ExitStatus::decode), Ok(Some(status)));
    }
    assert_eq!(ExitStatus::decode(3 << 32), None);
    assert_eq!(ExitStatus::decode(1 << 32 | 5), None);
}

#[test]
fn dir_entries_keep_their_fields() {
    let entry = DirEntry::new("kernel8.img", false, 201_832);
    assert_eq!((entry.name(), entry.is_dir(), entry.size), ("kernel8.img", false, 201_832));
    assert!(DirEntry::new("bin", true, 0).is_dir());
    assert_eq!(entry.as_bytes().len(), std::mem::size_of::<DirEntry>());
}

#[test]
fn long_names_are_cut_at_a_character_boundary() {
    let long = "é".repeat(200); // 400 bytes
    let entry = DirEntry::new(&long, false, 0);
    assert_eq!(entry.name(), "é".repeat(MAX_NAME / 2));
    // Here the cut would fall in the middle of an "é".
    let odd = format!("x{}", "é".repeat(200));
    assert_eq!(DirEntry::new(&odd, false, 0).name().len(), MAX_NAME - 1);
}



#[test]
fn dir_entries_are_zero_where_nothing_is_said() {
    let entry = DirEntry::new("bin", true, 7);
    let bytes = entry.as_bytes();
    assert_eq!(bytes[..8], 7u64.to_le_bytes());
    assert_eq!(bytes[8..10], [3, 0]);
    assert_eq!(bytes[11..16], [0; 5]);
    assert_eq!(bytes[16..19], *b"bin");
    assert!(bytes[19..].iter().all(|&b| b == 0));
}
