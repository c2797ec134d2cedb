//! Decoding SD card registers.

use vstd::arithmetic::power2;
use vstd::prelude::*;

verus! {

/// The `width` bits of a register from bit `low` on.
pub open spec fn field(register: u128, low: nat, width: nat) -> int {
    register as int / power2::pow2(low) as int % power2::pow2(width) as int
}

/// The capacity in 512-byte blocks that a CSD register gives.
pub open spec fn blocks_of(csd: u128) -> Option<int> {
    if field(csd, 126, 2) == 1 {
        // CSD 2.0 (SDHC/SDXC): (C_SIZE + 1) * 512KB.
        Some((field(csd, 48, 22) + 1) * 1024)
    } else if field(csd, 126, 2) == 0 {
        // CSD 1.0: (C_SIZE + 1) * 2^(C_SIZE_MULT + 2) blocks of 2^READ_BL_LEN bytes.
        Some(
            (field(csd, 62, 12) + 1) * power2::pow2((field(csd, 47, 3) + 2) as nat) * power2::pow2(
                field(csd, 80, 4) as nat,
            ) / 512,
        )
    } else {
        None
    }
}

proof fn lemma_powers()
    ensures
        power2::pow2(126) == 0x4000_0000_0000_0000_0000_0000_0000_0000,
        power2::pow2(80) == 0x1_0000_0000_0000_0000_0000,
        power2::pow2(62) == 0x4000_0000_0000_0000,
        power2::pow2(48) == 0x1_0000_0000_0000,
        power2::pow2(47) == 0x8000_0000_0000,
        power2::pow2(22) == 0x40_0000,
        power2::pow2(12) == 0x1000,
        power2::pow2(4) == 16,
        power2::pow2(3) == 8,
        power2::pow2(2) == 4,
{
    power2::lemma2_to64();
    power2::lemma_pow2_adds(64, 62);
    power2::lemma_pow2_adds(64, 16);
    power2::lemma_pow2_adds(32, 30);
    power2::lemma_pow2_adds(32, 16);
    power2::lemma_pow2_adds(32, 15);
}

/// `1 << n` is 2^n.
fn power(n: u64) -> (r: u64)
    requires
        n <= 16,
    ensures
        r == power2::pow2(n as nat),
{
    let mut r: u64 = 1;
    let mut i: u64 = 0;
    proof {
        power2::lemma2_to64();
    }
    while i < n
        invariant
            i <= n <= 16,
            r == power2::pow2(i as nat),
            r <= power2::pow2(i as nat),
            power2::pow2(16) == 0x1_0000,
        decreases n - i,
    {
        proof {
            power2::lemma_pow2_unfold((i + 1) as nat);
            if i < 16 {
                power2::lemma_pow2_strictly_increases(i as nat, 16);
            }
        }
        r = 2 * r;
        i += 1;
    }
    r
}

/// The card's capacity in 512-byte blocks from its CSD register (the standard 128-bit
/// layout), or `None` for an unknown CSD structure version.
pub fn capacity_blocks(csd: u128) -> (r: Option<u64>)
    ensures
        match r {
            Some(blocks) => blocks_of(csd) == Some(blocks as int),
            None => blocks_of(csd) is None,
        },
{
    proof {
        lemma_powers();
    }
    let version: u128 = csd / 0x4000_0000_0000_0000_0000_0000_0000_0000 % 4;
    if version == 1 {
        let c_size: u64 = (csd / 0x1_0000_0000_0000 % 0x40_0000) as u64;
        Some((c_size + 1) * 1024)
    } else if version == 0 {
        let c_size: u64 = (csd / 0x4000_0000_0000_0000 % 0x1000) as u64;
        let mult: u64 = (csd / 0x8000_0000_0000 % 8) as u64;
        let length: u64 = (csd / 0x1_0000_0000_0000_0000_0000 % 16) as u64;
        let a: u64 = power(mult + 2);
        let b: u64 = power(length);
        proof {
            power2::lemma2_to64();
            if mult + 2 < 9 {
                power2::lemma_pow2_strictly_increases((mult + 2) as nat, 9);
            }
            if length < 15 {
                power2::lemma_pow2_strictly_increases(length as nat, 15);
            }
            assert(a <= 512 && b <= 32768);
            assert((c_size + 1) * a <= 4096 * 512) by (nonlinear_arith)
                requires
                    c_size + 1 <= 4096,
                    a <= 512,
            ;
            assert((c_size + 1) * a * b <= 4096 * 512 * 32768) by (nonlinear_arith)
                requires
                    (c_size + 1) * a <= 4096 * 512,
                    b <= 32768,
            ;
        }
        Some((c_size + 1) * a * b / 512)
    } else {
        None
    }
}

/// A register's structure version is in its top two bits. Version 1 has the capacity, less one,
/// in units of 512 KiB in the 22 bits from bit 48 on. Version 0 has in the 12 bits from bit 62
/// on, less one, the number of groups of 4 (or, by the 3 bits from bit 47 on, up to 512)
/// blocks, and in the 4 bits from bit 80 on the logarithm of their bytes. Other versions are
/// unknown.
pub proof fn registers_give_the_capacity(csd: u128)
    ensures
        ({
            let version = csd as int / 0x4000_0000_0000_0000_0000_0000_0000_0000;
            let units = csd as int / 0x1_0000_0000_0000 % 4194304 + 1;
            let groups = csd as int / 0x4000_0000_0000_0000 % 4096 + 1;
            let group = 4 * power2::pow2((csd as int / 0x8000_0000_0000 % 8) as nat);
            let bytes = power2::pow2((csd as int / 0x1_0000_0000_0000_0000_0000 % 16) as nat);
            &&& version == 1 ==> blocks_of(csd) == Some(units * 1024)
            &&& version == 0 ==> blocks_of(csd) == Some(groups * group * bytes / 512)
            &&& version >= 2 ==> blocks_of(csd) is None
        }),
{
    lemma_powers();
    let mult = field(csd, 47, 3);
    power2::lemma_pow2_adds(mult as nat, 2);
    assert(power2::pow2((mult + 2) as nat) == 4 * power2::pow2(mult as nat));
    assert(csd as int / 0x4000_0000_0000_0000_0000_0000_0000_0000 < 4);
}

} // verus!
