use rustypi::sd::capacity_blocks;

#[test]
fn decodes_csd_version_2() {
    // A 32GB SDHC card: C_SIZE 61055.
    assert_eq!(capacity_blocks(0x400e_0032_5b59_0000_ee7f_7f80_0a40_40df), Some(62_521_344));
}

#[test]
fn decodes_csd_version_1() {
    // A standard capacity card: C_SIZE 3863, C_SIZE_MULT 5, 1024-byte READ_BL_LEN.
    assert_eq!(capacity_blocks(0x005e_0032_5f5a_83c5_ecb6_db7f_9280_00c9), Some(989_184));
}

#[test]
fn unknown_structure_versions_are_none() {
    assert_eq!(capacity_blocks(0xC000_0000_0000_0000_0000_0000_0000_0000), None);
}
