use ms45_core::binary::{ascii_field, MPC_FLASH_LEN as MPC_LEN, PROGRAM_PAYLOAD_LEN};
use ms45_core::{
    prepare_full_program, prepare_tune, verify_flash_mpc_match, verify_parameter_match,
    verify_program_match, BinaryError, EXTERNAL_FLASH_LEN, MPC_FLASH_LEN, TUNE_LEN,
};

#[test]
fn validates_flash_mpc_pair_metadata() {
    let mut flash = vec![0; EXTERNAL_FLASH_LEN];
    let mut mpc = vec![0; MPC_FLASH_LEN];
    flash[0x60310..0x6031a].copy_from_slice(b"0000010500");
    mpc[0x100..0x10a].copy_from_slice(b"0000010000");

    assert!(verify_flash_mpc_match(&flash, &mpc).unwrap());
}

#[test]
fn rejects_flash_mpc_pair_with_wrong_delta() {
    let mut flash = vec![0; EXTERNAL_FLASH_LEN];
    let mut mpc = vec![0; MPC_FLASH_LEN];
    flash[0x60310..0x6031a].copy_from_slice(b"0000010400");
    mpc[0x100..0x10a].copy_from_slice(b"0000010000");

    assert!(!verify_flash_mpc_match(&flash, &mpc).unwrap());
}

#[test]
fn rejects_non_numeric_flash_mpc_metadata() {
    let mut flash = vec![0; EXTERNAL_FLASH_LEN];
    let mut mpc = vec![0; MPC_FLASH_LEN];
    flash[0x60310..0x6031a].copy_from_slice(b"not-a-ref!");
    mpc[0x100..0x10a].copy_from_slice(b"0000010000");

    let err = verify_flash_mpc_match(&flash, &mpc).unwrap_err();
    assert!(matches!(err, BinaryError::InvalidNumericMetadata));
}

#[test]
fn validates_tune_software_reference_metadata() {
    let mut tune = vec![0; TUNE_LEN];
    tune[0x10..0x1c].copy_from_slice(b"7561520\0\0\0\0\0");

    assert!(verify_parameter_match(&tune, "BMW ZB 7561520").unwrap());
    assert!(!verify_parameter_match(&tune, "BMW ZB 7561521").unwrap());
}

#[test]
fn validates_program_hardware_reference_metadata() {
    let mut flash = vec![0; EXTERNAL_FLASH_LEN];
    flash[0x6031c..0x60328].copy_from_slice(b"0044570-0000");

    assert!(verify_program_match(&flash, "0044570").unwrap());
    assert!(!verify_program_match(&flash, "0044571").unwrap());
}

#[test]
fn rejects_bad_tune_length() {
    let err = prepare_tune(&[0xaa; 16]).unwrap_err();
    assert!(matches!(err, BinaryError::InvalidTuneLength { .. }));
}

#[test]
fn bad_tune_length_reports_actual_length() {
    assert_eq!(
        prepare_tune(&vec![0u8; TUNE_LEN - 1]).unwrap_err(),
        BinaryError::InvalidTuneLength { actual: TUNE_LEN - 1 }
    );
    assert_eq!(
        prepare_tune(&vec![0u8; 0x20001]).unwrap_err(),
        BinaryError::InvalidTuneLength { actual: 0x20001 }
    );
}

#[test]
fn flash_mpc_numbers_trim_nul_and_white_space() {
    let mut flash = vec![0; EXTERNAL_FLASH_LEN];
    let mut mpc = vec![0; MPC_FLASH_LEN];
    flash[0x60310..0x6031a].copy_from_slice(b"\0 10500 \0\0");
    mpc[0x100..0x10a].copy_from_slice(b"+10000\0\0\0\0");
    assert!(verify_flash_mpc_match(&flash, &mpc).unwrap());
}

#[test]
fn flash_mpc_numbers_trim_unicode_white_space() {
    let mut flash = vec![0; EXTERNAL_FLASH_LEN];
    let mut mpc = vec![0; MPC_FLASH_LEN];
    // U+3000 IDEOGRAPHIC SPACE, then "10500", then two NULs
    flash[0x60310..0x6031a].copy_from_slice(b"\xe3\x80\x8010500\0\0");
    mpc[0x100..0x10a].copy_from_slice(b"0000010000");
    assert!(verify_flash_mpc_match(&flash, &mpc).unwrap());
}

#[test]
fn flash_mpc_reference_below_mpc_is_no_match() {
    let mut flash = vec![0; EXTERNAL_FLASH_LEN];
    let mut mpc = vec![0; MPC_FLASH_LEN];
    flash[0x60310..0x6031a].copy_from_slice(b"0000000100");
    mpc[0x100..0x10a].copy_from_slice(b"0000010000");
    assert!(!verify_flash_mpc_match(&flash, &mpc).unwrap());
}

#[test]
fn empty_numeric_field_is_not_numeric() {
    let flash = vec![0; EXTERNAL_FLASH_LEN];
    let mut mpc = vec![0; MPC_FLASH_LEN];
    mpc[0x100..0x10a].copy_from_slice(b"0000010000");
    assert_eq!(
        verify_flash_mpc_match(&flash, &mpc).unwrap_err(),
        BinaryError::InvalidNumericMetadata
    );
}

#[test]
fn mpc_reference_above_flash_reference_is_no_match() {
    let mut flash = vec![0; EXTERNAL_FLASH_LEN];
    let mut mpc = vec![0; MPC_FLASH_LEN];
    flash[0x60310..0x6031a].copy_from_slice(b"0000010500");
    mpc[0x100..0x10a].copy_from_slice(b"9999999999");
    assert!(!verify_flash_mpc_match(&flash, &mpc).unwrap());
}

#[test]
fn metadata_outside_image_is_out_of_range() {
    assert_eq!(
        verify_program_match(&[0u8; 16], "x").unwrap_err(),
        BinaryError::OutOfRange { offset: 0x6031c, len: 0x0c }
    );
    assert_eq!(
        verify_parameter_match(&[0u8; 8], "x").unwrap_err(),
        BinaryError::OutOfRange { offset: 0x10, len: 0x0c }
    );
}

#[test]
fn non_utf8_metadata_is_invalid_ascii() {
    let mut tune = vec![0; TUNE_LEN];
    tune[0x10] = 0xff;
    assert_eq!(
        verify_parameter_match(&tune, "7561520").unwrap_err(),
        BinaryError::InvalidAsciiMetadata
    );
    let mut valid = vec![0; 0x20];
    valid[0x10..0x1c].copy_from_slice(b"ABCDEFGHIJKL");
    assert_eq!(ascii_field(&valid, 0x10, 0x0c).unwrap(), b"ABCDEFGHIJKL");
}

#[test]
fn program_preparation_checks_lengths_and_pairing() {
    let flash = vec![0u8; EXTERNAL_FLASH_LEN];
    let mpc = vec![0u8; MPC_LEN];
    assert_eq!(
        prepare_full_program(&flash[..10], &mpc).unwrap_err(),
        BinaryError::InvalidExternalFlashLength { actual: 10 }
    );
    assert_eq!(
        prepare_full_program(&flash, &mpc[..10]).unwrap_err(),
        BinaryError::InvalidMpcFlashLength { actual: 10 }
    );
    let mut flash = flash;
    let mut mpc = mpc;
    flash[0x60310..0x6031a].copy_from_slice(b"0000010400");
    mpc[0x100..0x10a].copy_from_slice(b"0000010000");
    assert_eq!(
        prepare_full_program(&flash, &mpc).unwrap_err(),
        BinaryError::FlashMpcMismatch
    );
}

#[test]
fn program_preparation_signs_and_cuts_payload() {
    let mut flash = vec![0u8; EXTERNAL_FLASH_LEN];
    let mut mpc = vec![0u8; MPC_FLASH_LEN];
    flash[0x60310..0x6031a].copy_from_slice(b"0000010500");
    mpc[0x100..0x10a].copy_from_slice(b"0000010000");
    let payload = prepare_full_program(&flash, &mpc).unwrap();
    assert_eq!(payload.mpc_program, mpc);
    assert_eq!(payload.external_program.len(), PROGRAM_PAYLOAD_LEN);
    // Only the signature (0x60074..0x600b4, at 0x74 in the payload) differs.
    assert_eq!(&payload.external_program[..0x74], &flash[0x60000..0x60074]);
    assert_eq!(
        &payload.external_program[0x74 + 64..],
        &flash[0x60074 + 64..0x60000 + PROGRAM_PAYLOAD_LEN]
    );
    assert_ne!(&payload.external_program[0x74..0x74 + 64], &[0u8; 64][..]);
}

#[test]
fn tune_preparation_extracts_block_from_full_flash() {
    let mut flash = vec![0u8; EXTERNAL_FLASH_LEN];
    for (i, byte) in flash[0x40000..0x40000 + TUNE_LEN].iter_mut().enumerate() {
        *byte = (i % 251) as u8;
    }
    // an empty segment table
    flash[0x40130..0x40134].copy_from_slice(&[0, 0, 0, 0]);
    let payload = prepare_tune(&flash).unwrap();
    assert_eq!(payload.data.len(), TUNE_LEN);
    assert_eq!(&payload.data[..0x174], &flash[0x40000..0x40174]);
    assert_eq!(&payload.data[0x1b4..], &flash[0x401b4..0x40000 + TUNE_LEN]);
}
