use ms45_core::desktop::{check_program, check_tune, ProgramCheck, TuneCheck};
use ms45_core::{BinaryError, EXTERNAL_FLASH_LEN, MPC_FLASH_LEN, TUNE_LEN};

fn tune() -> Vec<u8> {
    let mut tune = vec![0; TUNE_LEN];
    tune[0x10..0x1c].copy_from_slice(b"7561520\0\0\0\0\0");
    tune
}

fn pair(flash_number: &[u8]) -> (Vec<u8>, Vec<u8>) {
    let mut flash = vec![0; EXTERNAL_FLASH_LEN];
    let mut mpc = vec![0; MPC_FLASH_LEN];
    flash[0x60310..0x6031a].copy_from_slice(flash_number);
    flash[0x6031c..0x60328].copy_from_slice(b"0044570-0000");
    mpc[0x100..0x10a].copy_from_slice(b"0000010000");
    (flash, mpc)
}

#[test]
fn blank_software_reference_only_loads_the_tune() {
    assert_eq!(check_tune(&tune(), "  \t").unwrap(), TuneCheck::Loaded { len: TUNE_LEN });
    assert_eq!(check_tune(&[1, 2, 3], "").unwrap(), TuneCheck::Loaded { len: 3 });
}

#[test]
fn software_reference_is_trimmed_before_matching() {
    assert_eq!(
        check_tune(&tune(), "  BMW ZB 7561520 \n").unwrap(),
        TuneCheck::SoftwareReference { matched: true }
    );
    assert_eq!(
        check_tune(&tune(), " BMW ZB 7561521 ").unwrap(),
        TuneCheck::SoftwareReference { matched: false }
    );
}

#[test]
fn tune_check_reports_short_tune() {
    assert_eq!(
        check_tune(&[0; 8], "BMW").unwrap_err(),
        BinaryError::OutOfRange { offset: 0x10, len: 0x0c }
    );
}

#[test]
fn program_check_without_hardware_reference_reports_pairing() {
    let (flash, mpc) = pair(b"0000010500");
    assert_eq!(check_program(&flash, &mpc, " ").unwrap(), ProgramCheck::Pair { matched: true });
    let (flash, mpc) = pair(b"0000010400");
    assert_eq!(check_program(&flash, &mpc, "").unwrap(), ProgramCheck::Pair { matched: false });
}

#[test]
fn program_check_with_hardware_reference_reports_both() {
    let (flash, mpc) = pair(b"0000010500");
    assert_eq!(
        check_program(&flash, &mpc, " 0044570 ").unwrap(),
        ProgramCheck::HardwareAndPair { hardware: true, pair: true }
    );
    assert_eq!(
        check_program(&flash, &mpc, "0044571").unwrap(),
        ProgramCheck::HardwareAndPair { hardware: false, pair: true }
    );
}

#[test]
fn program_check_reports_pairing_error_first() {
    let (flash, mpc) = pair(b"not-a-ref!");
    assert_eq!(
        check_program(&flash, &mpc, "0044570").unwrap_err(),
        BinaryError::InvalidNumericMetadata
    );
}
