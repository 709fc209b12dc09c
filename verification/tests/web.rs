use ms45_core::web::{validation_checks, zip_store, Parts, ValidationCheck, WebError, ZipEntry};
use ms45_core::{BinaryError, EXTERNAL_FLASH_LEN, MPC_FLASH_LEN, TUNE_LEN};

fn u16_at(b: &[u8], i: usize) -> u16 {
    u16::from_le_bytes([b[i], b[i + 1]])
}

fn u32_at(b: &[u8], i: usize) -> u32 {
    u32::from_le_bytes([b[i], b[i + 1], b[i + 2], b[i + 3]])
}

#[test]
fn zip_store_writes_stored_entries_and_directory() {
    let a = b"hello".to_vec();
    let b = vec![1u8, 2, 3];
    let zip = zip_store(&[
        ZipEntry { name: "a.bin", data: &a },
        ZipEntry { name: "bb.bin", data: &b },
    ]);
    // first local header
    assert_eq!(u32_at(&zip, 0), 0x0403_4b50);
    assert_eq!(u32_at(&zip, 14), crc32fast::hash(&a));
    assert_eq!(u32_at(&zip, 18), 5);
    assert_eq!(u16_at(&zip, 26), 5);
    assert_eq!(&zip[30..35], b"a.bin");
    assert_eq!(&zip[35..40], b"hello");
    // second local header
    let second = 40;
    assert_eq!(u32_at(&zip, second), 0x0403_4b50);
    assert_eq!(u32_at(&zip, second + 14), crc32fast::hash(&b));
    assert_eq!(&zip[second + 30..second + 36], b"bb.bin");
    let central = second + 30 + 6 + 3;
    assert_eq!(u32_at(&zip, central), 0x0201_4b50);
    assert_eq!(u32_at(&zip, central + 42), 0);
    let central2 = central + 46 + 5;
    assert_eq!(u32_at(&zip, central2 + 42), second as u32);
    let end = central2 + 46 + 6;
    assert_eq!(u32_at(&zip, end), 0x0605_4b50);
    assert_eq!(u16_at(&zip, end + 8), 2);
    assert_eq!(u32_at(&zip, end + 12), (end - central) as u32);
    assert_eq!(u32_at(&zip, end + 16), central as u32);
    assert_eq!(zip.len(), end + 22);
}

#[test]
fn empty_zip_is_end_record_only() {
    let zip = zip_store(&[]);
    assert_eq!(zip.len(), 22);
    assert_eq!(u32_at(&zip, 0), 0x0605_4b50);
}

fn form(fields: Vec<(&str, Vec<u8>)>) -> Parts {
    let mut parts = Parts::new();
    for (name, value) in fields {
        parts.push(name.to_string(), value);
    }
    parts
}

#[test]
fn form_lookups() {
    let parts = form(vec![
        ("tune", vec![]),
        ("tune", vec![1, 2]),
        ("sw_ref", vec![0xff]),
        ("sw_ref", b"ok".to_vec()),
    ]);
    assert_eq!(parts.optional_file("tune"), Some(&[1u8, 2][..]));
    assert_eq!(parts.optional_file("mpc"), None);
    assert!(matches!(parts.file("mpc"), Err(WebError::MissingFile(name)) if name == "mpc"));
    // the first field of that name decides, and it is not UTF-8
    assert_eq!(parts.optional_text("sw_ref"), None);
}

#[test]
fn validation_runs_requested_checks() {
    let mut tune = vec![0u8; TUNE_LEN];
    tune[0x10..0x1c].copy_from_slice(b"7561520\0\0\0\0\0");
    let mut flash = vec![0u8; EXTERNAL_FLASH_LEN];
    flash[0x6031c..0x60328].copy_from_slice(b"0044570-0000");
    flash[0x60310..0x6031a].copy_from_slice(b"0000010500");
    let mut mpc = vec![0u8; MPC_FLASH_LEN];
    mpc[0x100..0x10a].copy_from_slice(b"0000010000");
    let parts = form(vec![
        ("tune", tune),
        ("sw_ref", b"  BMW ZB 7561520 ".to_vec()),
        ("external", flash),
        ("hw_ref", b"0044571".to_vec()),
        ("mpc", mpc),
    ]);
    assert_eq!(
        validation_checks(&parts).unwrap(),
        vec![
            (ValidationCheck::TuneSoftwareReference, true),
            (ValidationCheck::ProgramHardwareReference, false),
            (ValidationCheck::ExternalMpcPair, true),
        ]
    );
}

#[test]
fn validation_without_inputs_is_refused() {
    let parts = form(vec![("sw_ref", b"123".to_vec()), ("tune", vec![0u8; 4])]);
    assert!(matches!(
        validation_checks(&form(vec![])),
        Err(WebError::NoValidationInput)
    ));
    assert!(matches!(
        validation_checks(&parts),
        Err(WebError::Binary(BinaryError::OutOfRange { offset: 0x10, len: 0x0c }))
    ));
    let blank = form(vec![("sw_ref", b"   ".to_vec()), ("tune", vec![0u8; 4])]);
    assert!(matches!(
        validation_checks(&blank),
        Err(WebError::NoValidationInput)
    ));
}

#[test]
fn zip_entry_carries_the_standard_crc32() {
    let zip = zip_store(&[ZipEntry {
        name: "check",
        data: b"123456789",
    }]);
    assert_eq!(u32_at(&zip, 14), 0xcbf4_3926);
}
