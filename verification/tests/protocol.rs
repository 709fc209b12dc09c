use ms45_core::backup::{
    backup_step, backup_verified, check_backup_request, identity_matches_pin, next_block, BackupError,
};
use ms45_core::hex::{decode_hex, decode_hex_4, parse_hex_4, parse_hex_bytes, to_hex, HexError};
use ms45_core::read_only::{
    check_read_len, check_response_header, classify_io_kind, encode_request, new_request, parse_identity,
    read_request, response_status, Identity, IoKind, ReadError, MAX_READ,
};
use ms45_core::MemoryRegion;
use sha2::{Digest, Sha256};

#[test]
fn hex_accepts_prefix_and_separators() {
    assert_eq!(parse_hex_bytes("01:02:03:04").unwrap(), vec![1, 2, 3, 4]);
    assert_eq!(parse_hex_bytes("0x05060708").unwrap(), vec![5, 6, 7, 8]);
    assert_eq!(parse_hex_bytes("0X0a0B").unwrap(), vec![0x0a, 0x0b]);
    assert_eq!(parse_hex_bytes("09-0a-0b-0c").unwrap(), vec![9, 10, 11, 12]);
    assert_eq!(parse_hex_bytes("de ad").unwrap(), vec![0xde, 0xad]);
    assert_eq!(parse_hex_bytes("").unwrap(), Vec::<u8>::new());
    assert_eq!(parse_hex_bytes("+f").unwrap(), vec![0x0f]);
}

#[test]
fn hex_rejects_odd_length_and_bad_digits() {
    assert_eq!(decode_hex("0102030"), Err(HexError::OddLength));
    assert_eq!(
        decode_hex("01zz"),
        Err(HexError::InvalidByte { first: b'z', second: b'z' })
    );
    assert_eq!(
        parse_hex_bytes("0102030"),
        Err("hex input must contain an even number of digits".to_string())
    );
    assert_eq!(parse_hex_bytes("01zz"), Err("invalid hex byte 'zz'".to_string()));
    assert_eq!(parse_hex_bytes("\u{e9}00"), Err("invalid hex byte '\u{e9}'".to_string()));
}

#[test]
fn hex_single_digit_after_dash_is_odd() {
    assert_eq!(decode_hex("-1"), Err(HexError::OddLength));
}

#[test]
fn hex_four_bytes() {
    assert_eq!(parse_hex_4("01020304"), Ok([1, 2, 3, 4]));
    assert_eq!(parse_hex_4("0102"), Err("expected 4 bytes, got 2".to_string()));
    assert_eq!(decode_hex_4("0102"), Err(HexError::WrongLength { actual: 2 }));
    assert_eq!(
        parse_hex_4("0102030"),
        Err("hex input must contain an even number of digits".to_string())
    );
    assert_eq!(
        parse_hex_4("01020304050607080910"),
        Err("expected 4 bytes, got 10".to_string())
    );
}

#[test]
fn hex_round_trip() {
    let bytes: Vec<u8> = (0..=255).collect();
    let text = to_hex(&bytes);
    assert_eq!(&text[..8], "00010203");
    assert_eq!(&text[text.len() - 4..], "feff");
    assert_eq!(parse_hex_bytes(&text).unwrap(), bytes);
    assert_eq!(to_hex(&[0xab, 0x0c]), "ab0c");
}

#[test]
fn request_frame_layout() {
    let frame = encode_request(0x0102_0304_0506_0708, 2, 1, 0x0011_2233, 0x0405);
    let mut expected = b"MS45R1".to_vec();
    expected.extend_from_slice(&[1, 2, 3, 4, 5, 6, 7, 8, 2, 1, 0x00, 0x11, 0x22, 0x33, 0x04, 0x05]);
    assert_eq!(frame, expected);
    let (nonce, frame) = new_request(1, 0, 0, 0);
    assert_eq!(frame.len(), 22);
    assert_eq!(&frame[6..14], &nonce.to_be_bytes());
}

#[test]
fn response_header_checks_magic_nonce_and_size() {
    let nonce = 0x1122_3344_5566_7788u64;
    let mut header = b"MS45R1".to_vec();
    header.extend_from_slice(&nonce.to_be_bytes());
    header.push(0);
    header.extend_from_slice(&16u16.to_be_bytes());
    assert_eq!(check_response_header(&header, nonce), Ok(16));
    assert_eq!(check_response_header(&header, nonce ^ 1), Err(ReadError::Protocol));
    let mut bad_magic = header.clone();
    bad_magic[0] = b'X';
    assert_eq!(check_response_header(&bad_magic, nonce), Err(ReadError::Protocol));
    let mut too_big = header.clone();
    too_big[15..17].copy_from_slice(&4097u16.to_be_bytes());
    assert_eq!(check_response_header(&too_big, nonce), Err(ReadError::Protocol));
    too_big[15..17].copy_from_slice(&4096u16.to_be_bytes());
    assert_eq!(check_response_header(&too_big, nonce), Ok(4096));
}

#[test]
fn response_status_values() {
    assert_eq!(response_status(0, vec![1, 2]), Ok(vec![1, 2]));
    assert_eq!(response_status(1, vec![]), Err(ReadError::Range));
    assert_eq!(response_status(2, vec![]), Err(ReadError::Rejected));
    assert_eq!(response_status(3, vec![]), Err(ReadError::Protocol));
}

#[test]
fn identity_payloads() {
    let id = parse_identity(b"MS45.1|HW1|SW1|TESTVIN").unwrap();
    assert_eq!(
        id,
        Identity {
            variant: "MS45.1".into(),
            hardware_reference: "HW1".into(),
            software_reference: "SW1".into(),
            vin: "TESTVIN".into(),
        }
    );
    assert_eq!(parse_identity(b"MS44|HW1|SW1|TESTVIN"), Err(ReadError::Identity));
    assert_eq!(parse_identity(b"MS45.0|HW1|SW1"), Err(ReadError::Protocol));
    assert_eq!(parse_identity(b"MS45.0|HW1||VIN"), Err(ReadError::Protocol));
    assert_eq!(parse_identity(b"MS45.0|HW 1|SW1|VIN"), Err(ReadError::Protocol));
    assert_eq!(parse_identity(b"MS45.0|HW1|SW1|VIN|x"), Err(ReadError::Protocol));
    assert_eq!(parse_identity(b"\xff|HW1|SW1|VIN"), Err(ReadError::Protocol));
    let long = format!("MS45.0|{}|SW1|VIN", "A".repeat(65));
    assert_eq!(parse_identity(long.as_bytes()), Err(ReadError::Protocol));
    let longest = format!("MS45.0|{}|SW1|VIN", "A".repeat(64));
    assert!(parse_identity(longest.as_bytes()).is_ok());
}

#[test]
fn read_requests_are_bounded() {
    assert_eq!(read_request(MemoryRegion::ExternalFlash, 0, 16), Ok((1, 16)));
    assert_eq!(read_request(MemoryRegion::InternalMpc, 0x6ff00, 0x100), Ok((2, 0x100)));
    assert_eq!(
        read_request(MemoryRegion::ExternalFlash, 0, MAX_READ + 1),
        Err(ReadError::Range)
    );
    assert_eq!(read_request(MemoryRegion::ExternalFlash, 0, 0), Err(ReadError::Range));
    assert_eq!(read_request(MemoryRegion::InternalMpc, 0x6ff01, 0x100), Err(ReadError::Range));
    assert_eq!(check_read_len(vec![0; 15], 16), Err(ReadError::Protocol));
    assert_eq!(check_read_len(vec![0; 16], 16), Ok(vec![0; 16]));
}

#[test]
fn backup_requests_are_checked() {
    assert_eq!(check_backup_request("MS45.1", MemoryRegion::ExternalFlash, 0, 16), Ok(()));
    assert_eq!(
        check_backup_request("MS44", MemoryRegion::ExternalFlash, 0, 16),
        Err(BackupError::UnsupportedVariant)
    );
    assert_eq!(
        check_backup_request("MS45.0", MemoryRegion::ExternalFlash, 0, 0),
        Err(BackupError::LengthOutOfBounds)
    );
    assert_eq!(
        check_backup_request("MS45.0", MemoryRegion::InternalMpc, 0x60000, 0x20000),
        Err(BackupError::RangeOutOfBounds)
    );
}

#[test]
fn backup_identity_pin_uses_vin_digest() {
    let identity = Identity {
        variant: "MS45.1".into(),
        hardware_reference: "HW1".into(),
        software_reference: "SW1".into(),
        vin: "TESTVIN".into(),
    };
    let digest = format!("{:x}", Sha256::digest(b"TESTVIN"));
    assert!(identity_matches_pin(&identity, "MS45.1", "HW1", "SW1", &digest));
    assert!(identity_matches_pin(&identity, "MS45.1", "HW1", "SW1", &digest.to_uppercase()));
    assert!(!identity_matches_pin(&identity, "MS45.0", "HW1", "SW1", &digest));
    assert!(!identity_matches_pin(&identity, "MS45.1", "HW1", "SW1", "TESTVIN"));
}

#[test]
fn backup_blocks() {
    assert_eq!(next_block(0x100, 5000, 0), Ok((0x100, 4096)));
    assert_eq!(next_block(0x100, 5000, 4096), Ok((0x1100, 904)));
    assert_eq!(next_block(u32::MAX, 10, 1), Err(BackupError::AddressOverflow));
}

#[test]
fn backup_verification_compares_digests() {
    let saved = vec![1u8, 2, 3, 4];
    assert!(backup_verified(&saved, &[1, 2, 3, 4]));
    assert!(!backup_verified(&saved, &[1, 2, 3, 5]));
    assert!(!backup_verified(&saved, &[1, 2, 3]));
}

#[test]
fn backup_steps_cover_the_range() {
    let mut done = 0usize;
    let mut reads = Vec::new();
    while let Some((address, len)) = backup_step(0x100, 10_000, done).unwrap() {
        reads.push((address, len));
        done += len;
    }
    assert_eq!(reads, vec![(0x100, 4096), (0x1100, 4096), (0x2100, 1808)]);
    assert_eq!(backup_step(0, 0, 0), Ok(None));
    assert_eq!(backup_step(u32::MAX, 2, 1), Err(BackupError::AddressOverflow));
}

#[test]
fn io_failures_are_classified() {
    assert_eq!(classify_io_kind(IoKind::TimedOut), ReadError::Timeout);
    assert_eq!(classify_io_kind(IoKind::WouldBlock), ReadError::Timeout);
    assert_eq!(classify_io_kind(IoKind::UnexpectedEof), ReadError::Disconnected);
    assert_eq!(classify_io_kind(IoKind::ConnectionReset), ReadError::Disconnected);
    assert_eq!(classify_io_kind(IoKind::BrokenPipe), ReadError::Disconnected);
    assert_eq!(classify_io_kind(IoKind::Other), ReadError::Io);
}
