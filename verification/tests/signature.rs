use md5::{Digest, Md5};
use ms45_core::security_access_message;
use ms45_core::signature::{
    reorder_words_be_to_le, sign_ms45_parameters, sign_ms45_program, SECURITY_EXPONENT,
    SECURITY_MODULUS, SIGNING_EXPONENT, SIGNING_MODULUS,
};
use ms45_core::BinaryError;
use num_bigint::BigUint;

const SECURITY_N: &str = "8972339025878534711764289273376673716657892103603163846525142300863027035823902824753024958104010374518577719658056297243325957293507856591918471309133927";
const SECURITY_D: &str = "3845288153947943447898981117161431592853382330115641648510775271798440158210161294390718397115404567798616968157688687573437683643982238798574542074351303";
const SIGNING_N: &str = "8470472580328006956677424405159809178175955696534718361218518906571634405286747173565502454089691240931470915432212928785673566143706092135925769557255439";
const SIGNING_D: &str = "7260405068852577391437792347279836438436533454172615738187301919918543775959908116508429649500721130520546364846625732843778800986047617824899475327781303";

fn rsa_private(message: &[u8], modulus: &str, exponent: &str) -> Vec<u8> {
    let n = BigUint::parse_bytes(modulus.as_bytes(), 10).unwrap();
    let d = BigUint::parse_bytes(exponent.as_bytes(), 10).unwrap();
    BigUint::from_bytes_le(message).modpow(&d, &n).to_bytes_le()
}

fn reorder(input: &[u8], output_len: usize) -> Vec<u8> {
    let mut padded = [0; 64];
    let copy_len = input.len().min(64);
    padded[..copy_len].copy_from_slice(&input[..copy_len]);
    let mut out = vec![0; output_len];
    for i in 0..16 {
        out[4 * i] = padded[3 + 4 * i];
        out[1 + 4 * i] = padded[2 + 4 * i];
        out[2 + 4 * i] = padded[1 + 4 * i];
        out[3 + 4 * i] = padded[4 * i];
    }
    out
}

#[test]
fn security_access_message_shape_matches_ediabas_payload() {
    let msg = security_access_message([1, 2, 3, 4], [5, 6, 7, 8], &[9, 10, 11, 12]);

    assert_eq!(msg.len(), 90);
    assert_eq!(msg[0], 1);
    assert_eq!(msg[24], 0x10);
    assert_eq!(msg[89], 3);
}

#[test]
fn key_constants_are_the_decimal_keys() {
    let le = |s: &str| BigUint::parse_bytes(s.as_bytes(), 10).unwrap().to_bytes_le();
    assert_eq!(le(SECURITY_N), SECURITY_MODULUS.to_vec());
    assert_eq!(le(SECURITY_D), SECURITY_EXPONENT.to_vec());
    assert_eq!(le(SIGNING_N), SIGNING_MODULUS.to_vec());
    assert_eq!(le(SIGNING_D), SIGNING_EXPONENT.to_vec());
}

#[test]
fn security_access_message_payload_is_encrypted_digest() {
    let seed = [9u8, 10, 11, 12];
    let msg = security_access_message([1, 2, 3, 4], [5, 6, 7, 8], &seed);
    let digest = Md5::digest([1u8, 2, 3, 4, 5, 6, 7, 8, 9, 10, 11, 12]);
    let mut expected = reorder(&rsa_private(&digest, SECURITY_N, SECURITY_D), 65);
    expected[64] = 3;
    assert_eq!(
        &msg[..25],
        &[
            0x01, 0x00, 0x00, 0x00, 0x0a, 0x00, 0x00, 0x00, 0x00, 0x00, 0x00, 0x00, 0x00, 0x44,
            0x00, 0x00, 0x00, 0x00, 0x00, 0x00, 0x00, 0x00, 0x00, 0x00, 0x10,
        ]
    );
    assert_eq!(&msg[25..], &expected[..]);
    // a different seed gives a different payload
    let other = security_access_message([1, 2, 3, 4], [5, 6, 7, 8], &[9, 10, 11, 13]);
    assert_ne!(msg, other);
}

#[test]
fn reorder_swaps_bytes_within_words_and_pads() {
    let input: Vec<u8> = (1..=8).collect();
    let out = reorder_words_be_to_le(&input, 65);
    assert_eq!(out.len(), 65);
    assert_eq!(&out[..8], &[4, 3, 2, 1, 8, 7, 6, 5]);
    assert!(out[8..].iter().all(|&b| b == 0));
    let long: Vec<u8> = (0..70).collect();
    assert_eq!(reorder_words_be_to_le(&long, 64), reorder(&long, 64));
}

fn parameter_block_with_segments() -> Vec<u8> {
    let mut bin = vec![0u8; 0x400];
    for (i, byte) in bin.iter_mut().enumerate() {
        *byte = (i * 7 % 256) as u8;
    }
    // two segments: 0x200..0x210 and 0x300..0x308 (addresses relative to 0xfff40000)
    bin[0x130..0x134].copy_from_slice(&2u32.to_be_bytes());
    bin[0x134..0x138].copy_from_slice(&0xfff4_0200u32.to_be_bytes());
    bin[0x13c..0x140].copy_from_slice(&0xfff4_0300u32.to_be_bytes());
    bin[0x144..0x148].copy_from_slice(&0x10u32.to_be_bytes());
    bin[0x148..0x14c].copy_from_slice(&0x8u32.to_be_bytes());
    bin
}

#[test]
fn parameter_signature_covers_listed_segments() {
    let mut bin = parameter_block_with_segments();
    let before = bin.clone();
    sign_ms45_parameters(&mut bin).unwrap();
    let mut hashed = before[0x200..0x210].to_vec();
    hashed.extend_from_slice(&before[0x300..0x308]);
    let digest = Md5::digest(&hashed);
    let signature = reorder(&rsa_private(&digest, SIGNING_N, SIGNING_D), 64);
    assert_eq!(&bin[0x174..0x1b4], &signature[..]);
    assert_eq!(&bin[..0x174], &before[..0x174]);
    assert_eq!(&bin[0x1b4..], &before[0x1b4..]);
}

#[test]
fn parameter_signature_errors_leave_block_unchanged() {
    let mut bin = parameter_block_with_segments();
    bin[0x134..0x138].copy_from_slice(&0x1000u32.to_be_bytes());
    let before = bin.clone();
    assert_eq!(sign_ms45_parameters(&mut bin), Err(BinaryError::InvalidAddress));
    assert_eq!(bin, before);

    let mut bin = parameter_block_with_segments();
    bin[0x144..0x148].copy_from_slice(&0x1000u32.to_be_bytes());
    assert_eq!(
        sign_ms45_parameters(&mut bin),
        Err(BinaryError::OutOfRange { offset: 0x200, len: 0x1000 })
    );

    let mut short = vec![0u8; 0x100];
    assert_eq!(
        sign_ms45_parameters(&mut short),
        Err(BinaryError::OutOfRange { offset: 0x130, len: 4 })
    );

    let mut no_room = vec![0u8; 0x180];
    assert_eq!(
        sign_ms45_parameters(&mut no_room),
        Err(BinaryError::OutOfRange { offset: 0x174, len: 64 })
    );
}

#[test]
fn program_signature_maps_segments_onto_flash_and_mpc() {
    let mut flash = vec![0u8; 0x100000];
    let mut mpc = vec![0u8; 0x70000];
    for (i, byte) in mpc.iter_mut().enumerate() {
        *byte = (i % 253) as u8;
    }
    for (i, byte) in flash.iter_mut().enumerate().skip(0x61000) {
        *byte = (i % 241) as u8;
    }
    flash[0x60030..0x60034].copy_from_slice(&2u32.to_be_bytes());
    flash[0x60034..0x60038].copy_from_slice(&0x0000_1000u32.to_be_bytes());
    flash[0x6003c..0x60040].copy_from_slice(&0xfff6_1000u32.to_be_bytes());
    flash[0x6004c..0x60050].copy_from_slice(&0x20u32.to_be_bytes());
    flash[0x60050..0x60054].copy_from_slice(&0x40u32.to_be_bytes());
    let before = flash.clone();
    sign_ms45_program(&mut flash, &mpc).unwrap();
    let mut hashed = mpc[0x1000..0x1020].to_vec();
    hashed.extend_from_slice(&before[0x61000..0x61040]);
    let signature = reorder(&rsa_private(&Md5::digest(&hashed), SIGNING_N, SIGNING_D), 64);
    assert_eq!(&flash[0x60074..0x600b4], &signature[..]);
    assert_eq!(&flash[..0x60074], &before[..0x60074]);
    assert_eq!(&flash[0x600b4..], &before[0x600b4..]);
}

#[test]
fn program_signature_rejects_bad_descriptors() {
    let mut flash = vec![0u8; 0x100000];
    let mpc = vec![0u8; 0x70000];
    flash[0x60030..0x60034].copy_from_slice(&1u32.to_be_bytes());
    // zero length at address 0: the range would end before it starts
    assert_eq!(sign_ms45_program(&mut flash, &mpc), Err(BinaryError::InvalidAddress));
    // a range that runs past the end of the MPC image
    flash[0x60034..0x60038].copy_from_slice(&0x6fff0u32.to_be_bytes());
    flash[0x6004c..0x60050].copy_from_slice(&0x20u32.to_be_bytes());
    assert_eq!(
        sign_ms45_program(&mut flash, &mpc),
        Err(BinaryError::OutOfRange { offset: 0x6fff0, len: 0x20 })
    );
    // a range whose end wraps past 32 bits
    flash[0x60034..0x60038].copy_from_slice(&0xffff_fff0u32.to_be_bytes());
    assert_eq!(sign_ms45_program(&mut flash, &mpc), Err(BinaryError::InvalidAddress));
}

#[test]
fn signing_a_signed_block_again_changes_nothing() {
    let mut bin = parameter_block_with_segments();
    sign_ms45_parameters(&mut bin).unwrap();
    let once = bin.clone();
    sign_ms45_parameters(&mut bin).unwrap();
    assert_eq!(bin, once);
}
