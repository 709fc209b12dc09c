//! RSA signatures of MS45 parameter blocks and programs, and the security
//! access message.
use crate::binary::BinaryError;
use crate::crypto::{le_nat, lemma_le_nat_positive, md5, md5_digest, modpow_le, modpow_le_spec};
use crate::binary::EXTERNAL_FLASH_BASE;
use crate::image::{be_u32, mapped_segment, mapped_segment_spec, read_be_u32, read_be_u32_spec};
use vstd::prelude::*;

verus! {

/// Modulus of the security access key, little-endian.
pub const SECURITY_MODULUS: [u8; 64] = [
    0x67, 0x88, 0x9f, 0x14, 0x68, 0x3c, 0xc3, 0x09, 0x2f, 0xd4, 0x6e, 0x17,
    0x0d, 0x99, 0x70, 0x4d, 0xe7, 0x63, 0x07, 0x40, 0x46, 0x63, 0x3f, 0x83,
    0xfb, 0xb5, 0x0e, 0xce, 0xaa, 0x6e, 0x8c, 0xee, 0x5a, 0x90, 0xb1, 0xd4,
    0xd9, 0x83, 0xa3, 0x9f, 0x5c, 0x4a, 0x16, 0x97, 0x74, 0xd0, 0xe8, 0xee,
    0x6b, 0x55, 0x2d, 0xc6, 0xe6, 0x21, 0xec, 0x55, 0x73, 0x2c, 0xf7, 0x12,
    0x2e, 0xe1, 0x4f, 0xab,
];

/// Private exponent of the security access key, little-endian.
pub const SECURITY_EXPONENT: [u8; 64] = [
    0xc7, 0x0e, 0xbb, 0xd6, 0xe5, 0x74, 0xe3, 0xce, 0xe1, 0x8a, 0xff, 0xe8,
    0x28, 0x41, 0xd2, 0x6d, 0x39, 0xb9, 0xb3, 0xfd, 0x3f, 0x89, 0xd9, 0x53,
    0xce, 0x66, 0x94, 0xa7, 0xbc, 0x68, 0xce, 0xd3, 0x4a, 0x19, 0x4c, 0xa4,
    0xef, 0x13, 0x46, 0xfb, 0xb9, 0xd6, 0x9b, 0xf7, 0x31, 0x10, 0xf6, 0x8a,
    0xc0, 0x6d, 0x13, 0x9e, 0xd0, 0xa0, 0x40, 0x00, 0x56, 0xa5, 0xd7, 0x75,
    0x81, 0x60, 0x6b, 0x49,
];

/// Modulus of the flash signing key, little-endian.
pub const SIGNING_MODULUS: [u8; 64] = [
    0x0f, 0x25, 0x78, 0xa6, 0xe6, 0x45, 0x30, 0x6b, 0x31, 0x2e, 0x5c, 0x74,
    0x9f, 0xcd, 0x82, 0x68, 0x0c, 0xed, 0x34, 0xeb, 0x4a, 0xcb, 0x61, 0x51,
    0x19, 0x66, 0x07, 0xf4, 0x78, 0x18, 0x9a, 0x85, 0x73, 0xab, 0x35, 0x1a,
    0xfa, 0x3a, 0xfd, 0xce, 0x51, 0xc2, 0x9d, 0xe2, 0xa2, 0xbf, 0x1d, 0x60,
    0xc6, 0x6b, 0x12, 0xef, 0xc9, 0x5f, 0x86, 0x31, 0xb4, 0x74, 0x4d, 0xce,
    0xb9, 0xce, 0xba, 0xa1,
];

/// Private exponent of the flash signing key, little-endian.
pub const SIGNING_EXPONENT: [u8; 64] = [
    0xb7, 0x89, 0xb5, 0xb3, 0xad, 0xb5, 0x85, 0x20, 0x4c, 0x89, 0xc1, 0xb9,
    0x34, 0xba, 0x3b, 0xbf, 0x6b, 0x73, 0x4a, 0x85, 0x0b, 0x7c, 0xfe, 0x42,
    0x71, 0x09, 0x99, 0x4c, 0x2e, 0x7a, 0xf4, 0x57, 0xcf, 0x49, 0xc0, 0xa8,
    0x68, 0xe9, 0x8f, 0xfa, 0xfc, 0x81, 0x19, 0x79, 0x42, 0xa4, 0x62, 0x52,
    0x3c, 0x13, 0xa2, 0x3a, 0xf6, 0x08, 0x2a, 0x98, 0xe3, 0x1a, 0xb0, 0x67,
    0xe8, 0x1e, 0xa0, 0x8a,
];

/// Byte `k` of the first 64 bytes of `input`, zero past its end.
pub open spec fn padded_byte(input: Seq<u8>, k: int) -> u8 {
    if 0 <= k < input.len() && k < 64 {
        input[k]
    } else {
        0
    }
}

/// The first 64 bytes of `input` (zero-padded), with the bytes of each 32-bit
/// word reversed, followed by zeros up to `output_len` bytes.
pub open spec fn reorder_spec(input: Seq<u8>, output_len: nat) -> Seq<u8> {
    Seq::new(
        output_len,
        |j: int|
            if j < 64 {
                padded_byte(input, 4 * (j / 4) + 3 - j % 4)
            } else {
                0
            },
    )
}

fn padded_byte_exec(input: &[u8], k: usize) -> (b: u8)
    ensures
        b == padded_byte(input@, k as int),
{
    if k < input.len() && k < 64 {
        input[k]
    } else {
        0
    }
}

/// Reverses the byte order of each of the sixteen 32-bit words of the first 64
/// bytes of `input` (zero-padded) and pads the result with zeros to `output_len`.
pub fn reorder_words_be_to_le(input: &[u8], output_len: usize) -> (out: Vec<u8>)
    requires
        output_len >= 64,
    ensures
        out@ == reorder_spec(input@, output_len as nat),
{
    let mut out: Vec<u8> = vec![0u8; output_len];
    let mut i: usize = 0;
    while i < 16
        invariant
            i <= 16,
            output_len >= 64,
            out@.len() == output_len,
            forall|j: int|
                0 <= j < output_len ==> #[trigger] out@[j] == (if j < 4 * i {
                    padded_byte(input@, 4 * (j / 4) + 3 - j % 4)
                } else {
                    0
                }),
        decreases 16 - i,
    {
        out[4 * i] = padded_byte_exec(input, 3 + 4 * i);
        out[1 + 4 * i] = padded_byte_exec(input, 2 + 4 * i);
        out[2 + 4 * i] = padded_byte_exec(input, 1 + 4 * i);
        out[3 + 4 * i] = padded_byte_exec(input, 4 * i);
        i = i + 1;
    }
    assert(out@ =~= reorder_spec(input@, output_len as nat));
    out
}

/// The RSA private-key operation with the signing key, as little-endian bytes.
pub open spec fn signing_rsa(message: Seq<u8>) -> Seq<u8> {
    modpow_le_spec(message, SIGNING_EXPONENT@, SIGNING_MODULUS@)
}

/// The RSA private-key operation with the security access key.
pub open spec fn security_rsa(message: Seq<u8>) -> Seq<u8> {
    modpow_le_spec(message, SECURITY_EXPONENT@, SECURITY_MODULUS@)
}

/// The 64-byte signature over the bytes `hashed`: the MD5 digest, raised to the
/// signing exponent, word-reordered.
pub open spec fn signature_of(hashed: Seq<u8>) -> Seq<u8> {
    reorder_spec(signing_rsa(md5_digest(hashed)), 64)
}

fn signing_rsa_exec(message: &[u8]) -> (r: Vec<u8>)
    ensures
        r@ == signing_rsa(message@),
{
    proof {
        assert(SIGNING_MODULUS@[63] == 0xa1);
        lemma_le_nat_positive(SIGNING_MODULUS@, 63);
    }
    modpow_le(message, &SIGNING_EXPONENT, &SIGNING_MODULUS)
}

fn security_rsa_exec(message: &[u8]) -> (r: Vec<u8>)
    ensures
        r@ == security_rsa(message@),
{
    proof {
        assert(SECURITY_MODULUS@[63] == 0xab);
        lemma_le_nat_positive(SECURITY_MODULUS@, 63);
    }
    modpow_le(message, &SECURITY_EXPONENT, &SECURITY_MODULUS)
}

/// `bin` with the bytes at `offset` replaced by `data`.
pub open spec fn splice(bin: Seq<u8>, offset: int, data: Seq<u8>) -> Seq<u8> {
    bin.take(offset) + data + bin.skip(offset + data.len())
}

/// `read_be_u32` at an offset given as a wide integer.
pub open spec fn word_at(buf: Seq<u8>, offset: u64) -> Result<u32, BinaryError> {
    if offset + 4 <= buf.len() {
        Ok(be_u32(buf, offset as int))
    } else {
        Err(BinaryError::OutOfRange { offset: offset as usize, len: 4 })
    }
}

fn read_word_at(buf: &[u8], offset: u64) -> (r: Result<u32, BinaryError>)
    ensures
        r == word_at(buf@, offset),
{
    if offset >= buf.len() as u64 {
        return Err(BinaryError::OutOfRange { offset: offset as usize, len: 4 });
    }
    read_be_u32(buf, offset as usize)
}

/// Address at which the parameter block is mapped.
pub const PARAMETER_BASE: u32 = 0xfff4_0000;

/// The bytes of parameter segment `i`: its start address is the word at
/// `num_off + 4 + 8 i` (relative to `PARAMETER_BASE`), its length the word at
/// `len_off + 4 i`.
pub open spec fn parameter_segment(bin: Seq<u8>, num_off: u64, len_off: u64, i: u64) -> Result<
    Seq<u8>,
    BinaryError,
> {
    match word_at(bin, (num_off + 4 + 8 * i) as u64) {
        Err(e) => Err(e),
        Ok(addr) => if addr < PARAMETER_BASE {
            Err(BinaryError::InvalidAddress)
        } else {
            match word_at(bin, (len_off + 4 * i) as u64) {
                Err(e) => Err(e),
                Ok(length) => {
                    let start = addr - PARAMETER_BASE;
                    if start + length <= bin.len() {
                        Ok(bin.subrange(start, start + length))
                    } else {
                        Err(BinaryError::OutOfRange { offset: start as usize, len: length as usize })
                    }
                },
            }
        },
    }
}

/// The concatenation of parameter segments `0..k`, or the first error.
pub open spec fn parameter_segments(bin: Seq<u8>, num_off: u64, len_off: u64, k: nat) -> Result<
    Seq<u8>,
    BinaryError,
>
    decreases k,
{
    if k == 0 {
        Ok(Seq::empty())
    } else {
        match parameter_segments(bin, num_off, len_off, (k - 1) as nat) {
            Err(e) => Err(e),
            Ok(acc) => match parameter_segment(bin, num_off, len_off, (k - 1) as u64) {
                Err(e) => Err(e),
                Ok(seg) => Ok(acc + seg),
            },
        }
    }
}

/// The bytes hashed for a parameter block's signature: the segments that the
/// descriptor table at `num_off` (count, then start addresses) and `len_off`
/// (lengths) lists, in order.
pub open spec fn parameter_hash_input(bin: Seq<u8>, num_off: u64, len_off: u64) -> Result<
    Seq<u8>,
    BinaryError,
> {
    match word_at(bin, num_off) {
        Err(e) => Err(e),
        Ok(count) => parameter_segments(bin, num_off, len_off, count as nat),
    }
}

proof fn lemma_parameter_segments_err(bin: Seq<u8>, num_off: u64, len_off: u64, k: nat, j: nat)
    requires
        k <= j,
        parameter_segments(bin, num_off, len_off, k) is Err,
    ensures
        parameter_segments(bin, num_off, len_off, j) == parameter_segments(
            bin,
            num_off,
            len_off,
            k,
        ),
    decreases j - k,
{
    if k < j {
        lemma_parameter_segments_err(bin, num_off, len_off, k, (j - 1) as nat);
    }
}

fn parameter_segment_exec(bin: &[u8], num_off: u64, len_off: u64, i: u64) -> (r: Result<
    &[u8],
    BinaryError,
>)
    requires
        num_off <= 0x1_0000_0000,
        len_off <= 0x1_0000_0000,
        i <= 0xffff_ffff,
    ensures
        match (r, parameter_segment(bin@, num_off, len_off, i)) {
            (Ok(s), Ok(t)) => s@ == t,
            (Err(e), Err(f)) => e == f,
            _ => false,
        },
{
    let addr = read_word_at(bin, num_off + 4 + 8 * i)?;
    if addr < PARAMETER_BASE {
        return Err(BinaryError::InvalidAddress);
    }
    let length = read_word_at(bin, len_off + 4 * i)?;
    let start = addr - PARAMETER_BASE;
    if start as u64 + length as u64 > bin.len() as u64 {
        return Err(BinaryError::OutOfRange { offset: start as usize, len: length as usize });
    }
    Ok(&bin[start as usize..start as usize + length as usize])
}

/// Collects the segments of a parameter block's descriptor table.
fn parameter_hash_input_exec(bin: &[u8], num_off: u64, len_off: u64) -> (r: Result<
    Vec<u8>,
    BinaryError,
>)
    requires
        num_off <= 0x1_0000_0000,
        len_off <= 0x1_0000_0000,
    ensures
        match (r, parameter_hash_input(bin@, num_off, len_off)) {
            (Ok(s), Ok(t)) => s@ == t,
            (Err(e), Err(f)) => e == f,
            _ => false,
        },
{
    let count = read_word_at(bin, num_off)?;
    let mut data: Vec<u8> = Vec::new();
    let mut i: u32 = 0;
    while i < count
        invariant
            num_off <= 0x1_0000_0000,
            len_off <= 0x1_0000_0000,
            i <= count,
            word_at(bin@, num_off) == Ok::<u32, BinaryError>(count),
            parameter_segments(bin@, num_off, len_off, i as nat) == Ok::<Seq<u8>, BinaryError>(
                data@,
            ),
        decreases count - i,
    {
        match parameter_segment_exec(bin, num_off, len_off, i as u64) {
            Err(e) => {
                proof {
                    lemma_parameter_segments_err(bin@, num_off, len_off, (i + 1) as nat, count as nat);
                }
                return Err(e);
            },
            Ok(seg) => {
                data.extend_from_slice(seg);
                proof {
                    assert(data@ =~= parameter_segments(bin@, num_off, len_off, i as nat).unwrap() + seg@);
                }
            },
        }
        i = i + 1;
    }
    Ok(data)
}

/// The bytes covered by program segment `i`: start address at
/// `num_off + 4 + 8 i`, length at `len_off + 4 i`, both in the external flash,
/// mapped onto the external flash or the MPC image.
pub open spec fn program_segment(flash: Seq<u8>, mpc: Seq<u8>, num_off: u64, len_off: u64, i: u64) -> Result<
    Seq<u8>,
    BinaryError,
> {
    match word_at(flash, (num_off + 4 + 8 * i) as u64) {
        Err(e) => Err(e),
        Ok(start) => match word_at(flash, (len_off + 4 * i) as u64) {
            Err(e) => Err(e),
            Ok(length) => if start + length > u32::MAX || start + length == 0 {
                Err(BinaryError::InvalidAddress)
            } else {
                mapped_segment_spec(flash, mpc, start, (start + length - 1) as u32)
            },
        },
    }
}

/// The concatenation of program segments `0..k`, or the first error.
pub open spec fn program_segments(flash: Seq<u8>, mpc: Seq<u8>, num_off: u64, len_off: u64, k: nat) -> Result<
    Seq<u8>,
    BinaryError,
>
    decreases k,
{
    if k == 0 {
        Ok(Seq::empty())
    } else {
        match program_segments(flash, mpc, num_off, len_off, (k - 1) as nat) {
            Err(e) => Err(e),
            Ok(acc) => match program_segment(flash, mpc, num_off, len_off, (k - 1) as u64) {
                Err(e) => Err(e),
                Ok(seg) => Ok(acc + seg),
            },
        }
    }
}

/// The bytes hashed for a program signature: the segments listed by the
/// descriptor table of the external flash, in order.
pub open spec fn program_hash_input(flash: Seq<u8>, mpc: Seq<u8>, num_off: u64, len_off: u64) -> Result<
    Seq<u8>,
    BinaryError,
> {
    match word_at(flash, num_off) {
        Err(e) => Err(e),
        Ok(count) => program_segments(flash, mpc, num_off, len_off, count as nat),
    }
}

proof fn lemma_program_segments_err(
    flash: Seq<u8>,
    mpc: Seq<u8>,
    num_off: u64,
    len_off: u64,
    k: nat,
    j: nat,
)
    requires
        k <= j,
        program_segments(flash, mpc, num_off, len_off, k) is Err,
    ensures
        program_segments(flash, mpc, num_off, len_off, j) == program_segments(
            flash,
            mpc,
            num_off,
            len_off,
            k,
        ),
    decreases j - k,
{
    if k < j {
        lemma_program_segments_err(flash, mpc, num_off, len_off, k, (j - 1) as nat);
    }
}

fn program_segment_exec<'a>(flash: &'a [u8], mpc: &'a [u8], num_off: u64, len_off: u64, i: u64) -> (r: Result<
    &'a [u8],
    BinaryError,
>)
    requires
        num_off <= 0x1_0000_0000,
        len_off <= 0x1_0000_0000,
        i <= 0xffff_ffff,
    ensures
        match (r, program_segment(flash@, mpc@, num_off, len_off, i)) {
            (Ok(s), Ok(t)) => s@ == t,
            (Err(e), Err(f)) => e == f,
            _ => false,
        },
{
    let start = read_word_at(flash, num_off + 4 + 8 * i)?;
    let length = read_word_at(flash, len_off + 4 * i)?;
    let end = match start.checked_add(length) {
        Some(v) => match v.checked_sub(1) {
            Some(w) => w,
            None => return Err(BinaryError::InvalidAddress),
        },
        None => return Err(BinaryError::InvalidAddress),
    };
    mapped_segment(flash, mpc, start, end)
}

fn program_hash_input_exec(flash: &[u8], mpc: &[u8], num_off: u64, len_off: u64) -> (r: Result<
    Vec<u8>,
    BinaryError,
>)
    requires
        num_off <= 0x1_0000_0000,
        len_off <= 0x1_0000_0000,
    ensures
        match (r, program_hash_input(flash@, mpc@, num_off, len_off)) {
            (Ok(s), Ok(t)) => s@ == t,
            (Err(e), Err(f)) => e == f,
            _ => false,
        },
{
    let count = read_word_at(flash, num_off)?;
    let mut data: Vec<u8> = Vec::new();
    let mut i: u32 = 0;
    while i < count
        invariant
            num_off <= 0x1_0000_0000,
            len_off <= 0x1_0000_0000,
            i <= count,
            word_at(flash@, num_off) == Ok::<u32, BinaryError>(count),
            program_segments(flash@, mpc@, num_off, len_off, i as nat) == Ok::<
                Seq<u8>,
                BinaryError,
            >(data@),
        decreases count - i,
    {
        match program_segment_exec(flash, mpc, num_off, len_off, i as u64) {
            Err(e) => {
                proof {
                    lemma_program_segments_err(
                        flash@,
                        mpc@,
                        num_off,
                        len_off,
                        (i + 1) as nat,
                        count as nat,
                    );
                }
                return Err(e);
            },
            Ok(seg) => {
                data.extend_from_slice(seg);
                proof {
                    assert(data@ =~= program_segments(flash@, mpc@, num_off, len_off, i as nat).unwrap()
                        + seg@);
                }
            },
        }
        i = i + 1;
    }
    Ok(data)
}

/// Returns the MD5 digest of the parameter segments listed by the descriptor
/// table at `segment_number_offset` / `segment_length_offset`.
pub fn hash_parameter_segments(
    bin: &[u8],
    segment_number_offset: usize,
    segment_length_offset: usize,
) -> (r: Result<[u8; 16], BinaryError>)
    requires
        segment_number_offset <= 0x1_0000_0000,
        segment_length_offset <= 0x1_0000_0000,
    ensures
        match parameter_hash_input(
            bin@,
            segment_number_offset as u64,
            segment_length_offset as u64,
        ) {
            Ok(data) => r matches Ok(h) && h@ == md5_digest(data),
            Err(e) => r == Err::<[u8; 16], BinaryError>(e),
        },
{
    let data = parameter_hash_input_exec(
        bin,
        segment_number_offset as u64,
        segment_length_offset as u64,
    )?;
    Ok(md5(data.as_slice()))
}

/// Returns the MD5 digest of the program segments listed by the descriptor
/// table of `flash`.
pub fn hash_program_segments(
    flash: &[u8],
    mpc: &[u8],
    segment_number_offset: usize,
    segment_length_offset: usize,
) -> (r: Result<[u8; 16], BinaryError>)
    requires
        segment_number_offset <= 0x1_0000_0000,
        segment_length_offset <= 0x1_0000_0000,
    ensures
        match program_hash_input(
            flash@,
            mpc@,
            segment_number_offset as u64,
            segment_length_offset as u64,
        ) {
            Ok(data) => r matches Ok(h) && h@ == md5_digest(data),
            Err(e) => r == Err::<[u8; 16], BinaryError>(e),
        },
{
    let data = program_hash_input_exec(
        flash,
        mpc,
        segment_number_offset as u64,
        segment_length_offset as u64,
    )?;
    Ok(md5(data.as_slice()))
}

/// Descriptor table of a parameter block: segment count and start addresses.
pub const PARAMETER_SEGMENT_NUMBER_OFFSET: usize = 0x130;

/// Descriptor table of a parameter block: segment lengths.
pub const PARAMETER_SEGMENT_LENGTH_OFFSET: usize = 0x144;

/// Where a parameter block's signature is stored.
pub const PARAMETER_SIGNATURE_OFFSET: usize = 0x174;

/// Descriptor table of a program: segment count and start addresses.
pub const PROGRAM_SEGMENT_NUMBER_OFFSET: usize = 0x60030;

/// Descriptor table of a program: segment lengths.
pub const PROGRAM_SEGMENT_LENGTH_OFFSET: usize = 0x6004c;

/// Where a program's signature is stored in the external flash.
pub const PROGRAM_SIGNATURE_OFFSET: usize = 0x60074;

/// Length of a signature.
pub const SIGNATURE_LEN: usize = 64;

/// The parameter block once signed, or why it cannot be: the signature over
/// the listed segments is stored at 0x174.
pub open spec fn signed_parameters(bin: Seq<u8>) -> Result<Seq<u8>, BinaryError> {
    match parameter_hash_input(
        bin,
        PARAMETER_SEGMENT_NUMBER_OFFSET as u64,
        PARAMETER_SEGMENT_LENGTH_OFFSET as u64,
    ) {
        Err(e) => Err(e),
        Ok(hashed) => if PARAMETER_SIGNATURE_OFFSET + SIGNATURE_LEN <= bin.len() {
            Ok(splice(bin, PARAMETER_SIGNATURE_OFFSET as int, signature_of(hashed)))
        } else {
            Err(BinaryError::OutOfRange { offset: PARAMETER_SIGNATURE_OFFSET, len: SIGNATURE_LEN })
        },
    }
}

/// The external flash once its program is signed, or why it cannot be: the
/// signature over the listed segments is stored at 0x60074.
pub open spec fn signed_program(flash: Seq<u8>, mpc: Seq<u8>) -> Result<Seq<u8>, BinaryError> {
    match program_hash_input(
        flash,
        mpc,
        PROGRAM_SEGMENT_NUMBER_OFFSET as u64,
        PROGRAM_SEGMENT_LENGTH_OFFSET as u64,
    ) {
        Err(e) => Err(e),
        Ok(hashed) => if PROGRAM_SIGNATURE_OFFSET + SIGNATURE_LEN <= flash.len() {
            Ok(splice(flash, PROGRAM_SIGNATURE_OFFSET as int, signature_of(hashed)))
        } else {
            Err(BinaryError::OutOfRange { offset: PROGRAM_SIGNATURE_OFFSET, len: SIGNATURE_LEN })
        },
    }
}

fn write_bytes(bin: &mut [u8], offset: usize, data: &[u8])
    requires
        offset + data@.len() <= old(bin)@.len(),
    ensures
        final(bin)@ == splice(old(bin)@, offset as int, data@),
{
    let mut k: usize = 0;
    while k < data.len()
        invariant
            k <= data@.len(),
            offset + data@.len() <= bin@.len(),
            bin@.len() == old(bin)@.len(),
            forall|j: int|
                0 <= j < bin@.len() ==> #[trigger] bin@[j] == (if offset <= j < offset + k {
                    data@[j - offset]
                } else {
                    old(bin)@[j]
                }),
        decreases data@.len() - k,
    {
        assert(bin@.len() == bin.len());
        bin[offset + k] = data[k];
        k = k + 1;
    }
    assert(bin@ =~= splice(old(bin)@, offset as int, data@));
}

/// Signs a parameter block: the MD5 digest of the segments that its
/// descriptor table lists is encrypted with the signing key and stored,
/// word-reordered, at 0x174. On an error the block is left unchanged.
pub fn sign_ms45_parameters(bin: &mut [u8]) -> (r: Result<(), BinaryError>)
    ensures
        match signed_parameters(old(bin)@) {
            Ok(signed) => r is Ok && final(bin)@ == signed,
            Err(e) => r == Err::<(), BinaryError>(e) && final(bin)@ == old(bin)@,
        },
{
    let hash = hash_parameter_segments(
        bin,
        PARAMETER_SEGMENT_NUMBER_OFFSET,
        PARAMETER_SEGMENT_LENGTH_OFFSET,
    )?;
    let encrypted = signing_rsa_exec(&hash);
    let signature = reorder_words_be_to_le(encrypted.as_slice(), SIGNATURE_LEN);
    if PARAMETER_SIGNATURE_OFFSET + SIGNATURE_LEN > bin.len() {
        return Err(
            BinaryError::OutOfRange { offset: PARAMETER_SIGNATURE_OFFSET, len: SIGNATURE_LEN },
        );
    }
    write_bytes(bin, PARAMETER_SIGNATURE_OFFSET, signature.as_slice());
    Ok(())
}

/// Signs a program: the MD5 digest of the segments that the external flash's
/// descriptor table lists (mapped onto the flash or the MPC image) is encrypted
/// with the signing key and stored, word-reordered, at 0x60074 of the flash.
/// On an error the flash is left unchanged.
pub fn sign_ms45_program(flash: &mut [u8], mpc: &[u8]) -> (r: Result<(), BinaryError>)
    ensures
        match signed_program(old(flash)@, mpc@) {
            Ok(signed) => r is Ok && final(flash)@ == signed,
            Err(e) => r == Err::<(), BinaryError>(e) && final(flash)@ == old(flash)@,
        },
{
    let hash = hash_program_segments(
        flash,
        mpc,
        PROGRAM_SEGMENT_NUMBER_OFFSET,
        PROGRAM_SEGMENT_LENGTH_OFFSET,
    )?;
    let encrypted = signing_rsa_exec(&hash);
    let signature = reorder_words_be_to_le(encrypted.as_slice(), SIGNATURE_LEN);
    if PROGRAM_SIGNATURE_OFFSET + SIGNATURE_LEN > flash.len() {
        return Err(BinaryError::OutOfRange { offset: PROGRAM_SIGNATURE_OFFSET, len: SIGNATURE_LEN });
    }
    write_bytes(flash, PROGRAM_SIGNATURE_OFFSET, signature.as_slice());
    Ok(())
}

/// The fixed 25-byte header of a security access message.
pub open spec fn security_header() -> Seq<u8> {
    seq![
        0x01u8, 0x00, 0x00, 0x00, 0x0a, 0x00, 0x00, 0x00, 0x00, 0x00, 0x00, 0x00, 0x00, 0x44,
        0x00, 0x00, 0x00, 0x00, 0x00, 0x00, 0x00, 0x00, 0x00, 0x00, 0x10,
    ]
}

/// What `security_access_message(user_id, serial_number, seed)` returns: the
/// header, then the MD5 digest of `user_id ++ serial_number ++ seed` encrypted
/// with the security key and word-reordered into 65 bytes, whose last byte is 3.
pub open spec fn security_message_spec(user_id: Seq<u8>, serial_number: Seq<u8>, seed: Seq<u8>) -> Seq<u8> {
    security_header() + reorder_spec(
        security_rsa(md5_digest(user_id + serial_number + seed)),
        65,
    ).update(64, 3)
}

/// Builds the binary authentication payload for security access from the
/// tester's user id, the ECU's serial number and its seed.
pub fn security_access_message(user_id: [u8; 4], serial_number: [u8; 4], seed: &[u8]) -> (msg: Vec<u8>)
    ensures
        msg@ == security_message_spec(user_id@, serial_number@, seed@),
        msg@.len() == 90,
{
    let mut input: Vec<u8> = Vec::new();
    input.extend_from_slice(&user_id);
    input.extend_from_slice(&serial_number);
    input.extend_from_slice(seed);
    assert(input@ =~= user_id@ + serial_number@ + seed@);
    let digest = md5(input.as_slice());
    let encrypted = security_rsa_exec(&digest);
    let mut auth_payload = reorder_words_be_to_le(encrypted.as_slice(), 65);
    auth_payload.set(64, 3);
    let mut msg: Vec<u8> = vec![
        0x01u8, 0x00, 0x00, 0x00, 0x0a, 0x00, 0x00, 0x00, 0x00, 0x00, 0x00, 0x00, 0x00, 0x44,
        0x00, 0x00, 0x00, 0x00, 0x00, 0x00, 0x00, 0x00, 0x00, 0x00, 0x10,
    ];
    assert(msg@ =~= security_header());
    msg.extend_from_slice(auth_payload.as_slice());
    msg
}

/// Signing a parameter block changes nothing but the 64 bytes at 0x174 and
/// keeps its length.
pub proof fn law_parameter_signing_touches_only_signature(bin: Seq<u8>)
    ensures
        signed_parameters(bin) matches Ok(signed) ==> {
            &&& signed.len() == bin.len()
            &&& forall|i: int|
                0 <= i < bin.len() && !(PARAMETER_SIGNATURE_OFFSET <= i
                    < PARAMETER_SIGNATURE_OFFSET + SIGNATURE_LEN) ==> #[trigger] signed[i]
                    == bin[i]
            &&& signed.subrange(
                PARAMETER_SIGNATURE_OFFSET as int,
                PARAMETER_SIGNATURE_OFFSET + SIGNATURE_LEN,
            ) == reorder_spec(
                signing_rsa(
                    md5_digest(
                        parameter_hash_input(
                            bin,
                            PARAMETER_SEGMENT_NUMBER_OFFSET as u64,
                            PARAMETER_SEGMENT_LENGTH_OFFSET as u64,
                        ).unwrap(),
                    ),
                ),
                64,
            )
        },
{
    if let Ok(signed) = signed_parameters(bin) {
        let sig = signature_of(
            parameter_hash_input(
                bin,
                PARAMETER_SEGMENT_NUMBER_OFFSET as u64,
                PARAMETER_SEGMENT_LENGTH_OFFSET as u64,
            ).unwrap(),
        );
        assert(sig.len() == 64);
        assert(signed.subrange(
            PARAMETER_SIGNATURE_OFFSET as int,
            PARAMETER_SIGNATURE_OFFSET + SIGNATURE_LEN,
        ) =~= sig);
    }
}

/// Signing a program changes nothing of the external flash but the 64 bytes at
/// 0x60074 and keeps its length.
pub proof fn law_program_signing_touches_only_signature(flash: Seq<u8>, mpc: Seq<u8>)
    ensures
        signed_program(flash, mpc) matches Ok(signed) ==> {
            &&& signed.len() == flash.len()
            &&& forall|i: int|
                0 <= i < flash.len() && !(PROGRAM_SIGNATURE_OFFSET <= i < PROGRAM_SIGNATURE_OFFSET
                    + SIGNATURE_LEN) ==> #[trigger] signed[i] == flash[i]
            &&& signed.subrange(
                PROGRAM_SIGNATURE_OFFSET as int,
                PROGRAM_SIGNATURE_OFFSET + SIGNATURE_LEN,
            ) == reorder_spec(
                signing_rsa(
                    md5_digest(
                        program_hash_input(
                            flash,
                            mpc,
                            PROGRAM_SEGMENT_NUMBER_OFFSET as u64,
                            PROGRAM_SEGMENT_LENGTH_OFFSET as u64,
                        ).unwrap(),
                    ),
                ),
                64,
            )
        },
{
    if let Ok(signed) = signed_program(flash, mpc) {
        let sig = signature_of(
            program_hash_input(
                flash,
                mpc,
                PROGRAM_SEGMENT_NUMBER_OFFSET as u64,
                PROGRAM_SEGMENT_LENGTH_OFFSET as u64,
            ).unwrap(),
        );
        assert(sig.len() == 64);
        assert(signed.subrange(
            PROGRAM_SIGNATURE_OFFSET as int,
            PROGRAM_SIGNATURE_OFFSET + SIGNATURE_LEN,
        ) =~= sig);
    }
}

/// The security access message is 90 bytes: the 25-byte header that starts
/// with 1 and ends with 0x10, then 65 payload bytes of which the last is 3.
pub proof fn law_security_message_shape(user_id: Seq<u8>, serial_number: Seq<u8>, seed: Seq<u8>)
    ensures
        security_message_spec(user_id, serial_number, seed).len() == 90,
        security_message_spec(user_id, serial_number, seed)[0] == 1,
        security_message_spec(user_id, serial_number, seed)[24] == 0x10,
        security_message_spec(user_id, serial_number, seed)[89] == 3,
{
}

/// Signing a signed parameter block again changes nothing, as long as the
/// bytes it hashes do not include the signature itself (the hash input is the
/// same before and after the signature is written).
pub proof fn law_parameter_signing_idempotent(bin: Seq<u8>)
    requires
        signed_parameters(bin) is Ok,
        parameter_hash_input(
            signed_parameters(bin).unwrap(),
            PARAMETER_SEGMENT_NUMBER_OFFSET as u64,
            PARAMETER_SEGMENT_LENGTH_OFFSET as u64,
        ) == parameter_hash_input(
            bin,
            PARAMETER_SEGMENT_NUMBER_OFFSET as u64,
            PARAMETER_SEGMENT_LENGTH_OFFSET as u64,
        ),
    ensures
        signed_parameters(signed_parameters(bin).unwrap()) == signed_parameters(bin),
{
    let signed = signed_parameters(bin).unwrap();
    let sig = signature_of(
        parameter_hash_input(
            bin,
            PARAMETER_SEGMENT_NUMBER_OFFSET as u64,
            PARAMETER_SEGMENT_LENGTH_OFFSET as u64,
        ).unwrap(),
    );
    assert(sig.len() == 64);
    assert(splice(signed, PARAMETER_SIGNATURE_OFFSET as int, sig) =~= signed);
}

/// Signing a signed program again changes nothing, as long as the bytes it
/// hashes do not include the signature itself.
pub proof fn law_program_signing_idempotent(flash: Seq<u8>, mpc: Seq<u8>)
    requires
        signed_program(flash, mpc) is Ok,
        program_hash_input(
            signed_program(flash, mpc).unwrap(),
            mpc,
            PROGRAM_SEGMENT_NUMBER_OFFSET as u64,
            PROGRAM_SEGMENT_LENGTH_OFFSET as u64,
        ) == program_hash_input(
            flash,
            mpc,
            PROGRAM_SEGMENT_NUMBER_OFFSET as u64,
            PROGRAM_SEGMENT_LENGTH_OFFSET as u64,
        ),
    ensures
        signed_program(signed_program(flash, mpc).unwrap(), mpc) == signed_program(flash, mpc),
{
    let signed = signed_program(flash, mpc).unwrap();
    let sig = signature_of(
        program_hash_input(
            flash,
            mpc,
            PROGRAM_SEGMENT_NUMBER_OFFSET as u64,
            PROGRAM_SEGMENT_LENGTH_OFFSET as u64,
        ).unwrap(),
    );
    assert(sig.len() == 64);
    assert(splice(signed, PROGRAM_SIGNATURE_OFFSET as int, sig) =~= signed);
}

/// Whether the 32-bit word at `off` lies outside the bytes `a..b`.
pub open spec fn word_apart(off: int, a: int, b: int) -> bool {
    off + 4 <= a || b <= off
}

/// Whether segment `i` of a parameter block's descriptor table, as far as
/// its words can be read, names bytes outside `a..b`.
pub open spec fn parameter_segment_apart(bin: Seq<u8>, i: int, a: int, b: int) -> bool {
    match word_at(bin, (PARAMETER_SEGMENT_NUMBER_OFFSET + 4 + 8 * i) as u64) {
        Ok(addr) => match word_at(bin, (PARAMETER_SEGMENT_LENGTH_OFFSET + 4 * i) as u64) {
            Ok(length) => addr < PARAMETER_BASE || {
                let start = addr - PARAMETER_BASE;
                start + length <= a || b <= start
            },
            Err(_) => true,
        },
        Err(_) => true,
    }
}

/// Whether everything that signing a parameter block reads (the segment
/// count, each segment's address and length words, and the segments they
/// name) lies outside the bytes `a..b`.
pub open spec fn parameter_reads_avoid(bin: Seq<u8>, a: int, b: int) -> bool {
    &&& word_apart(PARAMETER_SEGMENT_NUMBER_OFFSET as int, a, b)
    &&& forall|i: int|
        0 <= i && (word_at(bin, PARAMETER_SEGMENT_NUMBER_OFFSET as u64) matches Ok(count) && i
            < count) ==> word_apart(PARAMETER_SEGMENT_NUMBER_OFFSET + 4 + 8 * i, a, b)
            && word_apart(PARAMETER_SEGMENT_LENGTH_OFFSET + 4 * i, a, b)
            && #[trigger] parameter_segment_apart(bin, i, a, b)
}

proof fn lemma_word_frame(x: Seq<u8>, y: Seq<u8>, off: u64, a: int, b: int)
    requires
        x.len() == y.len(),
        forall|j: int| 0 <= j < x.len() && !(a <= j < b) ==> x[j] == y[j],
        word_apart(off as int, a, b),
    ensures
        word_at(x, off) == word_at(y, off),
{
    if off + 4 <= x.len() {
        assert(x[off as int] == y[off as int]);
        assert(x[off + 1] == y[off + 1]);
        assert(x[off + 2] == y[off + 2]);
        assert(x[off + 3] == y[off + 3]);
    }
}

proof fn lemma_parameter_segments_frame(x: Seq<u8>, y: Seq<u8>, a: int, b: int, k: nat)
    requires
        x.len() == y.len(),
        forall|j: int| 0 <= j < x.len() && !(a <= j < b) ==> x[j] == y[j],
        parameter_reads_avoid(x, a, b),
        word_at(x, PARAMETER_SEGMENT_NUMBER_OFFSET as u64) matches Ok(count) && k <= count,
    ensures
        parameter_segments(
            x,
            PARAMETER_SEGMENT_NUMBER_OFFSET as u64,
            PARAMETER_SEGMENT_LENGTH_OFFSET as u64,
            k,
        ) == parameter_segments(
            y,
            PARAMETER_SEGMENT_NUMBER_OFFSET as u64,
            PARAMETER_SEGMENT_LENGTH_OFFSET as u64,
            k,
        ),
    decreases k,
{
    if k > 0 {
        let i = k - 1;
        lemma_parameter_segments_frame(x, y, a, b, (k - 1) as nat);
        assert(parameter_segment_apart(x, i, a, b));
        let n_off = (PARAMETER_SEGMENT_NUMBER_OFFSET + 4 + 8 * i) as u64;
        let l_off = (PARAMETER_SEGMENT_LENGTH_OFFSET + 4 * i) as u64;
        lemma_word_frame(x, y, n_off, a, b);
        lemma_word_frame(x, y, l_off, a, b);
        if let Ok(addr) = word_at(x, n_off) {
            if let Ok(length) = word_at(x, l_off) {
                if addr >= PARAMETER_BASE {
                    let start = addr - PARAMETER_BASE;
                    if start + length <= x.len() {
                        assert(x.subrange(start, start + length) =~= y.subrange(
                            start,
                            start + length,
                        ));
                    }
                }
            }
        }
    }
}

/// Signing a signed parameter block again changes nothing when the
/// descriptor table and the segments it names lie outside the signature bytes
/// 0x174..0x1b4.
pub proof fn law_parameter_resigning_keeps_block(bin: Seq<u8>)
    requires
        signed_parameters(bin) is Ok,
        parameter_reads_avoid(
            bin,
            PARAMETER_SIGNATURE_OFFSET as int,
            PARAMETER_SIGNATURE_OFFSET + SIGNATURE_LEN,
        ),
    ensures
        signed_parameters(signed_parameters(bin).unwrap()) == signed_parameters(bin),
{
    let a = PARAMETER_SIGNATURE_OFFSET as int;
    let b = PARAMETER_SIGNATURE_OFFSET + SIGNATURE_LEN;
    let signed = signed_parameters(bin).unwrap();
    law_parameter_signing_touches_only_signature(bin);
    lemma_word_frame(bin, signed, PARAMETER_SEGMENT_NUMBER_OFFSET as u64, a, b);
    if let Ok(count) = word_at(bin, PARAMETER_SEGMENT_NUMBER_OFFSET as u64) {
        lemma_parameter_segments_frame(bin, signed, a, b, count as nat);
    }
    law_parameter_signing_idempotent(bin);
}

/// Whether program segment `i`, as far as its words can be read, names no
/// external-flash bytes inside `a..b` (segments of the MPC image always do not).
pub open spec fn program_segment_apart(flash: Seq<u8>, i: int, a: int, b: int) -> bool {
    match word_at(flash, (PROGRAM_SEGMENT_NUMBER_OFFSET + 4 + 8 * i) as u64) {
        Ok(start) => match word_at(flash, (PROGRAM_SEGMENT_LENGTH_OFFSET + 4 * i) as u64) {
            Ok(length) => start < EXTERNAL_FLASH_BASE || {
                let offset = start - EXTERNAL_FLASH_BASE;
                offset + length <= a || b <= offset
            },
            Err(_) => true,
        },
        Err(_) => true,
    }
}

/// Whether everything of the external flash that signing a program reads
/// (the segment count, each segment's address and length words, and the
/// flash segments they name) lies outside the bytes `a..b`.
pub open spec fn program_reads_avoid(flash: Seq<u8>, a: int, b: int) -> bool {
    &&& word_apart(PROGRAM_SEGMENT_NUMBER_OFFSET as int, a, b)
    &&& forall|i: int|
        0 <= i && (word_at(flash, PROGRAM_SEGMENT_NUMBER_OFFSET as u64) matches Ok(count) && i
            < count) ==> word_apart(PROGRAM_SEGMENT_NUMBER_OFFSET + 4 + 8 * i, a, b)
            && word_apart(PROGRAM_SEGMENT_LENGTH_OFFSET + 4 * i, a, b)
            && #[trigger] program_segment_apart(flash, i, a, b)
}

proof fn lemma_program_segments_frame(
    x: Seq<u8>,
    y: Seq<u8>,
    mpc: Seq<u8>,
    a: int,
    b: int,
    k: nat,
)
    requires
        x.len() == y.len(),
        forall|j: int| 0 <= j < x.len() && !(a <= j < b) ==> x[j] == y[j],
        program_reads_avoid(x, a, b),
        word_at(x, PROGRAM_SEGMENT_NUMBER_OFFSET as u64) matches Ok(count) && k <= count,
    ensures
        program_segments(
            x,
            mpc,
            PROGRAM_SEGMENT_NUMBER_OFFSET as u64,
            PROGRAM_SEGMENT_LENGTH_OFFSET as u64,
            k,
        ) == program_segments(
            y,
            mpc,
            PROGRAM_SEGMENT_NUMBER_OFFSET as u64,
            PROGRAM_SEGMENT_LENGTH_OFFSET as u64,
            k,
        ),
    decreases k,
{
    if k > 0 {
        let i = k - 1;
        lemma_program_segments_frame(x, y, mpc, a, b, (k - 1) as nat);
        assert(program_segment_apart(x, i, a, b));
        let n_off = (PROGRAM_SEGMENT_NUMBER_OFFSET + 4 + 8 * i) as u64;
        let l_off = (PROGRAM_SEGMENT_LENGTH_OFFSET + 4 * i) as u64;
        lemma_word_frame(x, y, n_off, a, b);
        lemma_word_frame(x, y, l_off, a, b);
        if let Ok(start) = word_at(x, n_off) {
            if let Ok(length) = word_at(x, l_off) {
                if start >= EXTERNAL_FLASH_BASE {
                    let offset = start - EXTERNAL_FLASH_BASE;
                    if offset + length <= x.len() {
                        assert(x.subrange(offset, offset + length) =~= y.subrange(
                            offset,
                            offset + length,
                        ));
                    }
                }
            }
        }
    }
}

/// Signing a signed program again changes nothing when the descriptor table
/// and the flash segments it names lie outside the signature bytes
/// 0x60074..0x600b4.
pub proof fn law_program_resigning_keeps_flash(flash: Seq<u8>, mpc: Seq<u8>)
    requires
        signed_program(flash, mpc) is Ok,
        program_reads_avoid(
            flash,
            PROGRAM_SIGNATURE_OFFSET as int,
            PROGRAM_SIGNATURE_OFFSET + SIGNATURE_LEN,
        ),
    ensures
        signed_program(signed_program(flash, mpc).unwrap(), mpc) == signed_program(flash, mpc),
{
    let a = PROGRAM_SIGNATURE_OFFSET as int;
    let b = PROGRAM_SIGNATURE_OFFSET + SIGNATURE_LEN;
    let signed = signed_program(flash, mpc).unwrap();
    law_program_signing_touches_only_signature(flash, mpc);
    lemma_word_frame(flash, signed, PROGRAM_SEGMENT_NUMBER_OFFSET as u64, a, b);
    if let Ok(count) = word_at(flash, PROGRAM_SEGMENT_NUMBER_OFFSET as u64) {
        lemma_program_segments_frame(flash, signed, mpc, a, b, count as nat);
    }
    law_program_signing_idempotent(flash, mpc);
}

} // verus!
