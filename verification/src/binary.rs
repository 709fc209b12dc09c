//! Validation of MS45 tune, external-flash and MPC images, their metadata
//! fields, and the preparation of signed flash payloads.
use crate::crypto::str_from_utf8;
use crate::signature::{
    law_parameter_resigning_keeps_block, law_parameter_signing_touches_only_signature,
    parameter_reads_avoid, sign_ms45_parameters,
    sign_ms45_program, signed_parameters, signed_program, PARAMETER_SIGNATURE_OFFSET,
    SIGNATURE_LEN,
};

use crate::text::{
    contains_bytes, find_bytes, parse_u64, parse_u64_spec, trim_end_nul, trim_end_nul_len, trim_nul,
    trim_nul_range, trim_ws, trim_ws_range,
};
use vstd::prelude::*;
use vstd::slice::slice_to_vec;
use vstd::string::StringSliceAdditionalSpecFns;

verus! {

/// Length of the parameter (tune) block.
pub const TUNE_LEN: usize = 0x1d000;

/// Shortest accepted tune file.
pub const TUNE_MIN_LEN: usize = 0x1d000;

/// Longest accepted tune file.
pub const TUNE_MAX_LEN: usize = 0x20000;

/// Length of a full external flash image.
pub const EXTERNAL_FLASH_LEN: usize = 0x100000;

/// Length of an MPC internal flash image.
pub const MPC_FLASH_LEN: usize = 0x70000;

/// Address at which the external flash is mapped.
pub const EXTERNAL_FLASH_BASE: u32 = 0xfff0_0000;

/// Offset of the parameter block inside a full external flash image.
pub const FULL_TUNE_OFFSET: usize = 0x40000;

/// Offset of the program payload inside a full external flash image.
pub const PROGRAM_PAYLOAD_OFFSET: usize = 0x60000;

/// Length of the program payload.
pub const PROGRAM_PAYLOAD_LEN: usize = 0x9ff40;

/// Why an image was refused.
#[derive(Debug, Clone, Copy, PartialEq, Eq, Structural)]
pub enum BinaryError {
    InvalidTuneLength { actual: usize },
    InvalidExternalFlashLength { actual: usize },
    InvalidMpcFlashLength { actual: usize },
    OutOfRange { offset: usize, len: usize },
    InvalidAddress,
    InvalidAsciiMetadata,
    InvalidNumericMetadata,
    FlashMpcMismatch,
}

/// A signed parameter block ready to be written.
#[derive(Debug, Clone, PartialEq, Eq)]
pub struct TunePayload {
    pub data: Vec<u8>,
}

/// The two program payloads of a full program write.
#[derive(Debug, Clone, PartialEq, Eq)]
pub struct FullProgramPayload {
    pub external_program: Vec<u8>,
    pub mpc_program: Vec<u8>,
}

/// The length check of a tune file: `TUNE_MIN_LEN..=TUNE_MAX_LEN`.
pub fn validate_tune_len(input: &[u8]) -> (r: Result<(), BinaryError>)
    ensures
        r == (if TUNE_MIN_LEN <= input@.len() <= TUNE_MAX_LEN {
            Ok(())
        } else {
            Err(BinaryError::InvalidTuneLength { actual: input@.len() as usize })
        }),
{
    if TUNE_MIN_LEN <= input.len() && input.len() <= TUNE_MAX_LEN {
        Ok(())
    } else {
        Err(BinaryError::InvalidTuneLength { actual: input.len() })
    }
}

/// The length check of an external flash image.
pub fn validate_external_flash_len(input: &[u8]) -> (r: Result<(), BinaryError>)
    ensures
        r == (if input@.len() == EXTERNAL_FLASH_LEN {
            Ok(())
        } else {
            Err(BinaryError::InvalidExternalFlashLength { actual: input@.len() as usize })
        }),
{
    if input.len() == EXTERNAL_FLASH_LEN {
        Ok(())
    } else {
        Err(BinaryError::InvalidExternalFlashLength { actual: input.len() })
    }
}

/// The length check of an MPC image.
pub fn validate_mpc_len(input: &[u8]) -> (r: Result<(), BinaryError>)
    ensures
        r == (if input@.len() == MPC_FLASH_LEN {
            Ok(())
        } else {
            Err(BinaryError::InvalidMpcFlashLength { actual: input@.len() as usize })
        }),
{
    if input.len() == MPC_FLASH_LEN {
        Ok(())
    } else {
        Err(BinaryError::InvalidMpcFlashLength { actual: input.len() })
    }
}

/// What `ascii_field(buf, offset, len)` returns: the bytes `buf[offset..offset + len]`
/// when they exist and form valid UTF-8.
pub open spec fn ascii_field_spec(buf: Seq<u8>, offset: int, len: int) -> Result<
    Seq<u8>,
    BinaryError,
> {
    if offset + len > buf.len() {
        Err(BinaryError::OutOfRange { offset: offset as usize, len: len as usize })
    } else if !vstd::utf8::valid_utf8(buf.subrange(offset, offset + len)) {
        Err(BinaryError::InvalidAsciiMetadata)
    } else {
        Ok(buf.subrange(offset, offset + len))
    }
}

/// Returns the text field `buf[offset..offset + len]`; a field past the end of
/// `buf` is `OutOfRange`, one that is not UTF-8 is `InvalidAsciiMetadata`.
pub fn ascii_field(buf: &[u8], offset: usize, len: usize) -> (r: Result<&[u8], BinaryError>)
    requires
        offset + len <= usize::MAX,
    ensures
        match (r, ascii_field_spec(buf@, offset as int, len as int)) {
            (Ok(s), Ok(t)) => s@ == t,
            (Err(e), Err(f)) => e == f,
            _ => false,
        },
{
    if offset + len > buf.len() {
        return Err(BinaryError::OutOfRange { offset, len });
    }
    let bytes = &buf[offset..offset + len];
    if str_from_utf8(bytes).is_none() {
        return Err(BinaryError::InvalidAsciiMetadata);
    }
    Ok(bytes)
}

/// Offset and length of the software reference of a parameter block.
pub const SW_REF_OFFSET: usize = 0x10;

/// Offset and length of the hardware reference of an external flash image.
pub const HW_REF_OFFSET: usize = 0x6031c;

/// Length of the software and hardware reference fields.
pub const REF_LEN: usize = 0x0c;

/// Offset of the program reference number in an external flash image.
pub const FLASH_NUMBER_OFFSET: usize = 0x60310;

/// Offset of the program reference number in an MPC image.
pub const MPC_NUMBER_OFFSET: usize = 0x100;

/// Length of the program reference number fields.
pub const NUMBER_LEN: usize = 0x0a;

/// What `verify_parameter_match(flash, sw_ref)` returns: whether the given
/// software reference contains the block's software reference, trailing NULs dropped.
pub open spec fn parameter_match_spec(flash: Seq<u8>, sw_ref: Seq<u8>) -> Result<bool, BinaryError> {
    match ascii_field_spec(flash, SW_REF_OFFSET as int, REF_LEN as int) {
        Err(e) => Err(e),
        Ok(field) => Ok(contains_bytes(sw_ref, trim_end_nul(field))),
    }
}

/// Checks a parameter block against a software reference: true when `sw_ref`
/// contains the 12-byte field at 0x10 with its trailing NULs removed.
pub fn verify_parameter_match(flash: &[u8], sw_ref: &str) -> (r: Result<bool, BinaryError>)
    ensures
        r == parameter_match_spec(flash@, sw_ref.spec_bytes()),
{
    verify_parameter_match_bytes(flash, sw_ref.as_bytes())
}

/// `verify_parameter_match` for a software reference given by its UTF-8 bytes.
pub fn verify_parameter_match_bytes(flash: &[u8], sw_ref: &[u8]) -> (r: Result<bool, BinaryError>)
    ensures
        r == parameter_match_spec(flash@, sw_ref@),
{
    let field = ascii_field(flash, SW_REF_OFFSET, REF_LEN)?;
    let n = trim_end_nul_len(field);
    let needle = &field[0..n];
    assert(needle@ == field@.take(n as int));
    Ok(find_bytes(sw_ref, needle))
}

/// What `verify_program_match(flash, hw_ref)` returns: whether the image's
/// hardware reference field contains `hw_ref`.
pub open spec fn program_match_spec(flash: Seq<u8>, hw_ref: Seq<u8>) -> Result<bool, BinaryError> {
    match ascii_field_spec(flash, HW_REF_OFFSET as int, REF_LEN as int) {
        Err(e) => Err(e),
        Ok(field) => Ok(contains_bytes(field, hw_ref)),
    }
}

/// Checks an external flash image against a hardware reference: true when the
/// 12-byte field at 0x6031c contains `hw_ref`.
pub fn verify_program_match(flash: &[u8], hw_ref: &str) -> (r: Result<bool, BinaryError>)
    ensures
        r == program_match_spec(flash@, hw_ref.spec_bytes()),
{
    verify_program_match_bytes(flash, hw_ref.as_bytes())
}

/// `verify_program_match` for a hardware reference given by its UTF-8 bytes.
pub fn verify_program_match_bytes(flash: &[u8], hw_ref: &[u8]) -> (r: Result<bool, BinaryError>)
    ensures
        r == program_match_spec(flash@, hw_ref@),
{
    let field = ascii_field(flash, HW_REF_OFFSET, REF_LEN)?;
    Ok(find_bytes(field, hw_ref))
}

/// The number stored in a text field: NULs and then white space trimmed from
/// both ends, the rest parsed as `u64`.
pub open spec fn metadata_number_spec(buf: Seq<u8>, offset: int, len: int) -> Result<
    u64,
    BinaryError,
> {
    match ascii_field_spec(buf, offset, len) {
        Err(e) => Err(e),
        Ok(field) => match parse_u64_spec(trim_ws(trim_nul(field))) {
            Some(v) => Ok(v),
            None => Err(BinaryError::InvalidNumericMetadata),
        },
    }
}

fn metadata_number(buf: &[u8], offset: usize, len: usize) -> (r: Result<u64, BinaryError>)
    requires
        offset + len <= usize::MAX,
    ensures
        r == metadata_number_spec(buf@, offset as int, len as int),
{
    let field = ascii_field(buf, offset, len)?;
    let (s, e) = trim_nul_range(field);
    let inner = &field[s..e];
    let (s2, e2) = trim_ws_range(inner);
    match parse_u64(inner, s2, e2) {
        Some(v) => Ok(v),
        None => Err(BinaryError::InvalidNumericMetadata),
    }
}

/// What `verify_flash_mpc_match(flash, mpc)` returns: whether the external
/// flash's program number exceeds the MPC's by exactly 500.
pub open spec fn flash_mpc_match_spec(flash: Seq<u8>, mpc: Seq<u8>) -> Result<bool, BinaryError> {
    match metadata_number_spec(flash, FLASH_NUMBER_OFFSET as int, NUMBER_LEN as int) {
        Err(e) => Err(e),
        Ok(f) => match metadata_number_spec(mpc, MPC_NUMBER_OFFSET as int, NUMBER_LEN as int) {
            Err(e) => Err(e),
            Ok(m) => Ok(f >= m && f - m == 500),
        },
    }
}

/// Checks that an external flash image and an MPC image belong together: the
/// number at 0x60310 of the flash is 500 more than the number at 0x100 of the MPC.
pub fn verify_flash_mpc_match(flash: &[u8], mpc: &[u8]) -> (r: Result<bool, BinaryError>)
    ensures
        r == flash_mpc_match_spec(flash@, mpc@),
{
    let flash_ref = metadata_number(flash, FLASH_NUMBER_OFFSET, NUMBER_LEN)?;
    let mpc_ref = metadata_number(mpc, MPC_NUMBER_OFFSET, NUMBER_LEN)?;
    Ok(flash_ref >= mpc_ref && flash_ref - mpc_ref == 500)
}

/// The parameter block that a tune file gives: the block at 0x40000 of a full
/// external flash image, or the whole file when its length is a tune's.
pub open spec fn tune_image(input: Seq<u8>) -> Result<Seq<u8>, BinaryError> {
    if input.len() == EXTERNAL_FLASH_LEN {
        Ok(input.subrange(FULL_TUNE_OFFSET as int, FULL_TUNE_OFFSET + TUNE_LEN))
    } else if TUNE_MIN_LEN <= input.len() <= TUNE_MAX_LEN {
        Ok(input)
    } else {
        Err(BinaryError::InvalidTuneLength { actual: input.len() as usize })
    }
}

/// What `prepare_tune(input)` gives: the parameter block, signed.
pub open spec fn prepared_tune(input: Seq<u8>) -> Result<Seq<u8>, BinaryError> {
    match tune_image(input) {
        Err(e) => Err(e),
        Ok(block) => signed_parameters(block),
    }
}

/// Prepares the payload of a tune write from a tune file or a full external
/// flash image: the parameter block is taken out and signed. The checksums
/// inside the block are left as they are.
pub fn prepare_tune(input: &[u8]) -> (r: Result<TunePayload, BinaryError>)
    ensures
        match prepared_tune(input@) {
            Ok(data) => r matches Ok(p) && p.data@ == data,
            Err(e) => r == Err::<TunePayload, BinaryError>(e),
        },
{
    let mut data = if input.len() == EXTERNAL_FLASH_LEN {
        slice_to_vec(&input[FULL_TUNE_OFFSET..FULL_TUNE_OFFSET + TUNE_LEN])
    } else {
        validate_tune_len(input)?;
        slice_to_vec(input)
    };
    sign_ms45_parameters(data.as_mut_slice())?;
    Ok(TunePayload { data })
}

/// What `prepare_full_program(external, mpc)` gives: the signed program
/// payload of the external flash, and the MPC image unchanged.
pub open spec fn prepared_program(external: Seq<u8>, mpc: Seq<u8>) -> Result<
    (Seq<u8>, Seq<u8>),
    BinaryError,
> {
    if external.len() != EXTERNAL_FLASH_LEN {
        Err(BinaryError::InvalidExternalFlashLength { actual: external.len() as usize })
    } else if mpc.len() != MPC_FLASH_LEN {
        Err(BinaryError::InvalidMpcFlashLength { actual: mpc.len() as usize })
    } else {
        match flash_mpc_match_spec(external, mpc) {
            Err(e) => Err(e),
            Ok(false) => Err(BinaryError::FlashMpcMismatch),
            Ok(true) => match signed_program(external, mpc) {
                Err(e) => Err(e),
                Ok(signed) => Ok(
                    (
                        signed.subrange(
                            PROGRAM_PAYLOAD_OFFSET as int,
                            PROGRAM_PAYLOAD_OFFSET + PROGRAM_PAYLOAD_LEN,
                        ),
                        mpc,
                    ),
                ),
            },
        }
    }
}

/// Prepares the payloads of a full program write from an external flash image
/// and its MPC image: both lengths and their pairing are checked, the program is
/// signed, and the program payload (0x60000, 0x9ff40 bytes) is cut out. The
/// program's checksums are left as they are.
pub fn prepare_full_program(external: &[u8], mpc: &[u8]) -> (r: Result<
    FullProgramPayload,
    BinaryError,
>)
    ensures
        match prepared_program(external@, mpc@) {
            Ok((program, mpc_program)) => r matches Ok(p) && p.external_program@ == program
                && p.mpc_program@ == mpc_program,
            Err(e) => r == Err::<FullProgramPayload, BinaryError>(e),
        },
{
    validate_external_flash_len(external)?;
    validate_mpc_len(mpc)?;
    if !verify_flash_mpc_match(external, mpc)? {
        return Err(BinaryError::FlashMpcMismatch);
    }
    let mut flash = slice_to_vec(external);
    sign_ms45_program(flash.as_mut_slice(), mpc)?;
    let external_program = slice_to_vec(
        &flash.as_slice()[PROGRAM_PAYLOAD_OFFSET..PROGRAM_PAYLOAD_OFFSET + PROGRAM_PAYLOAD_LEN],
    );
    Ok(FullProgramPayload { external_program, mpc_program: slice_to_vec(mpc) })
}

/// A prepared tune already carries the signature of its own segments: signing
/// it again changes nothing, when its descriptor table and the segments it
/// names lie outside the signature bytes 0x174..0x1b4.
pub proof fn law_prepared_tune_is_signed(input: Seq<u8>)
    requires
        prepared_tune(input) is Ok,
        parameter_reads_avoid(
            tune_image(input).unwrap(),
            PARAMETER_SIGNATURE_OFFSET as int,
            PARAMETER_SIGNATURE_OFFSET + SIGNATURE_LEN,
        ),
    ensures
        signed_parameters(prepared_tune(input).unwrap()) == prepared_tune(input),
{
    law_parameter_resigning_keeps_block(tune_image(input).unwrap());
}

/// An external flash and an MPC image pair exactly when the flash's program
/// number is the MPC's plus 500: not when it is smaller, and not for any other
/// difference. When both numbers read, the answer is a `bool`; otherwise it is
/// the first number's error.
pub proof fn law_pair_is_mpc_number_plus_500(flash: Seq<u8>, mpc: Seq<u8>)
    ensures
        flash_mpc_match_spec(flash, mpc) == Ok::<bool, BinaryError>(true) <==> (metadata_number_spec(
            flash,
            FLASH_NUMBER_OFFSET as int,
            NUMBER_LEN as int,
        ) matches Ok(f) && metadata_number_spec(mpc, MPC_NUMBER_OFFSET as int, NUMBER_LEN as int)
            matches Ok(m) && f == m + 500),
        (metadata_number_spec(flash, FLASH_NUMBER_OFFSET as int, NUMBER_LEN as int) matches Ok(f)
            && metadata_number_spec(mpc, MPC_NUMBER_OFFSET as int, NUMBER_LEN as int) matches Ok(m)
            && f < m) ==> flash_mpc_match_spec(flash, mpc) == Ok::<bool, BinaryError>(false),
        metadata_number_spec(flash, FLASH_NUMBER_OFFSET as int, NUMBER_LEN as int) matches Err(e)
            ==> flash_mpc_match_spec(flash, mpc) == Err::<bool, BinaryError>(e),
        metadata_number_spec(flash, FLASH_NUMBER_OFFSET as int, NUMBER_LEN as int) is Ok ==> (
        metadata_number_spec(mpc, MPC_NUMBER_OFFSET as int, NUMBER_LEN as int) matches Err(e)
            ==> flash_mpc_match_spec(flash, mpc) == Err::<bool, BinaryError>(e)),
{
}

/// A prepared tune keeps the user's parameter block whole: from a tune file
/// it has the file's length and its bytes, and from a full external flash it
/// has the 0x1d000 bytes at 0x40000; only the 64 signature bytes at 0x174
/// differ. Any other length is refused with that length.
pub proof fn law_prepared_tune_keeps_the_block(input: Seq<u8>)
    ensures
        prepared_tune(input) matches Ok(d) ==> (if input.len() == EXTERNAL_FLASH_LEN {
            &&& d.len() == TUNE_LEN
            &&& forall|i: int|
                0 <= i < d.len() && !(PARAMETER_SIGNATURE_OFFSET <= i < PARAMETER_SIGNATURE_OFFSET
                    + SIGNATURE_LEN) ==> #[trigger] d[i] == input[FULL_TUNE_OFFSET + i]
        } else {
            &&& d.len() == input.len()
            &&& forall|i: int|
                0 <= i < d.len() && !(PARAMETER_SIGNATURE_OFFSET <= i < PARAMETER_SIGNATURE_OFFSET
                    + SIGNATURE_LEN) ==> #[trigger] d[i] == input[i]
        }),
        input.len() != EXTERNAL_FLASH_LEN && !(TUNE_MIN_LEN <= input.len() <= TUNE_MAX_LEN)
            ==> prepared_tune(input) == Err::<Seq<u8>, BinaryError>(
            BinaryError::InvalidTuneLength { actual: input.len() as usize },
        ),
{
    if let Ok(block) = tune_image(input) {
        law_parameter_signing_touches_only_signature(block);
    }
}

} // verus!
