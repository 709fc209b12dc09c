//! The checks behind the "Validate" buttons of the desktop window: a tune
//! against an optional software reference, and a program pair against an
//! optional hardware reference.
use crate::binary::{
    flash_mpc_match_spec, parameter_match_spec, program_match_spec, verify_flash_mpc_match,
    verify_parameter_match_bytes, verify_program_match_bytes, BinaryError,
};
use crate::text::{blank, is_blank, trim_ws};
use crate::web::trimmed;
use vstd::prelude::*;
use vstd::string::StringSliceAdditionalSpecFns;

verus! {

/// What the tune check found.
#[derive(Debug, Clone, Copy, PartialEq, Eq, Structural)]
pub enum TuneCheck {
    /// No software reference was given: the tune was only loaded.
    Loaded { len: usize },
    /// Whether the tune matches the given software reference.
    SoftwareReference { matched: bool },
}

/// What the program check found.
#[derive(Debug, Clone, Copy, PartialEq, Eq, Structural)]
pub enum ProgramCheck {
    /// No hardware reference was given: whether the external flash and MPC images pair.
    Pair { matched: bool },
    /// Whether the external flash matches the hardware reference, and whether the images pair.
    HardwareAndPair { hardware: bool, pair: bool },
}

/// What `check_tune(bytes, sw_ref)` gives: the reference check on the trimmed
/// reference, or just the tune's length when the reference is blank.
pub open spec fn tune_check_result(bytes: Seq<u8>, sw_ref: Seq<u8>) -> Result<TuneCheck, BinaryError> {
    if is_blank(sw_ref) {
        Ok(TuneCheck::Loaded { len: bytes.len() as usize })
    } else {
        match parameter_match_spec(bytes, trim_ws(sw_ref)) {
            Err(e) => Err(e),
            Ok(matched) => Ok(TuneCheck::SoftwareReference { matched }),
        }
    }
}

/// Checks a loaded tune against the software reference typed in the window.
pub fn check_tune(bytes: &[u8], sw_ref: &str) -> (r: Result<TuneCheck, BinaryError>)
    ensures
        r == tune_check_result(bytes@, sw_ref.spec_bytes()),
{
    if blank(sw_ref.as_bytes()) {
        return Ok(TuneCheck::Loaded { len: bytes.len() });
    }
    let matched = verify_parameter_match_bytes(bytes, trimmed(sw_ref))?;
    Ok(TuneCheck::SoftwareReference { matched })
}

/// What `check_program(external, mpc, hw_ref)` gives: the pairing check first,
/// then, when the hardware reference is not blank, the reference check on it trimmed.
pub open spec fn program_check_result(external: Seq<u8>, mpc: Seq<u8>, hw_ref: Seq<u8>) -> Result<
    ProgramCheck,
    BinaryError,
> {
    match flash_mpc_match_spec(external, mpc) {
        Err(e) => Err(e),
        Ok(pair) => if is_blank(hw_ref) {
            Ok(ProgramCheck::Pair { matched: pair })
        } else {
            match program_match_spec(external, trim_ws(hw_ref)) {
                Err(e) => Err(e),
                Ok(hardware) => Ok(ProgramCheck::HardwareAndPair { hardware, pair }),
            }
        },
    }
}

/// Checks a loaded external flash and MPC image pair against the hardware
/// reference typed in the window.
pub fn check_program(external: &[u8], mpc: &[u8], hw_ref: &str) -> (r: Result<
    ProgramCheck,
    BinaryError,
>)
    ensures
        r == program_check_result(external@, mpc@, hw_ref.spec_bytes()),
{
    let pair = verify_flash_mpc_match(external, mpc)?;
    if blank(hw_ref.as_bytes()) {
        return Ok(ProgramCheck::Pair { matched: pair });
    }
    let hardware = verify_program_match_bytes(external, trimmed(hw_ref))?;
    Ok(ProgramCheck::HardwareAndPair { hardware, pair })
}

} // verus!
