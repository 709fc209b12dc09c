//! Validation, signing and flash-payload preparation for BMW MS45.0/MS45.1
//! engine control units, with the fail-safe flashing protocol, the read-only
//! adapter protocol, and the helpers of the command-line and web front ends.

pub mod backup;
pub mod binary;
pub mod crypto;
pub mod desktop;
pub mod flasher;
pub mod hex;
pub mod image;
pub mod read_only;
pub mod signature;
pub mod text;
pub mod web;

pub use binary::{
    prepare_full_program, prepare_tune, verify_flash_mpc_match, verify_parameter_match,
    verify_program_match, BinaryError, FullProgramPayload, TunePayload, EXTERNAL_FLASH_LEN,
    MPC_FLASH_LEN, TUNE_LEN,
};
pub use flasher::{
    DmeIdentity, FlashBackend, FlashError, FlashPlan, FlashProgress, FlashReceipt, FlashSegment,
    MemoryRegion, ProgressFn, ProgressSink, ReadKind, SecurityLevel, UnsupportedLiveBackend,
};
pub use signature::security_access_message;
