//! Reading words and address ranges out of MS45 flash images.
//!
//! The external flash is mapped at `EXTERNAL_FLASH_BASE` (0xfff0_0000) and the
//! MPC's internal flash at address 0, so a segment descriptor's address range
//! selects bytes of one of the two images.
use crate::binary::{BinaryError, EXTERNAL_FLASH_BASE};
use vstd::prelude::*;

verus! {

/// The big-endian 32-bit word at byte offset `i` of `s`.
pub open spec fn be_u32(s: Seq<u8>, i: int) -> u32 {
    (s[i] as int * 0x1000000 + s[i + 1] as int * 0x10000 + s[i + 2] as int * 0x100 + s[i
        + 3] as int) as u32
}

/// What `read_be_u32(buf, offset)` returns.
pub open spec fn read_be_u32_spec(buf: Seq<u8>, offset: int) -> Result<u32, BinaryError> {
    if offset + 4 <= buf.len() {
        Ok(be_u32(buf, offset))
    } else {
        Err(BinaryError::OutOfRange { offset: offset as usize, len: 4 })
    }
}

/// Reads the big-endian 32-bit word at `offset`; a word that does not lie
/// wholly inside `buf` is `OutOfRange`.
pub fn read_be_u32(buf: &[u8], offset: usize) -> (r: Result<u32, BinaryError>)
    ensures
        r == read_be_u32_spec(buf@, offset as int),
{
    if offset > buf.len() || buf.len() - offset < 4 {
        return Err(BinaryError::OutOfRange { offset, len: 4 });
    }
    let b0 = buf[offset] as u32;
    let b1 = buf[offset + 1] as u32;
    let b2 = buf[offset + 2] as u32;
    let b3 = buf[offset + 3] as u32;
    Ok(b0 * 0x1000000 + b1 * 0x10000 + b2 * 0x100 + b3)
}

/// What `mapped_segment(flash, mpc, start, end)` returns: the bytes at the
/// inclusive address range `start..=end`, taken from the external flash when
/// `start` lies at or above its base address and from the MPC image otherwise.
pub open spec fn mapped_segment_spec(flash: Seq<u8>, mpc: Seq<u8>, start: u32, end: u32) -> Result<
    Seq<u8>,
    BinaryError,
> {
    let image = if start >= EXTERNAL_FLASH_BASE {
        flash
    } else {
        mpc
    };
    let offset = if start >= EXTERNAL_FLASH_BASE {
        start - EXTERNAL_FLASH_BASE
    } else {
        start as int
    };
    let len = end - start + 1;
    if start > end || len > image.len() {
        Err(BinaryError::InvalidAddress)
    } else if offset + len > image.len() {
        Err(BinaryError::OutOfRange { offset: offset as usize, len: len as usize })
    } else {
        Ok(image.subrange(offset, offset + len))
    }
}

/// Returns the bytes of the inclusive address range `start..=end`: from the
/// external flash image when the range starts at or above its base address,
/// else from the MPC image. A reversed range, or one longer than the whole
/// image, is `InvalidAddress`; one that runs past the end of the image is
/// `OutOfRange`.
pub fn mapped_segment<'a>(flash: &'a [u8], mpc: &'a [u8], start: u32, end: u32) -> (r: Result<
    &'a [u8],
    BinaryError,
>)
    ensures
        match (r, mapped_segment_spec(flash@, mpc@, start, end)) {
            (Ok(s), Ok(t)) => s@ == t,
            (Err(e), Err(f)) => e == f,
            _ => false,
        },
{
    let image = if start >= EXTERNAL_FLASH_BASE {
        flash
    } else {
        mpc
    };
    let offset = if start >= EXTERNAL_FLASH_BASE {
        (start - EXTERNAL_FLASH_BASE) as usize
    } else {
        start as usize
    };
    if start > end || (end - start) as u64 >= image.len() as u64 {
        return Err(BinaryError::InvalidAddress);
    }
    let len = (end - start) as usize + 1;
    if offset > image.len() || image.len() - offset < len {
        return Err(BinaryError::OutOfRange { offset, len });
    }
    Ok(&image[offset..offset + len])
}

} // verus!
