//! Decisions of a read-only backup: which requests are allowed, whether the
//! connected ECU is the pinned one, and how the range is split into reads.
use crate::crypto::{sha256, sha256_digest};
use crate::flasher::MemoryRegion;
use crate::hex::{hex_lower, hex_lower_bytes};
use crate::read_only::{region_limit, supported_variant, Identity, MAX_READ};
use crate::text::bytes_equal;
use vstd::prelude::*;
use vstd::string::StringSliceAdditionalSpecFns;

verus! {

/// The longest backup one command may take.
pub const MAX_BACKUP_LEN: usize = 0x100000;

/// Why a backup was refused or stopped.
#[derive(Debug, Clone, Copy, PartialEq, Eq, Structural)]
pub enum BackupError {
    UnsupportedVariant,
    LengthOutOfBounds,
    RangeOutOfBounds,
    IdentityMismatch,
    AddressOverflow,
}

/// What `check_backup_request` decides: the variant must be MS45.0 or
/// MS45.1, the length 1 to `MAX_BACKUP_LEN`, and the range inside the region.
pub open spec fn backup_request_spec(
    variant: Seq<u8>,
    region: MemoryRegion,
    start: u32,
    length: usize,
) -> Result<(), BackupError> {
    if !supported_variant(variant) {
        Err(BackupError::UnsupportedVariant)
    } else if length == 0 || length > MAX_BACKUP_LEN {
        Err(BackupError::LengthOutOfBounds)
    } else if start + length > region_limit(region) {
        Err(BackupError::RangeOutOfBounds)
    } else {
        Ok(())
    }
}

/// Checks a backup request before anything is sent to the adapter.
pub fn check_backup_request(
    expected_variant: &str,
    region: MemoryRegion,
    start: u32,
    length: usize,
) -> (r: Result<(), BackupError>)
    ensures
        r == backup_request_spec(expected_variant.spec_bytes(), region, start, length),
{
    let v = expected_variant.as_bytes();
    let is_ms45 = v.len() == 6 && v[0] == 0x4d && v[1] == 0x53 && v[2] == 0x34 && v[3] == 0x35
        && v[4] == 0x2e && (v[5] == 0x30 || v[5] == 0x31);
    proof {
        if v@.len() == 6 {
            assert(v@ =~= seq![0x4du8, 0x53, 0x34, 0x35, 0x2e, 0x30] <==> (v@[0] == 0x4d && v@[1]
                == 0x53 && v@[2] == 0x34 && v@[3] == 0x35 && v@[4] == 0x2e && v@[5] == 0x30));
            assert(v@ =~= seq![0x4du8, 0x53, 0x34, 0x35, 0x2e, 0x31] <==> (v@[0] == 0x4d && v@[1]
                == 0x53 && v@[2] == 0x34 && v@[3] == 0x35 && v@[4] == 0x2e && v@[5] == 0x31));
        }
    }
    if !is_ms45 {
        return Err(BackupError::UnsupportedVariant);
    }
    if length == 0 || length > MAX_BACKUP_LEN {
        return Err(BackupError::LengthOutOfBounds);
    }
    let limit = match region {
        MemoryRegion::ExternalFlash => crate::binary::EXTERNAL_FLASH_LEN,
        MemoryRegion::InternalMpc => crate::binary::MPC_FLASH_LEN,
    };
    if start as usize > limit || limit - (start as usize) < length {
        return Err(BackupError::RangeOutOfBounds);
    }
    Ok(())
}

/// ASCII letters lowered, other bytes kept (`str::to_ascii_lowercase`).
pub open spec fn ascii_lower(b: Seq<u8>) -> Seq<u8> {
    Seq::new(
        b.len(),
        |i: int|
            if 0x41 <= b[i] <= 0x5a {
                (b[i] + 32) as u8
            } else {
                b[i]
            },
    )
}

fn ascii_lower_bytes(b: &[u8]) -> (r: Vec<u8>)
    ensures
        r@ == ascii_lower(b@),
{
    let mut out: Vec<u8> = Vec::new();
    let mut i: usize = 0;
    while i < b.len()
        invariant
            i <= b@.len(),
            out@.len() == i,
            forall|j: int| 0 <= j < i ==> #[trigger] out@[j] == ascii_lower(b@)[j],
        decreases b@.len() - i,
    {
        let c = b[i];
        out.push(
            if 0x41 <= c && c <= 0x5a {
                c + 32
            } else {
                c
            },
        );
        i = i + 1;
    }
    assert(out@ =~= ascii_lower(b@));
    out
}

/// Whether the connected ECU is the pinned one: same variant, hardware and
/// software references, and the lower-case hexadecimal SHA-256 of its VIN equal
/// to the expected digest in any letter case.
pub open spec fn pin_matches(
    identity: Identity,
    variant: Seq<u8>,
    hardware_reference: Seq<u8>,
    software_reference: Seq<u8>,
    vin_sha256: Seq<u8>,
) -> bool {
    &&& vstd::utf8::encode_utf8(identity.variant@) == variant
    &&& vstd::utf8::encode_utf8(identity.hardware_reference@) == hardware_reference
    &&& vstd::utf8::encode_utf8(identity.software_reference@) == software_reference
    &&& hex_lower(sha256_digest(vstd::utf8::encode_utf8(identity.vin@))) == ascii_lower(
        vin_sha256,
    )
}

/// Compares the identity that the adapter reported with the pinned one.
pub fn identity_matches_pin(
    identity: &Identity,
    expected_variant: &str,
    expected_hardware_reference: &str,
    expected_software_reference: &str,
    expected_vin_sha256: &str,
) -> (r: bool)
    ensures
        r == pin_matches(
            *identity,
            expected_variant.spec_bytes(),
            expected_hardware_reference.spec_bytes(),
            expected_software_reference.spec_bytes(),
            expected_vin_sha256.spec_bytes(),
        ),
{
    let digest = sha256(identity.vin.as_str().as_bytes());
    let vin_hex = hex_lower_bytes(&digest);
    let expected_hex = ascii_lower_bytes(expected_vin_sha256.as_bytes());
    bytes_equal(identity.variant.as_str().as_bytes(), expected_variant.as_bytes())
        && bytes_equal(
        identity.hardware_reference.as_str().as_bytes(),
        expected_hardware_reference.as_bytes(),
    ) && bytes_equal(
        identity.software_reference.as_str().as_bytes(),
        expected_software_reference.as_bytes(),
    ) && bytes_equal(vin_hex.as_slice(), expected_hex.as_slice())
}

/// The next read of a backup of `length` bytes from `start` once `done` bytes
/// are in: at most `MAX_READ` bytes at `start + done`; an address past the
/// 32-bit space is `AddressOverflow`.
pub fn next_block(start: u32, length: usize, done: usize) -> (r: Result<(u32, usize), BackupError>)
    requires
        done < length,
    ensures
        match r {
            Ok((address, len)) => start + (done as u32) <= u32::MAX && address == start + (
            done as u32) && len == (if length - done < MAX_READ {
                length - done
            } else {
                MAX_READ as int
            }),
            Err(e) => e == BackupError::AddressOverflow && start + (done as u32) > u32::MAX,
        },
{
    let remaining = length - done;
    let block = if remaining < MAX_READ {
        remaining
    } else {
        MAX_READ
    };
    match start.checked_add(done as u32) {
        Some(address) => Ok((address, block)),
        None => Err(BackupError::AddressOverflow),
    }
}

/// Whether a backup was saved intact: the SHA-256 digest of the bytes read
/// from the ECU equals that of the bytes read back from the saved file.
pub fn backup_verified(saved: &[u8], read_back: &[u8]) -> (r: bool)
    ensures
        r == (sha256_digest(saved@) == sha256_digest(read_back@)),
{
    let expected = sha256(saved);
    let found = sha256(read_back);
    bytes_equal(&expected, &found)
}

/// The reads that remain of a backup of `length` bytes once `done` bytes are
/// in, as (offset, length) pairs in order: each reads up to `MAX_READ` bytes
/// from where the previous one stopped.
pub open spec fn backup_reads(length: nat, done: nat) -> Seq<(nat, nat)>
    decreases length - done,
{
    if done >= length {
        Seq::empty()
    } else {
        let n: nat = if length - done < MAX_READ {
            (length - done) as nat
        } else {
            MAX_READ as nat
        };
        seq![(done, n)] + backup_reads(length, done + n)
    }
}

/// The next read of a backup of `length` bytes from `start` once `done`
/// bytes are in, or `None` when all are in. The read is the first of
/// `backup_reads(length, done)`, at address `start + done` (the count taken
/// as a 32-bit number); an address past the 32-bit space is `AddressOverflow`.
pub fn backup_step(start: u32, length: usize, done: usize) -> (r: Result<
    Option<(u32, usize)>,
    BackupError,
>)
    ensures
        done >= length ==> r == Ok::<Option<(u32, usize)>, BackupError>(None),
        done < length ==> match r {
            Ok(Some((address, len))) => start + (done as u32) <= u32::MAX && address == start + (
            done as u32) && (done as nat, len as nat) == backup_reads(length as nat, done as nat)[0],
            Ok(None) => false,
            Err(e) => e == BackupError::AddressOverflow && start + (done as u32) > u32::MAX,
        },
{
    if done >= length {
        return Ok(None);
    }
    match next_block(start, length, done) {
        Ok((address, len)) => {
            assert((done as nat, len as nat) == backup_reads(length as nat, done as nat)[0]);
            Ok(Some((address, len)))
        },
        Err(e) => Err(e),
    }
}

proof fn lemma_backup_reads(length: nat, done: nat)
    requires
        done <= length,
    ensures
        (backup_reads(length, done).len() == 0) == (done == length),
        backup_reads(length, done).len() > 0 ==> backup_reads(length, done)[0].0 == done
            && backup_reads(length, done).last().0 + backup_reads(length, done).last().1
            == length,
        forall|i: int|
            0 <= i < backup_reads(length, done).len() ==> 1 <= (#[trigger] backup_reads(
                length,
                done,
            )[i]).1 <= MAX_READ,
        forall|i: int|
            0 < i < backup_reads(length, done).len() ==> (#[trigger] backup_reads(length, done)[i]).0
                == backup_reads(length, done)[i - 1].0 + backup_reads(length, done)[i - 1].1,
    decreases length - done,
{
    if done < length {
        let n: nat = if length - done < MAX_READ {
            (length - done) as nat
        } else {
            MAX_READ as nat
        };
        lemma_backup_reads(length, done + n);
        let rest = backup_reads(length, done + n);
        let all = backup_reads(length, done);
        assert(all == seq![(done, n)] + rest);
        assert forall|i: int| 0 <= i < all.len() implies 1 <= (#[trigger] all[i]).1 <= MAX_READ by {
            if i > 0 {
                assert(all[i] == rest[i - 1]);
            }
        }
        assert(all[0] == (done, n));
        assert forall|i: int| 0 < i < all.len() implies (#[trigger] all[i]).0 == all[i - 1].0
            + all[i - 1].1 by {
            assert(all[i] == rest[i - 1]);
            if i >= 2 {
                assert(all[i - 1] == rest[i - 2]);
                assert(rest[i - 1].0 == rest[i - 2].0 + rest[i - 2].1);
            }
        }
        if rest.len() > 0 {
            assert(all.last() == rest.last());
        }
    }
}

/// The reads of a backup cover the requested bytes exactly: there are none
/// for an empty backup; otherwise the first starts at offset 0, each starts
/// where the previous one ended, each reads 1 to `MAX_READ` bytes, and the
/// last ends at `length`.
pub proof fn law_backup_reads_cover(length: nat)
    ensures
        (backup_reads(length, 0).len() == 0) == (length == 0),
        backup_reads(length, 0).len() > 0 ==> backup_reads(length, 0)[0].0 == 0
            && backup_reads(length, 0).last().0 + backup_reads(length, 0).last().1 == length,
        forall|i: int|
            0 <= i < backup_reads(length, 0).len() ==> 1 <= (#[trigger] backup_reads(
                length,
                0,
            )[i]).1 <= MAX_READ,
        forall|i: int|
            0 < i < backup_reads(length, 0).len() ==> (#[trigger] backup_reads(length, 0)[i]).0
                == backup_reads(length, 0)[i - 1].0 + backup_reads(length, 0)[i - 1].1,
{
    lemma_backup_reads(length, 0);
}

/// After a read, the reads that remain are the rest of those planned.
pub proof fn law_backup_reads_step(length: nat, done: nat)
    requires
        done < length,
    ensures
        backup_reads(length, done) == seq![backup_reads(length, done)[0]] + backup_reads(
            length,
            done + backup_reads(length, done)[0].1,
        ),
{
}

/// A backup request that `check_backup_request` accepts never runs out of the
/// 32-bit address space: every count of bytes read so far fits in 32 bits,
/// and every read address `start + done` fits.
pub proof fn law_checked_backup_addresses_fit(
    variant: Seq<u8>,
    region: MemoryRegion,
    start: u32,
    length: usize,
    done: usize,
)
    requires
        backup_request_spec(variant, region, start, length) is Ok,
        done < length,
    ensures
        done as u32 == done,
        start + (done as u32) <= u32::MAX,
{
}

/// The pin check compares every pinned field. An identity passes only when
/// its variant, hardware reference and software reference are the pinned ones
/// byte for byte and its VIN hashes to the pinned digest (in either letter
/// case); an identity that differs in any one of them is refused, and one
/// that agrees in all is accepted.
pub proof fn law_pin_compares_every_field(
    identity: Identity,
    variant: Seq<u8>,
    hardware_reference: Seq<u8>,
    software_reference: Seq<u8>,
    vin_sha256: Seq<u8>,
)
    ensures
        vstd::utf8::encode_utf8(identity.variant@) != variant ==> !pin_matches(
            identity,
            variant,
            hardware_reference,
            software_reference,
            vin_sha256,
        ),
        vstd::utf8::encode_utf8(identity.hardware_reference@) != hardware_reference
            ==> !pin_matches(identity, variant, hardware_reference, software_reference, vin_sha256),
        vstd::utf8::encode_utf8(identity.software_reference@) != software_reference
            ==> !pin_matches(identity, variant, hardware_reference, software_reference, vin_sha256),
        hex_lower(sha256_digest(vstd::utf8::encode_utf8(identity.vin@))) != ascii_lower(vin_sha256)
            ==> !pin_matches(identity, variant, hardware_reference, software_reference, vin_sha256),
        (vstd::utf8::encode_utf8(identity.variant@) == variant && vstd::utf8::encode_utf8(
            identity.hardware_reference@,
        ) == hardware_reference && vstd::utf8::encode_utf8(identity.software_reference@)
            == software_reference && hex_lower(sha256_digest(vstd::utf8::encode_utf8(identity.vin@)))
            == ascii_lower(vin_sha256)) ==> pin_matches(
            identity,
            variant,
            hardware_reference,
            software_reference,
            vin_sha256,
        ),
{
}

/// A backup request is accepted exactly when the expected variant is the
/// text `MS45.0` or `MS45.1`, the length is 1 to 0x100000 bytes, and the range
/// `start..start + length` lies inside the region (1 MiB of external flash,
/// 0x70000 bytes of MPC flash).
pub proof fn law_backup_request_bounds(
    variant: Seq<u8>,
    region: MemoryRegion,
    start: u32,
    length: usize,
)
    ensures
        backup_request_spec(variant, region, start, length) is Ok <==> ((variant == seq![
            0x4du8,
            0x53,
            0x34,
            0x35,
            0x2e,
            0x30,
        ] || variant == seq![0x4du8, 0x53, 0x34, 0x35, 0x2e, 0x31]) && 1 <= length <= 0x100000
            && start + length <= (match region {
            MemoryRegion::ExternalFlash => 0x100000int,
            MemoryRegion::InternalMpc => 0x70000int,
        })),
{
}

} // verus!
