//! Digests, modular exponentiation and other computations that this library
//! takes from outside crates and from std, each behind one small wrapper.
use md5::Digest as _;
use vstd::prelude::*;
use vstd::string::StringSliceAdditionalSpecFns;

verus! {

/// The MD5 digest of a byte string, as computed by the `md-5` crate.
pub uninterp spec fn md5_digest(data: Seq<u8>) -> Seq<u8>;

/// The SHA-256 digest of a byte string, as computed by the `sha2` crate.
pub uninterp spec fn sha256_digest(data: Seq<u8>) -> Seq<u8>;

/// One step of the reflected CRC-32 register (polynomial 0xEDB88320).
pub open spec fn crc_shift(c: u32) -> u32 {
    if c & 1 == 1 {
        (c >> 1) ^ 0xEDB8_8320u32
    } else {
        c >> 1
    }
}

/// `k` steps of the CRC-32 register.
pub open spec fn crc_steps(c: u32, k: nat) -> u32
    decreases k,
{
    if k == 0 {
        c
    } else {
        crc_shift(crc_steps(c, (k - 1) as nat))
    }
}

/// The CRC-32 register after the bytes `data`, starting from all ones.
pub open spec fn crc_register(data: Seq<u8>) -> u32
    decreases data.len(),
{
    if data.len() == 0 {
        0xFFFF_FFFFu32
    } else {
        crc_steps(crc_register(data.drop_last()) ^ (data.last() as u32), 8)
    }
}

/// The CRC-32 (IEEE 802.3) checksum of a byte string: the register after the
/// bytes, inverted.
pub open spec fn crc32_checksum(data: Seq<u8>) -> u32 {
    crc_register(data) ^ 0xFFFF_FFFFu32
}

/// The natural number whose little-endian base-256 digits are `s`.
pub open spec fn le_nat(s: Seq<u8>) -> nat
    decreases s.len(),
{
    if s.len() == 0 {
        0
    } else {
        s[0] as nat + 256 * le_nat(s.skip(1))
    }
}

/// The shortest little-endian byte string of `n`; zero is the single byte 0.
pub open spec fn nat_to_le(n: nat) -> Seq<u8>
    decreases n,
{
    if n < 256 {
        seq![n as u8]
    } else {
        seq![(n % 256) as u8] + nat_to_le(n / 256)
    }
}

/// `(base ^ exponent) mod modulus`, for numbers given as little-endian bytes,
/// with the result as the shortest little-endian byte string.
pub open spec fn modpow_le_spec(base: Seq<u8>, exponent: Seq<u8>, modulus: Seq<u8>) -> Seq<u8> {
    nat_to_le(
        (vstd::arithmetic::power::pow(le_nat(base) as int, le_nat(exponent)) % (le_nat(
            modulus,
        ) as int)) as nat,
    )
}

/// A number given by little-endian bytes is nonzero when one of its bytes is.
pub proof fn lemma_le_nat_positive(s: Seq<u8>, i: int)
    requires
        0 <= i < s.len(),
        s[i] != 0,
    ensures
        le_nat(s) > 0,
    decreases s.len(),
{
    if i > 0 {
        lemma_le_nat_positive(s.skip(1), i - 1);
    }
}

/// Computes the MD5 digest of `data` with `md5::Md5::digest`.
#[verifier::external_body]
pub fn md5(data: &[u8]) -> (digest: [u8; 16])
    ensures
        digest@ == md5_digest(data@),
{
    md5::Md5::digest(data).into()
}

/// Computes the SHA-256 digest of `data` with `sha2::Sha256::digest`.
#[verifier::external_body]
pub fn sha256(data: &[u8]) -> (digest: [u8; 32])
    ensures
        digest@ == sha256_digest(data@),
{
    <sha2::Sha256 as sha2::Digest>::digest(data).into()
}

/// Computes the CRC-32 (IEEE) checksum of `data` with `crc32fast::hash`, whose
/// table-driven update is the bitwise reflected CRC-32 with all-ones initial
/// value and final inversion.
#[verifier::external_body]
pub fn crc32(data: &[u8]) -> (crc: u32)
    ensures
        crc == crc32_checksum(data@),
{
    crc32fast::hash(data)
}

/// Computes `(base ^ exponent) mod modulus` with `num_bigint::BigUint::modpow`,
/// reading the three numbers from little-endian bytes (`BigUint::from_bytes_le`)
/// and writing the result as little-endian bytes (`BigUint::to_bytes_le`, which
/// gives the shortest form and `[0]` for zero). `modpow` panics on a zero modulus,
/// which `requires` rules out.
#[verifier::external_body]
pub fn modpow_le(base: &[u8], exponent: &[u8], modulus: &[u8]) -> (r: Vec<u8>)
    requires
        le_nat(modulus@) > 0,
    ensures
        r@ == modpow_le_spec(base@, exponent@, modulus@),
{
    let base = num_bigint::BigUint::from_bytes_le(base);
    let exponent = num_bigint::BigUint::from_bytes_le(exponent);
    let modulus = num_bigint::BigUint::from_bytes_le(modulus);
    base.modpow(&exponent, &modulus).to_bytes_le()
}

/// Draws a random 64-bit value from `rand::thread_rng()`; nothing is stated of it.
#[verifier::external_body]
pub fn random_u64() -> u64 {
    rand::RngCore::next_u64(&mut rand::thread_rng())
}

/// Makes a `String` of ASCII bytes with `String::from_utf8_lossy`, which
/// keeps ASCII text as it is.
#[verifier::external_body]
pub fn ascii_string(bytes: &[u8]) -> (s: String)
    requires
        forall|i: int| 0 <= i < bytes@.len() ==> #[trigger] bytes@[i] < 0x80,
    ensures
        s@ == Seq::new(bytes@.len(), |i: int| bytes@[i] as char),
{
    String::from_utf8_lossy(bytes).into_owned()
}

/// Reads `bytes` as UTF-8 text with `std::str::from_utf8`: `None` when the
/// bytes are not valid UTF-8, else the text with exactly these bytes.
#[verifier::external_body]
pub fn str_from_utf8(bytes: &[u8]) -> (r: Option<&str>)
    ensures
        r is Some <==> vstd::utf8::valid_utf8(bytes@),
        r matches Some(s) ==> s.spec_bytes() == bytes@,
{
    std::str::from_utf8(bytes).ok()
}

} // verus!
