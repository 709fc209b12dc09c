//! The frames of the read-only adapter protocol: requests, response headers
//! and identity payloads. The connection itself is the caller's.
//!
//! A request is 22 bytes: `MS45R1`, an 8-byte nonce, the operation, the
//! region, a big-endian start (4 bytes) and length (2 bytes). A response starts
//! with `MS45R1`, the same nonce, a status byte and a big-endian payload length.
use crate::binary::{EXTERNAL_FLASH_LEN, MPC_FLASH_LEN};
use crate::crypto::{ascii_string, random_u64};
use crate::flasher::MemoryRegion;
use crate::hex::ascii_chars;
use vstd::prelude::*;

verus! {

/// The largest payload of one read.
pub const MAX_READ: usize = 4096;

/// The protocol's magic prefix, `MS45R1`.
pub const MAGIC: [u8; 6] = [0x4d, 0x53, 0x34, 0x35, 0x52, 0x31];

/// Operation code: identify the ECU.
pub const OP_IDENTIFY: u8 = 1;

/// Operation code: read memory.
pub const OP_READ: u8 = 2;

/// Why an exchange with the adapter failed.
#[derive(Debug, Clone, Copy, PartialEq, Eq, Structural)]
pub enum ReadError {
    Timeout,
    Disconnected,
    Protocol,
    Identity,
    Range,
    Rejected,
    Io,
}

/// The identity an adapter reports for the connected ECU.
#[derive(Clone, Debug, PartialEq, Eq)]
pub struct Identity {
    pub variant: String,
    pub hardware_reference: String,
    pub software_reference: String,
    pub vin: String,
}

/// The big-endian bytes of a 64-bit value.
pub open spec fn be64(v: u64) -> Seq<u8> {
    seq![
        (v / 0x100000000000000) as u8,
        ((v / 0x1000000000000) % 256) as u8,
        ((v / 0x10000000000) % 256) as u8,
        ((v / 0x100000000) % 256) as u8,
        ((v / 0x1000000) % 256) as u8,
        ((v / 0x10000) % 256) as u8,
        ((v / 0x100) % 256) as u8,
        (v % 256) as u8,
    ]
}

/// The big-endian bytes of a 32-bit value.
pub open spec fn be32(v: u32) -> Seq<u8> {
    seq![
        (v / 0x1000000) as u8,
        ((v / 0x10000) % 256) as u8,
        ((v / 0x100) % 256) as u8,
        (v % 256) as u8,
    ]
}

/// The big-endian bytes of a 16-bit value.
pub open spec fn be16(v: u16) -> Seq<u8> {
    seq![(v / 256) as u8, (v % 256) as u8]
}

/// The kinds of I/O failure that a connection to the adapter tells apart.
#[derive(Debug, Clone, Copy, PartialEq, Eq, Structural)]
pub enum IoKind {
    TimedOut,
    WouldBlock,
    UnexpectedEof,
    ConnectionReset,
    BrokenPipe,
    Other,
}

/// What an I/O failure of the adapter connection means for the exchange.
pub open spec fn io_error_spec(kind: IoKind) -> ReadError {
    match kind {
        IoKind::TimedOut | IoKind::WouldBlock => ReadError::Timeout,
        IoKind::UnexpectedEof | IoKind::ConnectionReset | IoKind::BrokenPipe => ReadError::Disconnected,
        IoKind::Other => ReadError::Io,
    }
}

/// Classifies an I/O failure: a timeout, a lost connection, or another I/O error.
pub fn classify_io_kind(kind: IoKind) -> (r: ReadError)
    ensures
        r == io_error_spec(kind),
{
    match kind {
        IoKind::TimedOut | IoKind::WouldBlock => ReadError::Timeout,
        IoKind::UnexpectedEof | IoKind::ConnectionReset | IoKind::BrokenPipe => ReadError::Disconnected,
        IoKind::Other => ReadError::Io,
    }
}

/// The request frame for one operation.
pub open spec fn request_frame(nonce: u64, op: u8, region: u8, start: u32, len: u16) -> Seq<u8> {
    MAGIC@ + be64(nonce) + seq![op, region] + be32(start) + be16(len)
}

fn be64_bytes(v: u64) -> (b: Vec<u8>)
    ensures
        b@ == be64(v),
{
    let b: Vec<u8> = vec![
        (v / 0x100000000000000) as u8,
        ((v / 0x1000000000000) % 256) as u8,
        ((v / 0x10000000000) % 256) as u8,
        ((v / 0x100000000) % 256) as u8,
        ((v / 0x1000000) % 256) as u8,
        ((v / 0x10000) % 256) as u8,
        ((v / 0x100) % 256) as u8,
        (v % 256) as u8,
    ];
    assert(b@ =~= be64(v));
    b
}

/// Builds the request frame for one operation.
pub fn encode_request(nonce: u64, op: u8, region: u8, start: u32, len: u16) -> (frame: Vec<u8>)
    ensures
        frame@ == request_frame(nonce, op, region, start, len),
        frame@.len() == 22,
{
    let mut frame: Vec<u8> = Vec::new();
    frame.extend_from_slice(&MAGIC);
    let n = be64_bytes(nonce);
    frame.extend_from_slice(n.as_slice());
    frame.push(op);
    frame.push(region);
    frame.push((start / 0x1000000) as u8);
    frame.push(((start / 0x10000) % 256) as u8);
    frame.push(((start / 0x100) % 256) as u8);
    frame.push((start % 256) as u8);
    frame.push((len / 256) as u8);
    frame.push((len % 256) as u8);
    assert(frame@ =~= request_frame(nonce, op, region, start, len));
    frame
}

/// Draws a fresh random nonce and builds the request frame that carries it.
pub fn new_request(op: u8, region: u8, start: u32, len: u16) -> (r: (u64, Vec<u8>))
    ensures
        r.1@ == request_frame(r.0, op, region, start, len),
{
    let nonce = random_u64();
    (nonce, encode_request(nonce, op, region, start, len))
}

/// What `check_response_header(header, nonce)` gives: the payload length of a
/// 17-byte response header that carries the magic and our nonce and announces
/// at most `MAX_READ` bytes; any other header is `Protocol`.
pub open spec fn response_header_spec(header: Seq<u8>, nonce: u64) -> Result<usize, ReadError> {
    let size = header[15] as int * 256 + header[16] as int;
    if header.subrange(0, 6) != MAGIC@ || header.subrange(6, 14) != be64(nonce) {
        Err(ReadError::Protocol)
    } else if size > MAX_READ {
        Err(ReadError::Protocol)
    } else {
        Ok(size as usize)
    }
}

/// Checks a response header against the nonce of our request and returns the
/// announced payload length.
pub fn check_response_header(header: &[u8], nonce: u64) -> (r: Result<usize, ReadError>)
    requires
        header@.len() == 17,
    ensures
        r == response_header_spec(header@, nonce),
{
    let n = be64_bytes(nonce);
    let ghost expected_prefix = MAGIC@ + be64(nonce);
    let mut i: usize = 0;
    let mut same = true;
    while i < 14
        invariant
            header@.len() == 17,
            n@ == be64(nonce),
            expected_prefix == MAGIC@ + be64(nonce),
            expected_prefix.len() == 14,
            i <= 14,
            same == (forall|j: int| 0 <= j < i ==> header@[j] == expected_prefix[j]),
        decreases 14 - i,
    {
        let expected = if i < 6 {
            MAGIC[i]
        } else {
            n[i - 6]
        };
        assert(expected == expected_prefix[i as int]);
        same = same && header[i] == expected;
        i = i + 1;
    }
    proof {
        if same {
            assert forall|j: int| 0 <= j < 6 implies header@.subrange(0, 6)[j] == MAGIC@[j] by {
                assert(expected_prefix[j] == MAGIC@[j]);
                assert(header@[j] == expected_prefix[j]);
            }
            assert forall|j: int| 0 <= j < 8 implies header@.subrange(6, 14)[j] == be64(nonce)[j] by {
                assert(expected_prefix[j + 6] == be64(nonce)[j]);
                assert(header@[j + 6] == expected_prefix[j + 6]);
            }
            assert(header@.subrange(0, 6) =~= MAGIC@);
            assert(header@.subrange(6, 14) =~= be64(nonce));
        } else {
            let j = choose|j: int| 0 <= j < 14 && header@[j] != expected_prefix[j];
            if j < 6 {
                assert(header@.subrange(0, 6)[j] != MAGIC@[j]);
            } else {
                assert(header@.subrange(6, 14)[j - 6] != be64(nonce)[j - 6]);
            }
        }
    }
    if !same {
        return Err(ReadError::Protocol);
    }
    let size = header[15] as usize * 256 + header[16] as usize;
    if size > MAX_READ {
        return Err(ReadError::Protocol);
    }
    Ok(size)
}

/// What a response's status byte makes of its payload: 0 is success, 1 a
/// rejected address, 2 a refused operation, anything else `Protocol`.
pub open spec fn response_status_spec(status: u8, payload: Seq<u8>) -> Result<Seq<u8>, ReadError> {
    if status == 0 {
        Ok(payload)
    } else if status == 1 {
        Err(ReadError::Range)
    } else if status == 2 {
        Err(ReadError::Rejected)
    } else {
        Err(ReadError::Protocol)
    }
}

/// Applies a response's status byte to its payload.
pub fn response_status(status: u8, payload: Vec<u8>) -> (r: Result<Vec<u8>, ReadError>)
    ensures
        match (r, response_status_spec(status, payload@)) {
            (Ok(v), Ok(w)) => v@ == w,
            (Err(e), Err(f)) => e == f,
            _ => false,
        },
{
    match status {
        0 => Ok(payload),
        1 => Err(ReadError::Range),
        2 => Err(ReadError::Rejected),
        _ => Err(ReadError::Protocol),
    }
}

/// The address limit of a region.
pub open spec fn region_limit(region: MemoryRegion) -> nat {
    match region {
        MemoryRegion::ExternalFlash => EXTERNAL_FLASH_LEN as nat,
        MemoryRegion::InternalMpc => MPC_FLASH_LEN as nat,
    }
}

/// The region's code on the wire.
pub open spec fn region_code(region: MemoryRegion) -> u8 {
    match region {
        MemoryRegion::ExternalFlash => 1,
        MemoryRegion::InternalMpc => 2,
    }
}

/// Checks a read request: at least one and at most `MAX_READ` bytes, wholly
/// inside the region. Returns the region's code and the length as sent.
pub fn read_request(region: MemoryRegion, start: u32, len: usize) -> (r: Result<(u8, u16), ReadError>)
    ensures
        r is Ok <==> 0 < len <= MAX_READ && start + len <= region_limit(region),
        r matches Err(e) ==> e == ReadError::Range,
        r matches Ok((code, n)) ==> code == region_code(region) && n == len,
{
    let limit = match region {
        MemoryRegion::ExternalFlash => EXTERNAL_FLASH_LEN,
        MemoryRegion::InternalMpc => MPC_FLASH_LEN,
    };
    if len == 0 || len > MAX_READ || start as usize > limit || limit - (start as usize) < len {
        return Err(ReadError::Range);
    }
    let code: u8 = match region {
        MemoryRegion::ExternalFlash => 1,
        MemoryRegion::InternalMpc => 2,
    };
    Ok((code, len as u16))
}

/// A read's payload must have exactly the requested length.
pub fn check_read_len(data: Vec<u8>, len: usize) -> (r: Result<Vec<u8>, ReadError>)
    ensures
        data@.len() == len ==> (r matches Ok(v) && v@ == data@),
        data@.len() != len ==> r == Err::<Vec<u8>, ReadError>(ReadError::Protocol),
{
    if data.len() != len {
        return Err(ReadError::Protocol);
    }
    Ok(data)
}

/// The `|`-separated fields of a payload, as `str::split('|')` gives them.
pub open spec fn split_bar(b: Seq<u8>) -> Seq<Seq<u8>>
    decreases b.len(),
{
    if b.len() == 0 {
        seq![Seq::empty()]
    } else {
        let s = split_bar(b.drop_last());
        if b.last() == 0x7c {
            s.push(Seq::empty())
        } else {
            s.update(s.len() - 1, s.last().push(b.last()))
        }
    }
}

/// The bytes an identity field may hold: ASCII letters and digits, `-` and `.`.
pub open spec fn allowed_byte(c: u8) -> bool {
    (0x30 <= c <= 0x39) || (0x41 <= c <= 0x5a) || (0x61 <= c <= 0x7a) || c == 0x2d || c == 0x2e
}

/// A field of 1 to 64 allowed bytes.
pub open spec fn field_ok(f: Seq<u8>) -> bool {
    0 < f.len() <= 64 && forall|i: int| 0 <= i < f.len() ==> allowed_byte(#[trigger] f[i])
}

/// The two accepted variants, `MS45.0` and `MS45.1`.
pub open spec fn supported_variant(f: Seq<u8>) -> bool {
    f == seq![0x4du8, 0x53, 0x34, 0x35, 0x2e, 0x30] || f == seq![0x4du8, 0x53, 0x34, 0x35, 0x2e, 0x31]
}

/// What `parse_identity(payload)` gives: exactly four well-formed fields
/// (variant, hardware reference, software reference, VIN), else `Protocol`;
/// a variant other than MS45.0 or MS45.1 is `Identity`.
pub open spec fn identity_spec(payload: Seq<u8>) -> Result<Seq<Seq<u8>>, ReadError> {
    let f = split_bar(payload);
    if f.len() != 4 || !(forall|i: int| 0 <= i < 4 ==> field_ok(#[trigger] f[i])) {
        Err(ReadError::Protocol)
    } else if !supported_variant(f[0]) {
        Err(ReadError::Identity)
    } else {
        Ok(f)
    }
}

proof fn lemma_split_len(b: Seq<u8>)
    ensures
        split_bar(b).len() >= 1,
    decreases b.len(),
{
    if b.len() > 0 {
        lemma_split_len(b.drop_last());
    }
}

fn allowed_byte_exec(c: u8) -> (r: bool)
    ensures
        r == allowed_byte(c),
{
    (0x30 <= c && c <= 0x39) || (0x41 <= c && c <= 0x5a) || (0x61 <= c && c <= 0x7a) || c
        == 0x2d || c == 0x2e
}

fn field_ok_exec(b: &[u8], s: usize, e: usize) -> (r: bool)
    requires
        s <= e <= b@.len(),
    ensures
        r == field_ok(b@.subrange(s as int, e as int)),
{
    let ghost f = b@.subrange(s as int, e as int);
    if e == s || e - s > 64 {
        return false;
    }
    let mut i = s;
    while i < e
        invariant
            s <= i <= e <= b@.len(),
            f == b@.subrange(s as int, e as int),
            forall|j: int| 0 <= j < i - s ==> allowed_byte(#[trigger] f[j]),
        decreases e - i,
    {
        if !allowed_byte_exec(b[i]) {
            assert(f[i - s] == b@[i as int]);
            return false;
        }
        i = i + 1;
    }
    true
}

fn field_string(b: &[u8], s: usize, e: usize) -> (r: String)
    requires
        s <= e <= b@.len(),
        field_ok(b@.subrange(s as int, e as int)),
    ensures
        r@ == ascii_chars(b@.subrange(s as int, e as int)),
{
    let f = &b[s..e];
    proof {
        assert forall|i: int| 0 <= i < f@.len() implies #[trigger] f@[i] < 0x80 by {
            assert(allowed_byte(f@[i]));
        }
    }
    let r = ascii_string(f);
    assert(r@ =~= ascii_chars(b@.subrange(s as int, e as int)));
    r
}

/// Parses an identity payload, `variant|hardware_reference|software_reference|VIN`.
pub fn parse_identity(payload: &[u8]) -> (r: Result<Identity, ReadError>)
    ensures
        match identity_spec(payload@) {
            Err(e) => r == Err::<Identity, ReadError>(e),
            Ok(f) => r matches Ok(id) && id.variant@ == ascii_chars(f[0])
                && id.hardware_reference@ == ascii_chars(f[1]) && id.software_reference@
                == ascii_chars(f[2]) && id.vin@ == ascii_chars(f[3]),
        },
{
    let ghost b = payload@;
    let mut starts: Vec<usize> = Vec::new();
    let mut ends: Vec<usize> = Vec::new();
    let mut cur: usize = 0;
    let mut i: usize = 0;
    assert(b.take(0) =~= Seq::<u8>::empty());
    while i < payload.len()
        invariant
            b == payload@,
            cur <= i <= b.len(),
            starts@.len() == ends@.len(),
            forall|j: int|
                0 <= j < starts@.len() ==> #[trigger] starts@[j] <= ends@[j] <= cur,
            split_bar(b.take(i as int)) == Seq::new(
                starts@.len(),
                |j: int| b.subrange(starts@[j] as int, ends@[j] as int),
            ).push(b.subrange(cur as int, i as int)),
        decreases b.len() - i,
    {
        let ghost before = Seq::new(
            starts@.len(),
            |j: int| b.subrange(starts@[j] as int, ends@[j] as int),
        );
        proof {
            assert(b.take(i + 1).drop_last() =~= b.take(i as int));
            assert(b.take(i + 1).last() == b[i as int]);
        }
        if payload[i] == 0x7c {
            let ghost old_starts = starts@;
            let ghost old_ends = ends@;
            starts.push(cur);
            ends.push(i);
            cur = i + 1;
            proof {
                assert forall|j: int| 0 <= j < starts@.len() implies #[trigger] starts@[j]
                    <= ends@[j] <= cur by {
                    if j < old_starts.len() {
                        assert(starts@[j] == old_starts[j]);
                        assert(ends@[j] == old_ends[j]);
                    }
                }
                assert(Seq::new(starts@.len(), |j: int| b.subrange(starts@[j] as int, ends@[j] as int))
                    =~= before.push(b.subrange(starts@[starts@.len() - 1] as int, i as int)));
                assert(b.subrange(cur as int, i + 1) =~= Seq::<u8>::empty());
            }
        } else {
            proof {
                assert(b.subrange(cur as int, i + 1) =~= b.subrange(cur as int, i as int).push(
                    b[i as int],
                ));
                assert(before.push(b.subrange(cur as int, i as int)).update(
                    before.len() as int,
                    b.subrange(cur as int, i + 1),
                ) =~= before.push(b.subrange(cur as int, i + 1)));
            }
        }
        i = i + 1;
    }
    starts.push(cur);
    ends.push(i);
    let ghost f = Seq::new(starts@.len(), |j: int| b.subrange(starts@[j] as int, ends@[j] as int));
    proof {
        assert(b.take(i as int) =~= b);
        assert(f =~= split_bar(b));
    }
    if starts.len() != 4 {
        return Err(ReadError::Protocol);
    }
    let mut k: usize = 0;
    while k < 4
        invariant
            b == payload@,
            starts@.len() == 4,
            ends@.len() == 4,
            f == split_bar(b),
            f == Seq::new(starts@.len(), |j: int| b.subrange(starts@[j] as int, ends@[j] as int)),
            forall|j: int| 0 <= j < 4 ==> #[trigger] starts@[j] <= ends@[j] <= b.len(),
            k <= 4,
            forall|j: int| 0 <= j < k ==> field_ok(#[trigger] f[j]),
        decreases 4 - k,
    {
        if !field_ok_exec(payload, starts[k], ends[k]) {
            assert(f[k as int] == b.subrange(starts@[k as int] as int, ends@[k as int] as int));
            return Err(ReadError::Protocol);
        }
        k = k + 1;
    }
    proof {
        assert(f[0] == b.subrange(starts@[0] as int, ends@[0] as int));
        assert(f[1] == b.subrange(starts@[1] as int, ends@[1] as int));
        assert(f[2] == b.subrange(starts@[2] as int, ends@[2] as int));
        assert(f[3] == b.subrange(starts@[3] as int, ends@[3] as int));
        assert(field_ok(f[0]) && field_ok(f[1]) && field_ok(f[2]) && field_ok(f[3]));
    }
    let v = &payload[starts[0]..ends[0]];
    let is_ms45 = v.len() == 6 && v[0] == 0x4d && v[1] == 0x53 && v[2] == 0x34 && v[3] == 0x35
        && v[4] == 0x2e && (v[5] == 0x30 || v[5] == 0x31);
    proof {
        assert(f[0] == v@);
        if v@.len() == 6 {
            assert(v@ =~= seq![0x4du8, 0x53, 0x34, 0x35, 0x2e, 0x30] <==> (v@[0] == 0x4d && v@[1]
                == 0x53 && v@[2] == 0x34 && v@[3] == 0x35 && v@[4] == 0x2e && v@[5] == 0x30));
            assert(v@ =~= seq![0x4du8, 0x53, 0x34, 0x35, 0x2e, 0x31] <==> (v@[0] == 0x4d && v@[1]
                == 0x53 && v@[2] == 0x34 && v@[3] == 0x35 && v@[4] == 0x2e && v@[5] == 0x31));
        }
    }
    if !is_ms45 {
        return Err(ReadError::Identity);
    }
    Ok(
        Identity {
            variant: field_string(payload, starts[0], ends[0]),
            hardware_reference: field_string(payload, starts[1], ends[1]),
            software_reference: field_string(payload, starts[2], ends[2]),
            vin: field_string(payload, starts[3], ends[3]),
        },
    )
}

/// Whether `c` is an ASCII letter or digit, `-` or `.`.
proof fn lemma_class(c: u8)
    ensures
        allowed_byte(c) <==> ((0x30 <= c <= 0x39) || (0x41 <= c <= 0x5a) || (0x61 <= c <= 0x7a)
            || c == 0x2d || c == 0x2e),
{
}

/// Identity payloads are accepted exactly as documented: four `|`-separated
/// fields, each of 1 to 64 bytes drawn from ASCII letters, digits, `-` and
/// `.`, give the identity when the variant is MS45.0 or MS45.1 and `Identity`
/// otherwise; an accepted payload's fields hold only such bytes.
pub proof fn law_identity_fields(payload: Seq<u8>)
    ensures
        (split_bar(payload).len() == 4 && forall|i: int, k: int|
            0 <= i < 4 && 0 <= k < split_bar(payload)[i].len() ==> {
                let c = #[trigger] split_bar(payload)[i][k];
                (0x30 <= c <= 0x39) || (0x41 <= c <= 0x5a) || (0x61 <= c <= 0x7a) || c == 0x2d
                    || c == 0x2e
            }) && (forall|i: int| 0 <= i < 4 ==> 0 < (#[trigger] split_bar(payload)[i]).len()
            <= 64) ==> identity_spec(payload) == (if supported_variant(split_bar(payload)[0]) {
            Ok::<Seq<Seq<u8>>, ReadError>(split_bar(payload))
        } else {
            Err::<Seq<Seq<u8>>, ReadError>(ReadError::Identity)
        }),
        identity_spec(payload) matches Ok(f) ==> f.len() == 4 && forall|i: int, k: int|
            0 <= i < 4 && 0 <= k < f[i].len() ==> {
                let c = #[trigger] f[i][k];
                (0x30 <= c <= 0x39) || (0x41 <= c <= 0x5a) || (0x61 <= c <= 0x7a) || c == 0x2d
                    || c == 0x2e
            },
{
    let f = split_bar(payload);
    if f.len() == 4 {
        assert forall|i: int, k: int| 0 <= i < 4 && 0 <= k < f[i].len() implies allowed_byte(f[i][k])
            <==> {
            let c = f[i][k];
            (0x30 <= c <= 0x39) || (0x41 <= c <= 0x5a) || (0x61 <= c <= 0x7a) || c == 0x2d || c
                == 0x2e
        } by {
            lemma_class(f[i][k]);
        }
    }
}

} // verus!
