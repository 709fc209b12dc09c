//! Flash plans and their fail-safe execution against a live DME backend.
//!
//! A `FlashBackend` performs the diagnostic jobs. Its specification records every
//! call made on it, with the call's result, in `calls()`; `FlashPlan::execute`
//! is specified by how the calls it makes follow the plan's schedule.
use crate::text::{blank, bytes_equal, decimal, decimal_digits, is_blank};
use vstd::string::StringExecFns;
use vstd::prelude::*;
use vstd::string::StringSliceAdditionalSpecFns;

verus! {

/// What a connected DME reports about itself.
#[derive(Debug, Clone, PartialEq, Eq)]
pub struct DmeIdentity {
    pub vin: String,
    pub hardware_reference: String,
    pub software_reference: String,
    pub programming_status: String,
    pub diag_protocol: String,
}

/// Which part of the DME a read covers.
#[derive(Debug, Clone, Copy, PartialEq, Eq, Structural)]
pub enum ReadKind {
    Tune,
    Full,
}

/// The security access level requested before programming.
#[derive(Debug, Clone, Copy, PartialEq, Eq, Structural)]
pub enum SecurityLevel {
    Programming,
}

/// A memory of the DME.
#[derive(Debug, Clone, Copy, PartialEq, Eq, Structural)]
pub enum MemoryRegion {
    ExternalFlash,
    InternalMpc,
}

/// How many of the plan's bytes have been written and verified.
#[derive(Debug, Clone, Copy, PartialEq, Eq, Structural)]
pub struct FlashProgress {
    pub completed: usize,
    pub total: usize,
}

/// Why a flash plan was refused or its execution stopped.
#[derive(Debug)]
pub enum FlashError {
    UnsupportedBackend,
    SecurityDenied,
    Backend(String),
    InvalidPlan(String),
    IdentityMismatch(String),
    ReadbackMismatch { address: u32 },
}

/// Bytes to be written at `start` of `region`.
#[derive(Debug, Clone, PartialEq, Eq)]
pub struct FlashSegment {
    pub region: MemoryRegion,
    pub start: u32,
    pub data: Vec<u8>,
}

/// What a successful execution reports.
#[derive(Debug, Clone, PartialEq, Eq)]
pub struct FlashReceipt {
    pub identity: DmeIdentity,
    pub segments_written: usize,
    pub bytes_written: usize,
}

/// One call made on a backend, with the result it gave.
#[allow(inconsistent_fields)]
pub enum BackendCall {
    Identify { result: Result<DmeIdentity, FlashError> },
    RequestSecurityAccess { level: SecurityLevel, result: Result<(), FlashError> },
    ReadMemory {
        region: MemoryRegion,
        start: u32,
        len: usize,
        result: Result<Seq<u8>, FlashError>,
    },
    Erase { start: u32, len: usize, result: Result<(), FlashError> },
    WriteBlock { start: u32, data: Seq<u8>, result: Result<(), FlashError> },
    CheckSignature { program: bool, result: Result<(), FlashError> },
    Reset { result: Result<(), FlashError> },
}

/// The view of a read's result.
pub open spec fn read_result(r: Result<Vec<u8>, FlashError>) -> Result<Seq<u8>, FlashError> {
    match r {
        Ok(v) => Ok(v@),
        Err(e) => Err(e),
    }
}

/// Live access to a DME. Each method's specification appends the call and
/// its result to `calls()`, the record of what was done to this backend.
/// `calls()` is empty unless an implementation defines it, so only an
/// implementation that keeps this record, and that Verus has checked, meets
/// these specifications; what is proved of `FlashPlan::execute` holds for such
/// backends. An implementation written outside Verus (a test double, or a
/// backend for real hardware) is trusted to behave as specified.
pub trait FlashBackend {
    /// The calls made on this backend so far, oldest first.
    open spec fn calls(&self) -> Seq<BackendCall> {
        Seq::empty()
    }

    fn identify(&mut self) -> (r: Result<DmeIdentity, FlashError>)
        ensures
            final(self).calls() == old(self).calls().push(BackendCall::Identify { result: r }),
    ;

    fn request_security_access(&mut self, level: SecurityLevel) -> (r: Result<(), FlashError>)
        ensures
            final(self).calls() == old(self).calls().push(
                BackendCall::RequestSecurityAccess { level, result: r },
            ),
    ;

    fn read_memory<P: FnMut(FlashProgress)>(
        &mut self,
        region: MemoryRegion,
        start: u32,
        len: usize,
        progress: &mut P,
    ) -> (r: Result<Vec<u8>, FlashError>)
        ensures
            final(self).calls() == old(self).calls().push(
                BackendCall::ReadMemory { region, start, len, result: read_result(r) },
            ),
    ;

    fn erase(&mut self, start: u32, len: usize) -> (r: Result<(), FlashError>)
        ensures
            final(self).calls() == old(self).calls().push(
                BackendCall::Erase { start, len, result: r },
            ),
    ;

    fn write_block<P: FnMut(FlashProgress)>(
        &mut self,
        start: u32,
        data: &[u8],
        progress: &mut P,
    ) -> (r: Result<(), FlashError>)
        ensures
            final(self).calls() == old(self).calls().push(
                BackendCall::WriteBlock { start, data: data@, result: r },
            ),
    ;

    fn check_signature(&mut self, program: bool) -> (r: Result<(), FlashError>)
        ensures
            final(self).calls() == old(self).calls().push(
                BackendCall::CheckSignature { program, result: r },
            ),
    ;

    fn reset(&mut self) -> (r: Result<(), FlashError>)
        ensures
            final(self).calls() == old(self).calls().push(BackendCall::Reset { result: r }),
    ;
}

/// A backend for builds without live DME access: every job fails with
/// `UnsupportedBackend`.
pub struct UnsupportedLiveBackend {
    record: Ghost<Seq<BackendCall>>,
}

impl UnsupportedLiveBackend {
    /// A backend on which nothing has been called yet.
    pub fn new() -> (b: Self)
        ensures
            b.calls() == Seq::<BackendCall>::empty(),
    {
        UnsupportedLiveBackend { record: Ghost(Seq::empty()) }
    }
}

impl Default for UnsupportedLiveBackend {
    fn default() -> (b: Self)
        ensures
            b.calls() == Seq::<BackendCall>::empty(),
    {
        Self::new()
    }
}

impl FlashBackend for UnsupportedLiveBackend {
    closed spec fn calls(&self) -> Seq<BackendCall> {
        self.record@
    }

    fn identify(&mut self) -> (r: Result<DmeIdentity, FlashError>)
        ensures
            r matches Err(FlashError::UnsupportedBackend),
    {
        let r = Err(FlashError::UnsupportedBackend);
        proof {
            self.record@ = self.record@.push(BackendCall::Identify { result: r });
        }
        r
    }

    fn request_security_access(&mut self, level: SecurityLevel) -> (r: Result<(), FlashError>)
        ensures
            r matches Err(FlashError::UnsupportedBackend),
    {
        let r = Err(FlashError::UnsupportedBackend);
        proof {
            self.record@ = self.record@.push(
                BackendCall::RequestSecurityAccess { level, result: r },
            );
        }
        r
    }

    fn read_memory<P: FnMut(FlashProgress)>(
        &mut self,
        region: MemoryRegion,
        start: u32,
        len: usize,
        progress: &mut P,
    ) -> (r: Result<Vec<u8>, FlashError>)
        ensures
            r matches Err(FlashError::UnsupportedBackend),
    {
        let r = Err(FlashError::UnsupportedBackend);
        proof {
            self.record@ = self.record@.push(
                BackendCall::ReadMemory { region, start, len, result: read_result(r) },
            );
        }
        r
    }

    fn erase(&mut self, start: u32, len: usize) -> (r: Result<(), FlashError>)
        ensures
            r matches Err(FlashError::UnsupportedBackend),
    {
        let r = Err(FlashError::UnsupportedBackend);
        proof {
            self.record@ = self.record@.push(BackendCall::Erase { start, len, result: r });
        }
        r
    }

    fn write_block<P: FnMut(FlashProgress)>(
        &mut self,
        start: u32,
        data: &[u8],
        progress: &mut P,
    ) -> (r: Result<(), FlashError>)
        ensures
            r matches Err(FlashError::UnsupportedBackend),
    {
        let r = Err(FlashError::UnsupportedBackend);
        proof {
            self.record@ = self.record@.push(
                BackendCall::WriteBlock { start, data: data@, result: r },
            );
        }
        r
    }

    fn check_signature(&mut self, program: bool) -> (r: Result<(), FlashError>)
        ensures
            r matches Err(FlashError::UnsupportedBackend),
    {
        let r = Err(FlashError::UnsupportedBackend);
        proof {
            self.record@ = self.record@.push(BackendCall::CheckSignature { program, result: r });
        }
        r
    }

    fn reset(&mut self) -> (r: Result<(), FlashError>)
        ensures
            r matches Err(FlashError::UnsupportedBackend),
    {
        let r = Err(FlashError::UnsupportedBackend);
        proof {
            self.record@ = self.record@.push(BackendCall::Reset { result: r });
        }
        r
    }
}

/// True when a text holds only white space.
pub open spec fn text_blank(s: Seq<char>) -> bool {
    is_blank(vstd::utf8::encode_utf8(s))
}

/// A segment is writable when it carries data and its address range fits in 32 bits.
pub open spec fn segment_ok(s: FlashSegment) -> bool {
    s.data@.len() > 0 && s.start + s.data@.len() <= u32::MAX
}

/// Two segments collide when they lie in the same region and their address ranges meet.
pub open spec fn segments_overlap(a: FlashSegment, b: FlashSegment) -> bool {
    a.region == b.region && a.start < b.start + b.data@.len() && b.start < a.start
        + a.data@.len()
}

/// The rules that `FlashPlan::new` checks.
pub open spec fn plan_acceptable(
    hardware_reference: Seq<char>,
    segments: Seq<FlashSegment>,
    block_size: usize,
) -> bool {
    &&& !text_blank(hardware_reference)
    &&& 1 <= block_size <= 0x1000
    &&& segments.len() > 0
    &&& forall|i: int| 0 <= i < segments.len() ==> segment_ok(#[trigger] segments[i])
    &&& forall|i: int, j: int|
        0 <= i < j < segments.len() ==> !segments_overlap(
            #[trigger] segments[i],
            #[trigger] segments[j],
        )
}

/// Total payload of the segments.
pub open spec fn total_len(segments: Seq<FlashSegment>) -> nat
    decreases segments.len(),
{
    if segments.len() == 0 {
        0
    } else {
        total_len(segments.drop_last()) + segments.last().data@.len()
    }
}

proof fn lemma_total_len_prefix(segments: Seq<FlashSegment>, i: int)
    requires
        0 <= i <= segments.len(),
    ensures
        total_len(segments.take(i)) <= total_len(segments),
        i < segments.len() ==> total_len(segments.take(i + 1)) == total_len(segments.take(i))
            + segments[i].data@.len(),
    decreases segments.len() - i,
{
    if i < segments.len() {
        lemma_total_len_prefix(segments, i + 1);
        assert(segments.take(i + 1).drop_last() =~= segments.take(i));
    } else {
        assert(segments.take(i) =~= segments);
    }
}

/// A validated, approved plan for writing segments to a DME.
#[derive(Debug, PartialEq, Eq)]
pub struct FlashPlan {
    expected_hardware_reference: String,
    expected_software_reference: Option<String>,
    expected_vin: Option<String>,
    segments: Vec<FlashSegment>,
    block_size: usize,
    program_signature: bool,
}

/// A call that a plan schedules, with the bytes a read must give back.
pub enum PlannedCall {
    Identify,
    RequestSecurityAccess { level: SecurityLevel },
    Erase { start: u32, len: usize },
    WriteBlock { start: u32, data: Seq<u8> },
    ReadBack { region: MemoryRegion, start: u32, data: Seq<u8> },
    CheckSignature { program: bool },
    Reset,
}

/// The write-then-read-back calls for the blocks of `data` from offset `off` on.
pub open spec fn block_calls(
    region: MemoryRegion,
    start: u32,
    data: Seq<u8>,
    block_size: nat,
    off: nat,
) -> Seq<PlannedCall>
    decreases data.len() - off,
{
    if block_size == 0 || off >= data.len() {
        Seq::empty()
    } else {
        let end = if off + block_size < data.len() {
            off + block_size
        } else {
            data.len()
        };
        seq![
            PlannedCall::WriteBlock { start: (start + off) as u32, data: data.subrange(off as int, end as int) },
            PlannedCall::ReadBack {
                region,
                start: (start + off) as u32,
                data: data.subrange(off as int, end as int),
            },
        ] + block_calls(region, start, data, block_size, end)
    }
}

/// Erase, then write and read back block by block: the calls for one segment.
pub open spec fn segment_calls(s: FlashSegment, block_size: nat) -> Seq<PlannedCall> {
    seq![PlannedCall::Erase { start: s.start, len: s.data@.len() as usize }] + block_calls(
        s.region,
        s.start,
        s.data@,
        block_size,
        0,
    )
}

/// The calls for segments `i..` in order.
pub open spec fn segments_calls(segments: Seq<FlashSegment>, block_size: nat, i: int) -> Seq<
    PlannedCall,
>
    decreases segments.len() - i,
{
    if i < 0 || i >= segments.len() {
        Seq::empty()
    } else {
        segment_calls(segments[i], block_size) + segments_calls(segments, block_size, i + 1)
    }
}

/// Whether an actual call is the planned one (same job, same arguments).
pub open spec fn call_matches(p: PlannedCall, c: BackendCall) -> bool {
    match (p, c) {
        (PlannedCall::Identify, BackendCall::Identify { .. }) => true,
        (
            PlannedCall::RequestSecurityAccess { level },
            BackendCall::RequestSecurityAccess { level: l, .. },
        ) => level == l,
        (PlannedCall::Erase { start, len }, BackendCall::Erase { start: s, len: n, .. }) => start
            == s && len == n,
        (
            PlannedCall::WriteBlock { start, data },
            BackendCall::WriteBlock { start: s, data: d, .. },
        ) => start == s && data == d,
        (
            PlannedCall::ReadBack { region, start, data },
            BackendCall::ReadMemory { region: r, start: s, len, .. },
        ) => region == r && start == s && len == data.len(),
        (PlannedCall::CheckSignature { program }, BackendCall::CheckSignature { program: p, .. }) =>
            program == p,
        (PlannedCall::Reset, BackendCall::Reset { .. }) => true,
        _ => false,
    }
}

impl FlashPlan {
    #[verifier::type_invariant]
    spec fn well_formed(self) -> bool {
        &&& plan_acceptable(self.expected_hardware_reference@, self.segments@, self.block_size)
        &&& total_len(self.segments@) <= usize::MAX
    }

    /// The hardware reference the connected DME must report.
    pub closed spec fn hardware_reference(self) -> Seq<char> {
        self.expected_hardware_reference@
    }

    /// The software reference the connected DME must report, if pinned.
    pub closed spec fn software_reference(self) -> Option<Seq<char>> {
        match self.expected_software_reference {
            Some(s) => Some(s@),
            None => None,
        }
    }

    /// The VIN the connected DME must report, if pinned.
    pub closed spec fn vin(self) -> Option<Seq<char>> {
        match self.expected_vin {
            Some(s) => Some(s@),
            None => None,
        }
    }

    /// The segments to write, in order.
    pub closed spec fn segments(self) -> Seq<FlashSegment> {
        self.segments@
    }

    /// The largest block written at once.
    pub closed spec fn block_size(self) -> usize {
        self.block_size
    }

    /// Whether the final signature check is the program's (else the parameters').
    pub closed spec fn program_signature(self) -> bool {
        self.program_signature
    }

    /// Whether the DME's identity is the one this plan was approved for.
    pub open spec fn identity_accepted(self, id: DmeIdentity) -> bool {
        &&& id.hardware_reference@ == self.hardware_reference()
        &&& (self.software_reference() matches Some(sw) ==> id.software_reference@ == sw)
        &&& (self.vin() matches Some(vin) ==> id.vin@ == vin)
    }

    /// Why `id` is not the approved identity: the hardware reference is checked
    /// first, then the software reference, then the VIN.
    pub open spec fn mismatch_message(self, id: DmeIdentity) -> Seq<char> {
        if id.hardware_reference@ != self.hardware_reference() {
            "hardware"@ + " reference expected "@ + self.hardware_reference() + ", found "@
                + id.hardware_reference@
        } else if self.software_reference() is Some && id.software_reference@
            != self.software_reference().unwrap() {
            "software"@ + " reference expected "@ + self.software_reference().unwrap()
                + ", found "@ + id.software_reference@
        } else {
            "VIN differs from approved plan"@
        }
    }

    /// Every call of a complete execution, in order: identify, unlock, then for
    /// each segment erase and write/read back each block, then the signature
    /// check and the reset.
    pub open spec fn schedule(self) -> Seq<PlannedCall> {
        seq![
            PlannedCall::Identify,
            PlannedCall::RequestSecurityAccess { level: SecurityLevel::Programming },
        ] + segments_calls(self.segments(), self.block_size() as nat, 0) + seq![
            PlannedCall::CheckSignature { program: self.program_signature() },
            PlannedCall::Reset,
        ]
    }

    /// Whether a planned call, as made, went through: its job succeeded, the
    /// identity was the approved one, and a read gave back the written bytes.
    pub open spec fn call_succeeds(self, p: PlannedCall, c: BackendCall) -> bool {
        match c {
            BackendCall::Identify { result } => result matches Ok(id) && self.identity_accepted(id),
            BackendCall::RequestSecurityAccess { result, .. } => result is Ok,
            BackendCall::ReadMemory { result, .. } => result matches Ok(bytes) && (p matches PlannedCall::ReadBack {
                data,
                ..
            } && bytes == data),
            BackendCall::Erase { result, .. } => result is Ok,
            BackendCall::WriteBlock { result, .. } => result is Ok,
            BackendCall::CheckSignature { result, .. } => result is Ok,
            BackendCall::Reset { result } => result is Ok,
        }
    }

    /// The error an execution reports when the planned call `p` failed as `c`:
    /// the job's own error, an identity mismatch, or a read-back mismatch at the
    /// block's address.
    pub open spec fn failed_with(self, p: PlannedCall, c: BackendCall, e: FlashError) -> bool {
        match c {
            BackendCall::Identify { result } => match result {
                Err(f) => e == f,
                Ok(id) => e matches FlashError::IdentityMismatch(m) && m@
                    == self.mismatch_message(id),
            },
            BackendCall::RequestSecurityAccess { result, .. } => result == Err::<(), FlashError>(
                e,
            ),
            BackendCall::ReadMemory { result, start, .. } => match result {
                Err(f) => e == f,
                Ok(_) => e == FlashError::ReadbackMismatch { address: start },
            },
            BackendCall::Erase { result, .. } => result == Err::<(), FlashError>(e),
            BackendCall::WriteBlock { result, .. } => result == Err::<(), FlashError>(e),
            BackendCall::CheckSignature { result, .. } => result == Err::<(), FlashError>(e),
            BackendCall::Reset { result } => result == Err::<(), FlashError>(e),
        }
    }

    /// How an execution that made the calls `t` and returned `r` relates to
    /// the plan: `t` is a prefix of the schedule, call for call; every call but
    /// the last went through; and either all calls were made and went through
    /// and `r` is the receipt, or the last one failed and `r` is its error.
    pub open spec fn run_follows(self, t: Seq<BackendCall>, r: Result<FlashReceipt, FlashError>) -> bool {
        let s = self.schedule();
        let n = t.len() as int;
        &&& 0 < n <= s.len()
        &&& forall|i: int| 0 <= i < n ==> call_matches(s[i], #[trigger] t[i])
        &&& forall|i: int| 0 <= i < n - 1 ==> self.call_succeeds(s[i], #[trigger] t[i])
        &&& if self.call_succeeds(s[n - 1], t[n - 1]) {
            &&& n == s.len()
            &&& t[0] matches BackendCall::Identify { result: Ok(id) }
            &&& r == Ok::<FlashReceipt, FlashError>(
                FlashReceipt {
                    identity: id,
                    segments_written: self.segments().len() as usize,
                    bytes_written: total_len(self.segments()) as usize,
                },
            )
        } else {
            r matches Err(e) && self.failed_with(s[n - 1], t[n - 1], e)
        }
    }
}

/// The text `segment {i} {problem}`.
pub open spec fn segment_text(i: int, problem: Seq<char>) -> Seq<char> {
    "segment "@ + decimal_digits(i as nat) + " "@ + problem
}

/// What `FlashPlan::new` reports about segment `i` on its own: no payload, a
/// payload longer than the 32-bit address space, or an end past it.
pub open spec fn own_problem(segments: Seq<FlashSegment>, i: int) -> Option<Seq<char>> {
    let s = segments[i];
    if s.data@.len() == 0 {
        Some(segment_text(i, "has no payload"@))
    } else if s.data@.len() > u32::MAX {
        Some(segment_text(i, "is larger than address space"@))
    } else if s.start + s.data@.len() > u32::MAX {
        Some(segment_text(i, "address range overflows"@))
    } else {
        None
    }
}

/// What `FlashPlan::new` reports when it compares segment `i` with a later
/// segment `j` of the same region: `j`'s own length or range problem, or the overlap.
pub open spec fn pair_problem(segments: Seq<FlashSegment>, i: int, j: int) -> Option<Seq<char>> {
    let a = segments[i];
    let b = segments[j];
    if a.region != b.region {
        None
    } else if b.data@.len() > u32::MAX {
        Some(segment_text(j, "is larger than address space"@))
    } else if b.start + b.data@.len() > u32::MAX {
        Some(segment_text(j, "address range overflows"@))
    } else if a.start < b.start + b.data@.len() && b.start < a.start + a.data@.len() {
        Some(
            "segments "@ + decimal_digits(i as nat) + " and "@ + decimal_digits(j as nat)
                + " overlap"@,
        )
    } else {
        None
    }
}

/// The first problem found comparing segment `i` with segments `j..`.
pub open spec fn later_problem(segments: Seq<FlashSegment>, i: int, j: int) -> Option<Seq<char>>
    decreases segments.len() - j,
{
    if j < 0 || j >= segments.len() {
        None
    } else {
        match pair_problem(segments, i, j) {
            Some(m) => Some(m),
            None => later_problem(segments, i, j + 1),
        }
    }
}

/// The first problem found among segments `i..`, each checked on its own and
/// then against the segments after it.
pub open spec fn segments_problem(segments: Seq<FlashSegment>, i: int) -> Option<Seq<char>>
    decreases segments.len() - i,
{
    if i < 0 || i >= segments.len() {
        None
    } else {
        match own_problem(segments, i) {
            Some(m) => Some(m),
            None => match later_problem(segments, i, i + 1) {
                Some(m) => Some(m),
                None => segments_problem(segments, i + 1),
            },
        }
    }
}

/// The message of the `InvalidPlan` error that `FlashPlan::new` gives, or
/// `None` when it approves the plan.
pub open spec fn plan_problem(
    hardware_reference: Seq<char>,
    segments: Seq<FlashSegment>,
    block_size: usize,
) -> Option<Seq<char>> {
    if text_blank(hardware_reference) {
        Some("expected hardware reference is required"@)
    } else if block_size < 1 || block_size > 0x1000 {
        Some("block size must be between 1 and 4096 bytes"@)
    } else if segments.len() == 0 {
        Some("at least one flash segment is required"@)
    } else {
        segments_problem(segments, 0)
    }
}

/// The text `segment {index} {problem}`.
fn segment_message(index: usize, problem: &str) -> (m: String)
    ensures
        m@ == "segment "@ + decimal_digits(index as nat) + " "@ + problem@,
{
    let mut m = "segment ".to_owned();
    m.append(decimal(index).as_str());
    m.append(" ");
    m.append(problem);
    m
}

/// The text `segments {first} and {second} overlap`.
fn overlap_message(first: usize, second: usize) -> (m: String)
    ensures
        m@ == "segments "@ + decimal_digits(first as nat) + " and "@ + decimal_digits(
            second as nat,
        ) + " overlap"@,
{
    let mut m = "segments ".to_owned();
    m.append(decimal(first).as_str());
    m.append(" and ");
    m.append(decimal(second).as_str());
    m.append(" overlap");
    m
}

/// The text `{what} reference expected {expected}, found {found}`.
fn reference_message(what: &str, expected: &String, found: &String) -> (m: String)
    ensures
        m@ == what@ + " reference expected "@ + expected@ + ", found "@ + found@,
{
    let mut m = what.to_owned();
    m.append(" reference expected ");
    m.append(expected.as_str());
    m.append(", found ");
    m.append(found.as_str());
    m
}

fn invalid_plan(message: &str) -> (e: FlashError)
    ensures
        e matches FlashError::InvalidPlan(m) && m@ == message@,
{
    FlashError::InvalidPlan(message.to_owned())
}

fn text_is_blank(s: &String) -> (r: bool)
    ensures
        r == text_blank(s@),
{
    blank(s.as_str().as_bytes())
}

/// Sum of the payload lengths.
fn total_bytes(segments: &Vec<FlashSegment>) -> (total: usize)
    requires
        total_len(segments@) <= usize::MAX,
    ensures
        total == total_len(segments@),
{
    let mut total: usize = 0;
    let mut i: usize = 0;
    while i < segments.len()
        invariant
            i <= segments@.len(),
            total_len(segments@) <= usize::MAX,
            total == total_len(segments@.take(i as int)),
        decreases segments@.len() - i,
    {
        proof {
            lemma_total_len_prefix(segments@, i as int);
            lemma_total_len_prefix(segments@, i + 1);
        }
        total = total + segments[i].data.len();
        i = i + 1;
    }
    proof {
        assert(segments@.take(i as int) =~= segments@);
    }
    total
}

impl FlashPlan {
    /// Checks and approves a plan: the hardware reference must not be blank,
    /// the block size must lie in 1..=4096, there must be at least one segment,
    /// every segment must carry data and fit the 32-bit address space, and no
    /// two segments of the same region may overlap. Any violation is `InvalidPlan`.
    pub fn new(
        expected_hardware_reference: String,
        expected_software_reference: Option<String>,
        segments: Vec<FlashSegment>,
        block_size: usize,
        program_signature: bool,
    ) -> (r: Result<Self, FlashError>)
        requires
            total_len(segments@) <= usize::MAX,
        ensures
            r is Ok <==> plan_acceptable(expected_hardware_reference@, segments@, block_size),
            r is Ok <==> plan_problem(expected_hardware_reference@, segments@, block_size) is None,
            r matches Err(e) ==> e matches FlashError::InvalidPlan(m) && plan_problem(
                expected_hardware_reference@,
                segments@,
                block_size,
            ) == Some(m@),
            r matches Ok(plan) ==> {
                &&& plan.hardware_reference() == expected_hardware_reference@
                &&& plan.software_reference() == (match expected_software_reference {
                    Some(s) => Some(s@),
                    None => None::<Seq<char>>,
                })
                &&& plan.vin() is None
                &&& plan.segments() == segments@
                &&& plan.block_size() == block_size
                &&& plan.program_signature() == program_signature
            },
    {
        if text_is_blank(&expected_hardware_reference) {
            return Err(invalid_plan("expected hardware reference is required"));
        }
        if block_size < 1 || block_size > 0x1000 {
            return Err(invalid_plan("block size must be between 1 and 4096 bytes"));
        }
        if segments.len() == 0 {
            return Err(invalid_plan("at least one flash segment is required"));
        }
        let n = segments.len();
        let mut index: usize = 0;
        while index < n
            invariant
                n == segments@.len(),
                index <= n,
                plan_problem(expected_hardware_reference@, segments@, block_size)
                    == segments_problem(segments@, index as int),
                forall|i: int| 0 <= i < index ==> segment_ok(#[trigger] segments@[i]),
                forall|i: int, j: int|
                    0 <= i < index && i < j < n ==> !segments_overlap(
                        #[trigger] segments@[i],
                        #[trigger] segments@[j],
                    ),
            decreases n - index,
        {
            let segment = &segments[index];
            if segment.data.len() == 0 {
                return Err(FlashError::InvalidPlan(segment_message(index, "has no payload")));
            }
            if segment.data.len() > 0xffff_ffff {
                return Err(
                    FlashError::InvalidPlan(
                        segment_message(index, "is larger than address space"),
                    ),
                );
            }
            let segment_len = segment.data.len() as u32;
            let end = match segment.start.checked_add(segment_len) {
                Some(end) => end,
                None => {
                    return Err(
                        FlashError::InvalidPlan(
                            segment_message(index, "address range overflows"),
                        ),
                    );
                },
            };
            let mut other_index = index + 1;
            while other_index < n
                invariant
                    n == segments@.len(),
                    index < other_index <= n,
                    segment == segments@[index as int],
                    own_problem(segments@, index as int) is None,
                    plan_problem(expected_hardware_reference@, segments@, block_size)
                        == segments_problem(segments@, index as int),
                    later_problem(segments@, index as int, index + 1) == later_problem(
                        segments@,
                        index as int,
                        other_index as int,
                    ),
                    segment_ok(*segment),
                    end == segment.start + segment.data@.len(),
                    forall|j: int|
                        index < j < other_index ==> !segments_overlap(
                            segments@[index as int],
                            #[trigger] segments@[j],
                        ),
                decreases n - other_index,
            {
                let other = &segments[other_index];
                if segment.region == other.region {
                    if other.data.len() > 0xffff_ffff {
                        return Err(
                            FlashError::InvalidPlan(
                                segment_message(other_index, "is larger than address space"),
                            ),
                        );
                    }
                    let other_len = other.data.len() as u32;
                    let other_end = match other.start.checked_add(other_len) {
                        Some(e) => e,
                        None => {
                            return Err(
                                FlashError::InvalidPlan(
                                    segment_message(other_index, "address range overflows"),
                                ),
                            );
                        },
                    };
                    if segment.start < other_end && other.start < end {
                        return Err(FlashError::InvalidPlan(overlap_message(index, other_index)));
                    }
                }
                other_index = other_index + 1;
            }
            index = index + 1;
        }
        Ok(
            FlashPlan {
                expected_hardware_reference,
                expected_software_reference,
                expected_vin: None,
                segments,
                block_size,
                program_signature,
            },
        )
    }

    /// Pins the VIN that the connected DME must report. A blank VIN is `InvalidPlan`.
    pub fn with_expected_vin(self, vin: String) -> (r: Result<Self, FlashError>)
        ensures
            r is Ok <==> !text_blank(vin@),
            r matches Err(e) ==> e matches FlashError::InvalidPlan(m) && m@
                == "expected VIN must not be blank"@,
            r matches Ok(plan) ==> {
                &&& plan.hardware_reference() == self.hardware_reference()
                &&& plan.software_reference() == self.software_reference()
                &&& plan.vin() == Some(vin@)
                &&& plan.segments() == self.segments()
                &&& plan.block_size() == self.block_size()
                &&& plan.program_signature() == self.program_signature()
            },
    {
        if text_is_blank(&vin) {
            return Err(invalid_plan("expected VIN must not be blank"));
        }
        let mut plan = self;
        proof {
            use_type_invariant(&plan);
        }
        plan.expected_vin = Some(vin);
        Ok(plan)
    }
}

fn clone_segment(s: &FlashSegment) -> (c: FlashSegment)
    ensures
        c.region == s.region,
        c.start == s.start,
        c.data@ == s.data@,
{
    FlashSegment { region: s.region, start: s.start, data: s.data.clone() }
}

impl Clone for FlashPlan {
    /// A plan with the same references, segments and settings.
    fn clone(&self) -> (c: Self)
        ensures
            c.hardware_reference() == self.hardware_reference(),
            c.software_reference() == self.software_reference(),
            c.vin() == self.vin(),
            c.segments().len() == self.segments().len(),
            forall|i: int|
                0 <= i < self.segments().len() ==> (#[trigger] c.segments()[i]).region
                    == self.segments()[i].region && c.segments()[i].start == self.segments()[i].start
                    && c.segments()[i].data@ == self.segments()[i].data@,
            c.block_size() == self.block_size(),
            c.program_signature() == self.program_signature(),
    {
        proof {
            use_type_invariant(self);
        }
        let mut segments: Vec<FlashSegment> = Vec::new();
        let mut i: usize = 0;
        while i < self.segments.len()
            invariant
                i <= self.segments@.len(),
                segments@.len() == i,
                forall|j: int|
                    0 <= j < i ==> (#[trigger] segments@[j]).region == self.segments@[j].region
                        && segments@[j].start == self.segments@[j].start && segments@[j].data@
                        == self.segments@[j].data@,
            decreases self.segments@.len() - i,
        {
            segments.push(clone_segment(&self.segments[i]));
            i = i + 1;
        }
        proof {
            assert(forall|j: int|
                0 <= j < segments@.len() ==> segment_ok(#[trigger] segments@[j]) == segment_ok(
                    self.segments@[j],
                ));
            assert(forall|j: int, k: int|
                0 <= j < segments@.len() && 0 <= k < segments@.len() ==> segments_overlap(
                    #[trigger] segments@[j],
                    #[trigger] segments@[k],
                ) == segments_overlap(self.segments@[j], self.segments@[k]));
            lemma_total_len_same(segments@, self.segments@);
        }
        FlashPlan {
            expected_hardware_reference: self.expected_hardware_reference.clone(),
            expected_software_reference: self.expected_software_reference.clone(),
            expected_vin: self.expected_vin.clone(),
            segments,
            block_size: self.block_size,
            program_signature: self.program_signature,
        }
    }
}

proof fn lemma_total_len_same(a: Seq<FlashSegment>, b: Seq<FlashSegment>)
    requires
        a.len() == b.len(),
        forall|j: int| 0 <= j < a.len() ==> (#[trigger] a[j]).data@.len() == b[j].data@.len(),
    ensures
        total_len(a) == total_len(b),
    decreases a.len(),
{
    if a.len() > 0 {
        lemma_total_len_same(a.drop_last(), b.drop_last());
    }
}

/// Calls the caller's progress callback; nothing is stated of what it does.
#[verifier::external_body]
fn notify<F: FnMut(FlashProgress)>(progress: &mut F, value: FlashProgress) {
    progress(value)
}

/// Where `FlashPlan::execute` reports its progress. `reports()` records every
/// value handed over, oldest first; as with `FlashBackend`, what is proved
/// holds for implementations that keep this record, such as `ProgressFn`.
pub trait ProgressSink {
    /// The values reported so far.
    open spec fn reports(&self) -> Seq<FlashProgress> {
        Seq::empty()
    }

    fn report(&mut self, value: FlashProgress)
        ensures
            final(self).reports() == old(self).reports().push(value),
    ;
}

/// A progress sink that hands each value to a closure.
pub struct ProgressFn<F> {
    callback: F,
    sent: Ghost<Seq<FlashProgress>>,
}

impl<F: FnMut(FlashProgress)> ProgressFn<F> {
    /// A sink for `callback` to which nothing has been reported yet.
    pub fn new(callback: F) -> (p: Self)
        ensures
            p.reports() == Seq::<FlashProgress>::empty(),
    {
        ProgressFn { callback, sent: Ghost(Seq::empty()) }
    }
}

impl<F: FnMut(FlashProgress)> ProgressSink for ProgressFn<F> {
    closed spec fn reports(&self) -> Seq<FlashProgress> {
        self.sent@
    }

    fn report(&mut self, value: FlashProgress) {
        proof {
            self.sent@ = self.sent@.push(value);
        }
        notify(&mut self.callback, value);
    }
}

proof fn lemma_rest_step(s: Seq<PlannedCall>, k: int, rest: Seq<PlannedCall>)
    requires
        0 <= k <= s.len(),
        s.subrange(k, s.len() as int) == rest,
        rest.len() > 0,
    ensures
        k < s.len(),
        s[k] == rest[0],
        s.subrange(k + 1, s.len() as int) == rest.skip(1),
{
    assert(s.subrange(k, s.len() as int)[0] == s[k]);
    assert(s.subrange(k + 1, s.len() as int) =~= rest.skip(1));
}

impl FlashPlan {
    /// Whether call `c`, made as scheduled call `i`, read a block back intact.
    pub open spec fn block_verified(self, i: int, c: BackendCall) -> bool {
        c is ReadMemory && self.call_succeeds(self.schedule()[i], c)
    }

    /// The bytes of the blocks that the calls `t` (made from the start of the
    /// schedule) read back intact.
    pub open spec fn verified_bytes(self, t: Seq<BackendCall>) -> nat
        decreases t.len(),
    {
        if t.len() == 0 {
            0
        } else {
            let k = t.len() - 1;
            self.verified_bytes(t.drop_last()) + match t[k] {
                BackendCall::ReadMemory { len, .. } => if self.block_verified(k, t[k]) {
                    len as nat
                } else {
                    0
                },
                _ => 0,
            }
        }
    }

    /// What the calls `t` report to the progress sink: after each block read
    /// back intact, the bytes verified so far and the plan's total.
    pub open spec fn progress_reports(self, t: Seq<BackendCall>) -> Seq<FlashProgress>
        decreases t.len(),
    {
        if t.len() == 0 {
            Seq::empty()
        } else {
            let k = t.len() - 1;
            let before = self.progress_reports(t.drop_last());
            if self.block_verified(k, t[k]) {
                before.push(
                    FlashProgress {
                        completed: self.verified_bytes(t) as usize,
                        total: total_len(self.segments()) as usize,
                    },
                )
            } else {
                before
            }
        }
    }

    proof fn lemma_push_progress(self, t: Seq<BackendCall>, c: BackendCall)
        ensures
            self.verified_bytes(t.push(c)) == self.verified_bytes(t) + (match c {
                BackendCall::ReadMemory { len, .. } => if self.block_verified(t.len() as int, c) {
                    len as nat
                } else {
                    0
                },
                _ => 0,
            }),
            self.progress_reports(t.push(c)) == (if self.block_verified(t.len() as int, c) {
                self.progress_reports(t).push(
                    FlashProgress {
                        completed: self.verified_bytes(t.push(c)) as usize,
                        total: total_len(self.segments()) as usize,
                    },
                )
            } else {
                self.progress_reports(t)
            }),
    {
        assert(t.push(c).drop_last() =~= t);
    }

    /// True when the calls `t` are the first `t.len()` scheduled ones and all went through.
    pub open spec fn prefix_done(self, t: Seq<BackendCall>) -> bool {
        &&& t.len() <= self.schedule().len()
        &&& forall|i: int|
            0 <= i < t.len() ==> call_matches(self.schedule()[i], #[trigger] t[i])
                && self.call_succeeds(self.schedule()[i], t[i])
    }

    proof fn lemma_extend(self, t: Seq<BackendCall>, c: BackendCall)
        requires
            self.prefix_done(t),
            t.len() < self.schedule().len(),
            call_matches(self.schedule()[t.len() as int], c),
            self.call_succeeds(self.schedule()[t.len() as int], c),
        ensures
            self.prefix_done(t.push(c)),
    {
        assert forall|i: int| 0 <= i < t.push(c).len() implies call_matches(
            self.schedule()[i],
            #[trigger] t.push(c)[i],
        ) && self.call_succeeds(self.schedule()[i], t.push(c)[i]) by {
            if i < t.len() {
                assert(t.push(c)[i] == t[i]);
            }
        }
    }

    proof fn lemma_fail(self, t: Seq<BackendCall>, c: BackendCall, e: FlashError)
        requires
            self.prefix_done(t),
            t.len() < self.schedule().len(),
            call_matches(self.schedule()[t.len() as int], c),
            !self.call_succeeds(self.schedule()[t.len() as int], c),
            self.failed_with(self.schedule()[t.len() as int], c, e),
        ensures
            self.run_follows(t.push(c), Err(e)),
    {
        let u = t.push(c);
        assert forall|i: int| 0 <= i < u.len() implies call_matches(
            self.schedule()[i],
            #[trigger] u[i],
        ) by {
            if i < t.len() {
                assert(u[i] == t[i]);
            }
        }
        assert forall|i: int| 0 <= i < u.len() - 1 implies self.call_succeeds(
            self.schedule()[i],
            #[trigger] u[i],
        ) by {
            assert(u[i] == t[i]);
        }
    }

    /// Runs the plan on `backend`: identifies the DME and stops unless it is
    /// the approved one; requests security access; erases each segment and
    /// writes it block by block, reading every block back and stopping at the
    /// first difference; then checks the signature and resets the DME. The
    /// first failure ends the run with its error, so nothing after a failed step
    /// is ever asked of the backend. After each block read back intact,
    /// `progress` receives the bytes verified so far and the plan's total
    /// (`progress_reports`); a successful run's last report is the total.
    #[verifier::rlimit(60)]
    #[verifier::spinoff_prover]
    pub fn execute<B: FlashBackend, P: ProgressSink>(
        &self,
        backend: &mut B,
        progress: &mut P,
    ) -> (r: Result<FlashReceipt, FlashError>)
        ensures
            final(backend).calls().len() > old(backend).calls().len(),
            final(backend).calls().take(old(backend).calls().len() as int) == old(
                backend,
            ).calls(),
            self.run_follows(
                final(backend).calls().skip(old(backend).calls().len() as int),
                r,
            ),
            final(progress).reports() == old(progress).reports() + self.progress_reports(
                final(backend).calls().skip(old(backend).calls().len() as int),
            ),
            self.verified_bytes(final(backend).calls().skip(old(backend).calls().len() as int))
                <= total_len(self.segments()),
            r is Ok ==> self.verified_bytes(
                final(backend).calls().skip(old(backend).calls().len() as int),
            ) == total_len(self.segments()),
    {
        proof {
            use_type_invariant(self);
        }
        let ghost c0 = backend.calls();
        let ghost p0 = progress.reports();
        let ghost s = self.schedule();
        let ghost bs = self.block_size as nat;
        let ghost segs = self.segments@;
        let ghost tail = seq![
            PlannedCall::CheckSignature { program: self.program_signature },
            PlannedCall::Reset,
        ];
        let ghost mut t: Seq<BackendCall> = Seq::empty();
        assert(s.subrange(0, s.len() as int) =~= s);

        let identity_result = backend.identify();
        proof {
            let c = BackendCall::Identify { result: identity_result };
            lemma_rest_step(s, 0, s);
            self.lemma_push_progress(t, c);
            t = t.push(c);
            assert(backend.calls() =~= c0 + t);
            assert(backend.calls().take(c0.len() as int) =~= c0);
            assert(backend.calls().skip(c0.len() as int) =~= t);
        }
        let identity = match identity_result {
            Ok(id) => id,
            Err(e) => {
                proof {
                    self.lemma_fail(Seq::empty(), t[0], e);
                    assert(Seq::<BackendCall>::empty().push(t[0]) =~= t);
                }
                return Err(e);
            },
        };
        let ghost id_call = BackendCall::Identify { result: Ok(identity) };
        assert(t[0] == id_call);
        if !(identity.hardware_reference == self.expected_hardware_reference) {
            let e = FlashError::IdentityMismatch(
                reference_message(
                    "hardware",
                    &self.expected_hardware_reference,
                    &identity.hardware_reference,
                ),
            );
            proof {
                self.lemma_fail(Seq::empty(), t[0], e);
                assert(Seq::<BackendCall>::empty().push(t[0]) =~= t);
            }
            return Err(e);
        }
        if let Some(expected) = &self.expected_software_reference {
            if !(identity.software_reference == *expected) {
                let e = FlashError::IdentityMismatch(
                    reference_message("software", expected, &identity.software_reference),
                );
                proof {
                    self.lemma_fail(Seq::empty(), t[0], e);
                    assert(Seq::<BackendCall>::empty().push(t[0]) =~= t);
                }
                return Err(e);
            }
        }
        if let Some(expected) = &self.expected_vin {
            if !(identity.vin == *expected) {
                let e = invalid_identity("VIN differs from approved plan");
                proof {
                    self.lemma_fail(Seq::empty(), t[0], e);
                    assert(Seq::<BackendCall>::empty().push(t[0]) =~= t);
                }
                return Err(e);
            }
        }
        proof {
            self.lemma_extend(Seq::empty(), t[0]);
            assert(Seq::<BackendCall>::empty().push(t[0]) =~= t);
        }

        let security = backend.request_security_access(SecurityLevel::Programming);
        proof {
            let c = BackendCall::RequestSecurityAccess {
                level: SecurityLevel::Programming,
                result: security,
            };
            lemma_rest_step(s, 1, s.skip(1));
            assert(s.subrange(1, s.len() as int) =~= s.skip(1));
            if security is Ok {
                self.lemma_extend(t, c);
            } else {
                self.lemma_fail(t, c, security->Err_0);
            }
            self.lemma_push_progress(t, c);
            t = t.push(c);
            assert(backend.calls() =~= c0 + t);
            assert(backend.calls().take(c0.len() as int) =~= c0);
            assert(backend.calls().skip(c0.len() as int) =~= t);
            assert(s.subrange(2, s.len() as int) =~= segments_calls(segs, bs, 0) + tail);
        }
        if let Err(e) = security {
            return Err(e);
        }

        let total = total_bytes(&self.segments);
        let mut completed: usize = 0;
        let n = self.segments.len();
        let mut i: usize = 0;
        while i < n
            invariant
                n == segs.len(),
                i <= n,
                segs == self.segments@,
                s == self.schedule(),
                bs == self.block_size as nat,
                tail == seq![
                    PlannedCall::CheckSignature { program: self.program_signature },
                    PlannedCall::Reset,
                ],
                plan_acceptable(self.expected_hardware_reference@, segs, self.block_size),
                total == total_len(segs),
                total_len(segs) <= usize::MAX,
                completed == total_len(segs.take(i as int)),
                completed == self.verified_bytes(t),
                progress.reports() == p0 + self.progress_reports(t),
                p0 == old(progress).reports(),
                self.prefix_done(t),
                t.len() > 0,
                t[0] == id_call,
                id_call == (BackendCall::Identify { result: Ok(identity) }),
                backend.calls() == c0 + t,
                c0 == old(backend).calls(),
                s.subrange(t.len() as int, s.len() as int) == segments_calls(segs, bs, i as int)
                    + tail,
            decreases n - i,
        {
            let segment = &self.segments[i];
            assert(segment_ok(segs[i as int]));
            let len = segment.data.len();
            let erased = backend.erase(segment.start, len);
            proof {
                let c = BackendCall::Erase { start: segment.start, len, result: erased };
                let k = t.len() as int;
                assert(segments_calls(segs, bs, i as int) + tail =~= seq![
                    PlannedCall::Erase { start: segment.start, len },
                ] + (block_calls(segment.region, segment.start, segment.data@, bs, 0)
                    + segments_calls(segs, bs, i + 1) + tail));
                lemma_rest_step(
                    s,
                    k,
                    seq![PlannedCall::Erase { start: segment.start, len }] + (block_calls(
                        segment.region,
                        segment.start,
                        segment.data@,
                        bs,
                        0,
                    ) + segments_calls(segs, bs, i + 1) + tail),
                );
                if erased is Ok {
                    self.lemma_extend(t, c);
                } else {
                    self.lemma_fail(t, c, erased->Err_0);
                }
                self.lemma_push_progress(t, c);
            t = t.push(c);
                assert(backend.calls() =~= c0 + t);
                assert(backend.calls().take(c0.len() as int) =~= c0);
                assert(backend.calls().skip(c0.len() as int) =~= t);
                assert((seq![PlannedCall::Erase { start: segment.start, len }] + (block_calls(
                    segment.region,
                    segment.start,
                    segment.data@,
                    bs,
                    0,
                ) + segments_calls(segs, bs, i + 1) + tail)).skip(1) =~= block_calls(
                    segment.region,
                    segment.start,
                    segment.data@,
                    bs,
                    0,
                ) + segments_calls(segs, bs, i + 1) + tail);
            }
            proof {
                lemma_total_len_prefix(segs, i as int);
                lemma_total_len_prefix(segs, i + 1);
            }
            if let Err(e) = erased {
                return Err(e);
            }
            let mut off: usize = 0;
            while off < len
                invariant
                    n == segs.len(),
                    i < n,
                    segs == self.segments@,
                    segment == segs[i as int],
                    len == segment.data@.len(),
                    segment_ok(*segment),
                    s == self.schedule(),
                    bs == self.block_size as nat,
                    1 <= self.block_size <= 0x1000,
                    off <= len,
                    total == total_len(segs),
                    total_len(segs.take(i + 1)) <= total_len(segs),
                    total_len(segs.take(i + 1)) == total_len(segs.take(i as int)) + len,
                    completed == total_len(segs.take(i as int)) + off,
                    completed == self.verified_bytes(t),
                    progress.reports() == p0 + self.progress_reports(t),
                    p0 == old(progress).reports(),
                    self.prefix_done(t),
                    t.len() > 0,
                    t[0] == id_call,
                    id_call == (BackendCall::Identify { result: Ok(identity) }),
                    backend.calls() == c0 + t,
                    c0 == old(backend).calls(),
                    s.subrange(t.len() as int, s.len() as int) == block_calls(
                        segment.region,
                        segment.start,
                        segment.data@,
                        bs,
                        off as nat,
                    ) + segments_calls(segs, bs, i + 1) + tail,
                decreases len - off,
            {
                let end = if len - off > self.block_size {
                    off + self.block_size
                } else {
                    len
                };
                let block = &segment.data.as_slice()[off..end];
                let address = segment.start + off as u32;
                let ghost rest = block_calls(
                    segment.region,
                    segment.start,
                    segment.data@,
                    bs,
                    end as nat,
                ) + segments_calls(segs, bs, i + 1) + tail;
                let ghost wr = PlannedCall::WriteBlock { start: address, data: block@ };
                let ghost rd = PlannedCall::ReadBack {
                    region: segment.region,
                    start: address,
                    data: block@,
                };
                proof {
                    assert(block_calls(segment.region, segment.start, segment.data@, bs, off as nat)
                        == seq![wr, rd] + block_calls(
                        segment.region,
                        segment.start,
                        segment.data@,
                        bs,
                        end as nat,
                    ));
                    assert(s.subrange(t.len() as int, s.len() as int) =~= seq![wr] + (seq![rd]
                        + rest));
                }
                let written = backend.write_block(address, block, &mut |_p: FlashProgress| {});
                proof {
                    let c = BackendCall::WriteBlock { start: address, data: block@, result: written };
                    let k = t.len() as int;
                    lemma_rest_step(s, k, seq![wr] + (seq![rd] + rest));
                    if written is Ok {
                        self.lemma_extend(t, c);
                    } else {
                        self.lemma_fail(t, c, written->Err_0);
                    }
                    self.lemma_push_progress(t, c);
            t = t.push(c);
                    assert(backend.calls() =~= c0 + t);
                    assert(backend.calls().take(c0.len() as int) =~= c0);
                    assert(backend.calls().skip(c0.len() as int) =~= t);
                    assert((seq![wr] + (seq![rd] + rest)).skip(1) =~= seq![rd] + rest);
                }
                if let Err(e) = written {
                    return Err(e);
                }
                let readback = backend.read_memory(
                    segment.region,
                    address,
                    block.len(),
                    &mut |_p: FlashProgress| {},
                );
                proof {
                    let k = t.len() as int;
                    lemma_rest_step(s, k, seq![rd] + rest);
                    assert((seq![rd] + rest).skip(1) =~= rest);
                }
                let data = match readback {
                    Ok(data) => data,
                    Err(e) => {
                        proof {
                            let c = BackendCall::ReadMemory {
                                region: segment.region,
                                start: address,
                                len: block@.len() as usize,
                                result: Err(e),
                            };
                            self.lemma_fail(t, c, e);
                            self.lemma_push_progress(t, c);
            t = t.push(c);
                            assert(backend.calls() =~= c0 + t);
                            assert(backend.calls().take(c0.len() as int) =~= c0);
                            assert(backend.calls().skip(c0.len() as int) =~= t);
                        }
                        return Err(e);
                    },
                };
                let ghost read_call = BackendCall::ReadMemory {
                    region: segment.region,
                    start: address,
                    len: block@.len() as usize,
                    result: Ok(data@),
                };
                proof {
                    self.lemma_push_progress(t, read_call);
                    t = t.push(read_call);
                    assert(backend.calls() =~= c0 + t);
                    assert(backend.calls().take(c0.len() as int) =~= c0);
                    assert(backend.calls().skip(c0.len() as int) =~= t);
                }
                if !bytes_equal(data.as_slice(), block) {
                    let e = FlashError::ReadbackMismatch { address };
                    proof {
                        self.lemma_fail(t.drop_last(), read_call, e);
                        assert(t.drop_last().push(read_call) =~= t);
                    }
                    return Err(e);
                }
                proof {
                    self.lemma_extend(t.drop_last(), read_call);
                    assert(t.drop_last().push(read_call) =~= t);
                }
                completed = completed + block.len();
                progress.report(FlashProgress { completed, total });
                off = end;
            }
            proof {
                assert(segs.take(i + 1).drop_last() =~= segs.take(i as int));
            }
            i = i + 1;
        }
        proof {
            assert(segments_calls(segs, bs, i as int) =~= Seq::<PlannedCall>::empty());
            assert(segs.take(n as int) =~= segs);
            assert(s.subrange(t.len() as int, s.len() as int) =~= tail);
        }

        let checked = backend.check_signature(self.program_signature);
        proof {
            let c = BackendCall::CheckSignature { program: self.program_signature, result: checked };
            let k = t.len() as int;
            lemma_rest_step(s, k, tail);
            if checked is Ok {
                self.lemma_extend(t, c);
            } else {
                self.lemma_fail(t, c, checked->Err_0);
            }
            self.lemma_push_progress(t, c);
            t = t.push(c);
            assert(backend.calls() =~= c0 + t);
            assert(backend.calls().take(c0.len() as int) =~= c0);
            assert(backend.calls().skip(c0.len() as int) =~= t);
            assert(tail.skip(1) =~= seq![PlannedCall::Reset]);
        }
        if let Err(e) = checked {
            return Err(e);
        }
        let reset = backend.reset();
        proof {
            let c = BackendCall::Reset { result: reset };
            let k = t.len() as int;
            lemma_rest_step(s, k, seq![PlannedCall::Reset]);
            if reset is Ok {
                self.lemma_extend(t, c);
            } else {
                self.lemma_fail(t, c, reset->Err_0);
            }
            self.lemma_push_progress(t, c);
            t = t.push(c);
            assert(backend.calls() =~= c0 + t);
            assert(backend.calls().take(c0.len() as int) =~= c0);
            assert(backend.calls().skip(c0.len() as int) =~= t);
        }
        if let Err(e) = reset {
            return Err(e);
        }
        proof {
            assert(segs.take(n as int) =~= segs);
        }
        Ok(FlashReceipt { identity, segments_written: n, bytes_written: total })
    }
}

fn invalid_identity(message: &str) -> (e: FlashError)
    ensures
        e matches FlashError::IdentityMismatch(m) && m@ == message@,
{
    FlashError::IdentityMismatch(message.to_owned())
}

/// The bytes that the read-backs of the calls `q` must give back.
pub open spec fn readback_bytes(q: Seq<PlannedCall>) -> nat
    decreases q.len(),
{
    if q.len() == 0 {
        0
    } else {
        readback_bytes(q.drop_last()) + match q.last() {
            PlannedCall::ReadBack { data, .. } => data.len(),
            _ => 0,
        }
    }
}

proof fn lemma_readback_pair(x: PlannedCall, y: PlannedCall)
    ensures
        readback_bytes(seq![x]) == readback_bytes(Seq::<PlannedCall>::empty()) + match x {
            PlannedCall::ReadBack { data, .. } => data.len(),
            _ => 0,
        },
        readback_bytes(seq![x, y]) == readback_bytes(seq![x]) + match y {
            PlannedCall::ReadBack { data, .. } => data.len(),
            _ => 0,
        },
{
    assert(seq![x].drop_last() =~= Seq::<PlannedCall>::empty());
    assert(seq![x, y].drop_last() =~= seq![x]);
}

proof fn lemma_readback_concat(a: Seq<PlannedCall>, b: Seq<PlannedCall>)
    ensures
        readback_bytes(a + b) == readback_bytes(a) + readback_bytes(b),
    decreases b.len(),
{
    if b.len() == 0 {
        assert(a + b =~= a);
    } else {
        lemma_readback_concat(a, b.drop_last());
        assert((a + b).drop_last() =~= a + b.drop_last());
        assert((a + b).last() == b.last());
    }
}

proof fn lemma_block_readback(
    region: MemoryRegion,
    start: u32,
    data: Seq<u8>,
    block_size: nat,
    off: nat,
)
    requires
        block_size > 0,
        off <= data.len(),
    ensures
        readback_bytes(block_calls(region, start, data, block_size, off)) == data.len() - off,
    decreases data.len() - off,
{
    if off < data.len() {
        let end = if off + block_size < data.len() {
            off + block_size
        } else {
            data.len()
        };
        lemma_block_readback(region, start, data, block_size, end);
        let head = seq![
            PlannedCall::WriteBlock { start: (start + off) as u32, data: data.subrange(off as int, end as int) },
            PlannedCall::ReadBack {
                region,
                start: (start + off) as u32,
                data: data.subrange(off as int, end as int),
            },
        ];
        lemma_readback_concat(head, block_calls(region, start, data, block_size, end));
        lemma_readback_pair(head[0], head[1]);
        assert(head =~= seq![head[0], head[1]]);
        assert(block_calls(region, start, data, block_size, off) == head + block_calls(
            region,
            start,
            data,
            block_size,
            end,
        ));
    } else {
        assert(block_calls(region, start, data, block_size, off) =~= Seq::<PlannedCall>::empty());
    }
}

proof fn lemma_segments_readback(segments: Seq<FlashSegment>, block_size: nat, i: int)
    requires
        block_size > 0,
        0 <= i <= segments.len(),
    ensures
        readback_bytes(segments_calls(segments, block_size, i)) + total_len(segments.take(i))
            == total_len(segments),
    decreases segments.len() - i,
{
    if i < segments.len() {
        let seg = segments[i];
        lemma_segments_readback(segments, block_size, i + 1);
        lemma_total_len_prefix(segments, i);
        lemma_block_readback(seg.region, seg.start, seg.data@, block_size, 0);
        let erase = seq![PlannedCall::Erase { start: seg.start, len: seg.data@.len() as usize }];
        lemma_readback_pair(erase[0], erase[0]);
        assert(erase =~= seq![erase[0]]);
        lemma_readback_concat(erase, block_calls(seg.region, seg.start, seg.data@, block_size, 0));
        lemma_readback_concat(
            segment_calls(seg, block_size),
            segments_calls(segments, block_size, i + 1),
        );
    } else {
        assert(segments.take(i) =~= segments);
        assert(segments_calls(segments, block_size, i) =~= Seq::<PlannedCall>::empty());
    }
}

/// True for the calls that write to the DME or check what was written.
pub open spec fn is_transfer(p: PlannedCall) -> bool {
    p is Erase || p is WriteBlock || p is ReadBack
}

/// Every block call is a write or a read-back, and each read-back directly
/// follows the write of the same (nonempty) bytes at the same address.
pub open spec fn transfers_well_formed(q: Seq<PlannedCall>) -> bool {
    &&& forall|j: int| 0 <= j < q.len() ==> is_transfer(#[trigger] q[j])
    &&& forall|j: int|
        0 <= j < q.len() && (#[trigger] q[j] is ReadBack) ==> j >= 1 && (q[j - 1] matches PlannedCall::WriteBlock {
            start,
            data,
        } && q[j] matches PlannedCall::ReadBack { start: s2, data: d2, .. } && start == s2 && data
            == d2 && d2.len() > 0)
}

proof fn lemma_transfers_concat(a: Seq<PlannedCall>, b: Seq<PlannedCall>)
    requires
        transfers_well_formed(a),
        transfers_well_formed(b),
        b.len() > 0 ==> !(b[0] is ReadBack),
    ensures
        transfers_well_formed(a + b),
{
    let c = a + b;
    assert forall|j: int| 0 <= j < c.len() implies is_transfer(#[trigger] c[j]) by {
        if j < a.len() {
            assert(c[j] == a[j]);
        } else {
            assert(c[j] == b[j - a.len()]);
        }
    }
    assert forall|j: int| 0 <= j < c.len() && (#[trigger] c[j] is ReadBack) implies j >= 1 && (c[j
        - 1] matches PlannedCall::WriteBlock { start, data } && c[j] matches PlannedCall::ReadBack {
        start: s2,
        data: d2,
        ..
    } && start == s2 && data == d2 && d2.len() > 0) by {
        if j < a.len() {
            assert(c[j] == a[j]);
            assert(c[j - 1] == a[j - 1]);
        } else {
            assert(c[j] == b[j - a.len()]);
            assert(j - a.len() >= 1);
            assert(c[j - 1] == b[j - 1 - a.len()]);
        }
    }
}

proof fn lemma_block_calls_shape(
    region: MemoryRegion,
    start: u32,
    data: Seq<u8>,
    block_size: nat,
    off: nat,
)
    ensures
        transfers_well_formed(block_calls(region, start, data, block_size, off)),
        block_calls(region, start, data, block_size, off).len() > 0 ==> block_calls(
            region,
            start,
            data,
            block_size,
            off,
        )[0] is WriteBlock,
    decreases data.len() - off,
{
    if block_size == 0 || off >= data.len() {
    } else {
        let end = if off + block_size < data.len() {
            off + block_size
        } else {
            data.len()
        };
        lemma_block_calls_shape(region, start, data, block_size, end);
        let head = seq![
            PlannedCall::WriteBlock { start: (start + off) as u32, data: data.subrange(off as int, end as int) },
            PlannedCall::ReadBack {
                region,
                start: (start + off) as u32,
                data: data.subrange(off as int, end as int),
            },
        ];
        assert(transfers_well_formed(head)) by {
            assert forall|j: int| 0 <= j < head.len() && (#[trigger] head[j] is ReadBack) implies j
                >= 1 by {
                if j == 0 {
                    assert(head[0] is WriteBlock);
                }
            }
        }
        lemma_transfers_concat(head, block_calls(region, start, data, block_size, end));
    }
}

proof fn lemma_segments_calls_shape(segments: Seq<FlashSegment>, block_size: nat, i: int)
    requires
        0 <= i,
    ensures
        transfers_well_formed(segments_calls(segments, block_size, i)),
        segments_calls(segments, block_size, i).len() > 0 ==> segments_calls(
            segments,
            block_size,
            i,
        )[0] is Erase,
    decreases segments.len() - i,
{
    if i < segments.len() {
        let seg = segments[i];
        lemma_segments_calls_shape(segments, block_size, i + 1);
        lemma_block_calls_shape(seg.region, seg.start, seg.data@, block_size, 0);
        let erase = seq![PlannedCall::Erase { start: seg.start, len: seg.data@.len() as usize }];
        assert(transfers_well_formed(erase)) by {
            assert forall|j: int| 0 <= j < erase.len() && (#[trigger] erase[j] is ReadBack) implies j
                >= 1 by {
                assert(erase[0] is Erase);
            }
        }
        lemma_transfers_concat(
            erase,
            block_calls(seg.region, seg.start, seg.data@, block_size, 0),
        );
        lemma_transfers_concat(
            segment_calls(seg, block_size),
            segments_calls(segments, block_size, i + 1),
        );
    }
}

impl FlashPlan {
    /// The shape of every schedule: identify, unlock, then only erase, write
    /// and read-back calls, each read-back right after the write of the same
    /// bytes to the same address, and last the signature check and the reset.
    pub proof fn law_schedule_shape(self)
        ensures
            self.schedule().len() >= 4,
            self.schedule()[0] == PlannedCall::Identify,
            self.schedule()[1] == (PlannedCall::RequestSecurityAccess {
                level: SecurityLevel::Programming,
            }),
            self.schedule()[self.schedule().len() - 2] == (PlannedCall::CheckSignature {
                program: self.program_signature(),
            }),
            self.schedule()[self.schedule().len() - 1] == PlannedCall::Reset,
            transfers_well_formed(
                self.schedule().subrange(2, self.schedule().len() - 2),
            ),
    {
        let s = self.schedule();
        let mid = segments_calls(self.segments(), self.block_size() as nat, 0);
        lemma_segments_calls_shape(self.segments(), self.block_size() as nat, 0);
        assert(s.subrange(2, s.len() - 2) =~= mid);
    }

    /// A DME that reports another identity than the approved one is only
    /// identified: no further call is made, and the run ends in `IdentityMismatch`
    /// naming the first field that differs.
    pub proof fn law_identity_mismatch_stops_at_identify(
        self,
        t: Seq<BackendCall>,
        r: Result<FlashReceipt, FlashError>,
    )
        requires
            self.run_follows(t, r),
            t[0] matches BackendCall::Identify { result: Ok(id) } && !self.identity_accepted(id),
        ensures
            t.len() == 1,
            r matches Err(FlashError::IdentityMismatch(m)) && (t[0] matches BackendCall::Identify {
                result: Ok(id),
            } && m@ == self.mismatch_message(id)),
    {
        self.law_schedule_shape();
        if t.len() > 1 {
            assert(self.call_succeeds(self.schedule()[0], t[0]));
        }
    }

    /// Nothing beyond identification happens unless the identity was accepted.
    pub proof fn law_unlock_only_after_accepted_identity(
        self,
        t: Seq<BackendCall>,
        r: Result<FlashReceipt, FlashError>,
    )
        requires
            self.run_follows(t, r),
            t.len() > 1,
        ensures
            t[0] matches BackendCall::Identify { result: Ok(id) } && self.identity_accepted(id),
            t[1] matches BackendCall::RequestSecurityAccess { level, .. } && level
                == SecurityLevel::Programming,
    {
        self.law_schedule_shape();
        assert(self.call_succeeds(self.schedule()[0], t[0]));
        assert(call_matches(self.schedule()[0], t[0]));
        assert(call_matches(self.schedule()[1], t[1]));
    }

    /// A failed erase, write or read ends the run with that error: it is the
    /// last call, and neither the signature check nor the reset is asked for.
    pub proof fn law_failed_transfer_stops_run(
        self,
        t: Seq<BackendCall>,
        r: Result<FlashReceipt, FlashError>,
        i: int,
    )
        requires
            self.run_follows(t, r),
            0 <= i < t.len(),
            !self.call_succeeds(self.schedule()[i], t[i]),
            t[i] is Erase || t[i] is WriteBlock || t[i] is ReadMemory,
        ensures
            i == t.len() - 1,
            r is Err,
            forall|j: int|
                0 <= j < t.len() ==> !(#[trigger] t[j] is CheckSignature) && !(t[j] is Reset),
    {
        let s = self.schedule();
        self.law_schedule_shape();
        if i < t.len() - 1 {
            assert(self.call_succeeds(s[i], t[i]));
        }
        assert(call_matches(s[i], t[i]));
        assert(i < s.len() - 2);
        assert forall|j: int| 0 <= j < t.len() implies !(#[trigger] t[j] is CheckSignature) && !(
        t[j] is Reset) by {
            assert(call_matches(s[j], t[j]));
            if j >= 2 {
                assert(s.subrange(2, s.len() - 2)[j - 2] == s[j]);
            }
        }
    }

    /// A block that reads back differently from what was just written to the
    /// same address ends the run with `ReadbackMismatch` at that address, before
    /// any further write, without the signature check or the reset, and without
    /// a progress report for that block.
    pub proof fn law_readback_mismatch_stops_run(
        self,
        t: Seq<BackendCall>,
        r: Result<FlashReceipt, FlashError>,
        i: int,
    )
        requires
            self.run_follows(t, r),
            0 < i < t.len(),
            t[i] matches BackendCall::ReadMemory { result: Ok(bytes), .. } && t[i
                - 1] matches BackendCall::WriteBlock { data, .. } && bytes != data,
        ensures
            i == t.len() - 1,
            t[i] matches BackendCall::ReadMemory { start, .. } && r == Err::<
                FlashReceipt,
                FlashError,
            >(FlashError::ReadbackMismatch { address: start }),
            t[i - 1] matches BackendCall::WriteBlock { start: w, .. } && t[i] matches BackendCall::ReadMemory {
                start,
                ..
            } && w == start,
            forall|j: int|
                0 <= j < t.len() ==> !(#[trigger] t[j] is CheckSignature) && !(t[j] is Reset),
            self.progress_reports(t) == self.progress_reports(t.drop_last()),
    {
        let s = self.schedule();
        self.law_schedule_shape();
        let mid = s.subrange(2, s.len() - 2);
        assert(call_matches(s[i], t[i]));
        assert(call_matches(s[i - 1], t[i - 1]));
        assert(s[i] is ReadBack);
        assert(i >= 2 && i < s.len() - 2);
        assert(mid[i - 2] == s[i]);
        assert(mid[i - 2] is ReadBack);
        assert(mid[i - 3] == s[i - 1]);
        assert(!self.call_succeeds(s[i], t[i]));
        self.law_failed_transfer_stops_run(t, r, i);
        assert(t =~= t.drop_last().push(t[i]));
        self.lemma_push_progress(t.drop_last(), t[i]);
    }

    /// A run that succeeds made every scheduled call, in order, and each went
    /// through; its receipt counts all segments and bytes.
    pub proof fn law_success_completes_schedule(
        self,
        t: Seq<BackendCall>,
        r: Result<FlashReceipt, FlashError>,
    )
        requires
            self.run_follows(t, r),
            r is Ok,
        ensures
            t.len() == self.schedule().len(),
            forall|i: int|
                0 <= i < t.len() ==> call_matches(self.schedule()[i], #[trigger] t[i])
                    && self.call_succeeds(self.schedule()[i], t[i]),
            r matches Ok(receipt) && receipt.segments_written == self.segments().len() as usize
                && receipt.bytes_written == total_len(self.segments()) as usize,
    {
        let s = self.schedule();
        let n = t.len() as int;
        if !self.call_succeeds(s[n - 1], t[n - 1]) {
            assert(r is Err);
        }
        assert forall|i: int| 0 <= i < t.len() implies call_matches(s[i], #[trigger] t[i])
            && self.call_succeeds(s[i], t[i]) by {
            if i < n - 1 {
                assert(self.call_succeeds(s[i], t[i]));
            }
        }
    }

    proof fn lemma_schedule_readback(self)
        requires
            1 <= self.block_size(),
        ensures
            readback_bytes(self.schedule()) == total_len(self.segments()),
    {
        let segs = self.segments();
        let bs = self.block_size() as nat;
        let head = seq![
            PlannedCall::Identify,
            PlannedCall::RequestSecurityAccess { level: SecurityLevel::Programming },
        ];
        let tail = seq![
            PlannedCall::CheckSignature { program: self.program_signature() },
            PlannedCall::Reset,
        ];
        let mid = segments_calls(segs, bs, 0);
        lemma_segments_readback(segs, bs, 0);
        assert(segs.take(0) =~= Seq::<FlashSegment>::empty());
        lemma_readback_concat(head, mid);
        lemma_readback_concat(head + mid, tail);
        lemma_readback_pair(head[0], head[1]);
        assert(head =~= seq![head[0], head[1]]);
        lemma_readback_pair(tail[0], tail[1]);
        assert(tail =~= seq![tail[0], tail[1]]);
        assert(self.schedule() == head + mid + tail);
    }

    proof fn lemma_reports_shape(self, t: Seq<BackendCall>)
        requires
            1 <= self.block_size(),
            total_len(self.segments()) <= usize::MAX,
            t.len() <= self.schedule().len(),
            forall|i: int| 0 <= i < t.len() ==> call_matches(self.schedule()[i], #[trigger] t[i]),
        ensures
            self.verified_bytes(t) <= readback_bytes(self.schedule().take(t.len() as int)),
            self.verified_bytes(t) <= total_len(self.segments()),
            (forall|i: int| 0 <= i < t.len() ==> self.call_succeeds(self.schedule()[i], #[trigger] t[i]))
                ==> self.verified_bytes(t) == readback_bytes(self.schedule().take(t.len() as int)),
            forall|i: int|
                0 <= i < self.progress_reports(t).len() ==> (#[trigger] self.progress_reports(t)[i]).total
                    == total_len(self.segments()) as usize && 0 < self.progress_reports(t)[i].completed
                    <= self.verified_bytes(t),
            forall|i: int, j: int|
                0 <= i < j < self.progress_reports(t).len() ==> (#[trigger] self.progress_reports(
                    t,
                )[i]).completed < (#[trigger] self.progress_reports(t)[j]).completed,
            self.progress_reports(t).len() > 0 ==> self.progress_reports(t).last().completed
                == self.verified_bytes(t),
            self.progress_reports(t).len() == 0 ==> self.verified_bytes(t) == 0,
        decreases t.len(),
    {
        let s = self.schedule();
        self.lemma_schedule_readback();
        self.law_schedule_shape();
        if t.len() == 0 {
            assert(s.take(0) =~= Seq::<PlannedCall>::empty());
        } else {
            let k = t.len() - 1;
            let u = t.drop_last();
            assert forall|i: int| 0 <= i < u.len() implies call_matches(s[i], #[trigger] u[i]) by {
                assert(u[i] == t[i]);
            }
            self.lemma_reports_shape(u);
            assert(t =~= u.push(t[k]));
            self.lemma_push_progress(u, t[k]);
            assert(s.take(k + 1).drop_last() =~= s.take(k));
            assert(s.take(k + 1).last() == s[k]);
            lemma_readback_concat(s.take(k + 1), s.skip(k + 1));
            assert(s.take(k + 1) + s.skip(k + 1) =~= s);
            assert(call_matches(s[k], t[k]));
            if self.block_verified(k, t[k]) {
                assert(2 <= k < s.len() - 2);
                let mid = s.subrange(2, s.len() - 2);
                assert(mid[k - 2] == s[k]);
                assert(mid[k - 2] is ReadBack);
            }
            if forall|i: int| 0 <= i < t.len() ==> self.call_succeeds(s[i], #[trigger] t[i]) {
                assert forall|i: int| 0 <= i < u.len() implies self.call_succeeds(
                    s[i],
                    #[trigger] u[i],
                ) by {
                    assert(u[i] == t[i]);
                    assert(self.call_succeeds(s[i], t[i]));
                }
                assert(self.call_succeeds(s[k], t[k]));
            }
            let r = self.progress_reports(t);
            let q = self.progress_reports(u);
            if self.block_verified(k, t[k]) {
                assert forall|i: int, j: int| 0 <= i < j < r.len() implies (#[trigger] r[i]).completed
                    < (#[trigger] r[j]).completed by {
                    if j < q.len() {
                        assert(r[i] == q[i]);
                        assert(r[j] == q[j]);
                    } else {
                        assert(r[i] == q[i]);
                    }
                }
                assert forall|i: int| 0 <= i < r.len() implies (#[trigger] r[i]).total == total_len(
                    self.segments(),
                ) as usize && 0 < r[i].completed <= self.verified_bytes(t) by {
                    if i < q.len() {
                        assert(r[i] == q[i]);
                    }
                }
            }
        }
    }

    /// What an execution reports to its progress sink: one report for each
    /// block read back intact and for nothing else, each carrying the plan's
    /// total and the bytes verified so far, which grow with every report and
    /// never exceed the total. A run that succeeds ends with a report of the
    /// total; a run stopped at identification reports nothing.
    pub proof fn law_progress_reports(self, t: Seq<BackendCall>, r: Result<FlashReceipt, FlashError>)
        requires
            plan_acceptable(self.hardware_reference(), self.segments(), self.block_size()),
            total_len(self.segments()) <= usize::MAX,
            self.run_follows(t, r),
        ensures
            forall|i: int|
                0 <= i < self.progress_reports(t).len() ==> (#[trigger] self.progress_reports(t)[i]).total
                    == total_len(self.segments()) as usize && 0 < self.progress_reports(t)[i].completed
                    <= total_len(self.segments()),
            forall|i: int, j: int|
                0 <= i < j < self.progress_reports(t).len() ==> (#[trigger] self.progress_reports(
                    t,
                )[i]).completed < (#[trigger] self.progress_reports(t)[j]).completed,
            self.progress_reports(t).len() > 0 ==> self.progress_reports(t).last().completed
                == self.verified_bytes(t),
            r is Ok ==> self.progress_reports(t).len() > 0 && self.progress_reports(t).last()
                == (FlashProgress {
                completed: total_len(self.segments()) as usize,
                total: total_len(self.segments()) as usize,
            }),
            t.len() == 1 ==> self.progress_reports(t).len() == 0,
    {
        let s = self.schedule();
        self.lemma_reports_shape(t);
        if t.len() == 1 {
            self.lemma_push_progress(Seq::empty(), t[0]);
            assert(Seq::<BackendCall>::empty().push(t[0]) =~= t);
            assert(call_matches(s[0], t[0]));
        }
        if r is Ok {
            self.law_success_completes_schedule(t, r);
            assert(s.take(s.len() as int) =~= s);
            self.lemma_schedule_readback();
            let segs = self.segments();
            assert(segment_ok(segs[segs.len() - 1]));
            assert(total_len(segs) > 0);
        }
    }
}

} // verus!
