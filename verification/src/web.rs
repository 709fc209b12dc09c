//! What the web front end computes: lookups in an uploaded multipart form,
//! the metadata checks it runs, and the stored (uncompressed) ZIP archive in
//! which it returns program payloads.
use crate::binary::{
    flash_mpc_match_spec, parameter_match_spec, program_match_spec, verify_flash_mpc_match,
    verify_parameter_match_bytes, verify_program_match_bytes, BinaryError,
};
use crate::crypto::{crc32, crc32_checksum, str_from_utf8};
use crate::text::{blank, bytes_equal, is_blank, trim_ws, trim_ws_range};
use vstd::prelude::*;
use vstd::string::StringSliceAdditionalSpecFns;

verus! {

/// The named fields of an uploaded form, in the order they arrived.
pub struct Parts {
    pub fields: Vec<(String, Vec<u8>)>,
}

/// Why a form could not be handled.
#[derive(Debug)]
pub enum WebError {
    /// A required file field is absent or empty.
    MissingFile(String),
    /// The form asks for no check at all.
    NoValidationInput,
    /// An image was refused.
    Binary(BinaryError),
}

/// The checks that the validation form can ask for.
#[derive(Debug, Clone, Copy, PartialEq, Eq, Structural)]
pub enum ValidationCheck {
    TuneSoftwareReference,
    ProgramHardwareReference,
    ExternalMpcPair,
}

/// Whether field `f` is named `name` (and, when `need_data`, holds something).
pub open spec fn field_is(f: (String, Vec<u8>), name: Seq<u8>, need_data: bool) -> bool {
    vstd::utf8::encode_utf8(f.0@) == name && (!need_data || f.1@.len() > 0)
}

/// The index of the first field from `i` on that `field_is` accepts.
pub open spec fn find_field(
    fields: Seq<(String, Vec<u8>)>,
    name: Seq<u8>,
    need_data: bool,
    i: int,
) -> Option<int>
    decreases fields.len() - i,
{
    if i < 0 || i >= fields.len() {
        None
    } else if field_is(fields[i], name, need_data) {
        Some(i)
    } else {
        find_field(fields, name, need_data, i + 1)
    }
}

/// The contents of the first non-empty field named `name`.
pub open spec fn form_file(fields: Seq<(String, Vec<u8>)>, name: Seq<u8>) -> Option<Seq<u8>> {
    match find_field(fields, name, true, 0) {
        Some(i) => Some(fields[i].1@),
        None => None,
    }
}

/// The text of the first field named `name`, if it is valid UTF-8.
pub open spec fn form_text(fields: Seq<(String, Vec<u8>)>, name: Seq<u8>) -> Option<Seq<u8>> {
    match find_field(fields, name, false, 0) {
        Some(i) => if vstd::utf8::valid_utf8(fields[i].1@) {
            Some(fields[i].1@)
        } else {
            None
        },
        None => None,
    }
}

proof fn lemma_find_field_bounds(fields: Seq<(String, Vec<u8>)>, name: Seq<u8>, need: bool, i: int)
    ensures
        find_field(fields, name, need, i) matches Some(k) ==> 0 <= i <= k < fields.len()
            && field_is(fields[k], name, need),
    decreases fields.len() - i,
{
    if 0 <= i < fields.len() && !field_is(fields[i], name, need) {
        lemma_find_field_bounds(fields, name, need, i + 1);
    }
}

impl Parts {
    /// An empty form.
    pub fn new() -> (p: Self)
        ensures
            p.fields@ == Seq::<(String, Vec<u8>)>::empty(),
    {
        Parts { fields: Vec::new() }
    }

    /// Adds a field at the end.
    pub fn push(&mut self, name: String, value: Vec<u8>)
        ensures
            final(self).fields@ == old(self).fields@.push((name, value)),
    {
        self.fields.push((name, value));
    }

    fn find(&self, name: &str, need_data: bool) -> (r: Option<usize>)
        ensures
            r == (match find_field(self.fields@, name.spec_bytes(), need_data, 0) {
                Some(i) => Some(i as usize),
                None => None::<usize>,
            }),
    {
        let mut i: usize = 0;
        while i < self.fields.len()
            invariant
                i <= self.fields@.len(),
                find_field(self.fields@, name.spec_bytes(), need_data, 0) == find_field(
                    self.fields@,
                    name.spec_bytes(),
                    need_data,
                    i as int,
                ),
            decreases self.fields@.len() - i,
        {
            let field = &self.fields[i];
            if bytes_equal(field.0.as_str().as_bytes(), name.as_bytes()) && (!need_data
                || field.1.len() > 0) {
                return Some(i);
            }
            i = i + 1;
        }
        None
    }

    /// The contents of the first non-empty field named `name`.
    pub fn optional_file(&self, name: &str) -> (r: Option<&[u8]>)
        ensures
            match form_file(self.fields@, name.spec_bytes()) {
                Some(b) => r matches Some(s) && s@ == b,
                None => r is None,
            },
    {
        proof {
            lemma_find_field_bounds(self.fields@, name.spec_bytes(), true, 0);
        }
        let count = self.fields.len();
        assert(count == self.fields@.len());
        match self.find(name, true) {
            Some(i) => {
                let f = &self.fields[i];
                assert(*f == self.fields@[i as int]);
                assert(find_field(self.fields@, name.spec_bytes(), true, 0) == Some(i as int));
                Some(f.1.as_slice())
            },
            None => None,
        }
    }

    /// The contents of the first non-empty field named `name`; a missing one is
    /// `MissingFile`.
    pub fn file(&self, name: &str) -> (r: Result<&[u8], WebError>)
        ensures
            match form_file(self.fields@, name.spec_bytes()) {
                Some(b) => r matches Ok(s) && s@ == b,
                None => r matches Err(WebError::MissingFile(n)) && n@ == name@,
            },
    {
        match self.optional_file(name) {
            Some(b) => Ok(b),
            None => Err(WebError::MissingFile(name.to_owned())),
        }
    }

    /// The text of the first field named `name`, unless it is not UTF-8.
    pub fn optional_text(&self, name: &str) -> (r: Option<&str>)
        ensures
            match form_text(self.fields@, name.spec_bytes()) {
                Some(b) => r matches Some(s) && s.spec_bytes() == b,
                None => r is None,
            },
    {
        proof {
            lemma_find_field_bounds(self.fields@, name.spec_bytes(), false, 0);
        }
        let count = self.fields.len();
        assert(count == self.fields@.len());
        match self.find(name, false) {
            Some(i) => {
                let f = &self.fields[i];
                assert(*f == self.fields@[i as int]);
                assert(find_field(self.fields@, name.spec_bytes(), false, 0) == Some(i as int));
                str_from_utf8(f.1.as_slice())
            },
            None => None,
        }
    }
}

/// The tune check of a validation form: with a tune file and a software
/// reference that is not blank, whether they match.
pub open spec fn tune_check_spec(fields: Seq<(String, Vec<u8>)>) -> Result<
    Seq<(ValidationCheck, bool)>,
    WebError,
> {
    match form_file(fields, "tune".spec_bytes()) {
        None => Ok(Seq::empty()),
        Some(tune) => match form_text(fields, "sw_ref".spec_bytes()) {
            None => Ok(Seq::empty()),
            Some(sw) => if is_blank(sw) {
                Ok(Seq::empty())
            } else {
                match parameter_match_spec(tune, trim_ws(sw)) {
                    Err(e) => Err(WebError::Binary(e)),
                    Ok(ok) => Ok(seq![(ValidationCheck::TuneSoftwareReference, ok)]),
                }
            },
        },
    }
}

/// The program checks of a validation form: with an external flash file, its
/// hardware reference (when given and not blank) and its pairing with an MPC
/// file (when given).
pub open spec fn program_checks_spec(fields: Seq<(String, Vec<u8>)>) -> Result<
    Seq<(ValidationCheck, bool)>,
    WebError,
> {
    match form_file(fields, "external".spec_bytes()) {
        None => Ok(Seq::empty()),
        Some(external) => {
            let hw = match form_text(fields, "hw_ref".spec_bytes()) {
                None => Ok(Seq::empty()),
                Some(hw) => if is_blank(hw) {
                    Ok(Seq::empty())
                } else {
                    match program_match_spec(external, trim_ws(hw)) {
                        Err(e) => Err(WebError::Binary(e)),
                        Ok(ok) => Ok(seq![(ValidationCheck::ProgramHardwareReference, ok)]),
                    }
                },
            };
            match hw {
                Err(e) => Err(e),
                Ok(first) => match form_file(fields, "mpc".spec_bytes()) {
                    None => Ok(first),
                    Some(mpc) => match flash_mpc_match_spec(external, mpc) {
                        Err(e) => Err(WebError::Binary(e)),
                        Ok(ok) => Ok(first.push((ValidationCheck::ExternalMpcPair, ok))),
                    },
                },
            }
        },
    }
}

/// What `validation_checks(parts)` gives: the tune check, then the program
/// checks, in that order; the first refused image ends it; a form that asks for
/// no check is `NoValidationInput`.
pub open spec fn validation_spec(fields: Seq<(String, Vec<u8>)>) -> Result<
    Seq<(ValidationCheck, bool)>,
    WebError,
> {
    match tune_check_spec(fields) {
        Err(e) => Err(e),
        Ok(a) => match program_checks_spec(fields) {
            Err(e) => Err(e),
            Ok(b) => if a.len() + b.len() == 0 {
                Err(WebError::NoValidationInput)
            } else {
                Ok(a + b)
            },
        },
    }
}

/// The UTF-8 bytes of `text.trim()`.
pub(crate) fn trimmed(text: &str) -> (r: &[u8])
    ensures
        r@ == trim_ws(text.spec_bytes()),
{
    let b = text.as_bytes();
    let (s, e) = trim_ws_range(b);
    &b[s..e]
}

/// Runs the checks that a validation form asks for.
pub fn validation_checks(parts: &Parts) -> (r: Result<Vec<(ValidationCheck, bool)>, WebError>)
    ensures
        match validation_spec(parts.fields@) {
            Ok(checks) => r matches Ok(v) && v@ == checks,
            Err(e) => r matches Err(f) && f == e,
        },
{
    let mut checks: Vec<(ValidationCheck, bool)> = Vec::new();
    if let Some(tune) = parts.optional_file("tune") {
        if let Some(sw_ref) = parts.optional_text("sw_ref") {
            if !blank(sw_ref.as_bytes()) {
                match verify_parameter_match_bytes(tune, trimmed(sw_ref)) {
                    Ok(ok) => checks.push((ValidationCheck::TuneSoftwareReference, ok)),
                    Err(e) => return Err(WebError::Binary(e)),
                }
            }
        }
    }
    let ghost tune_checks = checks@;
    assert(tune_check_spec(parts.fields@) == Ok::<Seq<(ValidationCheck, bool)>, WebError>(
        tune_checks,
    ));
    if let Some(external) = parts.optional_file("external") {
        if let Some(hw_ref) = parts.optional_text("hw_ref") {
            if !blank(hw_ref.as_bytes()) {
                match verify_program_match_bytes(external, trimmed(hw_ref)) {
                    Ok(ok) => checks.push((ValidationCheck::ProgramHardwareReference, ok)),
                    Err(e) => return Err(WebError::Binary(e)),
                }
            }
        }
        if let Some(mpc) = parts.optional_file("mpc") {
            match verify_flash_mpc_match(external, mpc) {
                Ok(ok) => checks.push((ValidationCheck::ExternalMpcPair, ok)),
                Err(e) => return Err(WebError::Binary(e)),
            }
        }
    }
    proof {
        if let Ok(b) = program_checks_spec(parts.fields@) {
            assert(checks@ =~= tune_checks + b);
        }
    }
    if checks.len() == 0 {
        return Err(WebError::NoValidationInput);
    }
    Ok(checks)
}

/// The little-endian bytes of a 16-bit value.
pub open spec fn le16(v: u16) -> Seq<u8> {
    seq![(v % 256) as u8, (v / 256) as u8]
}

/// The little-endian bytes of a 32-bit value.
pub open spec fn le32(v: u32) -> Seq<u8> {
    seq![
        (v % 256) as u8,
        ((v / 0x100) % 256) as u8,
        ((v / 0x10000) % 256) as u8,
        (v / 0x1000000) as u8,
    ]
}

/// Appends a little-endian 16-bit value.
pub fn write_u16(out: &mut Vec<u8>, value: u16)
    ensures
        final(out)@ == old(out)@ + le16(value),
{
    out.push((value % 256) as u8);
    out.push((value / 256) as u8);
    assert(out@ =~= old(out)@ + le16(value));
}

/// Appends a little-endian 32-bit value.
pub fn write_u32(out: &mut Vec<u8>, value: u32)
    ensures
        final(out)@ == old(out)@ + le32(value),
{
    out.push((value % 256) as u8);
    out.push(((value / 0x100) % 256) as u8);
    out.push(((value / 0x10000) % 256) as u8);
    out.push((value / 0x1000000) as u8);
    assert(out@ =~= old(out)@ + le32(value));
}

/// A file of an archive: its name and contents.
pub struct ZipEntry<'a> {
    pub name: &'a str,
    pub data: &'a [u8],
}

/// The local header and contents of one stored file.
pub open spec fn local_record(name: Seq<u8>, data: Seq<u8>) -> Seq<u8> {
    le32(0x0403_4b50) + le16(20) + le16(0) + le16(0) + le16(0) + le16(0) + le32(
        crc32_checksum(data),
    ) + le32(data.len() as u32) + le32(data.len() as u32) + le16(name.len() as u16) + le16(0)
        + name + data
}

/// The central directory record of one stored file whose local header is at `offset`.
pub open spec fn central_record(name: Seq<u8>, data: Seq<u8>, offset: u32) -> Seq<u8> {
    le32(0x0201_4b50) + le16(20) + le16(20) + le16(0) + le16(0) + le16(0) + le16(0) + le32(
        crc32_checksum(data),
    ) + le32(data.len() as u32) + le32(data.len() as u32) + le16(name.len() as u16) + le16(0)
        + le16(0) + le16(0) + le16(0) + le32(0) + le32(offset) + name
}

/// The local records of the first `k` entries.
pub open spec fn local_records(entries: Seq<(Seq<u8>, Seq<u8>)>, k: nat) -> Seq<u8>
    decreases k,
{
    if k == 0 || k > entries.len() {
        Seq::empty()
    } else {
        local_records(entries, (k - 1) as nat) + local_record(
            entries[k - 1].0,
            entries[k - 1].1,
        )
    }
}

/// The central directory records of the first `k` entries.
pub open spec fn central_records(entries: Seq<(Seq<u8>, Seq<u8>)>, k: nat) -> Seq<u8>
    decreases k,
{
    if k == 0 || k > entries.len() {
        Seq::empty()
    } else {
        central_records(entries, (k - 1) as nat) + central_record(
            entries[k - 1].0,
            entries[k - 1].1,
            local_records(entries, (k - 1) as nat).len() as u32,
        )
    }
}

/// The stored ZIP archive of `entries`: the local records, the central
/// directory, and the end-of-directory record. Sizes and offsets are the
/// format's 16- and 32-bit fields.
pub open spec fn zip_spec(entries: Seq<(Seq<u8>, Seq<u8>)>) -> Seq<u8> {
    let n = entries.len();
    let locals = local_records(entries, n);
    let central = central_records(entries, n);
    locals + central + le32(0x0605_4b50) + le16(0) + le16(0) + le16(n as u16) + le16(n as u16)
        + le32(central.len() as u32) + le32(locals.len() as u32) + le16(0)
}

/// The names (as UTF-8 bytes) and contents of archive entries.
pub open spec fn entry_views(files: Seq<ZipEntry>) -> Seq<(Seq<u8>, Seq<u8>)> {
    Seq::new(files.len(), |i: int| (files[i].name.spec_bytes(), files[i].data@))
}

fn append_local_record(out: &mut Vec<u8>, name: &[u8], data: &[u8], crc: u32)
    requires
        crc == crc32_checksum(data@),
    ensures
        final(out)@ == old(out)@ + local_record(name@, data@),
{
    write_u32(out, 0x0403_4b50);
    write_u16(out, 20);
    write_u16(out, 0);
    write_u16(out, 0);
    write_u16(out, 0);
    write_u16(out, 0);
    write_u32(out, crc);
    write_u32(out, data.len() as u32);
    write_u32(out, data.len() as u32);
    write_u16(out, name.len() as u16);
    write_u16(out, 0);
    out.extend_from_slice(name);
    out.extend_from_slice(data);
    assert(out@ =~= old(out)@ + local_record(name@, data@));
}

fn append_central_record(out: &mut Vec<u8>, name: &[u8], data: &[u8], crc: u32, offset: u32)
    requires
        crc == crc32_checksum(data@),
    ensures
        final(out)@ == old(out)@ + central_record(name@, data@, offset),
{
    write_u32(out, 0x0201_4b50);
    write_u16(out, 20);
    write_u16(out, 20);
    write_u16(out, 0);
    write_u16(out, 0);
    write_u16(out, 0);
    write_u16(out, 0);
    write_u32(out, crc);
    write_u32(out, data.len() as u32);
    write_u32(out, data.len() as u32);
    write_u16(out, name.len() as u16);
    write_u16(out, 0);
    write_u16(out, 0);
    write_u16(out, 0);
    write_u16(out, 0);
    write_u32(out, 0);
    write_u32(out, offset);
    out.extend_from_slice(name);
    assert(out@ =~= old(out)@ + central_record(name@, data@, offset));
}

fn append_end_record(out: &mut Vec<u8>, count: u16, central_len: u32, central_offset: u32)
    ensures
        final(out)@ == old(out)@ + le32(0x0605_4b50) + le16(0) + le16(0) + le16(count) + le16(
            count,
        ) + le32(central_len) + le32(central_offset) + le16(0),
{
    let ghost start = out@;
    write_u32(out, 0x0605_4b50);
    write_u16(out, 0);
    write_u16(out, 0);
    write_u16(out, count);
    write_u16(out, count);
    write_u32(out, central_len);
    write_u32(out, central_offset);
    write_u16(out, 0);
    assert(out@ =~= start + le32(0x0605_4b50) + le16(0) + le16(0) + le16(count) + le16(count)
        + le32(central_len) + le32(central_offset) + le16(0));
}

/// Builds a stored (uncompressed) ZIP archive of `files`.
pub fn zip_store(files: &[ZipEntry]) -> (out: Vec<u8>)
    ensures
        out@ == zip_spec(entry_views(files@)),
{
    let ghost entries = entry_views(files@);
    let mut out: Vec<u8> = Vec::new();
    let mut central: Vec<u8> = Vec::new();
    let mut i: usize = 0;
    while i < files.len()
        invariant
            entries == entry_views(files@),
            entries.len() == files@.len(),
            i <= files@.len(),
            out@ == local_records(entries, i as nat),
            central@ == central_records(entries, i as nat),
        decreases files@.len() - i,
    {
        let name_bytes = files[i].name.as_bytes();
        let data = files[i].data;
        assert(entries[i as int] == (name_bytes@, data@));
        let offset = out.len() as u32;
        let crc = crc32(data);
        append_local_record(&mut out, name_bytes, data, crc);
        append_central_record(&mut central, name_bytes, data, crc, offset);
        i = i + 1;
    }
    let central_offset = out.len() as u32;
    out.extend_from_slice(central.as_slice());
    append_end_record(&mut out, files.len() as u16, central.len() as u32, central_offset);
    assert(out@ =~= zip_spec(entries));
    out
}

/// Where the local record of entry `i` starts: the sum, over the entries
/// before it, of 30 header bytes plus the name and the contents.
pub open spec fn entry_offset(entries: Seq<(Seq<u8>, Seq<u8>)>, i: nat) -> nat
    decreases i,
{
    if i == 0 || i > entries.len() {
        0
    } else {
        entry_offset(entries, (i - 1) as nat) + 30 + entries[i - 1].0.len() + entries[i
            - 1].1.len()
    }
}

proof fn lemma_local_records(entries: Seq<(Seq<u8>, Seq<u8>)>, i: nat, m: nat)
    requires
        i <= m <= entries.len(),
    ensures
        local_records(entries, i).len() == entry_offset(entries, i),
        local_records(entries, i).len() <= local_records(entries, m).len(),
        local_records(entries, m).subrange(0, local_records(entries, i).len() as int)
            == local_records(entries, i),
    decreases m,
{
    if m > i {
        lemma_local_records(entries, i, (m - 1) as nat);
        let prev = local_records(entries, (m - 1) as nat);
        assert(local_records(entries, m).subrange(0, local_records(entries, i).len() as int)
            =~= prev.subrange(0, local_records(entries, i).len() as int));
    } else if i > 0 {
        lemma_local_records(entries, (i - 1) as nat, (i - 1) as nat);
        assert(local_records(entries, i).subrange(0, local_records(entries, i).len() as int)
            =~= local_records(entries, i));
    } else {
        assert(local_records(entries, 0).subrange(0, 0) =~= local_records(entries, 0));
    }
}

/// Every entry of a stored archive can be found again: the local record of
/// entry `i` (30 header bytes, then the name, then the contents) stands at
/// `entry_offset(entries, i)`, in the order the entries were given.
proof fn lemma_local_record_len(name: Seq<u8>, data: Seq<u8>)
    ensures
        local_record(name, data).len() == 30 + name.len() + data.len(),
{
}

#[verifier::rlimit(50)]
pub proof fn law_zip_entry_at(entries: Seq<(Seq<u8>, Seq<u8>)>, i: int)
    requires
        0 <= i < entries.len(),
    ensures
        local_record(entries[i].0, entries[i].1).len() == 30 + entries[i].0.len()
            + entries[i].1.len(),
        entry_offset(entries, i as nat) + 30 + entries[i].0.len() + entries[i].1.len()
            <= zip_spec(entries).len(),
        zip_spec(entries).subrange(
            entry_offset(entries, i as nat) as int,
            (entry_offset(entries, i as nat) + 30 + entries[i].0.len() + entries[i].1.len()) as int,
        ) == local_record(entries[i].0, entries[i].1),
{
    let n = entries.len();
    let rec = local_record(entries[i].0, entries[i].1);
    lemma_local_record_len(entries[i].0, entries[i].1);
    lemma_local_records(entries, (i + 1) as nat, n);
    lemma_local_records(entries, i as nat, i as nat);
    let before = local_records(entries, i as nat);
    let upto = local_records(entries, (i + 1) as nat);
    assert(upto == before + rec);
    let all = local_records(entries, n);
    let z = zip_spec(entries);
    assert(z.subrange(0, all.len() as int) =~= all);
    assert(z.subrange(before.len() as int, upto.len() as int) =~= upto.subrange(
        before.len() as int,
        upto.len() as int,
    ));
    assert(upto.subrange(before.len() as int, upto.len() as int) =~= rec);
}

/// Where the central directory record of entry `i` starts within the
/// directory: the sum, over the entries before it, of 46 bytes plus the name.
pub open spec fn central_offset(entries: Seq<(Seq<u8>, Seq<u8>)>, i: nat) -> nat
    decreases i,
{
    if i == 0 || i > entries.len() {
        0
    } else {
        central_offset(entries, (i - 1) as nat) + 46 + entries[i - 1].0.len()
    }
}

proof fn lemma_central_records(entries: Seq<(Seq<u8>, Seq<u8>)>, i: nat, m: nat)
    requires
        i <= m <= entries.len(),
    ensures
        central_records(entries, i).len() == central_offset(entries, i),
        central_records(entries, i).len() <= central_records(entries, m).len(),
        central_records(entries, m).subrange(0, central_records(entries, i).len() as int)
            == central_records(entries, i),
    decreases m,
{
    if m > i {
        lemma_central_records(entries, i, (m - 1) as nat);
        let prev = central_records(entries, (m - 1) as nat);
        assert(central_records(entries, m).subrange(0, central_records(entries, i).len() as int)
            =~= prev.subrange(0, central_records(entries, i).len() as int));
    } else if i > 0 {
        lemma_central_records(entries, (i - 1) as nat, (i - 1) as nat);
        assert(central_records(entries, i).subrange(0, central_records(entries, i).len() as int)
            =~= central_records(entries, i));
    } else {
        assert(central_records(entries, 0).subrange(0, 0) =~= central_records(entries, 0));
    }
}

proof fn lemma_record_crcs(name: Seq<u8>, data: Seq<u8>, offset: u32)
    ensures
        central_record(name, data, offset).len() == 46 + name.len(),
        central_record(name, data, offset).subrange(16, 20) == le32(crc32_checksum(data)),
        local_record(name, data).subrange(14, 18) == le32(crc32_checksum(data)),
{
    assert(central_record(name, data, offset).subrange(16, 20) =~= le32(crc32_checksum(data)));
    assert(local_record(name, data).subrange(14, 18) =~= le32(crc32_checksum(data)));
}

proof fn lemma_sub_sub(z: Seq<u8>, a: int, len: int, s: int, e: int)
    requires
        0 <= a,
        a + len <= z.len(),
        0 <= s <= e <= len,
    ensures
        z.subrange(a, a + len).subrange(s, e) == z.subrange(a + s, a + e),
{
    assert(z.subrange(a, a + len).subrange(s, e) =~= z.subrange(a + s, a + e));
}

proof fn lemma_zip_directory(entries: Seq<(Seq<u8>, Seq<u8>)>)
    ensures
        zip_spec(entries).subrange(
            local_records(entries, entries.len()).len() as int,
            (local_records(entries, entries.len()).len() + central_records(
                entries,
                entries.len(),
            ).len()) as int,
        ) == central_records(entries, entries.len()),
{
    let n = entries.len();
    assert(zip_spec(entries).subrange(
        local_records(entries, n).len() as int,
        (local_records(entries, n).len() + central_records(entries, n).len()) as int,
    ) =~= central_records(entries, n));
}

#[verifier::rlimit(30)]
proof fn lemma_local_crc(entries: Seq<(Seq<u8>, Seq<u8>)>, i: int)
    requires
        0 <= i < entries.len(),
    ensures
        zip_spec(entries).subrange(
            (entry_offset(entries, i as nat) + 14) as int,
            (entry_offset(entries, i as nat) + 18) as int,
        ) == le32(crc32_checksum(entries[i].1)),
{
    law_zip_entry_at(entries, i);
    lemma_record_crcs(entries[i].0, entries[i].1, 0);
    lemma_sub_sub(
        zip_spec(entries),
        entry_offset(entries, i as nat) as int,
        (30 + entries[i].0.len() + entries[i].1.len()) as int,
        14,
        18,
    );
}

proof fn lemma_central_crc(entries: Seq<(Seq<u8>, Seq<u8>)>, i: int)
    requires
        0 <= i < entries.len(),
    ensures
        central_records(entries, entries.len()).subrange(
            (central_offset(entries, i as nat) + 16) as int,
            (central_offset(entries, i as nat) + 20) as int,
        ) == le32(crc32_checksum(entries[i].1)),
{
    let n = entries.len();
    lemma_central_records(entries, (i + 1) as nat, n);
    lemma_central_records(entries, i as nat, i as nat);
    let before = central_records(entries, i as nat);
    let upto = central_records(entries, (i + 1) as nat);
    let crec = central_record(
        entries[i].0,
        entries[i].1,
        local_records(entries, i as nat).len() as u32,
    );
    lemma_record_crcs(entries[i].0, entries[i].1, local_records(entries, i as nat).len() as u32);
    assert(upto == before + crec);
    let b = before.len() as int;
    lemma_sub_sub(central_records(entries, n), 0, upto.len() as int, b + 16, b + 20);
    lemma_sub_sub(upto, b, crec.len() as int, 16, 20);
    assert(upto.subrange(b, b + crec.len()) =~= crec);
}

/// Every entry's CRC-32 is written twice, as the format asks: the 4 bytes at
/// 14 past the start of its local record and the 4 bytes at 16 past the start
/// of its central directory record (which follows all local records) are both
/// the little-endian CRC-32 of the entry's contents.
pub proof fn law_zip_crcs(entries: Seq<(Seq<u8>, Seq<u8>)>, i: int)
    requires
        0 <= i < entries.len(),
    ensures
        zip_spec(entries).subrange(
            (entry_offset(entries, i as nat) + 14) as int,
            (entry_offset(entries, i as nat) + 18) as int,
        ) == le32(crc32_checksum(entries[i].1)),
        zip_spec(entries).subrange(
            (entry_offset(entries, entries.len()) + central_offset(entries, i as nat) + 16) as int,
            (entry_offset(entries, entries.len()) + central_offset(entries, i as nat) + 20) as int,
        ) == le32(crc32_checksum(entries[i].1)),
{
    let n = entries.len();
    lemma_local_crc(entries, i);
    lemma_central_crc(entries, i);
    lemma_zip_directory(entries);
    lemma_local_records(entries, n, n);
    lemma_central_records(entries, (i + 1) as nat, n);
    lemma_central_records(entries, i as nat, i as nat);
    let l = local_records(entries, n).len() as int;
    let c = central_records(entries, n).len() as int;
    let k = central_offset(entries, i as nat) as int;
    lemma_sub_sub(zip_spec(entries), l, c, k + 16, k + 20);
}

/// The fields of the two records of a stored entry, as the ZIP format lays
/// them out: signatures, the CRC-32 of the contents, the contents' size twice
/// (stored, so compressed and uncompressed sizes agree), the name's length,
/// then the name (and, in the local record, the contents); the central record
/// also carries the local record's offset.
pub proof fn law_zip_record_fields(name: Seq<u8>, data: Seq<u8>, offset: u32)
    ensures
        local_record(name, data).len() == 30 + name.len() + data.len(),
        local_record(name, data).subrange(0, 4) == le32(0x0403_4b50),
        local_record(name, data).subrange(14, 18) == le32(crc32_checksum(data)),
        local_record(name, data).subrange(18, 22) == le32(data.len() as u32),
        local_record(name, data).subrange(22, 26) == le32(data.len() as u32),
        local_record(name, data).subrange(26, 28) == le16(name.len() as u16),
        local_record(name, data).subrange(30, 30 + name.len() as int) == name,
        local_record(name, data).subrange(30 + name.len() as int, 30 + name.len() as int + data.len() as int) == data,
        central_record(name, data, offset).len() == 46 + name.len(),
        central_record(name, data, offset).subrange(0, 4) == le32(0x0201_4b50),
        central_record(name, data, offset).subrange(16, 20) == le32(crc32_checksum(data)),
        central_record(name, data, offset).subrange(20, 24) == le32(data.len() as u32),
        central_record(name, data, offset).subrange(24, 28) == le32(data.len() as u32),
        central_record(name, data, offset).subrange(28, 30) == le16(name.len() as u16),
        central_record(name, data, offset).subrange(42, 46) == le32(offset),
        central_record(name, data, offset).subrange(46, 46 + name.len() as int) == name,
{
    let l = local_record(name, data);
    let c = central_record(name, data, offset);
    assert(l.subrange(0, 4) =~= le32(0x0403_4b50));
    assert(l.subrange(14, 18) =~= le32(crc32_checksum(data)));
    assert(l.subrange(18, 22) =~= le32(data.len() as u32));
    assert(l.subrange(22, 26) =~= le32(data.len() as u32));
    assert(l.subrange(26, 28) =~= le16(name.len() as u16));
    assert(l.subrange(30, 30 + name.len() as int) =~= name);
    assert(l.subrange(30 + name.len() as int, 30 + name.len() as int + data.len() as int) =~= data);
    assert(c.subrange(0, 4) =~= le32(0x0201_4b50));
    assert(c.subrange(16, 20) =~= le32(crc32_checksum(data)));
    assert(c.subrange(20, 24) =~= le32(data.len() as u32));
    assert(c.subrange(24, 28) =~= le32(data.len() as u32));
    assert(c.subrange(28, 30) =~= le16(name.len() as u16));
    assert(c.subrange(42, 46) =~= le32(offset));
    assert(c.subrange(46, 46 + name.len() as int) =~= name);
}

/// The central directory of a stored archive follows the local records and
/// holds, for each entry in order, its central record, which points back at
/// the entry's local record.
pub proof fn law_zip_central_record_at(entries: Seq<(Seq<u8>, Seq<u8>)>, i: int)
    requires
        0 <= i < entries.len(),
    ensures
        zip_spec(entries).subrange(
            (entry_offset(entries, entries.len()) + central_offset(entries, i as nat)) as int,
            (entry_offset(entries, entries.len()) + central_offset(entries, i as nat) + 46
                + entries[i].0.len()) as int,
        ) == central_record(entries[i].0, entries[i].1, entry_offset(entries, i as nat) as u32),
{
    let n = entries.len();
    lemma_zip_directory(entries);
    lemma_local_records(entries, n, n);
    lemma_local_records(entries, i as nat, i as nat);
    lemma_central_records(entries, (i + 1) as nat, n);
    lemma_central_records(entries, i as nat, i as nat);
    let before = central_records(entries, i as nat);
    let upto = central_records(entries, (i + 1) as nat);
    let crec = central_record(
        entries[i].0,
        entries[i].1,
        local_records(entries, i as nat).len() as u32,
    );
    lemma_record_crcs(entries[i].0, entries[i].1, local_records(entries, i as nat).len() as u32);
    assert(upto == before + crec);
    let b = before.len() as int;
    let l = local_records(entries, n).len() as int;
    let c = central_records(entries, n).len() as int;
    lemma_sub_sub(central_records(entries, n), 0, upto.len() as int, b, b + crec.len());
    assert(upto.subrange(b, b + crec.len()) =~= crec);
    lemma_sub_sub(zip_spec(entries), l, c, b, b + crec.len());
}

} // verus!
