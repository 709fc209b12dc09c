//! Byte-level text helpers for the ASCII/UTF-8 metadata fields of MS45 images.
//!
//! Every function here works on the UTF-8 bytes of a text. Where the bytes are
//! valid UTF-8 (which is the case for every caller), the byte operations below
//! coincide with the corresponding `str` operations: searching for a substring,
//! stripping NUL characters, and stripping Unicode white space (the characters
//! for which `char::is_whitespace` holds).
use crate::crypto::ascii_string;
use vstd::prelude::*;

verus! {

/// True when `needle` occurs in `hay` at byte offset `i`.
pub open spec fn occurs_at(hay: Seq<u8>, needle: Seq<u8>, i: int) -> bool {
    0 <= i && i + needle.len() <= hay.len() && hay.subrange(i, i + needle.len()) == needle
}

/// True when `needle` occurs somewhere in `hay` (an empty needle occurs everywhere).
pub open spec fn contains_bytes(hay: Seq<u8>, needle: Seq<u8>) -> bool {
    exists|i: int| #[trigger] occurs_at(hay, needle, i)
}

/// Returns whether `needle` occurs as a contiguous run of bytes in `hay`.
pub fn find_bytes(hay: &[u8], needle: &[u8]) -> (found: bool)
    ensures
        found == contains_bytes(hay@, needle@),
{
    if needle.len() > hay.len() {
        proof {
            assert forall|i: int| !#[trigger] occurs_at(hay@, needle@, i) by {}
        }
        return false;
    }
    let last = hay.len() - needle.len();
    let mut i: usize = 0;
    loop
        invariant
            needle@.len() <= hay@.len(),
            last == hay@.len() - needle@.len(),
            i <= last,
            forall|k: int| 0 <= k < i ==> !#[trigger] occurs_at(hay@, needle@, k),
        decreases last - i,
    {
        let mut j: usize = 0;
        let mut same = true;
        while j < needle.len()
            invariant
                needle@.len() <= hay@.len(),
                last == hay@.len() - needle@.len(),
                i <= last,
                j <= needle@.len(),
                same ==> forall|m: int| 0 <= m < j ==> hay@[i + m] == needle@[m],
                !same ==> !occurs_at(hay@, needle@, i as int),
            decreases needle@.len() - j,
        {
            assert(i + j < hay@.len());
            assert(hay@.len() == hay.len());
            if same && hay[i + j] != needle[j] {
                same = false;
                proof {
                    assert(hay@.subrange(i as int, i + needle@.len())[j as int] != needle@[j as int]);
                }
            }
            j = j + 1;
        }
        if same {
            proof {
                assert(hay@.subrange(i as int, i + needle@.len()) =~= needle@);
                assert(occurs_at(hay@, needle@, i as int));
            }
            return true;
        }
        if i == last {
            proof {
                assert forall|k: int| !#[trigger] occurs_at(hay@, needle@, k) by {
                    if 0 <= k <= i {
                    }
                }
            }
            return false;
        }
        i = i + 1;
    }
}

/// Length of the UTF-8 encoding of a white-space character at the start of `b`, or 0.
pub open spec fn ws_prefix_len(b: Seq<u8>) -> int {
    if b.len() >= 1 && ((0x09 <= b[0] && b[0] <= 0x0d) || b[0] == 0x20) {
        1
    } else if b.len() >= 2 && b[0] == 0xc2 && (b[1] == 0x85 || b[1] == 0xa0) {
        2
    } else if b.len() >= 3 && ws3(b[0], b[1], b[2]) {
        3
    } else {
        0
    }
}

/// Length of the UTF-8 encoding of a white-space character at the end of `b`, or 0.
pub open spec fn ws_suffix_len(b: Seq<u8>) -> int {
    let n = b.len() as int;
    if n >= 1 && ((0x09 <= b[n - 1] && b[n - 1] <= 0x0d) || b[n - 1] == 0x20) {
        1
    } else if n >= 2 && b[n - 2] == 0xc2 && (b[n - 1] == 0x85 || b[n - 1] == 0xa0) {
        2
    } else if n >= 3 && ws3(b[n - 3], b[n - 2], b[n - 1]) {
        3
    } else {
        0
    }
}

/// The three-byte UTF-8 encodings of white space: U+1680, U+2000..=U+200A,
/// U+2028, U+2029, U+202F, U+205F and U+3000.
pub open spec fn ws3(x: u8, y: u8, z: u8) -> bool {
    ||| (x == 0xe1 && y == 0x9a && z == 0x80)
    ||| (x == 0xe2 && y == 0x80 && ((0x80 <= z && z <= 0x8a) || z == 0xa8 || z == 0xa9 || z
        == 0xaf))
    ||| (x == 0xe2 && y == 0x81 && z == 0x9f)
    ||| (x == 0xe3 && y == 0x80 && z == 0x80)
}

/// `b` without its leading white space.
pub open spec fn trim_start_ws(b: Seq<u8>) -> Seq<u8>
    decreases b.len(),
{
    if ws_prefix_len(b) > 0 {
        trim_start_ws(b.skip(ws_prefix_len(b)))
    } else {
        b
    }
}

/// `b` without its trailing white space.
pub open spec fn trim_end_ws(b: Seq<u8>) -> Seq<u8>
    decreases b.len(),
{
    if ws_suffix_len(b) > 0 {
        trim_end_ws(b.take(b.len() - ws_suffix_len(b)))
    } else {
        b
    }
}

/// `b` without leading and trailing white space (`str::trim`).
pub open spec fn trim_ws(b: Seq<u8>) -> Seq<u8> {
    trim_end_ws(trim_start_ws(b))
}

/// True when `b` holds nothing but white space (`s.trim().is_empty()`).
pub open spec fn is_blank(b: Seq<u8>) -> bool {
    trim_start_ws(b).len() == 0
}

fn ws3_exec(x: u8, y: u8, z: u8) -> (r: bool)
    ensures
        r == ws3(x, y, z),
{
    (x == 0xe1 && y == 0x9a && z == 0x80) || (x == 0xe2 && y == 0x80 && ((0x80 <= z && z <= 0x8a)
        || z == 0xa8 || z == 0xa9 || z == 0xaf)) || (x == 0xe2 && y == 0x81 && z == 0x9f) || (x
        == 0xe3 && y == 0x80 && z == 0x80)
}

fn ws_prefix_len_at(b: &[u8], start: usize, end: usize) -> (k: usize)
    requires
        start <= end <= b@.len(),
    ensures
        k == ws_prefix_len(b@.subrange(start as int, end as int)),
{
    let ghost s = b@.subrange(start as int, end as int);
    let n = end - start;
    if n >= 1 && ((0x09 <= b[start] && b[start] <= 0x0d) || b[start] == 0x20) {
        1
    } else if n >= 2 && b[start] == 0xc2 && (b[start + 1] == 0x85 || b[start + 1] == 0xa0) {
        2
    } else if n >= 3 && ws3_exec(b[start], b[start + 1], b[start + 2]) {
        3
    } else {
        assert(s.len() == n);
        0
    }
}

fn ws_suffix_len_at(b: &[u8], start: usize, end: usize) -> (k: usize)
    requires
        start <= end <= b@.len(),
    ensures
        k == ws_suffix_len(b@.subrange(start as int, end as int)),
{
    let ghost s = b@.subrange(start as int, end as int);
    let n = end - start;
    if n >= 1 && ((0x09 <= b[end - 1] && b[end - 1] <= 0x0d) || b[end - 1] == 0x20) {
        1
    } else if n >= 2 && b[end - 2] == 0xc2 && (b[end - 1] == 0x85 || b[end - 1] == 0xa0) {
        2
    } else if n >= 3 && ws3_exec(b[end - 3], b[end - 2], b[end - 1]) {
        3
    } else {
        assert(s.len() == n);
        0
    }
}

/// Returns the byte range `[s, e)` of `b` that `str::trim` keeps.
pub fn trim_ws_range(b: &[u8]) -> (r: (usize, usize))
    ensures
        r.0 <= r.1 <= b@.len(),
        b@.subrange(r.0 as int, r.1 as int) == trim_ws(b@),
        b@.subrange(r.0 as int, b@.len() as int) == trim_start_ws(b@),
        ws_prefix_len(trim_start_ws(b@)) == 0,
{
    let mut s: usize = 0;
    let n = b.len();
    assert(b@.subrange(0, n as int) =~= b@);
    let mut k = ws_prefix_len_at(b, s, n);
    while k > 0
        invariant
            s <= n == b@.len(),
            trim_start_ws(b@) == trim_start_ws(b@.subrange(s as int, n as int)),
            k == ws_prefix_len(b@.subrange(s as int, n as int)),
            k <= n - s,
        decreases n - s,
    {
        proof {
            assert(b@.subrange(s as int, n as int).skip(k as int) =~= b@.subrange(
                s + k,
                n as int,
            ));
        }
        s = s + k;
        k = ws_prefix_len_at(b, s, n);
    }
    let mut e: usize = n;
    let mut k2 = ws_suffix_len_at(b, s, e);
    while k2 > 0
        invariant
            s <= e <= n == b@.len(),
            ws_prefix_len(b@.subrange(s as int, n as int)) == 0,
            trim_start_ws(b@) == b@.subrange(s as int, n as int),
            trim_end_ws(b@.subrange(s as int, n as int)) == trim_end_ws(
                b@.subrange(s as int, e as int),
            ),
            k2 == ws_suffix_len(b@.subrange(s as int, e as int)),
            k2 <= e - s,
        decreases e - s,
    {
        proof {
            assert(b@.subrange(s as int, e as int).take(e - s - k2) =~= b@.subrange(
                s as int,
                e - k2,
            ));
        }
        e = e - k2;
        k2 = ws_suffix_len_at(b, s, e);
    }
    (s, e)
}

/// Returns whether the text is empty after trimming white space (`s.trim().is_empty()`).
pub fn blank(b: &[u8]) -> (r: bool)
    ensures
        r == is_blank(b@),
{
    let (s, e) = trim_ws_range(b);
    proof {
        lemma_trim_end_nonempty(trim_start_ws(b@));
    }
    s == e
}

proof fn lemma_trim_end_nonempty(b: Seq<u8>)
    ensures
        ws_prefix_len(b) == 0 && b.len() > 0 ==> trim_end_ws(b).len() > 0,
    decreases b.len(),
{
    let k = ws_suffix_len(b);
    if k > 0 && ws_prefix_len(b) == 0 && b.len() > 0 {
        let t = b.take(b.len() - k);
        lemma_trim_end_nonempty(t);
        if t.len() > 0 {
            assert(ws_prefix_len(t) == 0) by {
                if t.len() >= 1 {
                    assert(t[0] == b[0]);
                }
                if t.len() >= 2 {
                    assert(t[1] == b[1]);
                }
                if t.len() >= 3 {
                    assert(t[2] == b[2]);
                }
            }
        }
    }
}

/// `b` without leading and trailing zero bytes (`trim_matches('\0')`).
pub open spec fn trim_nul(b: Seq<u8>) -> Seq<u8>
    decreases b.len(),
{
    if b.len() > 0 && b[0] == 0 {
        trim_nul(b.skip(1))
    } else {
        trim_end_nul(b)
    }
}

/// `b` without trailing zero bytes (`trim_end_matches('\0')`).
pub open spec fn trim_end_nul(b: Seq<u8>) -> Seq<u8>
    decreases b.len(),
{
    if b.len() > 0 && b[b.len() - 1] == 0 {
        trim_end_nul(b.drop_last())
    } else {
        b
    }
}

/// Returns the length of `b` once trailing zero bytes are removed.
pub fn trim_end_nul_len(b: &[u8]) -> (n: usize)
    ensures
        n <= b@.len(),
        b@.take(n as int) == trim_end_nul(b@),
{
    let mut n = b.len();
    assert(b@.take(n as int) =~= b@);
    while n > 0 && b[n - 1] == 0
        invariant
            n <= b@.len(),
            trim_end_nul(b@) == trim_end_nul(b@.take(n as int)),
        decreases n,
    {
        proof {
            assert(b@.take(n as int).drop_last() =~= b@.take(n - 1));
        }
        n = n - 1;
    }
    n
}

/// Returns the byte range `[s, e)` of `b` that `trim_matches('\0')` keeps.
pub fn trim_nul_range(b: &[u8]) -> (r: (usize, usize))
    ensures
        r.0 <= r.1 <= b@.len(),
        b@.subrange(r.0 as int, r.1 as int) == trim_nul(b@),
{
    let n = b.len();
    let mut s: usize = 0;
    assert(b@.subrange(0, n as int) =~= b@);
    while s < n && b[s] == 0
        invariant
            s <= n == b@.len(),
            trim_nul(b@) == trim_nul(b@.subrange(s as int, n as int)),
        decreases n - s,
    {
        proof {
            assert(b@.subrange(s as int, n as int).skip(1) =~= b@.subrange(s + 1, n as int));
        }
        s = s + 1;
    }
    let mut e = n;
    while e > s && b[e - 1] == 0
        invariant
            s <= e <= n == b@.len(),
            s < n ==> b@[s as int] != 0,
            trim_nul(b@) == trim_end_nul(b@.subrange(s as int, e as int)),
        decreases e,
    {
        proof {
            assert(b@.subrange(s as int, e as int).drop_last() =~= b@.subrange(s as int, e - 1));
        }
        e = e - 1;
    }
    (s, e)
}

/// Numeric value of a run of ASCII decimal digits.
pub open spec fn decimal_value(d: Seq<u8>) -> nat
    decreases d.len(),
{
    if d.len() == 0 {
        0
    } else {
        decimal_value(d.drop_last()) * 10 + (d.last() - 0x30) as nat
    }
}

/// True when every byte of `d` is an ASCII decimal digit.
pub open spec fn all_digits(d: Seq<u8>) -> bool {
    forall|i: int| 0 <= i < d.len() ==> 0x30 <= #[trigger] d[i] && d[i] <= 0x39
}

/// What `u64::from_str` gives for the text `b`: an optional `+`, then one or
/// more decimal digits whose value fits in 64 bits.
pub open spec fn parse_u64_spec(b: Seq<u8>) -> Option<u64> {
    let d = if b.len() > 0 && b[0] == 0x2b {
        b.skip(1)
    } else {
        b
    };
    if d.len() > 0 && all_digits(d) && decimal_value(d) <= u64::MAX {
        Some(decimal_value(d) as u64)
    } else {
        None
    }
}

proof fn lemma_decimal_monotone(d: Seq<u8>, k: int)
    requires
        0 <= k <= d.len(),
        all_digits(d),
    ensures
        decimal_value(d.take(k)) <= decimal_value(d),
    decreases d.len() - k,
{
    if k < d.len() {
        lemma_decimal_monotone(d, k + 1);
        assert(d.take(k + 1).drop_last() =~= d.take(k));
    } else {
        assert(d.take(k) =~= d);
    }
}

/// Parses the bytes `b[start..end]` as `u64::from_str` does.
pub fn parse_u64(b: &[u8], start: usize, end: usize) -> (r: Option<u64>)
    requires
        start <= end <= b@.len(),
    ensures
        r == parse_u64_spec(b@.subrange(start as int, end as int)),
{
    let ghost t = b@.subrange(start as int, end as int);
    let mut s = start;
    if s < end && b[s] == 0x2b {
        s = s + 1;
    }
    let ghost d = b@.subrange(s as int, end as int);
    assert(d =~= (if t.len() > 0 && t[0] == 0x2b {
        t.skip(1)
    } else {
        t
    }));
    if s == end {
        return None;
    }
    let mut acc: u64 = 0;
    let mut i = s;
    while i < end
        invariant
            start <= s <= i <= end <= b@.len(),
            d == b@.subrange(s as int, end as int),
            t == b@.subrange(start as int, end as int),
            d == (if t.len() > 0 && t[0] == 0x2b {
                t.skip(1)
            } else {
                t
            }),
            forall|m: int| s <= m < i ==> 0x30 <= #[trigger] b@[m] && b@[m] <= 0x39,
            acc == decimal_value(b@.subrange(s as int, i as int)),
        decreases end - i,
    {
        let c = b[i];
        if c < 0x30 || c > 0x39 {
            proof {
                assert(d[i - s] == c);
                assert(!all_digits(d));
                assert(parse_u64_spec(t) is None);
            }
            return None;
        }
        let next: u128 = acc as u128 * 10 + (c - 0x30) as u128;
        proof {
            assert(b@.subrange(s as int, i + 1).drop_last() =~= b@.subrange(s as int, i as int));
        }
        if next > u64::MAX as u128 {
            // A value beyond u64::MAX stays beyond it when more digits follow.
            proof {
                assert(b@.subrange(s as int, i + 1).last() == c);
                assert(decimal_value(b@.subrange(s as int, i + 1)) == next);
                if all_digits(d) {
                    lemma_decimal_monotone(d, i + 1 - s);
                    assert(d.take(i + 1 - s) =~= b@.subrange(s as int, i + 1));
                }
            }
            return None;
        }
        acc = next as u64;
        i = i + 1;
    }
    proof {
        assert(d =~= b@.subrange(s as int, i as int));
    }
    Some(acc)
}

/// Whether two byte strings are equal.
pub fn bytes_equal(a: &[u8], b: &[u8]) -> (r: bool)
    ensures
        r == (a@ == b@),
{
    if a.len() != b.len() {
        return false;
    }
    let mut i: usize = 0;
    while i < a.len()
        invariant
            a@.len() == b@.len(),
            i <= a@.len(),
            forall|j: int| 0 <= j < i ==> a@[j] == b@[j],
        decreases a@.len() - i,
    {
        if a[i] != b[i] {
            return false;
        }
        i = i + 1;
    }
    assert(a@ =~= b@);
    true
}

/// The decimal digits of `n`, as `format!` writes them.
pub open spec fn decimal_digits(n: nat) -> Seq<char>
    decreases n,
{
    if n < 10 {
        seq![(n + 48) as char]
    } else {
        decimal_digits(n / 10).push(((n % 10) + 48) as char)
    }
}

/// The ASCII bytes of the decimal digits of `n`.
pub open spec fn decimal_ascii(n: nat) -> Seq<u8>
    decreases n,
{
    if n < 10 {
        seq![(n + 48) as u8]
    } else {
        decimal_ascii(n / 10).push(((n % 10) + 48) as u8)
    }
}

proof fn lemma_decimal_ascii(n: nat)
    ensures
        decimal_ascii(n).len() == decimal_digits(n).len(),
        forall|i: int|
            0 <= i < decimal_ascii(n).len() ==> #[trigger] decimal_ascii(n)[i] < 0x80
                && decimal_ascii(n)[i] as char == decimal_digits(n)[i],
    decreases n,
{
    if n >= 10 {
        lemma_decimal_ascii(n / 10);
    }
}

fn decimal_bytes(n: usize) -> (v: Vec<u8>)
    ensures
        v@ == decimal_ascii(n as nat),
    decreases n,
{
    if n < 10 {
        let v: Vec<u8> = vec![n as u8 + 48];
        assert(v@ =~= decimal_ascii(n as nat));
        v
    } else {
        let mut v = decimal_bytes(n / 10);
        v.push((n % 10) as u8 + 48);
        v
    }
}

/// Writes `n` in decimal.
pub fn decimal(n: usize) -> (s: String)
    ensures
        s@ == decimal_digits(n as nat),
{
    let v = decimal_bytes(n);
    proof {
        lemma_decimal_ascii(n as nat);
    }
    let s = ascii_string(v.as_slice());
    assert(s@ =~= decimal_digits(n as nat));
    s
}

} // verus!
