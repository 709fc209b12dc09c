//! Hexadecimal text for byte strings: the forms accepted on the command line
//! and the lower-case form printed back.
use crate::crypto::{ascii_string, str_from_utf8};
use crate::text::{decimal, decimal_digits};
use vstd::string::StringExecFns;
use vstd::prelude::*;
use vstd::string::StringSliceAdditionalSpecFns;

verus! {

/// Why a hexadecimal text was refused.
#[derive(Debug, Clone, Copy, PartialEq, Eq, Structural)]
pub enum HexError {
    /// The digits, separators removed, are odd in number.
    OddLength,
    /// This pair of characters is not a hexadecimal byte.
    InvalidByte { first: u8, second: u8 },
    /// A fixed-size value got this many bytes instead.
    WrongLength { actual: usize },
}

/// The value of an ASCII hexadecimal digit (either case).
pub open spec fn hex_digit(c: u8) -> Option<u8> {
    if 0x30 <= c <= 0x39 {
        Some((c - 0x30) as u8)
    } else if 0x61 <= c <= 0x66 {
        Some((c - 0x61 + 10) as u8)
    } else if 0x41 <= c <= 0x46 {
        Some((c - 0x41 + 10) as u8)
    } else {
        None
    }
}

/// What `u8::from_str_radix(pair, 16)` gives for a two-character text: two
/// hexadecimal digits, or a `+` sign and one digit.
pub open spec fn pair_value(a: u8, b: u8) -> Option<u8> {
    match (hex_digit(a), hex_digit(b)) {
        (Some(x), Some(y)) => Some((x * 16 + y) as u8),
        (None, Some(y)) => if a == 0x2b {
            Some(y)
        } else {
            None
        },
        _ => None,
    }
}

/// The text without a leading `0x` or `0X`.
pub open spec fn strip_hex_prefix(b: Seq<u8>) -> Seq<u8> {
    if b.len() >= 2 && b[0] == 0x30 && (b[1] == 0x78 || b[1] == 0x58) {
        b.skip(2)
    } else {
        b
    }
}

/// Whether a byte is one of the accepted separators: space, `:` or `-`.
pub open spec fn is_separator(c: u8) -> bool {
    c == 0x20 || c == 0x3a || c == 0x2d
}

/// The text with all separators removed.
pub open spec fn compact(b: Seq<u8>) -> Seq<u8>
    decreases b.len(),
{
    if b.len() == 0 {
        b
    } else if is_separator(b.last()) {
        compact(b.drop_last())
    } else {
        compact(b.drop_last()).push(b.last())
    }
}

/// The bytes of the first `k` pairs of `c`, or the first pair that is not a byte.
pub open spec fn decode_pairs(c: Seq<u8>, k: nat) -> Result<Seq<u8>, HexError>
    decreases k,
{
    if k == 0 {
        Ok(Seq::empty())
    } else {
        match decode_pairs(c, (k - 1) as nat) {
            Err(e) => Err(e),
            Ok(acc) => match pair_value(c[2 * k - 2], c[2 * k - 1]) {
                Some(v) => Ok(acc.push(v)),
                None => Err(HexError::InvalidByte { first: c[2 * k - 2], second: c[2 * k - 1] }),
            },
        }
    }
}

/// What `parse_hex_bytes` gives for the UTF-8 bytes `b` of its input.
pub open spec fn parse_hex_spec(b: Seq<u8>) -> Result<Seq<u8>, HexError> {
    let c = compact(strip_hex_prefix(b));
    if c.len() % 2 != 0 {
        Err(HexError::OddLength)
    } else {
        decode_pairs(c, c.len() / 2)
    }
}

fn hex_digit_exec(c: u8) -> (r: Option<u8>)
    ensures
        r == hex_digit(c),
{
    if 0x30 <= c && c <= 0x39 {
        Some(c - 0x30)
    } else if 0x61 <= c && c <= 0x66 {
        Some(c - 0x61 + 10)
    } else if 0x41 <= c && c <= 0x46 {
        Some(c - 0x41 + 10)
    } else {
        None
    }
}

fn pair_value_exec(a: u8, b: u8) -> (r: Option<u8>)
    ensures
        r == pair_value(a, b),
{
    match (hex_digit_exec(a), hex_digit_exec(b)) {
        (Some(x), Some(y)) => Some(x * 16 + y),
        (None, Some(y)) => if a == 0x2b {
            Some(y)
        } else {
            None
        },
        _ => None,
    }
}

proof fn lemma_decode_err(c: Seq<u8>, k: nat, j: nat)
    requires
        k <= j,
        decode_pairs(c, k) is Err,
    ensures
        decode_pairs(c, j) == decode_pairs(c, k),
    decreases j - k,
{
    if k < j {
        lemma_decode_err(c, k, (j - 1) as nat);
    }
}

/// Decodes hexadecimal text: an optional `0x`/`0X` prefix, then pairs of
/// digits, with spaces, colons and dashes ignored anywhere after the prefix.
pub fn decode_hex(input: &str) -> (r: Result<Vec<u8>, HexError>)
    ensures
        match (r, parse_hex_spec(input.spec_bytes())) {
            (Ok(v), Ok(w)) => v@ == w,
            (Err(e), Err(f)) => e == f,
            _ => false,
        },
{
    let b = input.as_bytes();
    let start: usize = if b.len() >= 2 && b[0] == 0x30 && (b[1] == 0x78 || b[1] == 0x58) {
        2
    } else {
        0
    };
    let ghost stripped = strip_hex_prefix(b@);
    assert(stripped =~= b@.subrange(start as int, b@.len() as int));
    let mut c: Vec<u8> = Vec::new();
    let mut i = start;
    while i < b.len()
        invariant
            start <= i <= b@.len(),
            stripped == b@.subrange(start as int, b@.len() as int),
            c@ == compact(stripped.take(i - start)),
        decreases b@.len() - i,
    {
        proof {
            assert(stripped.take(i + 1 - start).drop_last() =~= stripped.take(i - start));
        }
        if !(b[i] == 0x20 || b[i] == 0x3a || b[i] == 0x2d) {
            c.push(b[i]);
        }
        i = i + 1;
    }
    proof {
        assert(stripped.take(i - start) =~= stripped);
    }
    if c.len() % 2 != 0 {
        return Err(HexError::OddLength);
    }
    let pairs = c.len() / 2;
    let mut out: Vec<u8> = Vec::new();
    let mut k: usize = 0;
    while k < pairs
        invariant
            pairs * 2 == c@.len(),
            k <= pairs,
            c@ == compact(strip_hex_prefix(input.spec_bytes())),
            c@.len() % 2 == 0,
            decode_pairs(c@, k as nat) == Ok::<Seq<u8>, HexError>(out@),
        decreases pairs - k,
    {
        assert(2 * k + 1 < c@.len()) by (nonlinear_arith)
            requires
                k < pairs,
                pairs * 2 == c@.len(),
        ;
        let a = c[2 * k];
        let d = c[2 * k + 1];
        match pair_value_exec(a, d) {
            Some(v) => {
                out.push(v);
            },
            None => {
                proof {
                    lemma_decode_err(c@, (k + 1) as nat, pairs as nat);
                }
                return Err(HexError::InvalidByte { first: a, second: d });
            },
        }
        k = k + 1;
    }
    Ok(out)
}

/// Decodes hexadecimal text that must give exactly four bytes.
pub fn decode_hex_4(input: &str) -> (r: Result<[u8; 4], HexError>)
    ensures
        match parse_hex_spec(input.spec_bytes()) {
            Err(e) => r == Err::<[u8; 4], HexError>(e),
            Ok(w) => if w.len() == 4 {
                r matches Ok(a) && a@ == w
            } else {
                r == Err::<[u8; 4], HexError>(HexError::WrongLength { actual: w.len() as usize })
            },
        },
{
    let bytes = decode_hex(input)?;
    if bytes.len() != 4 {
        return Err(HexError::WrongLength { actual: bytes.len() });
    }
    let a = [bytes[0], bytes[1], bytes[2], bytes[3]];
    assert(a@ =~= bytes@);
    Ok(a)
}

/// The message of a refused hexadecimal text. A pair that splits a multi-byte
/// character cannot be shown and is reported without it.
pub open spec fn hex_error_text(e: HexError) -> Seq<char> {
    match e {
        HexError::OddLength => "hex input must contain an even number of digits"@,
        HexError::InvalidByte { first, second } => if vstd::utf8::valid_utf8(seq![first, second]) {
            "invalid hex byte '"@ + vstd::utf8::decode_utf8(seq![first, second]) + "'"@
        } else {
            "invalid hex byte"@
        },
        HexError::WrongLength { actual } => "expected 4 bytes, got "@ + decimal_digits(
            actual as nat,
        ),
    }
}

/// Writes the message of a refused hexadecimal text.
pub fn hex_error_message(e: HexError) -> (m: String)
    ensures
        m@ == hex_error_text(e),
{
    match e {
        HexError::OddLength => "hex input must contain an even number of digits".to_owned(),
        HexError::InvalidByte { first, second } => {
            let pair = [first, second];
            assert(pair@ =~= seq![first, second]);
            match str_from_utf8(&pair) {
                Some(text) => {
                    proof {
                        vstd::utf8::encode_utf8_decode_utf8(text@);
                    }
                    let mut m = "invalid hex byte '".to_owned();
                    m.append(text);
                    m.append("'");
                    m
                },
                None => "invalid hex byte".to_owned(),
            }
        },
        HexError::WrongLength { actual } => {
            let mut m = "expected 4 bytes, got ".to_owned();
            m.append(decimal(actual).as_str());
            m
        },
    }
}

/// Parses hexadecimal text as the command line takes it: an optional
/// `0x`/`0X` prefix, then pairs of digits, with spaces, colons and dashes
/// ignored anywhere after the prefix. A refusal is its message.
pub fn parse_hex_bytes(input: &str) -> (r: Result<Vec<u8>, String>)
    ensures
        match parse_hex_spec(input.spec_bytes()) {
            Ok(w) => r matches Ok(v) && v@ == w,
            Err(e) => r matches Err(m) && m@ == hex_error_text(e),
        },
{
    match decode_hex(input) {
        Ok(v) => Ok(v),
        Err(e) => Err(hex_error_message(e)),
    }
}

/// Parses hexadecimal text that must give exactly four bytes; a refusal is its message.
pub fn parse_hex_4(input: &str) -> (r: Result<[u8; 4], String>)
    ensures
        match parse_hex_spec(input.spec_bytes()) {
            Err(e) => r matches Err(m) && m@ == hex_error_text(e),
            Ok(w) => if w.len() == 4 {
                r matches Ok(a) && a@ == w
            } else {
                r matches Err(m) && m@ == hex_error_text(
                    HexError::WrongLength { actual: w.len() as usize },
                )
            },
        },
{
    match decode_hex_4(input) {
        Ok(a) => Ok(a),
        Err(e) => Err(hex_error_message(e)),
    }
}

/// The lower-case hexadecimal digit of a value below 16.
pub open spec fn lower_digit(v: u8) -> u8 {
    if v < 10 {
        (v + 0x30) as u8
    } else {
        (v - 10 + 0x61) as u8
    }
}

/// Two lower-case hexadecimal digits per byte, most significant first.
pub open spec fn hex_lower(b: Seq<u8>) -> Seq<u8>
    decreases b.len(),
{
    if b.len() == 0 {
        Seq::empty()
    } else {
        hex_lower(b.drop_last()).push(lower_digit(b.last() / 16)).push(
            lower_digit(b.last() % 16),
        )
    }
}

/// The characters of an ASCII byte string.
pub open spec fn ascii_chars(b: Seq<u8>) -> Seq<char> {
    Seq::new(b.len(), |i: int| b[i] as char)
}

proof fn lemma_hex_lower_len(b: Seq<u8>)
    ensures
        hex_lower(b).len() == 2 * b.len(),
        forall|i: int| 0 <= i < hex_lower(b).len() ==> #[trigger] hex_lower(b)[i] < 0x80,
    decreases b.len(),
{
    if b.len() > 0 {
        lemma_hex_lower_len(b.drop_last());
    }
}

fn lower_digit_exec(v: u8) -> (d: u8)
    requires
        v < 16,
    ensures
        d == lower_digit(v),
{
    if v < 10 {
        v + 0x30
    } else {
        v - 10 + 0x61
    }
}

/// The lower-case hexadecimal bytes of `bytes`.
pub fn hex_lower_bytes(bytes: &[u8]) -> (r: Vec<u8>)
    ensures
        r@ == hex_lower(bytes@),
{
    let mut out: Vec<u8> = Vec::new();
    let mut i: usize = 0;
    while i < bytes.len()
        invariant
            i <= bytes@.len(),
            out@ == hex_lower(bytes@.take(i as int)),
        decreases bytes@.len() - i,
    {
        proof {
            assert(bytes@.take(i + 1).drop_last() =~= bytes@.take(i as int));
        }
        out.push(lower_digit_exec(bytes[i] / 16));
        out.push(lower_digit_exec(bytes[i] % 16));
        i = i + 1;
    }
    proof {
        assert(bytes@.take(i as int) =~= bytes@);
    }
    out
}

/// Writes `bytes` as lower-case hexadecimal text, two digits per byte.
pub fn to_hex(bytes: &[u8]) -> (s: String)
    ensures
        s@ == ascii_chars(hex_lower(bytes@)),
{
    let digits = hex_lower_bytes(bytes);
    proof {
        lemma_hex_lower_len(bytes@);
    }
    ascii_string(digits.as_slice())
}

proof fn lemma_compact_hex(b: Seq<u8>)
    ensures
        compact(hex_lower(b)) == hex_lower(b),
    decreases b.len(),
{
    lemma_hex_lower_len(b);
    if b.len() > 0 {
        let h = hex_lower(b.drop_last());
        let x = lower_digit(b.last() / 16);
        let y = lower_digit(b.last() % 16);
        lemma_compact_hex(b.drop_last());
        assert(!is_separator(x));
        assert(!is_separator(y));
        assert(hex_lower(b) == h.push(x).push(y));
        assert(h.push(x).push(y).drop_last() == h.push(x));
        assert(h.push(x).push(y).last() == y);
        assert(h.push(x).drop_last() == h);
        assert(h.push(x).last() == x);
        assert(compact(h.push(x)) == compact(h).push(x));
    }
}

proof fn lemma_decode_hex(b: Seq<u8>, k: nat)
    requires
        k <= b.len(),
    ensures
        decode_pairs(hex_lower(b), k) == Ok::<Seq<u8>, HexError>(b.take(k as int)),
    decreases k,
{
    lemma_hex_lower_len(b);
    if k > 0 {
        lemma_decode_hex(b, (k - 1) as nat);
        lemma_hex_lower_prefix(b, k as int);
        let v = b[k - 1];
        lemma_pair_lower(v);
        assert(hex_lower(b)[2 * k - 2] == lower_digit(v / 16));
        assert(hex_lower(b)[2 * k - 1] == lower_digit(v % 16));
        assert(b.take(k as int) =~= b.take(k - 1).push(v));
        assert(pair_value(hex_lower(b)[2 * k - 2], hex_lower(b)[2 * k - 1]) == Some(v));
        assert(decode_pairs(hex_lower(b), k) == Ok::<Seq<u8>, HexError>(
            b.take(k - 1).push(v),
        ));
    } else {
        assert(b.take(0) =~= Seq::<u8>::empty());
    }
}

proof fn lemma_pair_lower(v: u8)
    ensures
        pair_value(lower_digit(v / 16), lower_digit(v % 16)) == Some(v),
{
    assert(hex_digit(lower_digit(v / 16)) == Some((v / 16) as u8));
    assert(hex_digit(lower_digit(v % 16)) == Some((v % 16) as u8));
    assert((v / 16) * 16 + v % 16 == v);
}

proof fn lemma_hex_lower_prefix(b: Seq<u8>, k: int)
    requires
        0 < k <= b.len(),
    ensures
        hex_lower(b)[2 * k - 2] == lower_digit(b[k - 1] / 16),
        hex_lower(b)[2 * k - 1] == lower_digit(b[k - 1] % 16),
    decreases b.len(),
{
    lemma_hex_lower_len(b.drop_last());
    if k < b.len() {
        lemma_hex_lower_prefix(b.drop_last(), k);
    }
}

/// Printing bytes with `to_hex` and parsing the text with `parse_hex_bytes`
/// gives the bytes back.
pub proof fn law_hex_roundtrip(b: Seq<u8>)
    ensures
        parse_hex_spec(hex_lower(b)) == Ok::<Seq<u8>, HexError>(b),
{
    lemma_hex_lower_len(b);
    lemma_compact_hex(b);
    if hex_lower(b).len() >= 2 {
        lemma_hex_lower_prefix(b, 1);
    }
    assert(strip_hex_prefix(hex_lower(b)) == hex_lower(b));
    lemma_decode_hex(b, b.len());
    assert(b.take(b.len() as int) =~= b);
}

/// The value of pair `j` of the digits `c` (characters `2j` and `2j + 1`).
pub open spec fn pair_at(c: Seq<u8>, j: int) -> Option<u8> {
    pair_value(c[2 * j], c[2 * j + 1])
}

proof fn lemma_decode_pairs(c: Seq<u8>, k: nat)
    requires
        2 * k <= c.len(),
    ensures
        decode_pairs(c, k) is Ok ==> forall|j: int| 0 <= j < k ==> #[trigger] pair_at(c, j) is Some,
        (forall|j: int| 0 <= j < k ==> #[trigger] pair_at(c, j) is Some) ==> (decode_pairs(
            c,
            k,
        ) matches Ok(v) && v.len() == k && forall|j: int|
            0 <= j < k ==> v[j] == (#[trigger] pair_at(c, j)).unwrap()),
        decode_pairs(c, k) matches Err(e) ==> exists|i: int|
            0 <= i < k && #[trigger] pair_at(c, i) is None && (forall|j: int|
                0 <= j < i ==> #[trigger] pair_at(c, j) is Some) && e == (HexError::InvalidByte {
                first: c[2 * i],
                second: c[2 * i + 1],
            }),
    decreases k,
{
    if k > 0 {
        lemma_decode_pairs(c, (k - 1) as nat);
        let i = k - 1;
        assert(pair_at(c, i) == pair_value(c[2 * k - 2], c[2 * k - 1]));
        if decode_pairs(c, k) is Ok {
            assert forall|j: int| 0 <= j < k implies #[trigger] pair_at(c, j) is Some by {
                if j < i {
                    assert(pair_at(c, j) is Some);
                }
            }
        }
    }
}

/// Hexadecimal text decodes pair by pair: with `c` the digits left once the
/// prefix and separators are gone, an odd count is `OddLength`; when every
/// pair is a byte, the result has one byte per pair, each that pair's value;
/// otherwise the error names the first pair that is not a byte.
pub proof fn law_hex_pairs(b: Seq<u8>)
    ensures
        compact(strip_hex_prefix(b)).len() % 2 == 1 ==> parse_hex_spec(b) == Err::<
            Seq<u8>,
            HexError,
        >(HexError::OddLength),
        compact(strip_hex_prefix(b)).len() % 2 == 0 && (forall|j: int|
            0 <= j < compact(strip_hex_prefix(b)).len() / 2 ==> #[trigger] pair_at(
                compact(strip_hex_prefix(b)),
                j,
            ) is Some) ==> (parse_hex_spec(b) matches Ok(v) && v.len() == compact(
            strip_hex_prefix(b),
        ).len() / 2 && forall|j: int|
            0 <= j < v.len() ==> v[j] == (#[trigger] pair_at(
                compact(strip_hex_prefix(b)),
                j,
            )).unwrap()),
        parse_hex_spec(b) matches Err(HexError::InvalidByte { first, second }) ==> exists|i: int|
            0 <= i < compact(strip_hex_prefix(b)).len() / 2 && #[trigger] pair_at(
                compact(strip_hex_prefix(b)),
                i,
            ) is None && (forall|j: int|
                0 <= j < i ==> #[trigger] pair_at(compact(strip_hex_prefix(b)), j) is Some)
                && first == compact(strip_hex_prefix(b))[2 * i] && second == compact(
                strip_hex_prefix(b),
            )[2 * i + 1],
{
    let c = compact(strip_hex_prefix(b));
    if c.len() % 2 == 0 {
        lemma_decode_pairs(c, (c.len() / 2) as nat);
    }
}

} // verus!
