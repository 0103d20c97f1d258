//! Encoding of byte sequences as lowercase hexadecimal strings, decoding of
//! hexadecimal strings (with optional surrounding whitespace and an optional
//! `0x` prefix) back to bytes, and the [`Hex`] capability trait.

use vstd::prelude::*;
use vstd::string::StringExecFns;

verus! {

/// Errors returned by the [`Hex`] trait and by [`from_hex`].
///
/// `InvalidCharacter` carries the first byte of the offending text that is
/// not a hexadecimal digit. `LengthError` reports an odd number of digits.
/// `HexConversionError` reports text that is not single-byte-per-character
/// (and is left for [`Hex`] implementers as a general conversion failure).
#[derive(Debug, Clone, Copy, PartialEq, Eq, Structural)]
pub enum HexError {
    InvalidCharacter(u8),
    LengthError,
    HexConversionError,
}

impl HexError {
    /// The diagnostic message of this error; the exact wording is part of
    /// the contract.
    pub fn message(&self) -> (m: &'static str)
        ensures
            self is InvalidCharacter ==> m@ == "Only hexadecimal characters (0-9,a-f) are permitted"@,
            self is LengthError ==> m@ == "Hex string lengths must be a multiple of 2"@,
            self is HexConversionError ==> m@ == "Invalid hex representation for the target type"@,
    {
        match self {
            HexError::InvalidCharacter(_) => "Only hexadecimal characters (0-9,a-f) are permitted",
            HexError::LengthError => "Hex string lengths must be a multiple of 2",
            HexError::HexConversionError => "Invalid hex representation for the target type",
        }
    }
}

/// Any type implementing this trait can represent itself as a hexadecimal
/// string and convert back from one, typically by delegating to [`to_hex`]
/// and [`from_hex`] on its natural byte representation.
pub trait Hex: Sized {
    /// Try to convert the given hexadecimal string to the type.
    fn from_hex(hex: &str) -> Result<Self, HexError>;

    /// Return the hexadecimal string representation of the type.
    fn to_hex(&self) -> String;
}

/// The value of hexadecimal digit `v` as a lowercase character, for `0 <= v < 16`.
pub open spec fn nibble_char(v: int) -> char {
    if v == 0 {
        '0'
    } else if v == 1 {
        '1'
    } else if v == 2 {
        '2'
    } else if v == 3 {
        '3'
    } else if v == 4 {
        '4'
    } else if v == 5 {
        '5'
    } else if v == 6 {
        '6'
    } else if v == 7 {
        '7'
    } else if v == 8 {
        '8'
    } else if v == 9 {
        '9'
    } else if v == 10 {
        'a'
    } else if v == 11 {
        'b'
    } else if v == 12 {
        'c'
    } else if v == 13 {
        'd'
    } else if v == 14 {
        'e'
    } else {
        'f'
    }
}

/// The hexadecimal rendering of a byte sequence: two lowercase digits per
/// byte, high nibble first, in sequence order.
pub open spec fn hex_of(bytes: Seq<u8>) -> Seq<char> {
    Seq::new(
        bytes.len() * 2,
        |i: int|
            if i % 2 == 0 {
                nibble_char(bytes[i / 2] as int / 16)
            } else {
                nibble_char(bytes[i / 2] as int % 16)
            },
    )
}

/// A one-character string holding the lowercase hexadecimal digit of value `v`.
fn nibble_str(v: u8) -> (r: &'static str)
    requires
        v < 16,
    ensures
        r@.len() == 1,
        r@[0] == nibble_char(v as int),
{
    proof {
        reveal_strlit("0");
        reveal_strlit("1");
        reveal_strlit("2");
        reveal_strlit("3");
        reveal_strlit("4");
        reveal_strlit("5");
        reveal_strlit("6");
        reveal_strlit("7");
        reveal_strlit("8");
        reveal_strlit("9");
        reveal_strlit("a");
        reveal_strlit("b");
        reveal_strlit("c");
        reveal_strlit("d");
        reveal_strlit("e");
        reveal_strlit("f");
    }
    match v {
        0 => "0",
        1 => "1",
        2 => "2",
        3 => "3",
        4 => "4",
        5 => "5",
        6 => "6",
        7 => "7",
        8 => "8",
        9 => "9",
        10 => "a",
        11 => "b",
        12 => "c",
        13 => "d",
        14 => "e",
        _ => "f",
    }
}

/// Encode the provided bytes into a hex string.
///
/// The result holds exactly two lowercase hexadecimal digits per input byte,
/// in input order; it is always twice as long as the input and this
/// operation never fails.
pub fn to_hex(bytes: &[u8]) -> (r: String)
    ensures
        r@ == hex_of(bytes@),
        r@.len() == 2 * bytes@.len(),
{
    let n = bytes.len();
    let mut s = String::new();
    let mut i: usize = 0;
    while i < n
        invariant
            i <= n,
            n == bytes@.len(),
            s@ == hex_of(bytes@.take(i as int)),
        decreases n - i,
    {
        let b = bytes[i];
        s.append(nibble_str(b / 16));
        s.append(nibble_str(b % 16));
        proof {
            assert(s@ =~= hex_of(bytes@.take(i + 1)));
        }
        i = i + 1;
    }
    proof {
        assert(bytes@.take(n as int) =~= bytes@);
    }
    s
}

/// Encode the provided vector of byte sequences into hex strings, one per
/// input sequence, preserving order and count.
pub fn to_hex_multiple(bytearray: &[Vec<u8>]) -> (r: Vec<String>)
    ensures
        r@.len() == bytearray@.len(),
        forall|i: int| 0 <= i < bytearray@.len() ==> (#[trigger] r@[i])@ == hex_of(bytearray@[i]@),
{
    let n = bytearray.len();
    let mut result: Vec<String> = Vec::new();
    let mut i: usize = 0;
    while i < n
        invariant
            i <= n,
            n == bytearray@.len(),
            result@.len() == i,
            forall|k: int| 0 <= k < i ==> (#[trigger] result@[k])@ == hex_of(bytearray@[k]@),
        decreases n - i,
    {
        result.push(to_hex(bytearray[i].as_slice()));
        i = i + 1;
    }
    result
}

/// Whether byte `b` is the single-byte UTF-8 encoding of a Unicode
/// whitespace character: tab, line feed, vertical tab, form feed, carriage
/// return or space.
pub open spec fn is_whitespace_byte(b: u8) -> bool {
    b == 9 || b == 10 || b == 11 || b == 12 || b == 13 || b == 32
}

/// Whether `b0, b1` is the two-byte UTF-8 encoding of a Unicode whitespace
/// character: U+0085 (next line) or U+00A0 (no-break space).
pub open spec fn is_whitespace_pair(b0: u8, b1: u8) -> bool {
    b0 == 0xc2 && (b1 == 0x85 || b1 == 0xa0)
}

/// Whether `b0, b1, b2` is the three-byte UTF-8 encoding of a Unicode
/// whitespace character: U+1680 (ogham space mark), U+2000 to U+200A (en
/// quad to hair space), U+2028 (line separator), U+2029 (paragraph
/// separator), U+202F (narrow no-break space), U+205F (medium mathematical
/// space) or U+3000 (ideographic space). No whitespace character encodes to
/// four bytes.
pub open spec fn is_whitespace_triple(b0: u8, b1: u8, b2: u8) -> bool {
    (b0 == 0xe1 && b1 == 0x9a && b2 == 0x80) || (b0 == 0xe2 && b1 == 0x80 && (0x80 <= b2 && b2
        <= 0x8a)) || (b0 == 0xe2 && b1 == 0x80 && (b2 == 0xa8 || b2 == 0xa9 || b2 == 0xaf)) || (b0
        == 0xe2 && b1 == 0x81 && b2 == 0x9f) || (b0 == 0xe3 && b1 == 0x80 && b2 == 0x80)
}

/// The byte length of the UTF-8-encoded Unicode whitespace character at the
/// start of `s`, or zero when `s` does not start with one. On valid UTF-8
/// the three patterns are mutually exclusive, since no whitespace encoding
/// byte is the lead byte of another whitespace encoding.
pub open spec fn ws_prefix_len(s: Seq<u8>) -> int {
    if s.len() >= 1 && is_whitespace_byte(s[0]) {
        1
    } else if s.len() >= 2 && is_whitespace_pair(s[0], s[1]) {
        2
    } else if s.len() >= 3 && is_whitespace_triple(s[0], s[1], s[2]) {
        3
    } else {
        0
    }
}

/// The byte length of the UTF-8-encoded Unicode whitespace character at the
/// end of `s`, or zero when `s` does not end with one.
pub open spec fn ws_suffix_len(s: Seq<u8>) -> int {
    let n = s.len() as int;
    if n >= 1 && is_whitespace_byte(s[n - 1]) {
        1
    } else if n >= 2 && is_whitespace_pair(s[n - 2], s[n - 1]) {
        2
    } else if n >= 3 && is_whitespace_triple(s[n - 3], s[n - 2], s[n - 1]) {
        3
    } else {
        0
    }
}

/// Whether byte `b` is the ASCII code of a hexadecimal digit, in either case.
pub open spec fn is_hex_digit(b: u8) -> bool {
    (48 <= b && b <= 57)  // '0' to '9'
    || (97 <= b && b <= 102)  // 'a' to 'f'
    || (65 <= b && b <= 70)  // 'A' to 'F'
}

/// The numeric value of the hexadecimal digit with ASCII code `b`.
pub open spec fn hex_digit_value(b: u8) -> int
    recommends
        is_hex_digit(b),
{
    if 48 <= b && b <= 57 {
        b - 48
    } else if 97 <= b && b <= 102 {
        b - 87
    } else {
        b - 55
    }
}

/// `s` with the UTF-8 encodings of leading whitespace characters removed.
pub open spec fn trim_start_spec(s: Seq<u8>) -> Seq<u8>
    decreases s.len(),
{
    let k = ws_prefix_len(s);
    if k == 0 {
        s
    } else {
        trim_start_spec(s.skip(k))
    }
}

/// `s` with the UTF-8 encodings of trailing whitespace characters removed.
pub open spec fn trim_end_spec(s: Seq<u8>) -> Seq<u8>
    decreases s.len(),
{
    let k = ws_suffix_len(s);
    if k == 0 {
        s
    } else {
        trim_end_spec(s.take(s.len() - k))
    }
}

/// `s` with the UTF-8 encodings of whitespace characters removed from both
/// ends. On the encoding of a character sequence this strips exactly the
/// characters with the Unicode White_Space property, as trimming does.
pub open spec fn trim_spec(s: Seq<u8>) -> Seq<u8> {
    trim_end_spec(trim_start_spec(s))
}

/// `s` with a leading `0x` marker removed, if present.
pub open spec fn strip_hex_prefix(s: Seq<u8>) -> Seq<u8> {
    if s.len() >= 2 && s[0] == 48 && s[1] == 120 {  // '0', 'x'
        s.skip(2)
    } else {
        s
    }
}

/// Whether every byte of `s` is a hexadecimal digit.
pub open spec fn all_hex_digits(s: Seq<u8>) -> bool {
    forall|i: int| 0 <= i < s.len() ==> is_hex_digit(#[trigger] s[i])
}

/// The first byte of `s` that is not a hexadecimal digit.
pub open spec fn first_non_hex_digit(s: Seq<u8>) -> u8
    recommends
        !all_hex_digits(s),
    decreases s.len(),
{
    if s.len() == 0 {
        0
    } else if !is_hex_digit(s[0]) {
        s[0]
    } else {
        first_non_hex_digit(s.drop_first())
    }
}

/// Whether every byte of `s` is in the single-byte character range.
pub open spec fn is_ascii_bytes(s: Seq<u8>) -> bool {
    forall|i: int| 0 <= i < s.len() ==> #[trigger] s[i] < 128
}

/// The bytes written by a sequence of hexadecimal digits, two digits per
/// byte, high nibble first.
pub open spec fn decode_hex_digits(s: Seq<u8>) -> Seq<u8>
    recommends
        s.len() % 2 == 0,
        all_hex_digits(s),
{
    Seq::new(
        s.len() / 2,
        |i: int| (hex_digit_value(s[2 * i]) * 16 + hex_digit_value(s[2 * i + 1])) as u8,
    )
}

/// What [`from_hex`] returns, as a function of the UTF-8 bytes of its input:
/// the input is trimmed of surrounding whitespace; a trimmed text of odd
/// length is a `LengthError`; text holding any multi-byte character is a
/// `HexConversionError`; after an optional `0x` marker is dropped, any byte
/// that is not a hexadecimal digit is an `InvalidCharacter` carrying the
/// first such byte; otherwise each digit pair decodes to one byte.
pub open spec fn from_hex_bytes_spec(raw: Seq<u8>) -> Result<Seq<u8>, HexError> {
    let trimmed = trim_spec(raw);
    let body = strip_hex_prefix(trimmed);
    if trimmed.len() % 2 == 1 {
        Err(HexError::LengthError)
    } else if !is_ascii_bytes(raw) {
        Err(HexError::HexConversionError)
    } else if !all_hex_digits(body) {
        Err(HexError::InvalidCharacter(first_non_hex_digit(body)))
    } else {
        Ok(decode_hex_digits(body))
    }
}

/// What [`from_hex`] returns, as a function of its input text.
pub open spec fn from_hex_spec(s: Seq<char>) -> Result<Seq<u8>, HexError> {
    from_hex_bytes_spec(vstd::utf8::encode_utf8(s))
}

/// The result of [`from_hex`] with the decoded bytes abstracted to a sequence.
pub open spec fn decoded_view(r: Result<Vec<u8>, HexError>) -> Result<Seq<u8>, HexError> {
    match r {
        Ok(v) => Ok(v@),
        Err(e) => Err(e),
    }
}

/// Whether byte `b` is a single-byte whitespace encoding.
fn byte_is_whitespace(b: u8) -> (r: bool)
    ensures
        r == is_whitespace_byte(b),
{
    b == 9 || b == 10 || b == 11 || b == 12 || b == 13 || b == 32
}

/// Whether `b0, b1` is a two-byte whitespace encoding.
fn bytes_are_whitespace_pair(b0: u8, b1: u8) -> (r: bool)
    ensures
        r == is_whitespace_pair(b0, b1),
{
    b0 == 0xc2 && (b1 == 0x85 || b1 == 0xa0)
}

/// Whether `b0, b1, b2` is a three-byte whitespace encoding.
fn bytes_are_whitespace_triple(b0: u8, b1: u8, b2: u8) -> (r: bool)
    ensures
        r == is_whitespace_triple(b0, b1, b2),
{
    (b0 == 0xe1 && b1 == 0x9a && b2 == 0x80) || (b0 == 0xe2 && b1 == 0x80 && (0x80 <= b2 && b2
        <= 0x8a)) || (b0 == 0xe2 && b1 == 0x80 && (b2 == 0xa8 || b2 == 0xa9 || b2 == 0xaf)) || (b0
        == 0xe2 && b1 == 0x81 && b2 == 0x9f) || (b0 == 0xe3 && b1 == 0x80 && b2 == 0x80)
}

/// The byte length of the whitespace encoding beginning at `start`, or zero.
fn ws_len_at_start(bytes: &[u8], start: usize) -> (k: usize)
    requires
        start <= bytes@.len(),
    ensures
        k == ws_prefix_len(bytes@.skip(start as int)),
        k as int <= bytes@.len() - start as int,
{
    let n = bytes.len();
    if start < n && byte_is_whitespace(bytes[start]) {
        1
    } else if n - start >= 2 && bytes_are_whitespace_pair(bytes[start], bytes[start + 1]) {
        2
    } else if n - start >= 3 && bytes_are_whitespace_triple(
        bytes[start],
        bytes[start + 1],
        bytes[start + 2],
    ) {
        3
    } else {
        0
    }
}

/// The byte length of the whitespace encoding ending at `end`, or zero.
fn ws_len_at_end(bytes: &[u8], start: usize, end: usize) -> (k: usize)
    requires
        start <= end <= bytes@.len(),
    ensures
        k == ws_suffix_len(bytes@.subrange(start as int, end as int)),
        k as int <= end - start,
{
    if end - start >= 1 && byte_is_whitespace(bytes[end - 1]) {
        1
    } else if end - start >= 2 && bytes_are_whitespace_pair(bytes[end - 2], bytes[end - 1]) {
        2
    } else if end - start >= 3 && bytes_are_whitespace_triple(
        bytes[end - 3],
        bytes[end - 2],
        bytes[end - 1],
    ) {
        3
    } else {
        0
    }
}

/// Whether byte `b` is the ASCII code of a hexadecimal digit.
fn byte_is_hex_digit(b: u8) -> (r: bool)
    ensures
        r == is_hex_digit(b),
{
    (48 <= b && b <= 57) || (97 <= b && b <= 102) || (65 <= b && b <= 70)
}

/// The numeric value of the hexadecimal digit with ASCII code `b`.
fn hex_value(b: u8) -> (v: u8)
    requires
        is_hex_digit(b),
    ensures
        v == hex_digit_value(b),
        v < 16,
{
    if 48 <= b && b <= 57 {
        b - 48
    } else if 97 <= b && b <= 102 {
        b - 87
    } else {
        b - 55
    }
}

/// The first non-digit of a sequence whose first `k` bytes are digits and
/// whose byte at `k` is not one is that byte.
proof fn lemma_first_non_hex_digit(s: Seq<u8>, k: int)
    requires
        0 <= k < s.len(),
        !is_hex_digit(s[k]),
        forall|j: int| 0 <= j < k ==> is_hex_digit(#[trigger] s[j]),
    ensures
        !all_hex_digits(s),
        first_non_hex_digit(s) == s[k],
    decreases k,
{
    if k > 0 {
        lemma_first_non_hex_digit(s.drop_first(), k - 1);
    }
}

/// Decode a hex string into bytes.
///
/// Leading and trailing Unicode whitespace is stripped, and a leading `0x`
/// marker of the trimmed text is dropped; the remaining characters are read
/// two at a time as hexadecimal digit pairs, high nibble first. A trimmed
/// input of odd byte length fails with `LengthError`, an input holding any
/// multi-byte character fails with `HexConversionError`, and a character
/// that is not a hexadecimal digit fails with `InvalidCharacter`; the checks
/// apply in that order, and [`from_hex_spec`] pins the result exactly.
#[verifier::loop_isolation(false)]
#[verifier::rlimit(60)]
pub fn from_hex(hex_str: &str) -> (r: Result<Vec<u8>, HexError>)
    ensures
        decoded_view(r) == from_hex_spec(hex_str@),
{
    let bytes: &[u8] = hex_str.as_bytes();
    let n = bytes.len();
    proof {
        assert(bytes@.skip(0) =~= bytes@);
    }
    let mut start: usize = 0;
    loop
        invariant
            0 <= start <= n,
            trim_start_spec(bytes@) == trim_start_spec(bytes@.skip(start as int)),
        decreases n - start,
    {
        let k = ws_len_at_start(bytes, start);
        if k == 0 {
            break ;
        }
        proof {
            assert(bytes@.skip(start as int).skip(k as int) =~= bytes@.skip(
                start as int + k as int,
            ));
        }
        start = start + k;
    }
    proof {
        assert(trim_start_spec(bytes@) == bytes@.skip(start as int));
    }
    let mut end: usize = n;
    loop
        invariant
            start <= end <= n,
            trim_end_spec(bytes@.skip(start as int)) == trim_end_spec(
                bytes@.subrange(start as int, end as int),
            ),
        decreases end,
    {
        let k = ws_len_at_end(bytes, start, end);
        if k == 0 {
            break ;
        }
        proof {
            assert(bytes@.subrange(start as int, end as int).take(
                end as int - start as int - k as int,
            ) =~= bytes@.subrange(start as int, end as int - k as int));
        }
        end = end - k;
    }
    let ghost trimmed = bytes@.subrange(start as int, end as int);
    proof {
        assert(bytes@.skip(start as int) =~= bytes@.subrange(start as int, n as int));
        assert(trim_spec(bytes@) == trimmed);
    }
    if (end - start) % 2 == 1 {
        return Err(HexError::LengthError);
    }
    let mut j: usize = 0;
    while j < n
        invariant
            0 <= j <= n,
            forall|k: int| 0 <= k < j ==> bytes@[k] < 128,
        decreases n - j,
    {
        if bytes[j] >= 128 {
            return Err(HexError::HexConversionError);
        }
        j = j + 1;
    }
    let mut pos = start;
    if end - start >= 2 && bytes[start] == 48 && bytes[start + 1] == 120 {
        pos = start + 2;
    }
    let ghost body = bytes@.subrange(pos as int, end as int);
    proof {
        if pos != start {
            assert(trimmed.skip(2) =~= body);
        }
        assert(strip_hex_prefix(trimmed) == body);
    }
    let num_bytes = (end - pos) / 2;
    let mut result: Vec<u8> = Vec::new();
    let mut i: usize = 0;
    while i < num_bytes
        invariant
            0 <= i <= num_bytes,
            result@.len() == i,
            forall|k: int| 0 <= k < 2 * i ==> is_hex_digit(#[trigger] body[k]),
            forall|k: int| 0 <= k < i ==> result@[k] == decode_hex_digits(body)[k],
        decreases num_bytes - i,
    {
        let hi = bytes[pos + 2 * i];
        let lo = bytes[pos + 2 * i + 1];
        if !byte_is_hex_digit(hi) {
            proof {
                lemma_first_non_hex_digit(body, 2 * i);
            }
            return Err(HexError::InvalidCharacter(hi));
        }
        if !byte_is_hex_digit(lo) {
            proof {
                lemma_first_non_hex_digit(body, 2 * i + 1);
            }
            return Err(HexError::InvalidCharacter(lo));
        }
        result.push(hex_value(hi) * 16 + hex_value(lo));
        i = i + 1;
    }
    proof {
        assert(result@ =~= decode_hex_digits(body));
    }
    Ok(result)
}

/// The character of a hexadecimal digit value is an ASCII hexadecimal digit
/// that reads back as that value, and is neither whitespace nor `x`.
proof fn lemma_nibble_char_props(v: int)
    requires
        0 <= v < 16,
    ensures
        '\0' <= nibble_char(v) <= '\u{7f}',
        is_hex_digit(nibble_char(v) as u8),
        hex_digit_value(nibble_char(v) as u8) == v,
        nibble_char(v) as u8 != 120,
        !is_whitespace_byte(nibble_char(v) as u8),
{
}

/// Round trip: decoding the hexadecimal rendering of any byte sequence gives
/// that sequence back. Together with the contracts of [`to_hex`] and
/// [`from_hex`], this states that `from_hex(to_hex(b))` returns `Ok(b)` for
/// every byte sequence `b`.
pub proof fn lemma_hex_round_trip(bytes: Seq<u8>)
    ensures
        from_hex_spec(hex_of(bytes)) == Ok::<Seq<u8>, HexError>(bytes),
{
    let chars = hex_of(bytes);
    assert forall|i: int| 0 <= i < chars.len() implies '\0' <= #[trigger] chars[i]
        <= '\u{7f}' by {
        let v = if i % 2 == 0 {
            bytes[i / 2] as int / 16
        } else {
            bytes[i / 2] as int % 16
        };
        lemma_nibble_char_props(v);
    }
    assert(vstd::utf8::is_ascii_chars(chars));
    vstd::utf8::is_ascii_chars_encode_utf8(chars);
    let raw = vstd::utf8::encode_utf8(chars);
    assert forall|i: int| 0 <= i < raw.len() implies is_hex_digit(#[trigger] raw[i])
        && !is_whitespace_byte(raw[i]) && raw[i] < 128 && raw[i] != 120 && hex_digit_value(raw[i])
        == (if i % 2 == 0 {
        bytes[i / 2] as int / 16
    } else {
        bytes[i / 2] as int % 16
    }) by {
        let v = if i % 2 == 0 {
            bytes[i / 2] as int / 16
        } else {
            bytes[i / 2] as int % 16
        };
        lemma_nibble_char_props(v);
        assert(raw[i] == chars[i] as u8);
    }
    assert(trim_start_spec(raw) == raw);
    assert(trim_end_spec(raw) == raw);
    assert(trim_spec(raw) == raw);
    assert(strip_hex_prefix(raw) == raw);
    assert(is_ascii_bytes(raw));
    assert(all_hex_digits(raw));
    assert(decode_hex_digits(raw) =~= bytes);
}

/// Whether `c` is an ASCII whitespace character: tab, line feed, vertical
/// tab, form feed, carriage return or space.
pub open spec fn is_whitespace_char(c: char) -> bool {
    c == ' ' || c == '\t' || c == '\n' || c == '\u{b}' || c == '\u{c}' || c == '\r'
}

/// An ASCII whitespace character encodes to one ASCII whitespace byte.
proof fn lemma_whitespace_char_byte(c: char)
    requires
        is_whitespace_char(c),
    ensures
        '\0' <= c <= '\u{7f}',
        is_whitespace_byte(c as u8),
{
}

/// UTF-8 encoding distributes over concatenation.
proof fn lemma_encode_utf8_concat(a: Seq<char>, b: Seq<char>)
    ensures
        vstd::utf8::encode_utf8(a + b) == vstd::utf8::encode_utf8(a) + vstd::utf8::encode_utf8(b),
    decreases a.len(),
{
    if a.len() == 0 {
        assert(a + b =~= b);
        assert(vstd::utf8::encode_utf8(a) + vstd::utf8::encode_utf8(b) =~= vstd::utf8::encode_utf8(
            b,
        ));
    } else {
        assert((a + b).drop_first() =~= a.drop_first() + b);
        lemma_encode_utf8_concat(a.drop_first(), b);
        assert(vstd::utf8::encode_scalar((a + b)[0] as u32) + (vstd::utf8::encode_utf8(
            a.drop_first(),
        ) + vstd::utf8::encode_utf8(b)) =~= (vstd::utf8::encode_scalar(a[0] as u32)
            + vstd::utf8::encode_utf8(a.drop_first())) + vstd::utf8::encode_utf8(b));
    }
}

/// An all-whitespace prefix does not change the result of trimming from the
/// start.
proof fn lemma_trim_start_ws_prefix(pre: Seq<u8>, s: Seq<u8>)
    requires
        forall|i: int| 0 <= i < pre.len() ==> is_whitespace_byte(#[trigger] pre[i]),
    ensures
        trim_start_spec(pre + s) == trim_start_spec(s),
    decreases pre.len(),
{
    if pre.len() == 0 {
        assert(pre + s =~= s);
    } else {
        assert(ws_prefix_len(pre + s) == 1);
        assert((pre + s).skip(1) =~= pre.drop_first() + s);
        lemma_trim_start_ws_prefix(pre.drop_first(), s);
    }
}

/// An all-whitespace suffix does not change the result of trimming from the
/// end.
proof fn lemma_trim_end_ws_suffix(s: Seq<u8>, post: Seq<u8>)
    requires
        forall|i: int| 0 <= i < post.len() ==> is_whitespace_byte(#[trigger] post[i]),
    ensures
        trim_end_spec(s + post) == trim_end_spec(s),
    decreases post.len(),
{
    if post.len() == 0 {
        assert(s + post =~= s);
    } else {
        assert((s + post).last() == post.last());
        assert(ws_suffix_len(s + post) == 1);
        assert((s + post).take((s + post).len() - 1) =~= s + post.drop_last());
        lemma_trim_end_ws_suffix(s, post.drop_last());
    }
}

/// Trimming an all-whitespace sequence from the start leaves nothing.
proof fn lemma_trim_start_all_ws(s: Seq<u8>)
    requires
        forall|i: int| 0 <= i < s.len() ==> is_whitespace_byte(#[trigger] s[i]),
    ensures
        trim_start_spec(s) == Seq::<u8>::empty(),
    decreases s.len(),
{
    if s.len() == 0 {
        assert(s =~= Seq::<u8>::empty());
    } else {
        assert(ws_prefix_len(s) == 1);
        assert(s.skip(1) =~= s.drop_first());
        lemma_trim_start_all_ws(s.drop_first());
    }
}

/// Appending single-byte whitespace: trimming `s + post` from the start
/// either stops inside `s`, carrying the appended bytes along, or consumes
/// `s` entirely and goes on into `post`. The appended bytes can never
/// complete a multi-byte whitespace encoding begun in `s`, because the
/// trailing bytes of such an encoding are never ASCII.
proof fn lemma_trim_start_append(s: Seq<u8>, post: Seq<u8>)
    requires
        forall|i: int| 0 <= i < post.len() ==> is_whitespace_byte(#[trigger] post[i]),
    ensures
        trim_start_spec(s).len() > 0 ==> trim_start_spec(s + post) == trim_start_spec(s) + post,
        trim_start_spec(s).len() == 0 ==> trim_start_spec(s + post) == trim_start_spec(post),
    decreases s.len(),
{
    let k = ws_prefix_len(s);
    if s.len() == 0 {
        assert(s + post =~= post);
    } else if k == 0 {
        assert(ws_prefix_len(s + post) == 0) by {
            assert((s + post)[0] == s[0]);
            if s.len() >= 2 {
                assert((s + post)[1] == s[1]);
                if s.len() >= 3 {
                    assert((s + post)[2] == s[2]);
                } else if (s + post).len() >= 3 {
                    assert((s + post)[2] == post[0]);
                }
            } else {
                if (s + post).len() >= 2 {
                    assert((s + post)[1] == post[0]);
                }
                if (s + post).len() >= 3 {
                    assert((s + post)[2] == post[1]);
                }
            }
        }
        assert(trim_start_spec(s + post) == s + post);
    } else {
        assert(ws_prefix_len(s + post) == k) by {
            assert((s + post)[0] == s[0]);
            if k >= 2 {
                assert((s + post)[1] == s[1]);
            }
            if k >= 3 {
                assert((s + post)[2] == s[2]);
            }
        }
        assert((s + post).skip(k) =~= s.skip(k) + post);
        lemma_trim_start_append(s.skip(k), post);
    }
}

/// Surrounding whitespace is ignored: decoding text padded with leading and
/// trailing ASCII whitespace gives the same result, success or error, as
/// decoding the text alone. Together with the contract of [`from_hex`], this
/// states that `from_hex` is indifferent to surrounding whitespace. The law
/// holds for ASCII whitespace only: non-ASCII whitespace is trimmed as well,
/// but its presence trips the single-byte-per-character guard, so padding
/// with it can turn a success into a `HexConversionError`.
pub proof fn lemma_whitespace_ignored(pre: Seq<char>, s: Seq<char>, post: Seq<char>)
    requires
        forall|i: int| 0 <= i < pre.len() ==> is_whitespace_char(#[trigger] pre[i]),
        forall|i: int| 0 <= i < post.len() ==> is_whitespace_char(#[trigger] post[i]),
    ensures
        from_hex_spec(pre + s + post) == from_hex_spec(s),
{
    let rp = vstd::utf8::encode_utf8(pre);
    let rs = vstd::utf8::encode_utf8(s);
    let ro = vstd::utf8::encode_utf8(post);
    lemma_encode_utf8_concat(pre + s, post);
    lemma_encode_utf8_concat(pre, s);
    assert(vstd::utf8::encode_utf8(pre + s + post) == (rp + rs) + ro);
    assert forall|i: int| 0 <= i < pre.len() implies '\0' <= #[trigger] pre[i] <= '\u{7f}' by {
        lemma_whitespace_char_byte(pre[i]);
    }
    assert forall|i: int| 0 <= i < post.len() implies '\0' <= #[trigger] post[i] <= '\u{7f}' by {
        lemma_whitespace_char_byte(post[i]);
    }
    vstd::utf8::is_ascii_chars_encode_utf8(pre);
    vstd::utf8::is_ascii_chars_encode_utf8(post);
    assert forall|i: int| 0 <= i < rp.len() implies is_whitespace_byte(#[trigger] rp[i]) by {
        lemma_whitespace_char_byte(pre[i]);
    }
    assert forall|i: int| 0 <= i < ro.len() implies is_whitespace_byte(#[trigger] ro[i]) by {
        lemma_whitespace_char_byte(post[i]);
    }
    lemma_ws_padding_bytes(rp, rs, ro);
}

/// Surrounding whitespace bytes are ignored by the byte-level decode.
pub proof fn lemma_ws_padding_bytes(pre: Seq<u8>, s: Seq<u8>, post: Seq<u8>)
    requires
        forall|i: int| 0 <= i < pre.len() ==> is_whitespace_byte(#[trigger] pre[i]),
        forall|i: int| 0 <= i < post.len() ==> is_whitespace_byte(#[trigger] post[i]),
    ensures
        from_hex_bytes_spec(pre + s + post) == from_hex_bytes_spec(s),
{
    let whole = (pre + s) + post;
    assert(whole =~= pre + (s + post));
    lemma_trim_start_ws_prefix(pre, s + post);
    lemma_trim_start_append(s, post);
    if trim_start_spec(s).len() == 0 {
        lemma_trim_start_all_ws(post);
        assert(trim_start_spec(s) =~= Seq::<u8>::empty());
        assert(trim_spec(whole) == trim_spec(s));
    } else {
        lemma_trim_end_ws_suffix(trim_start_spec(s), post);
        assert(trim_spec(whole) == trim_spec(s));
    }
    assert(is_ascii_bytes(whole) <==> is_ascii_bytes(s)) by {
        if is_ascii_bytes(s) {
            assert forall|i: int| 0 <= i < whole.len() implies #[trigger] whole[i] < 128 by {
                if i < pre.len() {
                    assert(is_whitespace_byte(pre[i]));
                } else if i < pre.len() + s.len() {
                    assert(whole[i] == s[i - pre.len()]);
                } else {
                    assert(is_whitespace_byte(post[i - pre.len() - s.len()]));
                }
            }
        }
        if is_ascii_bytes(whole) {
            assert forall|i: int| 0 <= i < s.len() implies #[trigger] s[i] < 128 by {
                assert(s[i] == whole[pre.len() + i]);
            }
        }
    }
}

/// A leading `0x` marker is ignored: prepending `0x` to a trimmed text that
/// does not already begin with `0x` gives the same decode result. Together
/// with the contract of [`from_hex`], this states that `from_hex("0x…")`
/// equals `from_hex` of the rest.
pub proof fn lemma_hex_prefix_ignored(s: Seq<u8>)
    requires
        trim_spec(s) == s,
        !(s.len() >= 2 && s[0] == 48 && s[1] == 120),
    ensures
        from_hex_bytes_spec(seq![48u8, 120u8] + s) == from_hex_bytes_spec(s),
{
    let p = seq![48u8, 120u8] + s;
    lemma_trim_len(s);
    assert(p[0] == 48 && p[1] == 120);
    assert(ws_prefix_len(p) == 0);
    assert(trim_start_spec(p) == p);
    assert(ws_suffix_len(p) == 0) by {
        let n = p.len() as int;
        if s.len() >= 3 {
            assert(p[n - 1] == s[s.len() - 1]);
            assert(p[n - 2] == s[s.len() - 2]);
            assert(p[n - 3] == s[s.len() - 3]);
        } else if s.len() == 2 {
            assert(p[n - 1] == s[1] && p[n - 2] == s[0] && p[n - 3] == 120);
        } else if s.len() == 1 {
            assert(p[n - 1] == s[0] && p[n - 2] == 120);
        } else {
            assert(p[n - 1] == 120 && p[n - 2] == 48);
        }
    }
    assert(trim_end_spec(p) == p);
    assert(trim_spec(p) == p);
    assert(p.len() % 2 == s.len() % 2);
    assert(strip_hex_prefix(p) =~= s);
    assert(strip_hex_prefix(s) == s);
    assert(is_ascii_bytes(p) <==> is_ascii_bytes(s)) by {
        if is_ascii_bytes(s) {
            assert forall|i: int| 0 <= i < p.len() implies #[trigger] p[i] < 128 by {
                if i >= 2 {
                    assert(p[i] == s[i - 2]);
                }
            }
        }
        if is_ascii_bytes(p) {
            assert forall|i: int| 0 <= i < s.len() implies #[trigger] s[i] < 128 by {
                assert(s[i] == p[i + 2]);
            }
        }
    }
}

/// A sequence equal to its own trim has no whitespace encoding at either
/// end.
proof fn lemma_trim_len(s: Seq<u8>)
    requires
        trim_spec(s) == s,
    ensures
        ws_prefix_len(s) == 0,
        ws_suffix_len(s) == 0,
{
    lemma_trim_start_le(s);
    lemma_trim_end_le(trim_start_spec(s));
    if ws_prefix_len(s) != 0 {
        lemma_trim_start_le(s.skip(ws_prefix_len(s)));
        lemma_trim_end_le(trim_start_spec(s.skip(ws_prefix_len(s))));
        assert(false);
    }
    assert(trim_start_spec(s) == s);
    if ws_suffix_len(s) != 0 {
        lemma_trim_end_le(s.take(s.len() - ws_suffix_len(s)));
        assert(false);
    }
}

/// Trimming from the start never lengthens a sequence.
proof fn lemma_trim_start_le(s: Seq<u8>)
    ensures
        trim_start_spec(s).len() <= s.len(),
    decreases s.len(),
{
    let k = ws_prefix_len(s);
    if k != 0 {
        lemma_trim_start_le(s.skip(k));
    }
}

/// Trimming from the end never lengthens a sequence.
proof fn lemma_trim_end_le(s: Seq<u8>)
    ensures
        trim_end_spec(s).len() <= s.len(),
    decreases s.len(),
{
    let k = ws_suffix_len(s);
    if k != 0 {
        lemma_trim_end_le(s.take(s.len() - k));
    }
}


} // verus!
