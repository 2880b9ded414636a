//! The mathematical wire model: what each frame looks like as bytes
//! (`enc_frame`), how many leading bytes one frame occupies (`measure_frame`),
//! and what a byte sequence decodes to (`parse_frame`). All executable code
//! in this crate is verified against these functions.

use vstd::prelude::*;

use crate::frame::FrameModel;
use crate::frame::RespError;

verus! {

pub open spec fn crlf() -> Seq<u8> {
    seq![13u8, 10u8]
}

/// No carriage-return/line-feed pair occurs anywhere in `s`.
pub open spec fn no_crlf(s: Seq<u8>) -> bool {
    forall|i: int| 0 <= i && i + 1 < s.len() ==> !(#[trigger] s[i] == 13 && s[i + 1] == 10)
}

pub open spec fn is_digit(b: u8) -> bool {
    48 <= b <= 57
}

pub open spec fn all_digits(s: Seq<u8>) -> bool {
    forall|i: int| 0 <= i < s.len() ==> is_digit(#[trigger] s[i])
}

/// The canonical decimal digits of `n` (no sign, no leading zeros).
pub open spec fn dec_digits(n: int) -> Seq<u8>
    recommends
        n >= 0,
    decreases n,
{
    if n < 10 {
        seq![(48 + n) as u8]
    } else {
        dec_digits(n / 10).push((48 + n % 10) as u8)
    }
}

/// The value of a digit string, most significant digit first.
pub open spec fn digits_val(s: Seq<u8>) -> int
    decreases s,
{
    if s.len() == 0 {
        0
    } else {
        digits_val(s.drop_last()) * 10 + (s.last() - 48)
    }
}

/// A valid unsigned decimal: at least one byte, all digits.
pub open spec fn uint_text_valid(s: Seq<u8>) -> bool {
    s.len() > 0 && all_digits(s)
}

/// A valid signed decimal: optional `+`/`-`, then at least one digit.
pub open spec fn int_text_valid(s: Seq<u8>) -> bool {
    if s.len() > 0 && (s[0] == 43 || s[0] == 45) {
        uint_text_valid(s.skip(1))
    } else {
        uint_text_valid(s)
    }
}

/// The value of a valid signed decimal.
pub open spec fn int_text_val(s: Seq<u8>) -> int {
    if s.len() > 0 && s[0] == 45 {
        -digits_val(s.skip(1))
    } else if s.len() > 0 && s[0] == 43 {
        digits_val(s.skip(1))
    } else {
        digits_val(s)
    }
}

/// The wire digits of an integer: always an explicit sign.
pub open spec fn int_wire(n: int) -> Seq<u8> {
    if n < 0 {
        seq![45u8] + dec_digits(-n)
    } else {
        seq![43u8] + dec_digits(n)
    }
}

/// First position at or after `i` where a CRLF pair starts, if any.
pub open spec fn crlf_from(s: Seq<u8>, i: int) -> Option<int>
    recommends
        0 <= i,
    decreases s.len() - i,
{
    if i + 1 >= s.len() {
        None
    } else if s[i] == 13 && s[i + 1] == 10 {
        Some(i)
    } else {
        crlf_from(s, i + 1)
    }
}

/// The header-line rule shared by every frame whose first line matters:
/// under three bytes or no CRLF yet is transient; a wrong leading byte is a
/// type error; otherwise the index of the line's CRLF is returned.
pub open spec fn extract_line(s: Seq<u8>, p: u8) -> Result<int, RespError> {
    if s.len() < 3 {
        Err(RespError::NotComplete)
    } else if s[0] != p {
        Err(RespError::InvalidFrameType)
    } else {
        match crlf_from(s, 0) {
            None => Err(RespError::NotComplete),
            Some(e) => if 1 <= e && e + 2 <= s.len() {
                Ok(e)
            } else {
                Err(RespError::NotComplete)
            },
        }
    }
}

/// Matching a fixed literal against the front of the buffer. A buffer that
/// is shorter than the literal but agrees with it so far is transient; a
/// disagreement is a type error.
pub open spec fn fixed_prefix(s: Seq<u8>, expect: Seq<u8>) -> Result<(), RespError> {
    if s.len() < 3 {
        Err(RespError::NotComplete)
    } else if s.len() < expect.len() {
        if s == expect.take(s.len() as int) {
            Err(RespError::NotComplete)
        } else {
            Err(RespError::InvalidFrameType)
        }
    } else if s.take(expect.len() as int) == expect {
        Ok(())
    } else {
        Err(RespError::InvalidFrameType)
    }
}

pub open spec fn null_bulk_wire() -> Seq<u8> {
    seq![36u8, 45u8, 49u8, 13u8, 10u8]
}

pub open spec fn null_array_wire() -> Seq<u8> {
    seq![42u8, 45u8, 49u8, 13u8, 10u8]
}

pub open spec fn null_wire() -> Seq<u8> {
    seq![95u8, 13u8, 10u8]
}

pub open spec fn bool_true_wire() -> Seq<u8> {
    seq![35u8, 116u8, 13u8, 10u8]
}

pub open spec fn bool_false_wire() -> Seq<u8> {
    seq![35u8, 102u8, 13u8, 10u8]
}

/// A container header `<p><count>\r\n`: the CRLF index and the count.
/// The count must be a decimal that fits `usize`.
pub open spec fn parse_header(s: Seq<u8>, p: u8) -> Result<(int, int), RespError> {
    match extract_line(s, p) {
        Err(e) => Err(e),
        Ok(e) => {
            let t = s.subrange(1, e);
            if uint_text_valid(t) && digits_val(t) <= usize::MAX as int {
                Ok((e, digits_val(t)))
            } else {
                Err(RespError::ParseIntError)
            }
        },
    }
}

/// First position at or after `i` holding one of two bytes, if any.
pub open spec fn byte_from(s: Seq<u8>, i: int, b1: u8, b2: u8) -> Option<int>
    recommends
        0 <= i,
    decreases s.len() - i,
{
    if i >= s.len() {
        None
    } else if s[i] == b1 || s[i] == b2 {
        Some(i)
    } else {
        byte_from(s, i + 1, b1, b2)
    }
}

/// An unsigned mantissa: digits, optionally a dot followed by digits.
pub open spec fn unsigned_mantissa_valid(s: Seq<u8>) -> bool {
    match byte_from(s, 0, 46, 46) {
        None => uint_text_valid(s),
        Some(k) => uint_text_valid(s.take(k)) && uint_text_valid(s.skip(k + 1)),
    }
}

/// A mantissa: an optional sign before an unsigned mantissa.
pub open spec fn mantissa_valid(s: Seq<u8>) -> bool {
    if s.len() > 0 && (s[0] == 43 || s[0] == 45) {
        unsigned_mantissa_valid(s.skip(1))
    } else {
        unsigned_mantissa_valid(s)
    }
}

/// The double grammar: `[+|-]digits[.digits][(E|e)[+|-]digits]`.
pub open spec fn double_text_valid(s: Seq<u8>) -> bool {
    match byte_from(s, 0, 101, 69) {
        None => mantissa_valid(s),
        Some(k) => mantissa_valid(s.take(k)) && int_text_valid(s.skip(k + 1)),
    }
}

/// How many leading bytes of `s` one complete frame occupies. Looks at the
/// first byte, reads length headers, and recurses into containers; it never
/// validates scalar payloads. `Ok(n)` always has `n <= s.len()`: a frame
/// whose declared extent is not fully present is reported `NotComplete`.
pub open spec fn measure_frame(s: Seq<u8>) -> Result<int, RespError>
    decreases s.len(), 0int,
{
    if s.len() == 0 {
        Err(RespError::NotComplete)
    } else if s[0] == 43 || s[0] == 45 || s[0] == 58 || s[0] == 44 || s[0] == 95 || s[0] == 35 {
        // + - : , _ # : one header line
        match extract_line(s, s[0]) {
            Err(e) => Err(e),
            Ok(e) => Ok(e + 2),
        }
    } else if s[0] == 36 {
        // $ : null bulk string or length-declared payload
        match extract_line(s, 36) {
            Err(e) => Err(e),
            Ok(e) => {
                let t = s.subrange(1, e);
                if t == seq![45u8, 49u8] {
                    Ok(e + 2)
                } else if uint_text_valid(t) && digits_val(t) <= usize::MAX as int {
                    if s.len() < e + 2 + digits_val(t) + 2 {
                        Err(RespError::NotComplete)
                    } else {
                        Ok(e + 2 + digits_val(t) + 2)
                    }
                } else {
                    Err(RespError::ParseIntError)
                }
            },
        }
    } else if s[0] == 42 {
        // * : null array or array
        match extract_line(s, 42) {
            Err(e) => Err(e),
            Ok(e) => {
                let t = s.subrange(1, e);
                if t == seq![45u8, 49u8] {
                    Ok(e + 2)
                } else if uint_text_valid(t) && digits_val(t) <= usize::MAX as int {
                    match measure_elems(s.skip(e + 2), digits_val(t)) {
                        Err(err) => Err(err),
                        Ok(total) => Ok(e + 2 + total),
                    }
                } else {
                    Err(RespError::ParseIntError)
                }
            },
        }
    } else if s[0] == 126 {
        // ~ : set
        match parse_header(s, 126) {
            Err(e) => Err(e),
            Ok((e, count)) => match measure_elems(s.skip(e + 2), count) {
                Err(err) => Err(err),
                Ok(total) => Ok(e + 2 + total),
            },
        }
    } else if s[0] == 37 {
        // % : map, two frames per entry
        match parse_header(s, 37) {
            Err(e) => Err(e),
            Ok((e, count)) => match measure_elems(s.skip(e + 2), 2 * count) {
                Err(err) => Err(err),
                Ok(total) => Ok(e + 2 + total),
            },
        }
    } else if s.len() < 3 {
        Err(RespError::NotComplete)
    } else {
        Err(RespError::InvalidFrameType)
    }
}

/// Total length of `c` consecutive frames at the front of `s`.
pub open spec fn measure_elems(s: Seq<u8>, c: int) -> Result<int, RespError>
    decreases s.len(), c + 1,
{
    if c <= 0 {
        Ok(0)
    } else {
        match measure_frame(s) {
            Err(e) => Err(e),
            Ok(n) => if 3 <= n <= s.len() {
                match measure_elems(s.skip(n), c - 1) {
                    Err(e) => Err(e),
                    Ok(t) => Ok(n + t),
                }
            } else {
                Err(RespError::NotComplete)
            },
        }
    }
}

/// Where `k`'s entry stands in an association list, if anywhere.
pub open spec fn assoc_find(es: Seq<(Seq<u8>, FrameModel)>, k: Seq<u8>) -> Option<int>
    decreases es,
{
    if es.len() == 0 {
        None
    } else if es[0].0 == k {
        Some(0)
    } else {
        match assoc_find(es.drop_first(), k) {
            None => None,
            Some(i) => Some(i + 1),
        }
    }
}

/// Insert with last-write-wins: an existing key keeps its place and takes
/// the new value; a new key goes to the end.
pub open spec fn assoc_insert(
    es: Seq<(Seq<u8>, FrameModel)>,
    k: Seq<u8>,
    v: FrameModel,
) -> Seq<(Seq<u8>, FrameModel)> {
    match assoc_find(es, k) {
        None => es.push((k, v)),
        Some(i) => es.update(i, (k, v)),
    }
}

/// Fold raw wire entries into an association list, starting from `acc`,
/// inserting left to right.
pub open spec fn assoc_fold_from(
    acc: Seq<(Seq<u8>, FrameModel)>,
    raw: Seq<(Seq<u8>, FrameModel)>,
) -> Seq<(Seq<u8>, FrameModel)>
    decreases raw,
{
    if raw.len() == 0 {
        acc
    } else {
        assoc_fold_from(assoc_insert(acc, raw[0].0, raw[0].1), raw.drop_first())
    }
}

/// Fold a list of raw wire entries into an association list, in order.
pub open spec fn assoc_fold(raw: Seq<(Seq<u8>, FrameModel)>) -> Seq<(Seq<u8>, FrameModel)> {
    assoc_fold_from(Seq::empty(), raw)
}

/// A UTF-8 continuation byte.
pub open spec fn is_utf8_cont(b: u8) -> bool {
    0x80 <= b <= 0xbf
}

/// The bytes from `i` on form a well-formed UTF-8 sequence: the standard
/// byte-range table, one arm per leading-byte class.
pub open spec fn utf8_valid_from(s: Seq<u8>, i: int) -> bool
    recommends
        0 <= i,
    decreases s.len() - i,
{
    if i >= s.len() {
        true
    } else {
        let b0 = s[i];
        if b0 < 0x80 {
            utf8_valid_from(s, i + 1)
        } else if 0xc2 <= b0 <= 0xdf {
            i + 1 < s.len() && is_utf8_cont(s[i + 1]) && utf8_valid_from(s, i + 2)
        } else if b0 == 0xe0 {
            i + 2 < s.len() && 0xa0 <= s[i + 1] <= 0xbf && is_utf8_cont(s[i + 2])
                && utf8_valid_from(s, i + 3)
        } else if 0xe1 <= b0 <= 0xec || b0 == 0xee || b0 == 0xef {
            i + 2 < s.len() && is_utf8_cont(s[i + 1]) && is_utf8_cont(s[i + 2])
                && utf8_valid_from(s, i + 3)
        } else if b0 == 0xed {
            i + 2 < s.len() && 0x80 <= s[i + 1] <= 0x9f && is_utf8_cont(s[i + 2])
                && utf8_valid_from(s, i + 3)
        } else if b0 == 0xf0 {
            i + 3 < s.len() && 0x90 <= s[i + 1] <= 0xbf && is_utf8_cont(s[i + 2])
                && is_utf8_cont(s[i + 3]) && utf8_valid_from(s, i + 4)
        } else if 0xf1 <= b0 <= 0xf3 {
            i + 3 < s.len() && is_utf8_cont(s[i + 1]) && is_utf8_cont(s[i + 2]) && is_utf8_cont(
                s[i + 3],
            ) && utf8_valid_from(s, i + 4)
        } else if b0 == 0xf4 {
            i + 3 < s.len() && 0x80 <= s[i + 1] <= 0x8f && is_utf8_cont(s[i + 2])
                && is_utf8_cont(s[i + 3]) && utf8_valid_from(s, i + 4)
        } else {
            false
        }
    }
}

/// Well-formed UTF-8, whole sequence.
pub open spec fn utf8_valid(s: Seq<u8>) -> bool {
    utf8_valid_from(s, 0)
}

/// A header-line frame whose payload is the raw line text.
pub open spec fn parse_simple(s: Seq<u8>, p: u8) -> Result<(Seq<u8>, int), RespError> {
    match extract_line(s, p) {
        Err(e) => Err(e),
        Ok(e) => {
            let t = s.subrange(1, e);
            if utf8_valid(t) {
                Ok((t, e + 2))
            } else {
                Err(RespError::Utf8Error)
            }
        },
    }
}

/// An integer frame: a signed decimal line within `i64` range.
pub open spec fn parse_integer(s: Seq<u8>) -> Result<(int, int), RespError> {
    match extract_line(s, 58) {
        Err(e) => Err(e),
        Ok(e) => {
            let t = s.subrange(1, e);
            if int_text_valid(t) && i64::MIN as int <= int_text_val(t) <= i64::MAX as int {
                Ok((int_text_val(t), e + 2))
            } else {
                Err(RespError::ParseIntError)
            }
        },
    }
}

/// A double frame: a line matching the numeric grammar, kept as text.
pub open spec fn parse_double(s: Seq<u8>) -> Result<(Seq<u8>, int), RespError> {
    match extract_line(s, 44) {
        Err(e) => Err(e),
        Ok(e) => {
            let t = s.subrange(1, e);
            if double_text_valid(t) {
                Ok((t, e + 2))
            } else {
                Err(RespError::ParseFloatError)
            }
        },
    }
}

/// A bulk string, the non-null form: a declared length, then exactly that
/// many payload bytes and a CRLF, all of which must be present.
pub open spec fn parse_bulk(s: Seq<u8>) -> Result<(Seq<u8>, int), RespError> {
    match extract_line(s, 36) {
        Err(e) => Err(e),
        Ok(e) => {
            let t = s.subrange(1, e);
            if uint_text_valid(t) && digits_val(t) <= usize::MAX as int {
                let len = digits_val(t);
                if s.len() < e + 2 + len + 2 {
                    Err(RespError::NotComplete)
                } else if s[e + 2 + len] == 13 && s[e + 2 + len + 1] == 10 {
                    Ok((s.subrange(e + 2, e + 2 + len), e + 2 + len + 2))
                } else {
                    Err(RespError::InvalidFrame)
                }
            } else {
                Err(RespError::ParseIntError)
            }
        },
    }
}

/// An array or set body: a count header, a completeness measure over all
/// elements, then the elements themselves.
pub open spec fn parse_container(s: Seq<u8>, p: u8) -> Result<(Seq<FrameModel>, int), RespError>
    decreases s.len(), 0int,
{
    match parse_header(s, p) {
        Err(e) => Err(e),
        Ok((e, count)) => if e + 2 <= s.len() {
            match measure_elems(s.skip(e + 2), count) {
                Err(err) => Err(err),
                Ok(_) => match parse_elems(s.skip(e + 2), count) {
                    Err(err) => Err(err),
                    Ok((vs, used)) => Ok((vs, e + 2 + used)),
                },
            }
        } else {
            Err(RespError::NotComplete)
        },
    }
}

/// A map body: a count header, a completeness measure over `2 * count`
/// frames, then the key/value pairs folded with last-write-wins.
pub open spec fn parse_map(s: Seq<u8>) -> Result<(Seq<(Seq<u8>, FrameModel)>, int), RespError>
    decreases s.len(), 0int,
{
    match parse_header(s, 37) {
        Err(e) => Err(e),
        Ok((e, count)) => if e + 2 <= s.len() {
            match measure_elems(s.skip(e + 2), 2 * count) {
                Err(err) => Err(err),
                Ok(_) => match parse_entries(s.skip(e + 2), count) {
                    Err(err) => Err(err),
                    Ok((raw, used)) => Ok((assoc_fold(raw), e + 2 + used)),
                },
            }
        } else {
            Err(RespError::NotComplete)
        },
    }
}

/// What the front of `s` decodes to: a frame model and the exact number of
/// bytes it occupies, or the error of the attempt. Decoding consumes either
/// one whole frame or nothing, so the byte count is all a caller needs.
pub open spec fn parse_frame(s: Seq<u8>) -> Result<(FrameModel, int), RespError>
    decreases s.len(), 1int,
{
    if s.len() == 0 {
        Err(RespError::NotComplete)
    } else if s[0] == 43 {
        match parse_simple(s, 43) {
            Err(e) => Err(e),
            Ok((d, n)) => Ok((FrameModel::SimpleString(d), n)),
        }
    } else if s[0] == 45 {
        match parse_simple(s, 45) {
            Err(e) => Err(e),
            Ok((d, n)) => Ok((FrameModel::Error(d), n)),
        }
    } else if s[0] == 58 {
        match parse_integer(s) {
            Err(e) => Err(e),
            Ok((v, n)) => Ok((FrameModel::Integer(v), n)),
        }
    } else if s[0] == 44 {
        match parse_double(s) {
            Err(e) => Err(e),
            Ok((d, n)) => Ok((FrameModel::Double(d), n)),
        }
    } else if s[0] == 95 {
        match fixed_prefix(s, null_wire()) {
            Err(e) => Err(e),
            Ok(_) => Ok((FrameModel::Null, 3)),
        }
    } else if s[0] == 35 {
        match fixed_prefix(s, bool_true_wire()) {
            Ok(_) => Ok((FrameModel::Boolean(true), 4)),
            Err(RespError::NotComplete) => Err(RespError::NotComplete),
            Err(_) => match fixed_prefix(s, bool_false_wire()) {
                Ok(_) => Ok((FrameModel::Boolean(false), 4)),
                Err(e) => Err(e),
            },
        }
    } else if s[0] == 36 {
        match fixed_prefix(s, null_bulk_wire()) {
            Ok(_) => Ok((FrameModel::NullBulkString, 5)),
            Err(RespError::NotComplete) => Err(RespError::NotComplete),
            Err(_) => match parse_bulk(s) {
                Err(e) => Err(e),
                Ok((d, n)) => Ok((FrameModel::BulkString(d), n)),
            },
        }
    } else if s[0] == 42 {
        match fixed_prefix(s, null_array_wire()) {
            Ok(_) => Ok((FrameModel::NullArray, 5)),
            Err(RespError::NotComplete) => Err(RespError::NotComplete),
            Err(_) => match parse_container(s, 42) {
                Err(e) => Err(e),
                Ok((vs, n)) => Ok((FrameModel::Array(vs), n)),
            },
        }
    } else if s[0] == 126 {
        match parse_container(s, 126) {
            Err(e) => Err(e),
            Ok((vs, n)) => Ok((FrameModel::SetFrame(vs), n)),
        }
    } else if s[0] == 37 {
        match parse_map(s) {
            Err(e) => Err(e),
            Ok((es, n)) => Ok((FrameModel::MapFrame(es), n)),
        }
    } else {
        Err(RespError::InvalidFrameType)
    }
}

/// `c` consecutive frames at the front of `s`: their models in order, and
/// the total bytes they occupy.
pub open spec fn parse_elems(s: Seq<u8>, c: int) -> Result<(Seq<FrameModel>, int), RespError>
    decreases s.len(), c + 1,
{
    if c <= 0 {
        Ok((Seq::empty(), 0))
    } else {
        match parse_frame(s) {
            Err(e) => Err(e),
            Ok((v, n)) => if 3 <= n <= s.len() {
                match parse_elems(s.skip(n), c - 1) {
                    Err(e) => Err(e),
                    Ok((vs, m)) => Ok((seq![v] + vs, n + m)),
                }
            } else {
                Err(RespError::NotComplete)
            },
        }
    }
}

/// `c` consecutive key/value pairs: a simple-string key, then any frame.
/// Pairs are returned raw, in wire order.
pub open spec fn parse_entries(
    s: Seq<u8>,
    c: int,
) -> Result<(Seq<(Seq<u8>, FrameModel)>, int), RespError>
    decreases s.len(), c + 1,
{
    if c <= 0 {
        Ok((Seq::empty(), 0))
    } else {
        match parse_simple(s, 43) {
            Err(e) => Err(e),
            Ok((k, kn)) => match parse_frame(s.skip(kn)) {
                Err(err) => Err(err),
                Ok((v, n)) => if 3 <= n <= s.len() - kn {
                    match parse_entries(s.skip(kn + n), c - 1) {
                        Err(err) => Err(err),
                        Ok((es, m)) => Ok((seq![(k, v)] + es, kn + n + m)),
                    }
                } else {
                    Err(RespError::NotComplete)
                },
            },
        }
    }
}

/// The exact wire bytes of a frame.
pub open spec fn enc_frame(f: FrameModel) -> Seq<u8>
    decreases f,
{
    match f {
        FrameModel::SimpleString(d) => seq![43u8] + d + crlf(),
        FrameModel::Error(d) => seq![45u8] + d + crlf(),
        FrameModel::Integer(n) => seq![58u8] + int_wire(n) + crlf(),
        FrameModel::BulkString(d) => seq![36u8] + dec_digits(d.len() as int) + crlf() + d
            + crlf(),
        FrameModel::NullBulkString => null_bulk_wire(),
        FrameModel::Array(es) => seq![42u8] + dec_digits(es.len() as int) + crlf()
            + enc_list(es),
        FrameModel::Null => null_wire(),
        FrameModel::NullArray => null_array_wire(),
        FrameModel::Boolean(b) => if b {
            bool_true_wire()
        } else {
            bool_false_wire()
        },
        FrameModel::Double(d) => seq![44u8] + d + crlf(),
        FrameModel::MapFrame(es) => seq![37u8] + dec_digits(es.len() as int) + crlf()
            + enc_entries(es),
        FrameModel::SetFrame(es) => seq![126u8] + dec_digits(es.len() as int) + crlf()
            + enc_list(es),
    }
}

/// The concatenated wire bytes of a list of frames.
pub open spec fn enc_list(es: Seq<FrameModel>) -> Seq<u8>
    decreases es,
{
    if es.len() == 0 {
        Seq::empty()
    } else {
        enc_frame(es[0]) + enc_list(es.drop_first())
    }
}

/// The concatenated wire bytes of a list of map entries: each key as a
/// simple string, then its value.
pub open spec fn enc_entries(es: Seq<(Seq<u8>, FrameModel)>) -> Seq<u8>
    decreases es,
{
    if es.len() == 0 {
        Seq::empty()
    } else {
        (seq![43u8] + es[0].0 + crlf()) + enc_frame(es[0].1) + enc_entries(es.drop_first())
    }
}

/// Frames whose encoding decodes back to themselves: scalar text free of
/// CRLF, integers within machine range, doubles matching the grammar,
/// payload and container sizes that a length header can declare, unique map
/// keys, and the same again in every nested frame.
pub open spec fn frame_wf(f: FrameModel) -> bool
    decreases f,
{
    match f {
        FrameModel::SimpleString(d) => no_crlf(d) && utf8_valid(d),
        FrameModel::Error(d) => no_crlf(d) && utf8_valid(d),
        FrameModel::Integer(n) => i64::MIN as int <= n <= i64::MAX as int,
        FrameModel::BulkString(d) => d.len() <= usize::MAX as int,
        FrameModel::NullBulkString => true,
        FrameModel::Array(es) => es.len() <= usize::MAX as int && (forall|i: int|
            0 <= i < es.len() ==> frame_wf(#[trigger] es[i])),
        FrameModel::Null => true,
        FrameModel::NullArray => true,
        FrameModel::Boolean(_) => true,
        FrameModel::Double(d) => double_text_valid(d),
        FrameModel::MapFrame(es) => es.len() <= usize::MAX as int && (forall|i: int|
            0 <= i < es.len() ==> no_crlf((#[trigger] es[i]).0) && utf8_valid((
            #[trigger] es[i]).0) && frame_wf(es[i].1))
            && (forall|i: int, j: int|
            0 <= i < j < es.len() ==> es[i].0 != es[j].0),
        FrameModel::SetFrame(es) => es.len() <= usize::MAX as int && (forall|i: int|
            0 <= i < es.len() ==> frame_wf(#[trigger] es[i])),
    }
}


/// What a successful or failed CRLF search means, position by position.
pub proof fn lemma_crlf_from_props(s: Seq<u8>, i: int)
    requires
        0 <= i,
    ensures
        match crlf_from(s, i) {
            Some(e) => i <= e && e + 1 < s.len() && s[e] == 13 && s[e + 1] == 10 && (forall|j: int|
                i <= j < e ==> !(#[trigger] s[j] == 13 && s[j + 1] == 10)),
            None => forall|j: int| i <= j && j + 1 < s.len() ==> !(#[trigger] s[j] == 13
                && s[j + 1] == 10),
        },
    decreases s.len() - i,
{
    if i + 1 >= s.len() {
    } else if s[i] == 13 && s[i + 1] == 10 {
    } else {
        lemma_crlf_from_props(s, i + 1);
    }
}

/// What a successful or failed byte search means.
pub proof fn lemma_byte_from_props(s: Seq<u8>, i: int, b1: u8, b2: u8)
    requires
        0 <= i,
    ensures
        match byte_from(s, i, b1, b2) {
            Some(k) => i <= k < s.len() && (s[k] == b1 || s[k] == b2) && (forall|j: int|
                i <= j < k ==> !(#[trigger] s[j] == b1 || s[j] == b2)),
            None => forall|j: int| i <= j < s.len() ==> !(#[trigger] s[j] == b1 || s[j] == b2),
        },
    decreases s.len() - i,
{
    if i >= s.len() {
    } else if s[i] == b1 || s[i] == b2 {
    } else {
        lemma_byte_from_props(s, i + 1, b1, b2);
    }
}

/// A measured frame occupies at least three bytes and never more than the
/// buffer holds.
pub proof fn lemma_measure_frame_bounds(s: Seq<u8>)
    ensures
        match measure_frame(s) {
            Ok(n) => 3 <= n <= s.len(),
            Err(_) => true,
        },
    decreases s.len(), 0int,
{
    if s.len() == 0 {
    } else if s[0] == 36 {
        match extract_line(s, 36) {
            Err(_) => {},
            Ok(e) => {
                let t = s.subrange(1, e);
                if t != seq![45u8, 49u8] && uint_text_valid(t) {
                    lemma_digits_val_nonneg(t);
                }
            },
        }
    } else if s[0] == 42 || s[0] == 126 || s[0] == 37 {
        if measure_frame(s) is Ok {
            let e = match extract_line(s, s[0]) {
                Ok(e) => e,
                Err(_) => 0,
            };
            let t = s.subrange(1, e);
            if s[0] != 42 || t != seq![45u8, 49u8] {
                let count = if s[0] == 37 {
                    2 * digits_val(t)
                } else {
                    digits_val(t)
                };
                lemma_measure_elems_bounds(s.skip(e + 2), count);
            }
        }
    }
}

/// Measured element runs fit in the buffer and are never negative.
pub proof fn lemma_measure_elems_bounds(s: Seq<u8>, c: int)
    ensures
        match measure_elems(s, c) {
            Ok(t) => 0 <= t <= s.len(),
            Err(_) => true,
        },
    decreases s.len(), c + 1,
{
    if c > 0 {
        match measure_frame(s) {
            Err(_) => {},
            Ok(n) => {
                lemma_measure_frame_bounds(s);
                if 3 <= n <= s.len() {
                    lemma_measure_elems_bounds(s.skip(n), c - 1);
                }
            },
        }
    }
}

/// A parsed frame occupies at least three bytes and never more than the
/// buffer holds.
pub proof fn lemma_parse_frame_bounds(s: Seq<u8>)
    ensures
        match parse_frame(s) {
            Ok(p) => 3 <= p.1 <= s.len(),
            Err(_) => true,
        },
    decreases s.len(), 1int,
{
    if s.len() == 0 {
    } else if s[0] == 36 {
        match extract_line(s, 36) {
            Err(_) => {},
            Ok(e) => {
                let t = s.subrange(1, e);
                if uint_text_valid(t) {
                    lemma_digits_val_nonneg(t);
                }
            },
        }
    } else if s[0] == 42 || s[0] == 126 {
        lemma_parse_container_bounds(s, s[0]);
    } else if s[0] == 37 {
        lemma_parse_map_bounds(s);
    }
}

/// Container bodies stay within the buffer.
pub proof fn lemma_parse_container_bounds(s: Seq<u8>, p: u8)
    ensures
        match parse_container(s, p) {
            Ok(r) => 3 <= r.1 <= s.len(),
            Err(_) => true,
        },
    decreases s.len(), 0int,
{
    match parse_header(s, p) {
        Err(_) => {},
        Ok((e, count)) => if e + 2 <= s.len() {
            lemma_parse_elems_bounds(s.skip(e + 2), count);
        },
    }
}

/// Map bodies stay within the buffer.
pub proof fn lemma_parse_map_bounds(s: Seq<u8>)
    ensures
        match parse_map(s) {
            Ok(r) => 3 <= r.1 <= s.len(),
            Err(_) => true,
        },
    decreases s.len(), 0int,
{
    match parse_header(s, 37) {
        Err(_) => {},
        Ok((e, count)) => if e + 2 <= s.len() {
            lemma_parse_entries_bounds(s.skip(e + 2), count);
        },
    }
}

/// Parsed element runs fit in the buffer, and yield one model per frame.
pub proof fn lemma_parse_elems_bounds(s: Seq<u8>, c: int)
    ensures
        match parse_elems(s, c) {
            Ok(r) => 0 <= r.1 <= s.len() && r.0.len() == if c <= 0 {
                0
            } else {
                c
            },
            Err(_) => true,
        },
    decreases s.len(), c + 1,
{
    if c > 0 {
        match parse_frame(s) {
            Err(_) => {},
            Ok((v, n)) => {
                lemma_parse_frame_bounds(s);
                if 3 <= n <= s.len() {
                    lemma_parse_elems_bounds(s.skip(n), c - 1);
                }
            },
        }
    }
}

/// Parsed entry runs fit in the buffer, and yield one raw pair per entry.
pub proof fn lemma_parse_entries_bounds(s: Seq<u8>, c: int)
    ensures
        match parse_entries(s, c) {
            Ok(r) => 0 <= r.1 <= s.len() && r.0.len() == if c <= 0 {
                0
            } else {
                c
            },
            Err(_) => true,
        },
    decreases s.len(), c + 1,
{
    if c > 0 {
        match extract_line(s, 43) {
            Err(_) => {},
            Ok(e) => {
                match parse_frame(s.skip(e + 2)) {
                    Err(_) => {},
                    Ok((v, n)) => {
                        lemma_parse_frame_bounds(s.skip(e + 2));
                        if 3 <= n <= s.len() - e - 2 {
                            lemma_parse_entries_bounds(s.skip(e + 2 + n), c - 1);
                        }
                    },
                }
            },
        }
    }
}

/// The value of an all-digit string is never negative.
pub proof fn lemma_digits_val_nonneg(s: Seq<u8>)
    requires
        all_digits(s),
    ensures
        digits_val(s) >= 0,
    decreases s,
{
    if s.len() > 0 {
        lemma_digits_val_nonneg(s.drop_last());
    }
}

/// Reading one more digit multiplies the value by ten and adds the digit.
pub proof fn lemma_digits_val_take_step(s: Seq<u8>, i: int)
    requires
        0 <= i < s.len(),
    ensures
        digits_val(s.take(i + 1)) == digits_val(s.take(i)) * 10 + (s[i] - 48),
{
    assert(s.take(i + 1).drop_last() =~= s.take(i));
    assert(s.take(i + 1).last() == s[i]);
}

/// Digit prefixes never exceed the whole string's value.
pub proof fn lemma_digits_val_take_le(s: Seq<u8>, i: int)
    requires
        all_digits(s),
        0 <= i <= s.len(),
    ensures
        digits_val(s.take(i)) <= digits_val(s),
    decreases s.len() - i,
{
    if i < s.len() {
        lemma_digits_val_take_step(s, i);
        lemma_digits_val_nonneg(s.take(i));
        assert(all_digits(s.take(i))) by {
            assert(forall|j: int| 0 <= j < i ==> s.take(i)[j] == s[j]);
        }
        assert(digits_val(s.take(i + 1)) >= digits_val(s.take(i)));
        lemma_digits_val_take_le(s, i + 1);
    } else {
        assert(s.take(i) =~= s);
    }
}

/// The canonical digits of `n` read back as `n`.
pub proof fn lemma_dec_digits_val(n: int)
    requires
        n >= 0,
    ensures
        all_digits(dec_digits(n)),
        digits_val(dec_digits(n)) == n,
        dec_digits(n).len() >= 1,
    decreases n,
{
    if n < 10 {
        assert((48 + n) as u8 == 48 + n);
        assert(dec_digits(n) =~= seq![(48 + n) as u8]);
        assert(dec_digits(n).drop_last() =~= Seq::<u8>::empty());
        assert(dec_digits(n).last() == (48 + n) as u8);
        assert(digits_val(Seq::<u8>::empty()) == 0);
        assert(dec_digits(n).len() == 1);
        assert(digits_val(dec_digits(n)) == digits_val(dec_digits(n).drop_last()) * 10 + (
        dec_digits(n).last() - 48));
    } else {
        lemma_dec_digits_val(n / 10);
        let d = dec_digits(n / 10).push((48 + n % 10) as u8);
        assert(d.drop_last() =~= dec_digits(n / 10));
        assert(d.last() == (48 + n % 10) as u8);
        assert(digits_val(d) == (n / 10) * 10 + n % 10);
        assert((n / 10) * 10 + n % 10 == n) by (nonlinear_arith)
            requires n >= 0;
        assert(forall|i: int| 0 <= i < d.len() - 1 ==> d[i] == dec_digits(n / 10)[i]);
    }
}


/// Position of the `nth` CRLF pair (counting from one) at or after `i`.
pub open spec fn nth_crlf(s: Seq<u8>, i: int, nth: int) -> Option<int>
    recommends
        0 <= i,
    decreases s.len() - i,
{
    if i + 1 >= s.len() {
        None
    } else if s[i] == 13 && s[i + 1] == 10 {
        if nth == 1 {
            Some(i)
        } else {
            nth_crlf(s, i + 1, nth - 1)
        }
    } else {
        nth_crlf(s, i + 1, nth)
    }
}

/// The total extent of a container whose header line ends at `e` and
/// declares `len` entries: the measured run of its frames (two per map
/// entry). For a non-container prefix, a fixed tail past the given length.
pub open spec fn calc_total(s: Seq<u8>, e: int, len: int, p: u8) -> Result<int, RespError> {
    if p == 42 || p == 126 || p == 37 {
        if e + 2 <= s.len() {
            let count = if p == 37 {
                2 * len
            } else {
                len
            };
            match measure_elems(s.skip(e + 2), count) {
                Err(err) => Err(err),
                Ok(t) => Ok(e + 2 + t),
            }
        } else {
            Err(RespError::NotComplete)
        }
    } else {
        if len + 2 > usize::MAX as int {
            Err(RespError::InvalidFrameLength)
        } else {
            Ok(len + 2)
        }
    }
}

/// What a find over an association list means: the first entry with the
/// key, or the absence of any.
pub proof fn lemma_assoc_find_props(es: Seq<(Seq<u8>, FrameModel)>, k: Seq<u8>)
    ensures
        match assoc_find(es, k) {
            Some(i) => 0 <= i < es.len() && es[i].0 == k && (forall|j: int|
                0 <= j < i ==> (#[trigger] es[j]).0 != k),
            None => forall|j: int| 0 <= j < es.len() ==> (#[trigger] es[j]).0 != k,
        },
    decreases es,
{
    if es.len() > 0 && es[0].0 != k {
        lemma_assoc_find_props(es.drop_first(), k);
        assert(forall|j: int| 1 <= j < es.len() ==> es[j] == es.drop_first()[j - 1]);
    }
}

/// Folding one more raw entry is one more insert.
pub proof fn lemma_assoc_fold_from_push(
    acc: Seq<(Seq<u8>, FrameModel)>,
    raw: Seq<(Seq<u8>, FrameModel)>,
    k: Seq<u8>,
    v: FrameModel,
)
    ensures
        assoc_fold_from(acc, raw.push((k, v))) == assoc_insert(assoc_fold_from(acc, raw), k, v),
    decreases raw,
{
    reveal_with_fuel(assoc_fold_from, 3);
    if raw.len() == 0 {
        assert(raw.push((k, v)).drop_first() =~= Seq::<(Seq<u8>, FrameModel)>::empty());
        assert(raw.push((k, v))[0] == (k, v));
    } else {
        assert(raw.push((k, v)).drop_first() =~= raw.drop_first().push((k, v)));
        assert(raw.push((k, v))[0] == raw[0]);
        lemma_assoc_fold_from_push(assoc_insert(acc, raw[0].0, raw[0].1), raw.drop_first(), k, v);
    }
}

} // verus!
