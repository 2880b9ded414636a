//! The decoder: helpers that read header lines and decimal lengths from a
//! byte slice, the lookahead engine that measures one frame without
//! consuming it, and the `RespDecode` implementations that consume a
//! `BytesMut` atomically — exactly one whole frame, or nothing.

use vstd::prelude::*;
use vstd::slice::slice_subrange;
use vstd::slice::slice_to_vec;

use bytes::BytesMut;

use crate::buffer::buf_advance;
use crate::buffer::buf_bytes;
use crate::buffer::buf_data;
use crate::encode::RespEncode;
use crate::frame::BulkString;
use crate::frame::Double;
use crate::frame::FrameModel;
use crate::frame::RespArray;
use crate::frame::RespError;
use crate::frame::RespFrame;
use crate::frame::RespMap;
use crate::frame::RespNull;
use crate::frame::RespNullArray;
use crate::frame::RespNullBulkString;
use crate::frame::RespSet;
use crate::frame::SimpleError;
use crate::frame::SimpleString;
use crate::frame::entries_view;
use crate::frame::frames_view;
use crate::frame::lemma_entries_view_index;
use crate::frame::lemma_entries_view_len;
use crate::frame::lemma_entries_view_push;
use crate::frame::lemma_frames_view_push;
use crate::wire::assoc_find;
use crate::wire::assoc_fold;
use crate::wire::assoc_insert;
use crate::wire::bool_false_wire;
use crate::wire::bool_true_wire;
use crate::wire::lemma_assoc_find_props;
use crate::wire::lemma_assoc_fold_from_push;
use crate::wire::lemma_parse_frame_bounds;
use crate::wire::null_array_wire;
use crate::wire::null_bulk_wire;
use crate::wire::null_wire;
use crate::wire::parse_bulk;
use crate::wire::parse_container;
use crate::wire::parse_double;
use crate::wire::parse_elems;
use crate::wire::parse_entries;
use crate::wire::parse_frame;
use crate::wire::parse_integer;
use crate::wire::parse_map;
use crate::wire::parse_simple;
use crate::wire::crlf_from;
use crate::wire::digits_val;
use crate::wire::extract_line;
use crate::wire::fixed_prefix;
use crate::wire::int_text_val;
use crate::wire::int_text_valid;
use crate::wire::is_digit;
use crate::wire::lemma_crlf_from_props;
use crate::wire::lemma_digits_val_nonneg;
use crate::wire::lemma_digits_val_take_le;
use crate::wire::lemma_digits_val_take_step;
use crate::wire::byte_from;
use crate::wire::calc_total;
use crate::wire::measure_elems;
use crate::wire::measure_frame;
use crate::wire::nth_crlf;
use crate::wire::parse_header;
use crate::wire::uint_text_valid;
use crate::wire::utf8_valid;
use crate::wire::utf8_valid_from;

verus! {

/// First index where a CRLF pair starts, if any.
fn find_crlf(buf: &[u8]) -> (r: Option<usize>)
    ensures
        match r {
            Some(i) => crlf_from(buf@, 0) == Some(i as int),
            None => crlf_from(buf@, 0) is None,
        },
{
    if buf.len() < 2 {
        return None;
    }
    let mut i: usize = 0;
    while i < buf.len() - 1
        invariant
            buf@.len() >= 2,
            i + 1 <= buf@.len(),
            crlf_from(buf@, 0) == crlf_from(buf@, i as int),
        decreases buf@.len() - i,
    {
        if buf[i] == 13 && buf[i + 1] == 10 {
            return Some(i);
        }
        i += 1;
    }
    None
}

/// Position of the `nth` CRLF pair, counting from one.
pub fn find_ctrl(buf: &[u8], nth: usize) -> (r: Option<usize>)
    ensures
        match r {
            Some(i) => nth_crlf(buf@, 0, nth as int) == Some(i as int),
            None => nth_crlf(buf@, 0, nth as int) is None,
        },
{
    if buf.len() < 2 {
        return None;
    }
    let mut i: usize = 0;
    let mut count: usize = 0;
    while i < buf.len() - 1
        invariant
            buf@.len() >= 2,
            i + 1 <= buf@.len(),
            count <= i,
            nth_crlf(buf@, 0, nth as int) == nth_crlf(buf@, i as int, nth as int - count as int),
        decreases buf@.len() - i,
    {
        if buf[i] == 13 && buf[i + 1] == 10 {
            if count + 1 == nth {
                return Some(i);
            }
            count += 1;
        }
        i += 1;
    }
    None
}

/// The header-line reader shared by every line-shaped frame: checks the
/// leading byte and finds the line's CRLF, reporting `NotComplete` until
/// one whole line is buffered.
pub fn extract_simaple_frame_data(buf: &[u8], prefix: u8) -> (r: Result<usize, RespError>)
    ensures
        match r {
            Ok(end) => extract_line(buf@, prefix) == Ok::<int, RespError>(end as int),
            Err(e) => extract_line(buf@, prefix) == Err::<int, RespError>(e),
        },
{
    if buf.len() < 3 {
        return Err(RespError::NotComplete);
    }
    if buf[0] != prefix {
        return Err(RespError::InvalidFrameType);
    }
    match find_crlf(buf) {
        None => Err(RespError::NotComplete),
        Some(end) => {
            proof {
                lemma_crlf_from_props(buf@, 0);
            }
            if end == 0 {
                Err(RespError::NotComplete)
            } else {
                Ok(end)
            }
        },
    }
}

/// Matches a fixed wire literal against the front of the buffer.
fn check_fixed(buf: &[u8], expect: &[u8]) -> (r: Result<(), RespError>)
    ensures
        r == fixed_prefix(buf@, expect@),
{
    if buf.len() < 3 {
        return Err(RespError::NotComplete);
    }
    let limit: usize = if buf.len() < expect.len() {
        buf.len()
    } else {
        expect.len()
    };
    let mut j: usize = 0;
    while j < limit
        invariant
            buf@.len() >= 3,
            limit <= buf@.len(),
            limit <= expect@.len(),
            j <= limit,
            limit == if buf@.len() < expect@.len() {
                buf@.len() as int
            } else {
                expect@.len() as int
            },
            forall|x: int| 0 <= x < j ==> buf@[x] == expect@[x],
        decreases limit - j,
    {
        if buf[j] != expect[j] {
            proof {
                assert(buf@[j as int] != expect@[j as int]);
                if buf@.len() < expect@.len() {
                    assert(expect@.take(buf@.len() as int)[j as int] == expect@[j as int]);
                    assert(buf@ != expect@.take(buf@.len() as int));
                } else {
                    assert(buf@.take(expect@.len() as int)[j as int] != expect@[j as int]);
                    assert(buf@.take(expect@.len() as int) != expect@);
                }
                assert(fixed_prefix(buf@, expect@) == Err::<(), RespError>(
                    RespError::InvalidFrameType,
                ));
            }
            return Err(RespError::InvalidFrameType);
        }
        j += 1;
    }
    if buf.len() < expect.len() {
        proof {
            assert(buf@ =~= expect@.take(buf@.len() as int));
        }
        Err(RespError::NotComplete)
    } else {
        proof {
            assert(buf@.take(expect@.len() as int) =~= expect@);
        }
        Ok(())
    }
}

/// An unsigned decimal that must fit `usize`: the form of every declared
/// length and element count.
fn parse_usize_digits(t: &[u8]) -> (r: Option<usize>)
    ensures
        match r {
            Some(v) => uint_text_valid(t@) && digits_val(t@) <= usize::MAX as int && v as int
                == digits_val(t@),
            None => !(uint_text_valid(t@) && digits_val(t@) <= usize::MAX as int),
        },
{
    if t.len() == 0 {
        return None;
    }
    let mut acc: usize = 0;
    let mut i: usize = 0;
    while i < t.len()
        invariant
            i <= t@.len(),
            forall|x: int| 0 <= x < i ==> is_digit(#[trigger] t@[x]),
            acc as int == digits_val(t@.take(i as int)),
        decreases t@.len() - i,
    {
        let b = t[i];
        if b < 48 || b > 57 {
            return None;
        }
        proof {
            lemma_digits_val_take_step(t@, i as int);
        }
        let d = (b - 48) as usize;
        let step = acc.checked_mul(10);
        match step {
            None => {
                proof {
                    overflow_means_invalid(t@, i as int, acc as int * 10 + d as int);
                }
                return None;
            },
            Some(m) => {
                let next = m.checked_add(d);
                match next {
                    None => {
                        proof {
                            overflow_means_invalid(t@, i as int, acc as int * 10 + d as int);
                        }
                        return None;
                    },
                    Some(v) => {
                        acc = v;
                    },
                }
            },
        }
        i += 1;
    }
    proof {
        assert(t@.take(t@.len() as int) =~= t@);
    }
    Some(acc)
}

/// A digit-step value past `usize::MAX` condemns the whole string: either
/// a later byte is no digit, or the full value is out of range too.
proof fn overflow_means_invalid(s: Seq<u8>, i: int, stepped: int)
    requires
        0 <= i < s.len(),
        is_digit(s[i]),
        stepped == digits_val(s.take(i)) * 10 + (s[i] - 48),
        stepped > usize::MAX as int,
    ensures
        !(uint_text_valid(s) && digits_val(s) <= usize::MAX as int),
{
    if uint_text_valid(s) {
        lemma_digits_val_take_step(s, i);
        lemma_digits_val_take_le(s, i + 1);
    }
}

/// A container header: the CRLF index of the line and the declared count.
pub fn parse_length(buf: &[u8], prefix: u8) -> (r: Result<(usize, usize), RespError>)
    ensures
        match r {
            Ok(p) => parse_header(buf@, prefix) == Ok::<(int, int), RespError>(
                (p.0 as int, p.1 as int),
            ),
            Err(e) => parse_header(buf@, prefix) == Err::<(int, int), RespError>(e),
        },
{
    let end = match extract_simaple_frame_data(buf, prefix) {
        Ok(end) => end,
        Err(e) => {
            return Err(e);
        },
    };
    let digits = slice_subrange(buf, 1, end);
    match parse_usize_digits(digits) {
        Some(v) => Ok((end, v)),
        None => Err(RespError::ParseIntError),
    }
}

/// A signed decimal line payload within `i64` range.
fn parse_i64_digits(t: &[u8]) -> (r: Result<i64, RespError>)
    ensures
        match r {
            Ok(v) => int_text_valid(t@) && i64::MIN as int <= int_text_val(t@) <= i64::MAX as int
                && v as int == int_text_val(t@),
            Err(e) => e == RespError::ParseIntError && !(int_text_valid(t@) && i64::MIN as int
                <= int_text_val(t@) <= i64::MAX as int),
        },
{
    if t.len() == 0 {
        return Err(RespError::ParseIntError);
    }
    let negative = t[0] == 45;
    let signed = t[0] == 45 || t[0] == 43;
    let start: usize = if signed {
        1
    } else {
        0
    };
    let ghost d = t@.skip(start as int);
    let bound: u64 = if negative {
        9223372036854775808u64
    } else {
        9223372036854775807u64
    };
    if t.len() == start {
        return Err(RespError::ParseIntError);
    }
    let mut acc: u64 = 0;
    let mut i: usize = start;
    while i < t.len()
        invariant
            start <= i <= t@.len(),
            t@.len() > start,
            signed == (t@[0] == 45 || t@[0] == 43),
            negative == (t@[0] == 45),
            start == if signed {
                1int
            } else {
                0int
            },
            d == t@.skip(start as int),
            bound as int == if negative {
                0x8000_0000_0000_0000int
            } else {
                0x7fff_ffff_ffff_ffffint
            },
            forall|x: int| start <= x < i ==> is_digit(#[trigger] t@[x]),
            acc as int == digits_val(d.take(i - start)),
            acc <= bound,
        decreases t@.len() - i,
    {
        let b = t[i];
        if b < 48 || b > 57 {
            proof {
                nondigit_means_invalid(t@, d, i as int, start as int);
            }
            return Err(RespError::ParseIntError);
        }
        proof {
            assert(d[i - start] == t@[i as int]);
            lemma_digits_val_take_step(d, i - start);
        }
        let d9 = (b - 48) as u64;
        let next = match acc.checked_mul(10) {
            None => None,
            Some(m) => m.checked_add(d9),
        };
        match next {
            None => {
                proof {
                    signed_overflow_means_invalid(t@, d, i as int, start as int, negative,
                        bound as int);
                }
                return Err(RespError::ParseIntError);
            },
            Some(v) => {
                if v > bound {
                    proof {
                        signed_overflow_means_invalid(t@, d, i as int, start as int, negative,
                            bound as int);
                    }
                    return Err(RespError::ParseIntError);
                }
                acc = v;
            },
        }
        i += 1;
    }
    proof {
        assert(d.take(t@.len() - start) =~= d);
        assert(forall|x: int| 0 <= x < d.len() ==> d[x] == t@[x + start]);
        assert(uint_text_valid(d));
        if start == 0 {
            assert(t@.skip(0) =~= t@);
        }
        assert(int_text_valid(t@));
        assert(int_text_val(t@) == if negative {
            -digits_val(d)
        } else {
            digits_val(d)
        });
    }
    if negative {
        if acc == 9223372036854775808u64 {
            Ok(i64::MIN)
        } else {
            Ok(-(acc as i64))
        }
    } else {
        Ok(acc as i64)
    }
}

/// A digit step past the magnitude bound condemns the whole string: the
/// full magnitude is at least the stepped value, so the value is out of
/// `i64` range — unless a later byte is no digit at all.
proof fn signed_overflow_means_invalid(
    t: Seq<u8>,
    d: Seq<u8>,
    i: int,
    start: int,
    negative: bool,
    bound: int,
)
    requires
        0 <= start <= i < t.len(),
        start == 0 || start == 1,
        d == t.skip(start),
        is_digit(t[i]),
        (start == 1) == (t[0] == 43 || t[0] == 45),
        negative == (t[0] == 45),
        negative ==> bound == 0x8000_0000_0000_0000,
        !negative ==> bound == 0x7fff_ffff_ffff_ffff,
        digits_val(d.take(i - start)) * 10 + (t[i] - 48) > bound,
    ensures
        !(int_text_valid(t) && i64::MIN as int <= int_text_val(t) <= i64::MAX as int),
{
    if int_text_valid(t) {
        if start == 0 {
            assert(t.skip(0) =~= t);
        }
        assert(forall|x: int| 0 <= x < d.len() ==> d[x] == t[x + start]);
        assert(d[i - start] == t[i]);
        lemma_digits_val_take_step(d, i - start);
        assert(uint_text_valid(d));
        lemma_digits_val_take_le(d, i - start + 1);
        assert(digits_val(d) > bound);
        if negative {
            assert(t[0] == 45);
            assert(start == 1);
            assert(d == t.skip(1));
            assert(int_text_val(t) == -digits_val(d));
        } else if t[0] == 43 {
            assert(start == 1);
            assert(d == t.skip(1));
            assert(int_text_val(t) == digits_val(d));
        } else {
            assert(start == 0);
            assert(int_text_val(t) == digits_val(t));
            assert(digits_val(t) == digits_val(d));
        }
    }
}

/// A byte that is no digit condemns the signed text wherever it stands
/// past the sign.
proof fn nondigit_means_invalid(t: Seq<u8>, d: Seq<u8>, i: int, start: int)
    requires
        0 <= start <= i < t.len(),
        start == 0 || start == 1,
        d == t.skip(start),
        (start == 1) == (t[0] == 43 || t[0] == 45),
        !is_digit(t[i]),
    ensures
        !int_text_valid(t),
{
    if int_text_valid(t) {
        if start == 0 {
            assert(t.skip(0) =~= t);
        }
        assert(forall|x: int| 0 <= x < d.len() ==> d[x] == t[x + start]);
        assert(uint_text_valid(d));
        assert(is_digit(d[i - start]));
    }
}


/// First position holding `b1` or `b2`, if any.
fn find_byte2(t: &[u8], b1: u8, b2: u8) -> (r: Option<usize>)
    ensures
        match r {
            Some(k) => byte_from(t@, 0, b1, b2) == Some(k as int),
            None => byte_from(t@, 0, b1, b2) is None,
        },
{
    let mut i: usize = 0;
    while i < t.len()
        invariant
            i <= t@.len(),
            byte_from(t@, 0, b1, b2) == byte_from(t@, i as int, b1, b2),
        decreases t@.len() - i,
    {
        if t[i] == b1 || t[i] == b2 {
            return Some(i);
        }
        i += 1;
    }
    None
}

/// At least one byte, all of them digits.
fn check_digits(t: &[u8]) -> (r: bool)
    ensures
        r == uint_text_valid(t@),
{
    if t.len() == 0 {
        return false;
    }
    let mut i: usize = 0;
    while i < t.len()
        invariant
            i <= t@.len(),
            forall|x: int| 0 <= x < i ==> is_digit(#[trigger] t@[x]),
        decreases t@.len() - i,
    {
        if t[i] < 48 || t[i] > 57 {
            proof {
                assert(!is_digit(t@[i as int]));
            }
            return false;
        }
        i += 1;
    }
    true
}

/// Digits with an optional single dot between two digit runs.
fn check_unsigned_mantissa(t: &[u8]) -> (r: bool)
    ensures
        r == crate::wire::unsigned_mantissa_valid(t@),
{
    match find_byte2(t, 46, 46) {
        None => check_digits(t),
        Some(k) => {
            proof {
                crate::wire::lemma_byte_from_props(t@, 0, 46, 46);
            }
            let n = t.len();
            proof {
                assert(k < n);
            }
            let head = slice_subrange(t, 0, k);
            let frac = slice_subrange(t, k + 1, n);
            proof {
                assert(head@ =~= t@.take(k as int));
                assert(frac@ =~= t@.skip(k + 1 as int));
            }
            let ok1 = check_digits(head);
            if !ok1 {
                return false;
            }
            check_digits(frac)
        },
    }
}

/// An optional sign before an unsigned mantissa.
fn check_mantissa(t: &[u8]) -> (r: bool)
    ensures
        r == crate::wire::mantissa_valid(t@),
{
    if t.len() > 0 && (t[0] == 43 || t[0] == 45) {
        let rest = slice_subrange(t, 1, t.len());
        proof {
            assert(rest@ =~= t@.skip(1));
        }
        check_unsigned_mantissa(rest)
    } else {
        check_unsigned_mantissa(t)
    }
}

/// An optional sign before at least one digit.
fn check_signed_digits(t: &[u8]) -> (r: bool)
    ensures
        r == int_text_valid(t@),
{
    if t.len() > 0 && (t[0] == 43 || t[0] == 45) {
        let rest = slice_subrange(t, 1, t.len());
        proof {
            assert(rest@ =~= t@.skip(1));
        }
        check_digits(rest)
    } else {
        check_digits(t)
    }
}

/// The whole double grammar: a mantissa, optionally an exponent marker
/// followed by a signed digit run.
fn check_double_text(t: &[u8]) -> (r: bool)
    ensures
        r == crate::wire::double_text_valid(t@),
{
    match find_byte2(t, 101, 69) {
        None => check_mantissa(t),
        Some(k) => {
            proof {
                crate::wire::lemma_byte_from_props(t@, 0, 101, 69);
            }
            let n = t.len();
            proof {
                assert(k < n);
            }
            let mant = slice_subrange(t, 0, k);
            let expo = slice_subrange(t, k + 1, n);
            proof {
                assert(mant@ =~= t@.take(k as int));
                assert(expo@ =~= t@.skip(k + 1 as int));
            }
            let ok1 = check_mantissa(mant);
            if !ok1 {
                return false;
            }
            check_signed_digits(expo)
        },
    }
}

/// How many bytes the whole container occupies: the header line through
/// `end`, then one measured extent per declared frame (two per map entry).
/// Containers whose frames are not all buffered yet report `NotComplete`.
pub fn calc_total_length(buf: &[u8], end: usize, len: usize, prefix: u8) -> (r: Result<
    usize,
    RespError,
>)
    ensures
        match r {
            Ok(t) => calc_total(buf@, end as int, len as int, prefix) == Ok::<int, RespError>(
                t as int,
            ),
            Err(e) => calc_total(buf@, end as int, len as int, prefix) == Err::<int, RespError>(e),
        },
    decreases buf@.len(), 0int,
{
    if prefix == 42 || prefix == 126 || prefix == 37 {
        if end > buf.len() || buf.len() - end < 2 {
            return Err(RespError::NotComplete);
        }
        let ghost total0: int = if prefix == 37 {
            2 * len as int
        } else {
            len as int
        };
        let ghost s0 = buf@.skip(end + 2 as int);
        let mut off: usize = end + 2;
        let mut it: usize = 0;
        let per: usize = if prefix == 37 {
            2
        } else {
            1
        };
        while it < len
            invariant
                prefix == 42 || prefix == 126 || prefix == 37,
                end + 2 <= off <= buf@.len(),
                it <= len,
                per == if prefix == 37 {
                    2int
                } else {
                    1int
                },
                total0 == if prefix == 37 {
                    2 * len as int
                } else {
                    len as int
                },
                s0 == buf@.skip(end + 2 as int),
                measure_elems(s0, total0) == (match measure_elems(
                    buf@.skip(off as int),
                    if prefix == 37 {
                        2 * (len - it)
                    } else {
                        len - it
                    },
                ) {
                    Ok(t3) => Ok::<int, RespError>((off - (end + 2)) + t3),
                    Err(e) => Err::<int, RespError>(e),
                }),
            decreases len - it,
        {
            let mut step: usize = 0;
            while step < per
                invariant
                    prefix == 42 || prefix == 126 || prefix == 37,
                    step <= per,
                    per == 1 || per == 2,
                    it < len,
                    end + 2 <= off <= buf@.len(),
                    total0 == if prefix == 37 {
                        2 * len as int
                    } else {
                        len as int
                    },
                    per == if prefix == 37 {
                        2int
                    } else {
                        1int
                    },
                    s0 == buf@.skip(end + 2 as int),
                    measure_elems(s0, total0) == (match measure_elems(
                        buf@.skip(off as int),
                        (if prefix == 37 {
                            2 * (len - it)
                        } else {
                            len - it
                        }) - step,
                    ) {
                        Ok(t3) => Ok::<int, RespError>((off - (end + 2)) + t3),
                        Err(e) => Err::<int, RespError>(e),
                    }),
                decreases per - step,
            {
                let sub = slice_subrange(buf, off, buf.len());
                let ghost cur = buf@.skip(off as int);
                proof {
                    assert(sub@ =~= cur);
                    assert((if prefix == 37 {
                        2 * (len - it)
                    } else {
                        len as int - it
                    }) - step >= 1);
                }
                match expect_frame_length(sub) {
                    Err(e) => {
                        return Err(e);
                    },
                    Ok(n) => {
                        proof {
                            crate::wire::lemma_measure_frame_bounds(cur);
                            assert(cur.skip(n as int) =~= buf@.skip(off + n as int));
                        }
                        off = off + n;
                    },
                }
                step += 1;
            }
            it += 1;
        }
        proof {
            assert(measure_elems(buf@.skip(off as int), 0) == Ok::<int, RespError>(0));
        }
        Ok(off)
    } else {
        if len > usize::MAX - 2 {
            Err(RespError::InvalidFrameLength)
        } else {
            Ok(len + 2)
        }
    }
}

/// How many leading bytes one complete frame occupies, by leading byte:
/// the lookahead engine for `RespFrame`.
pub fn expect_frame_length(buf: &[u8]) -> (r: Result<usize, RespError>)
    ensures
        match r {
            Ok(n) => measure_frame(buf@) == Ok::<int, RespError>(n as int),
            Err(e) => measure_frame(buf@) == Err::<int, RespError>(e),
        },
    decreases buf@.len(), 1int,
{
    if buf.len() == 0 {
        return Err(RespError::NotComplete);
    }
    let b = buf[0];
    if b == 43 || b == 45 || b == 58 || b == 44 || b == 95 || b == 35 {
        match extract_simaple_frame_data(buf, b) {
            Err(e) => Err(e),
            Ok(end) => Ok(end + 2),
        }
    } else if b == 36 {
        match extract_simaple_frame_data(buf, 36) {
            Err(e) => Err(e),
            Ok(end) => {
                if end == 3 && buf[1] == 45 && buf[2] == 49 {
                    proof {
                        assert(buf@.subrange(1, 3) =~= seq![45u8, 49u8]);
                    }
                    Ok(5)
                } else {
                    proof {
                        assert(seq![45u8, 49u8].len() == 2);
                        if end == 3 {
                            assert(buf@.subrange(1, end as int).len() == 2);
                            assert(buf@.subrange(1, end as int)[0] == buf@[1]);
                            assert(buf@.subrange(1, end as int)[1] == buf@[2]);
                            assert(seq![45u8, 49u8][0] == 45u8);
                            assert(seq![45u8, 49u8][1] == 49u8);
                            assert(buf@.subrange(1, end as int) != seq![45u8, 49u8]);
                        } else {
                            assert(buf@.subrange(1, end as int).len() == end - 1);
                            assert(buf@.subrange(1, end as int) != seq![45u8, 49u8]);
                        }
                    }
                    let digits = slice_subrange(buf, 1, end);
                    match parse_usize_digits(digits) {
                        None => Err(RespError::ParseIntError),
                        Some(l) => {
                            let remaining = buf.len() - (end + 2);
                            if remaining < l || remaining - l < 2 {
                                Err(RespError::NotComplete)
                            } else {
                                Ok(end + 2 + l + 2)
                            }
                        },
                    }
                }
            },
        }
    } else if b == 42 {
        match extract_simaple_frame_data(buf, 42) {
            Err(e) => Err(e),
            Ok(end) => {
                if end == 3 && buf[1] == 45 && buf[2] == 49 {
                    proof {
                        assert(buf@.subrange(1, 3) =~= seq![45u8, 49u8]);
                    }
                    Ok(5)
                } else {
                    proof {
                        assert(seq![45u8, 49u8].len() == 2);
                        if end == 3 {
                            assert(buf@.subrange(1, end as int).len() == 2);
                            assert(buf@.subrange(1, end as int)[0] == buf@[1]);
                            assert(buf@.subrange(1, end as int)[1] == buf@[2]);
                            assert(seq![45u8, 49u8][0] == 45u8);
                            assert(seq![45u8, 49u8][1] == 49u8);
                            assert(buf@.subrange(1, end as int) != seq![45u8, 49u8]);
                        } else {
                            assert(buf@.subrange(1, end as int).len() == end - 1);
                            assert(buf@.subrange(1, end as int) != seq![45u8, 49u8]);
                        }
                    }
                    let digits = slice_subrange(buf, 1, end);
                    match parse_usize_digits(digits) {
                        None => Err(RespError::ParseIntError),
                        Some(count) => calc_total_length(buf, end, count, 42),
                    }
                }
            },
        }
    } else if b == 126 || b == 37 {
        match parse_length(buf, b) {
            Err(e) => Err(e),
            Ok((end, count)) => calc_total_length(buf, end, count, b),
        }
    } else if buf.len() < 3 {
        Err(RespError::NotComplete)
    } else {
        Err(RespError::InvalidFrameType)
    }
}

/// Byte-for-byte equality of two byte vectors.
fn bytes_eq(a: &Vec<u8>, b: &Vec<u8>) -> (r: bool)
    ensures
        r <==> a@ == b@,
{
    if a.len() != b.len() {
        return false;
    }
    let mut i: usize = 0;
    while i < a.len()
        invariant
            a@.len() == b@.len(),
            i <= a@.len(),
            forall|x: int| 0 <= x < i ==> a@[x] == b@[x],
        decreases a@.len() - i,
    {
        if a[i] != b[i] {
            return false;
        }
        i += 1;
    }
    proof {
        assert(a@ =~= b@);
    }
    true
}

impl RespMap {
    /// Inserts with last-write-wins: an existing key keeps its place and
    /// takes the new value; a new key goes to the end.
    pub fn insert(&mut self, key: Vec<u8>, value: RespFrame)
        ensures
            final(self)@ == assoc_insert(old(self)@, key@, value@),
    {
        proof {
            lemma_entries_view_len(self.0@);
            lemma_assoc_find_props(entries_view(self.0@), key@);
        }
        let mut i: usize = 0;
        while i < self.0.len()
            invariant
                i <= self.0@.len(),
                self.0@ == old(self).0@,
                entries_view(self.0@).len() == self.0@.len(),
                forall|j: int| 0 <= j < i ==> (#[trigger] entries_view(self.0@)[j]).0 != key@,
            decreases self.0@.len() - i,
        {
            proof {
                lemma_entries_view_index(self.0@, i as int);
            }
            if bytes_eq(&self.0[i].0, &key) {
                proof {
                    lemma_assoc_find_props(entries_view(self.0@), key@);
                    assert(assoc_find(entries_view(self.0@), key@) == Some(i as int));
                }
                let ghost before = self.0@;
                self.0.remove(i);
                self.0.insert(i, (key, value));
                proof {
                    assert(self.0@ =~= before.update(i as int, (key, value)));
                    assert forall|j: int| 0 <= j < before.len() implies entries_view(self.0@)[j]
                        == entries_view(before).update(i as int, (key@, value@))[j] by {
                        lemma_entries_view_index(self.0@, j);
                        lemma_entries_view_index(before, j);
                    }
                    lemma_entries_view_len(self.0@);
                    lemma_entries_view_len(before);
                    assert(entries_view(self.0@) =~= entries_view(before).update(
                        i as int,
                        (key@, value@),
                    ));
                }
                return;
            }
            i += 1;
        }
        proof {
            lemma_assoc_find_props(entries_view(self.0@), key@);
            assert(assoc_find(entries_view(self.0@), key@) is None);
        }
        let ghost before = self.0@;
        self.0.push((key, value));
        proof {
            lemma_entries_view_push(before, key, value);
        }
    }
}

/// Validates the standard UTF-8 byte-range table.
fn check_utf8(t: &[u8]) -> (r: bool)
    ensures
        r == utf8_valid(t@),
{
    let n = t.len();
    let mut i: usize = 0;
    while i < n
        invariant
            n == t@.len(),
            i <= n,
            utf8_valid(t@) == utf8_valid_from(t@, i as int),
        decreases n - i,
    {
        let b0 = t[i];
        if b0 < 0x80 {
            i += 1;
        } else if 0xc2 <= b0 && b0 <= 0xdf {
            if n - i < 2 || !(0x80 <= t[i + 1] && t[i + 1] <= 0xbf) {
                return false;
            }
            i += 2;
        } else if b0 == 0xe0 {
            if n - i < 3 || !(0xa0 <= t[i + 1] && t[i + 1] <= 0xbf) || !(0x80 <= t[i + 2] && t[i
                + 2] <= 0xbf) {
                return false;
            }
            i += 3;
        } else if (0xe1 <= b0 && b0 <= 0xec) || b0 == 0xee || b0 == 0xef {
            if n - i < 3 || !(0x80 <= t[i + 1] && t[i + 1] <= 0xbf) || !(0x80 <= t[i + 2] && t[i
                + 2] <= 0xbf) {
                return false;
            }
            i += 3;
        } else if b0 == 0xed {
            if n - i < 3 || !(0x80 <= t[i + 1] && t[i + 1] <= 0x9f) || !(0x80 <= t[i + 2] && t[i
                + 2] <= 0xbf) {
                return false;
            }
            i += 3;
        } else if b0 == 0xf0 {
            if n - i < 4 || !(0x90 <= t[i + 1] && t[i + 1] <= 0xbf) || !(0x80 <= t[i + 2] && t[i
                + 2] <= 0xbf) || !(0x80 <= t[i + 3] && t[i + 3] <= 0xbf) {
                return false;
            }
            i += 4;
        } else if 0xf1 <= b0 && b0 <= 0xf3 {
            if n - i < 4 || !(0x80 <= t[i + 1] && t[i + 1] <= 0xbf) || !(0x80 <= t[i + 2] && t[i
                + 2] <= 0xbf) || !(0x80 <= t[i + 3] && t[i + 3] <= 0xbf) {
                return false;
            }
            i += 4;
        } else if b0 == 0xf4 {
            if n - i < 4 || !(0x80 <= t[i + 1] && t[i + 1] <= 0x8f) || !(0x80 <= t[i + 2] && t[i
                + 2] <= 0xbf) || !(0x80 <= t[i + 3] && t[i + 3] <= 0xbf) {
                return false;
            }
            i += 4;
        } else {
            return false;
        }
    }
    true
}

/// A header-line frame's payload bytes and total extent.
fn parse_simple_at(s: &[u8], p: u8) -> (r: Result<(Vec<u8>, usize), RespError>)
    ensures
        match parse_simple(s@, p) {
            Ok(q) => r matches Ok(x) && x.0@ == q.0 && x.1 as int == q.1 && 3 <= q.1 <= s@.len(),
            Err(e) => r matches Err(e2) && e2 == e,
        },
{
    let slen = s.len();
    match extract_simaple_frame_data(s, p) {
        Err(e) => Err(e),
        Ok(end) => {
            let t = slice_subrange(s, 1, end);
            if check_utf8(t) {
                Ok((slice_to_vec(t), end + 2))
            } else {
                Err(RespError::Utf8Error)
            }
        },
    }
}

/// An integer frame's value and total extent.
fn parse_integer_at(s: &[u8]) -> (r: Result<(i64, usize), RespError>)
    ensures
        match parse_integer(s@) {
            Ok(q) => r matches Ok(x) && x.0 as int == q.0 && x.1 as int == q.1 && 3 <= q.1
                <= s@.len(),
            Err(e) => r matches Err(e2) && e2 == e,
        },
{
    let slen = s.len();
    match extract_simaple_frame_data(s, 58) {
        Err(e) => Err(e),
        Ok(end) => {
            let digits = slice_subrange(s, 1, end);
            match parse_i64_digits(digits) {
                Err(e) => Err(e),
                Ok(v) => Ok((v, end + 2)),
            }
        },
    }
}

/// A double frame's numeric text and total extent.
fn parse_double_at(s: &[u8]) -> (r: Result<(Vec<u8>, usize), RespError>)
    ensures
        match parse_double(s@) {
            Ok(q) => r matches Ok(x) && x.0@ == q.0 && x.1 as int == q.1 && 3 <= q.1 <= s@.len(),
            Err(e) => r matches Err(e2) && e2 == e,
        },
{
    let slen = s.len();
    match extract_simaple_frame_data(s, 44) {
        Err(e) => Err(e),
        Ok(end) => {
            let t = slice_subrange(s, 1, end);
            if check_double_text(t) {
                Ok((slice_to_vec(t), end + 2))
            } else {
                Err(RespError::ParseFloatError)
            }
        },
    }
}

/// A bulk string's payload bytes and total extent, the non-null form.
fn parse_bulk_at(s: &[u8]) -> (r: Result<(Vec<u8>, usize), RespError>)
    ensures
        match parse_bulk(s@) {
            Ok(q) => r matches Ok(x) && x.0@ == q.0 && x.1 as int == q.1 && 3 <= q.1 <= s@.len(),
            Err(e) => r matches Err(e2) && e2 == e,
        },
{
    let slen = s.len();
    match extract_simaple_frame_data(s, 36) {
        Err(e) => Err(e),
        Ok(end) => {
            let digits = slice_subrange(s, 1, end);
            match parse_usize_digits(digits) {
                None => Err(RespError::ParseIntError),
                Some(l) => {
                    proof {
                        lemma_digits_val_nonneg(s@.subrange(1, end as int));
                    }
                    let remaining = s.len() - (end + 2);
                    if remaining < l || remaining - l < 2 {
                        Err(RespError::NotComplete)
                    } else if s[end + 2 + l] == 13 && s[end + 2 + l + 1] == 10 {
                        let payload = slice_to_vec(slice_subrange(s, end + 2, end + 2 + l));
                        Ok((payload, end + 2 + l + 2))
                    } else {
                        Err(RespError::InvalidFrame)
                    }
                },
            }
        },
    }
}

fn null_bulk_lit() -> (r: Vec<u8>)
    ensures
        r@ == null_bulk_wire(),
{
    let mut v: Vec<u8> = Vec::new();
    v.push(36);
    v.push(45);
    v.push(49);
    v.push(13);
    v.push(10);
    proof {
        assert(v@ =~= null_bulk_wire());
    }
    v
}

fn null_array_lit() -> (r: Vec<u8>)
    ensures
        r@ == null_array_wire(),
{
    let mut v: Vec<u8> = Vec::new();
    v.push(42);
    v.push(45);
    v.push(49);
    v.push(13);
    v.push(10);
    proof {
        assert(v@ =~= null_array_wire());
    }
    v
}

fn null_lit() -> (r: Vec<u8>)
    ensures
        r@ == null_wire(),
{
    let mut v: Vec<u8> = Vec::new();
    v.push(95);
    v.push(13);
    v.push(10);
    proof {
        assert(v@ =~= null_wire());
    }
    v
}

fn bool_true_lit() -> (r: Vec<u8>)
    ensures
        r@ == bool_true_wire(),
{
    let mut v: Vec<u8> = Vec::new();
    v.push(35);
    v.push(116);
    v.push(13);
    v.push(10);
    proof {
        assert(v@ =~= bool_true_wire());
    }
    v
}

fn bool_false_lit() -> (r: Vec<u8>)
    ensures
        r@ == bool_false_wire(),
{
    let mut v: Vec<u8> = Vec::new();
    v.push(35);
    v.push(102);
    v.push(13);
    v.push(10);
    proof {
        assert(v@ =~= bool_false_wire());
    }
    v
}

/// An array or set body: the header, the completeness measure, then every
/// element frame in order.
fn parse_container_at(s: &[u8], tag: u8) -> (r: Result<(Vec<RespFrame>, usize), RespError>)
    requires
        tag == 42 || tag == 126,
    ensures
        match parse_container(s@, tag) {
            Ok(q) => r matches Ok(x) && frames_view(x.0@) == q.0 && x.1 as int == q.1 && 3 <= q.1
                <= s@.len(),
            Err(e) => r matches Err(e2) && e2 == e,
        },
    decreases s@.len(), 0int,
{
    let slen = s.len();
    let (end, count) = match parse_length(s, tag) {
        Err(e) => {
            return Err(e);
        },
        Ok(p) => p,
    };
    match calc_total_length(s, end, count, tag) {
        Err(e) => {
            return Err(e);
        },
        Ok(_) => {},
    }
    proof {
        assert(end + 2 <= s@.len());
        assert(measure_elems(s@.skip(end + 2 as int), count as int) is Ok);
        crate::wire::lemma_parse_elems_bounds(s@.skip(end + 2 as int), count as int);
    }
    let ghost s0 = s@.skip(end + 2 as int);
    let mut frames: Vec<RespFrame> = Vec::new();
    let mut off: usize = end + 2;
    let mut i: usize = 0;
    while i < count
        invariant
            tag == 42 || tag == 126,
            slen == s@.len(),
            i <= count,
            end + 2 <= off <= s@.len(),
            s0 == s@.skip(end + 2 as int),
            parse_header(s@, tag) == Ok::<(int, int), RespError>((end as int, count as int)),
            measure_elems(s0, count as int) is Ok,
            frames@.len() == i,
            parse_elems(s0, count as int) == (match parse_elems(
                s@.skip(off as int),
                count - i,
            ) {
                Ok(q) => Ok::<(Seq<FrameModel>, int), RespError>(
                    (frames_view(frames@) + q.0, (off - (end + 2)) + q.1),
                ),
                Err(e) => Err::<(Seq<FrameModel>, int), RespError>(e),
            }),
        decreases count - i,
    {
        let sub = slice_subrange(s, off, slen);
        let ghost cur = s@.skip(off as int);
        proof {
            assert(sub@ =~= cur);
        }
        match parse_frame_at(sub) {
            Err(e) => {
                return Err(e);
            },
            Ok((fr, n)) => {
                let ghost old_frames = frames@;
                proof {
                    lemma_parse_frame_bounds(cur);
                    assert(cur.skip(n as int) =~= s@.skip(off + n as int));
                    lemma_frames_view_push(old_frames, fr);
                }
                frames.push(fr);
                off = off + n;
                proof {
                    let ghost rest = parse_elems(s@.skip(off as int), count - i - 1);
                    if rest is Ok {
                        assert((frames_view(old_frames) + (seq![fr@] + rest->Ok_0.0)) =~= (
                        frames_view(frames@) + rest->Ok_0.0));
                    }
                }
            },
        }
        i += 1;
    }
    proof {
        assert(parse_elems(s@.skip(off as int), 0) == Ok::<(Seq<FrameModel>, int), RespError>(
            (Seq::empty(), 0),
        ));
        assert(frames_view(frames@) + Seq::<FrameModel>::empty() =~= frames_view(frames@));
    }
    Ok((frames, off))
}

/// A map body: the header, the completeness measure over keys and values,
/// then each simple-string key and its value frame, folded into the map.
fn parse_map_at(s: &[u8]) -> (r: Result<(RespMap, usize), RespError>)
    ensures
        match parse_map(s@) {
            Ok(q) => r matches Ok(x) && x.0@ == q.0 && x.1 as int == q.1 && 3 <= q.1 <= s@.len(),
            Err(e) => r matches Err(e2) && e2 == e,
        },
    decreases s@.len(), 0int,
{
    let slen = s.len();
    let (end, count) = match parse_length(s, 37) {
        Err(e) => {
            return Err(e);
        },
        Ok(p) => p,
    };
    match calc_total_length(s, end, count, 37) {
        Err(e) => {
            return Err(e);
        },
        Ok(_) => {},
    }
    proof {
        assert(end + 2 <= s@.len());
        assert(measure_elems(s@.skip(end + 2 as int), 2 * count as int) is Ok);
        crate::wire::lemma_parse_entries_bounds(s@.skip(end + 2 as int), count as int);
    }
    let ghost s0 = s@.skip(end + 2 as int);
    let mut map = RespMap::new();
    let ghost mut raw_acc: Seq<(Seq<u8>, FrameModel)> = Seq::empty();
    let mut off: usize = end + 2;
    let mut i: usize = 0;
    while i < count
        invariant
            slen == s@.len(),
            i <= count,
            end + 2 <= off <= s@.len(),
            s0 == s@.skip(end + 2 as int),
            parse_header(s@, 37) == Ok::<(int, int), RespError>((end as int, count as int)),
            measure_elems(s0, 2 * count as int) is Ok,
            map@ == assoc_fold(raw_acc),
            parse_entries(s0, count as int) == (match parse_entries(
                s@.skip(off as int),
                count - i,
            ) {
                Ok(q) => Ok::<(Seq<(Seq<u8>, FrameModel)>, int), RespError>(
                    (raw_acc + q.0, (off - (end + 2)) + q.1),
                ),
                Err(e) => Err::<(Seq<(Seq<u8>, FrameModel)>, int), RespError>(e),
            }),
        decreases count - i,
    {
        let sub = slice_subrange(s, off, slen);
        let ghost cur = s@.skip(off as int);
        proof {
            assert(sub@ =~= cur);
        }
        let (key, kn) = match parse_simple_at(sub, 43) {
            Err(e) => {
                return Err(e);
            },
            Ok(p) => p,
        };
        let sub2 = slice_subrange(s, off + kn, slen);
        let ghost cur2 = s@.skip(off + kn as int);
        proof {
            assert(cur.skip(kn as int) =~= cur2);
            assert(sub2@ =~= cur2);
        }
        let (value, vn) = match parse_frame_at(sub2) {
            Err(e) => {
                return Err(e);
            },
            Ok(p) => p,
        };
        let ghost k_model = key@;
        let ghost v_model = value@;
        let ghost old_raw = raw_acc;
        proof {
            lemma_parse_frame_bounds(cur2);
            assert(cur2.skip(vn as int) =~= s@.skip(off + kn + vn as int));
            lemma_assoc_fold_from_push(Seq::empty(), old_raw, k_model, v_model);
            raw_acc = old_raw.push((k_model, v_model));
        }
        map.insert(key, value);
        off = off + kn + vn;
        proof {
            assert(cur.skip(kn + vn as int) =~= s@.skip(off as int));
            let ghost rest = parse_entries(s@.skip(off as int), count - i - 1);
            if rest is Ok {
                assert((old_raw + (seq![(k_model, v_model)] + rest->Ok_0.0)) =~= (raw_acc
                    + rest->Ok_0.0));
            }
        }
        i += 1;
    }
    proof {
        assert(parse_entries(s@.skip(off as int), 0) == Ok::<
            (Seq<(Seq<u8>, FrameModel)>, int),
            RespError,
        >((Seq::empty(), 0)));
        assert(raw_acc + Seq::<(Seq<u8>, FrameModel)>::empty() =~= raw_acc);
    }
    Ok((map, off))
}

/// One frame of any variant at the front of `s`: the typed frame and its
/// exact extent, or the error of the attempt.
#[verifier::rlimit(100)]
pub fn parse_frame_at(s: &[u8]) -> (r: Result<(RespFrame, usize), RespError>)
    ensures
        match parse_frame(s@) {
            Ok(q) => r matches Ok(x) && x.0@ == q.0 && x.1 as int == q.1 && 3 <= q.1 <= s@.len(),
            Err(e) => r matches Err(e2) && e2 == e,
        },
    decreases s@.len(), 1int,
{
    proof {
        lemma_parse_frame_bounds(s@);
    }
    if s.len() == 0 {
        return Err(RespError::NotComplete);
    }
    let b = s[0];
    if b == 43 {
        match parse_simple_at(s, 43) {
            Err(e) => Err(e),
            Ok((v, n)) => Ok((RespFrame::SimpleString(SimpleString(v)), n)),
        }
    } else if b == 45 {
        match parse_simple_at(s, 45) {
            Err(e) => Err(e),
            Ok((v, n)) => Ok((RespFrame::Error(SimpleError(v)), n)),
        }
    } else if b == 58 {
        match parse_integer_at(s) {
            Err(e) => Err(e),
            Ok((v, n)) => Ok((RespFrame::Integer(v), n)),
        }
    } else if b == 44 {
        match parse_double_at(s) {
            Err(e) => Err(e),
            Ok((v, n)) => Ok((RespFrame::Double(Double(v)), n)),
        }
    } else if b == 95 {
        let lit = null_lit();
        match check_fixed(s, lit.as_slice()) {
            Err(e) => Err(e),
            Ok(_) => Ok((RespFrame::Null(RespNull), 3)),
        }
    } else if b == 35 {
        let tlit = bool_true_lit();
        match check_fixed(s, tlit.as_slice()) {
            Ok(_) => Ok((RespFrame::Boolean(true), 4)),
            Err(RespError::NotComplete) => Err(RespError::NotComplete),
            Err(_) => {
                let flit = bool_false_lit();
                match check_fixed(s, flit.as_slice()) {
                    Ok(_) => Ok((RespFrame::Boolean(false), 4)),
                    Err(e) => Err(e),
                }
            },
        }
    } else if b == 36 {
        let lit = null_bulk_lit();
        match check_fixed(s, lit.as_slice()) {
            Ok(_) => Ok((RespFrame::NullBulkString(RespNullBulkString), 5)),
            Err(RespError::NotComplete) => Err(RespError::NotComplete),
            Err(_) => match parse_bulk_at(s) {
                Err(e) => Err(e),
                Ok((v, n)) => Ok((RespFrame::BulkString(BulkString(v)), n)),
            },
        }
    } else if b == 42 {
        let lit = null_array_lit();
        match check_fixed(s, lit.as_slice()) {
            Ok(_) => Ok((RespFrame::NullArray(RespNullArray), 5)),
            Err(RespError::NotComplete) => Err(RespError::NotComplete),
            Err(_) => match parse_container_at(s, 42) {
                Err(e) => Err(e),
                Ok((vs, n)) => Ok((RespFrame::Array(RespArray(vs)), n)),
            },
        }
    } else if b == 126 {
        match parse_container_at(s, 126) {
            Err(e) => Err(e),
            Ok((vs, n)) => Ok((RespFrame::SetFrame(RespSet(vs)), n)),
        }
    } else if b == 37 {
        match parse_map_at(s) {
            Err(e) => Err(e),
            Ok((m, n)) => Ok((RespFrame::MapFrame(m), n)),
        }
    } else {
        Err(RespError::InvalidFrameType)
    }
}

/// Everything that can be decoded from the front of the connection buffer.
///
/// `parse_spec` is the type's parsing function over the buffer's bytes;
/// `len_spec` its lookahead measure. `decode` is atomic: on success exactly
/// the frame's bytes leave the front of the buffer, on any error the
/// buffer is untouched.
pub trait RespDecode: RespEncode {
    spec fn parse_spec(s: Seq<u8>) -> Result<(FrameModel, int), RespError>;

    spec fn len_spec(s: Seq<u8>) -> Result<int, RespError>;

    fn decode(buf: &mut BytesMut) -> (r: Result<Self, RespError>)
        ensures
            match Self::parse_spec(buf_data(*old(buf))) {
                Ok(p) => r matches Ok(v) && v.frame_model() == p.0 && buf_data(*final(buf))
                    == buf_data(*old(buf)).skip(p.1),
                Err(e) => r matches Err(e2) && e2 == e && buf_data(*final(buf)) == buf_data(
                    *old(buf),
                ),
            },
    ;

    fn expect_length(buf: &[u8]) -> (r: Result<usize, RespError>)
        ensures
            match Self::len_spec(buf@) {
                Ok(n) => r matches Ok(m) && m as int == n,
                Err(e) => r matches Err(e2) && e2 == e,
            },
    ;
}

impl RespDecode for RespFrame {
    open spec fn parse_spec(s: Seq<u8>) -> Result<(FrameModel, int), RespError> {
        parse_frame(s)
    }

    open spec fn len_spec(s: Seq<u8>) -> Result<int, RespError> {
        measure_frame(s)
    }

    fn decode(buf: &mut BytesMut) -> (r: Result<Self, RespError>) {
        let parsed = parse_frame_at(buf_bytes(buf));
        match parsed {
            Err(e) => Err(e),
            Ok((f, n)) => {
                buf_advance(buf, n);
                Ok(f)
            },
        }
    }

    fn expect_length(buf: &[u8]) -> (r: Result<usize, RespError>) {
        expect_frame_length(buf)
    }
}

impl RespDecode for SimpleString {
    open spec fn parse_spec(s: Seq<u8>) -> Result<(FrameModel, int), RespError> {
        match parse_simple(s, 43) {
            Err(e) => Err(e),
            Ok(q) => Ok((FrameModel::SimpleString(q.0), q.1)),
        }
    }

    open spec fn len_spec(s: Seq<u8>) -> Result<int, RespError> {
        match extract_line(s, 43) {
            Err(e) => Err(e),
            Ok(e) => Ok(e + 2),
        }
    }

    fn decode(buf: &mut BytesMut) -> (r: Result<Self, RespError>) {
        let parsed = parse_simple_at(buf_bytes(buf), 43);
        match parsed {
            Err(e) => Err(e),
            Ok((v, n)) => {
                buf_advance(buf, n);
                Ok(SimpleString(v))
            },
        }
    }

    fn expect_length(buf: &[u8]) -> (r: Result<usize, RespError>) {
        let slen = buf.len();
        match extract_simaple_frame_data(buf, 43) {
            Err(e) => Err(e),
            Ok(end) => Ok(end + 2),
        }
    }
}

impl RespDecode for SimpleError {
    open spec fn parse_spec(s: Seq<u8>) -> Result<(FrameModel, int), RespError> {
        match parse_simple(s, 45) {
            Err(e) => Err(e),
            Ok(q) => Ok((FrameModel::Error(q.0), q.1)),
        }
    }

    open spec fn len_spec(s: Seq<u8>) -> Result<int, RespError> {
        match extract_line(s, 45) {
            Err(e) => Err(e),
            Ok(e) => Ok(e + 2),
        }
    }

    fn decode(buf: &mut BytesMut) -> (r: Result<Self, RespError>) {
        let parsed = parse_simple_at(buf_bytes(buf), 45);
        match parsed {
            Err(e) => Err(e),
            Ok((v, n)) => {
                buf_advance(buf, n);
                Ok(SimpleError(v))
            },
        }
    }

    fn expect_length(buf: &[u8]) -> (r: Result<usize, RespError>) {
        let slen = buf.len();
        match extract_simaple_frame_data(buf, 45) {
            Err(e) => Err(e),
            Ok(end) => Ok(end + 2),
        }
    }
}

impl RespDecode for i64 {
    open spec fn parse_spec(s: Seq<u8>) -> Result<(FrameModel, int), RespError> {
        match parse_integer(s) {
            Err(e) => Err(e),
            Ok(q) => Ok((FrameModel::Integer(q.0), q.1)),
        }
    }

    open spec fn len_spec(s: Seq<u8>) -> Result<int, RespError> {
        match extract_line(s, 58) {
            Err(e) => Err(e),
            Ok(e) => Ok(e + 2),
        }
    }

    fn decode(buf: &mut BytesMut) -> (r: Result<Self, RespError>) {
        let parsed = parse_integer_at(buf_bytes(buf));
        match parsed {
            Err(e) => Err(e),
            Ok((v, n)) => {
                buf_advance(buf, n);
                Ok(v)
            },
        }
    }

    fn expect_length(buf: &[u8]) -> (r: Result<usize, RespError>) {
        let slen = buf.len();
        match extract_simaple_frame_data(buf, 58) {
            Err(e) => Err(e),
            Ok(end) => Ok(end + 2),
        }
    }
}

impl RespDecode for Double {
    open spec fn parse_spec(s: Seq<u8>) -> Result<(FrameModel, int), RespError> {
        match parse_double(s) {
            Err(e) => Err(e),
            Ok(q) => Ok((FrameModel::Double(q.0), q.1)),
        }
    }

    open spec fn len_spec(s: Seq<u8>) -> Result<int, RespError> {
        match extract_line(s, 44) {
            Err(e) => Err(e),
            Ok(e) => Ok(e + 2),
        }
    }

    fn decode(buf: &mut BytesMut) -> (r: Result<Self, RespError>) {
        let parsed = parse_double_at(buf_bytes(buf));
        match parsed {
            Err(e) => Err(e),
            Ok((v, n)) => {
                buf_advance(buf, n);
                Ok(Double(v))
            },
        }
    }

    fn expect_length(buf: &[u8]) -> (r: Result<usize, RespError>) {
        let slen = buf.len();
        match extract_simaple_frame_data(buf, 44) {
            Err(e) => Err(e),
            Ok(end) => Ok(end + 2),
        }
    }
}

impl RespDecode for bool {
    open spec fn parse_spec(s: Seq<u8>) -> Result<(FrameModel, int), RespError> {
        match fixed_prefix(s, bool_true_wire()) {
            Ok(_) => Ok((FrameModel::Boolean(true), 4)),
            Err(RespError::NotComplete) => Err(RespError::NotComplete),
            Err(_) => match fixed_prefix(s, bool_false_wire()) {
                Ok(_) => Ok((FrameModel::Boolean(false), 4)),
                Err(e) => Err(e),
            },
        }
    }

    open spec fn len_spec(s: Seq<u8>) -> Result<int, RespError> {
        match extract_line(s, 35) {
            Err(e) => Err(e),
            Ok(e) => Ok(e + 2),
        }
    }

    fn decode(buf: &mut BytesMut) -> (r: Result<Self, RespError>) {
        let parsed = {
            let s = buf_bytes(buf);
            let tlit = bool_true_lit();
            match check_fixed(s, tlit.as_slice()) {
                Ok(_) => Ok(true),
                Err(RespError::NotComplete) => Err(RespError::NotComplete),
                Err(_) => {
                    let flit = bool_false_lit();
                    match check_fixed(s, flit.as_slice()) {
                        Ok(_) => Ok(false),
                        Err(e) => Err(e),
                    }
                },
            }
        };
        match parsed {
            Err(e) => Err(e),
            Ok(v) => {
                buf_advance(buf, 4);
                Ok(v)
            },
        }
    }

    fn expect_length(buf: &[u8]) -> (r: Result<usize, RespError>) {
        let slen = buf.len();
        match extract_simaple_frame_data(buf, 35) {
            Err(e) => Err(e),
            Ok(end) => Ok(end + 2),
        }
    }
}

impl RespDecode for RespNull {
    open spec fn parse_spec(s: Seq<u8>) -> Result<(FrameModel, int), RespError> {
        match fixed_prefix(s, null_wire()) {
            Err(e) => Err(e),
            Ok(_) => Ok((FrameModel::Null, 3)),
        }
    }

    open spec fn len_spec(s: Seq<u8>) -> Result<int, RespError> {
        match extract_line(s, 95) {
            Err(e) => Err(e),
            Ok(e) => Ok(e + 2),
        }
    }

    fn decode(buf: &mut BytesMut) -> (r: Result<Self, RespError>) {
        let parsed = {
            let s = buf_bytes(buf);
            let lit = null_lit();
            check_fixed(s, lit.as_slice())
        };
        match parsed {
            Err(e) => Err(e),
            Ok(_) => {
                buf_advance(buf, 3);
                Ok(RespNull)
            },
        }
    }

    fn expect_length(buf: &[u8]) -> (r: Result<usize, RespError>) {
        let slen = buf.len();
        match extract_simaple_frame_data(buf, 95) {
            Err(e) => Err(e),
            Ok(end) => Ok(end + 2),
        }
    }
}

impl RespDecode for RespNullArray {
    open spec fn parse_spec(s: Seq<u8>) -> Result<(FrameModel, int), RespError> {
        match fixed_prefix(s, null_array_wire()) {
            Err(e) => Err(e),
            Ok(_) => Ok((FrameModel::NullArray, 5)),
        }
    }

    open spec fn len_spec(s: Seq<u8>) -> Result<int, RespError> {
        match extract_line(s, 42) {
            Err(e) => Err(e),
            Ok(e) => Ok(e + 2),
        }
    }

    fn decode(buf: &mut BytesMut) -> (r: Result<Self, RespError>) {
        let parsed = {
            let s = buf_bytes(buf);
            let lit = null_array_lit();
            check_fixed(s, lit.as_slice())
        };
        match parsed {
            Err(e) => Err(e),
            Ok(_) => {
                buf_advance(buf, 5);
                Ok(RespNullArray)
            },
        }
    }

    fn expect_length(buf: &[u8]) -> (r: Result<usize, RespError>) {
        let slen = buf.len();
        match extract_simaple_frame_data(buf, 42) {
            Err(e) => Err(e),
            Ok(end) => Ok(end + 2),
        }
    }
}

impl RespDecode for RespNullBulkString {
    open spec fn parse_spec(s: Seq<u8>) -> Result<(FrameModel, int), RespError> {
        match fixed_prefix(s, null_bulk_wire()) {
            Err(e) => Err(e),
            Ok(_) => Ok((FrameModel::NullBulkString, 5)),
        }
    }

    open spec fn len_spec(s: Seq<u8>) -> Result<int, RespError> {
        match extract_line(s, 36) {
            Err(e) => Err(e),
            Ok(e) => Ok(e + 2),
        }
    }

    fn decode(buf: &mut BytesMut) -> (r: Result<Self, RespError>) {
        let parsed = {
            let s = buf_bytes(buf);
            let lit = null_bulk_lit();
            check_fixed(s, lit.as_slice())
        };
        match parsed {
            Err(e) => Err(e),
            Ok(_) => {
                buf_advance(buf, 5);
                Ok(RespNullBulkString)
            },
        }
    }

    fn expect_length(buf: &[u8]) -> (r: Result<usize, RespError>) {
        let slen = buf.len();
        match extract_simaple_frame_data(buf, 36) {
            Err(e) => Err(e),
            Ok(end) => Ok(end + 2),
        }
    }
}

impl RespDecode for BulkString {
    open spec fn parse_spec(s: Seq<u8>) -> Result<(FrameModel, int), RespError> {
        match parse_bulk(s) {
            Err(e) => Err(e),
            Ok(q) => Ok((FrameModel::BulkString(q.0), q.1)),
        }
    }

    open spec fn len_spec(s: Seq<u8>) -> Result<int, RespError> {
        match parse_header(s, 36) {
            Err(e) => Err(e),
            Ok((e, len)) => if s.len() < e + 2 + len + 2 {
                Err(RespError::NotComplete)
            } else {
                Ok(e + 2 + len + 2)
            },
        }
    }

    fn decode(buf: &mut BytesMut) -> (r: Result<Self, RespError>) {
        let parsed = parse_bulk_at(buf_bytes(buf));
        match parsed {
            Err(e) => Err(e),
            Ok((v, n)) => {
                buf_advance(buf, n);
                Ok(BulkString(v))
            },
        }
    }

    fn expect_length(buf: &[u8]) -> (r: Result<usize, RespError>) {
        match parse_length(buf, 36) {
            Err(e) => Err(e),
            Ok((end, len)) => {
                proof {
                    lemma_digits_val_nonneg(buf@.subrange(1, end as int));
                }
                let remaining = buf.len() - (end + 2);
                if remaining < len || remaining - len < 2 {
                    Err(RespError::NotComplete)
                } else {
                    Ok(end + 2 + len + 2)
                }
            },
        }
    }
}

impl RespDecode for RespArray {
    open spec fn parse_spec(s: Seq<u8>) -> Result<(FrameModel, int), RespError> {
        match parse_container(s, 42) {
            Err(e) => Err(e),
            Ok(q) => Ok((FrameModel::Array(q.0), q.1)),
        }
    }

    open spec fn len_spec(s: Seq<u8>) -> Result<int, RespError> {
        match parse_header(s, 42) {
            Err(e) => Err(e),
            Ok((e, count)) => calc_total(s, e, count, 42),
        }
    }

    fn decode(buf: &mut BytesMut) -> (r: Result<Self, RespError>) {
        let parsed = parse_container_at(buf_bytes(buf), 42);
        match parsed {
            Err(e) => Err(e),
            Ok((vs, n)) => {
                buf_advance(buf, n);
                Ok(RespArray(vs))
            },
        }
    }

    fn expect_length(buf: &[u8]) -> (r: Result<usize, RespError>) {
        match parse_length(buf, 42) {
            Err(e) => Err(e),
            Ok((end, count)) => calc_total_length(buf, end, count, 42),
        }
    }
}

impl RespDecode for RespSet {
    open spec fn parse_spec(s: Seq<u8>) -> Result<(FrameModel, int), RespError> {
        match parse_container(s, 126) {
            Err(e) => Err(e),
            Ok(q) => Ok((FrameModel::SetFrame(q.0), q.1)),
        }
    }

    open spec fn len_spec(s: Seq<u8>) -> Result<int, RespError> {
        match parse_header(s, 126) {
            Err(e) => Err(e),
            Ok((e, count)) => calc_total(s, e, count, 126),
        }
    }

    fn decode(buf: &mut BytesMut) -> (r: Result<Self, RespError>) {
        let parsed = parse_container_at(buf_bytes(buf), 126);
        match parsed {
            Err(e) => Err(e),
            Ok((vs, n)) => {
                buf_advance(buf, n);
                Ok(RespSet(vs))
            },
        }
    }

    fn expect_length(buf: &[u8]) -> (r: Result<usize, RespError>) {
        match parse_length(buf, 126) {
            Err(e) => Err(e),
            Ok((end, count)) => calc_total_length(buf, end, count, 126),
        }
    }
}

impl RespDecode for RespMap {
    open spec fn parse_spec(s: Seq<u8>) -> Result<(FrameModel, int), RespError> {
        match parse_map(s) {
            Err(e) => Err(e),
            Ok(q) => Ok((FrameModel::MapFrame(q.0), q.1)),
        }
    }

    open spec fn len_spec(s: Seq<u8>) -> Result<int, RespError> {
        match parse_header(s, 37) {
            Err(e) => Err(e),
            Ok((e, count)) => calc_total(s, e, count, 37),
        }
    }

    fn decode(buf: &mut BytesMut) -> (r: Result<Self, RespError>) {
        let parsed = parse_map_at(buf_bytes(buf));
        match parsed {
            Err(e) => Err(e),
            Ok((m, n)) => {
                buf_advance(buf, n);
                Ok(m)
            },
        }
    }

    fn expect_length(buf: &[u8]) -> (r: Result<usize, RespError>) {
        match parse_length(buf, 37) {
            Err(e) => Err(e),
            Ok((end, count)) => calc_total_length(buf, end, count, 37),
        }
    }
}

/// Consumes a fixed literal from the front of the buffer, or reports why
/// it cannot: a transient shortage or a literal mismatch.
pub fn extract_fixed_data(buf: &mut BytesMut, expect: &[u8]) -> (r: Result<(), RespError>)
    ensures
        match r {
            Ok(_) => fixed_prefix(buf_data(*old(buf)), expect@) is Ok && buf_data(*final(buf))
                == buf_data(*old(buf)).skip(expect@.len() as int),
            Err(e) => fixed_prefix(buf_data(*old(buf)), expect@) == Err::<(), RespError>(e)
                && buf_data(*final(buf)) == buf_data(*old(buf)),
        },
{
    let checked = check_fixed(buf_bytes(buf), expect);
    match checked {
        Err(e) => Err(e),
        Ok(_) => {
            buf_advance(buf, expect.len());
            Ok(())
        },
    }
}
} // verus!
