//! The codec's laws, proved over the wire model: a well-formed frame's
//! encoding decodes back to the same frame with nothing left over, any
//! strict prefix of it is reported `NotComplete`, and two concatenated
//! encodings decode one after the other. The executable encoder and
//! decoder are verified against `enc_frame` and `parse_frame`, so these
//! laws carry over to them.

use vstd::prelude::*;

use crate::frame::FrameModel;
use crate::frame::RespError;
use crate::wire::all_digits;
use crate::wire::assoc_find;
use crate::wire::assoc_fold;
use crate::wire::assoc_fold_from;
use crate::wire::assoc_insert;
use crate::wire::bool_false_wire;
use crate::wire::bool_true_wire;
use crate::wire::byte_from;
use crate::wire::crlf;
use crate::wire::crlf_from;
use crate::wire::dec_digits;
use crate::wire::double_text_valid;
use crate::wire::enc_entries;
use crate::wire::enc_frame;
use crate::wire::enc_list;
use crate::wire::extract_line;
use crate::wire::fixed_prefix;
use crate::wire::frame_wf;
use crate::wire::int_text_val;
use crate::wire::int_text_valid;
use crate::wire::int_wire;
use crate::wire::lemma_assoc_find_props;
use crate::wire::lemma_byte_from_props;
use crate::wire::lemma_dec_digits_val;
use crate::wire::mantissa_valid;
use crate::wire::measure_elems;
use crate::wire::measure_frame;
use crate::wire::no_crlf;
use crate::wire::null_array_wire;
use crate::wire::null_bulk_wire;
use crate::wire::null_wire;
use crate::wire::parse_container;
use crate::wire::parse_elems;
use crate::wire::parse_entries;
use crate::wire::parse_frame;
use crate::wire::parse_simple;
use crate::wire::uint_text_valid;
use crate::wire::utf8_valid;
use crate::wire::unsigned_mantissa_valid;

verus! {

/// No carriage return stands anywhere in `s`.
pub open spec fn no_cr(s: Seq<u8>) -> bool {
    forall|i: int| 0 <= i < s.len() ==> #[trigger] s[i] != 13
}

proof fn lemma_digits_no_cr(s: Seq<u8>)
    requires
        all_digits(s),
    ensures
        no_cr(s),
{
}

proof fn lemma_uint_no_cr(s: Seq<u8>)
    requires
        uint_text_valid(s),
    ensures
        no_cr(s),
{
}

proof fn lemma_int_text_no_cr(s: Seq<u8>)
    requires
        int_text_valid(s),
    ensures
        no_cr(s),
{
    if s.len() > 0 && (s[0] == 43 || s[0] == 45) {
        lemma_uint_no_cr(s.skip(1));
        assert(forall|i: int| 1 <= i < s.len() ==> s[i] == s.skip(1)[i - 1]);
    }
}

proof fn lemma_unsigned_mantissa_no_cr(s: Seq<u8>)
    requires
        unsigned_mantissa_valid(s),
    ensures
        no_cr(s),
{
    lemma_byte_from_props(s, 0, 46, 46);
    match byte_from(s, 0, 46, 46) {
        None => {
            lemma_uint_no_cr(s);
        },
        Some(k) => {
            lemma_uint_no_cr(s.take(k));
            lemma_uint_no_cr(s.skip(k + 1));
            assert forall|i: int| 0 <= i < s.len() implies s[i] != 13 by {
                if i < k {
                    assert(s.take(k)[i] == s[i]);
                } else if i > k {
                    assert(s.skip(k + 1)[i - k - 1] == s[i]);
                }
            }
        },
    }
}

proof fn lemma_mantissa_no_cr(s: Seq<u8>)
    requires
        mantissa_valid(s),
    ensures
        no_cr(s),
{
    if s.len() > 0 && (s[0] == 43 || s[0] == 45) {
        lemma_unsigned_mantissa_no_cr(s.skip(1));
        assert(forall|i: int| 1 <= i < s.len() ==> s[i] == s.skip(1)[i - 1]);
    } else {
        lemma_unsigned_mantissa_no_cr(s);
    }
}

proof fn lemma_double_no_cr(s: Seq<u8>)
    requires
        double_text_valid(s),
    ensures
        no_cr(s),
{
    lemma_byte_from_props(s, 0, 101, 69);
    match byte_from(s, 0, 101, 69) {
        None => {
            lemma_mantissa_no_cr(s);
        },
        Some(k) => {
            lemma_mantissa_no_cr(s.take(k));
            lemma_int_text_no_cr(s.skip(k + 1));
            assert forall|i: int| 0 <= i < s.len() implies s[i] != 13 by {
                if i < k {
                    assert(s.take(k)[i] == s[i]);
                } else if i > k {
                    assert(s.skip(k + 1)[i - k - 1] == s[i]);
                }
            }
        },
    }
}

/// The first CRLF in a well-formed header line stands exactly where the
/// line ends.
proof fn lemma_crlf_found(s: Seq<u8>, i: int, e: int)
    requires
        0 <= i <= e,
        e + 1 < s.len(),
        s[e] == 13,
        s[e + 1] == 10,
        forall|j: int| i <= j < e ==> !(#[trigger] s[j] == 13 && s[j + 1] == 10),
    ensures
        crlf_from(s, i) == Some(e),
    decreases e - i,
{
    if i < e {
        lemma_crlf_found(s, i + 1, e);
    }
}

/// A header line `<p><body>\r\n` followed by anything extracts at the
/// line's own CRLF, when the body holds no CRLF pair and no CR stands
/// right before the terminator.
proof fn lemma_extract_enc_line(p: u8, body: Seq<u8>, rest: Seq<u8>)
    requires
        p != 13,
        no_crlf(body),
    ensures
        extract_line(seq![p] + body + crlf() + rest, p) == Ok::<int, RespError>(1 + body.len() as int),
        (seq![p] + body + crlf() + rest).subrange(1, 1 + body.len() as int) == body,
    decreases body.len(),
{
    let s = seq![p] + body + crlf() + rest;
    let e = 1 + body.len() as int;
    assert(s.len() == body.len() + 3 + rest.len());
    assert(s[e] == 13);
    assert(s[e + 1] == 10);
    assert forall|j: int| 0 <= j < e implies !(#[trigger] s[j] == 13 && s[j + 1] == 10) by {
        if j == 0 {
            assert(s[0] == p);
        } else if j < e - 1 {
            assert(s[j] == body[j - 1]);
            assert(s[j + 1] == body[j]);
        } else {
            assert(s[j + 1] == 13);
        }
    }
    lemma_crlf_found(s, 0, e);
    assert(s.subrange(1, e) =~= body);
}


/// Every encoded frame takes at least three bytes.
proof fn lemma_enc_len_lb(f: FrameModel)
    ensures
        enc_frame(f).len() >= 3,
{
    match f {
        FrameModel::Integer(n) => {
            if n < 0 {
                lemma_dec_digits_val(-n);
            } else {
                lemma_dec_digits_val(n);
            }
        },
        FrameModel::BulkString(d) => {
            lemma_dec_digits_val(d.len() as int);
        },
        FrameModel::Array(es) => {
            lemma_dec_digits_val(es.len() as int);
        },
        FrameModel::MapFrame(es) => {
            lemma_dec_digits_val(es.len() as int);
        },
        FrameModel::SetFrame(es) => {
            lemma_dec_digits_val(es.len() as int);
        },
        _ => {},
    }
}

/// Measuring an encoded frame, with anything after it, reports exactly the
/// encoding's length.
proof fn lemma_measure_enc(f: FrameModel, rest: Seq<u8>)
    requires
        frame_wf(f),
    ensures
        measure_frame(enc_frame(f) + rest) == Ok::<int, RespError>(enc_frame(f).len() as int),
    decreases f,
{
    let s = enc_frame(f) + rest;
    match f {
        FrameModel::SimpleString(d) => {
            assert(s =~= seq![43u8] + d + crlf() + rest);
            lemma_extract_enc_line(43, d, rest);
        },
        FrameModel::Error(d) => {
            assert(s =~= seq![45u8] + d + crlf() + rest);
            lemma_extract_enc_line(45, d, rest);
        },
        FrameModel::Integer(n) => {
            lemma_int_wire_facts(n);
            lemma_int_text_no_cr(int_wire(n));
            assert(s =~= seq![58u8] + int_wire(n) + crlf() + rest);
            lemma_extract_enc_line(58, int_wire(n), rest);
        },
        FrameModel::Double(d) => {
            lemma_double_no_cr(d);
            assert(s =~= seq![44u8] + d + crlf() + rest);
            lemma_extract_enc_line(44, d, rest);
        },
        FrameModel::Null => {
            assert(s =~= seq![95u8] + Seq::<u8>::empty() + crlf() + rest);
            lemma_extract_enc_line(95, Seq::empty(), rest);
        },
        FrameModel::Boolean(b) => {
            if b {
                assert(s =~= seq![35u8] + seq![116u8] + crlf() + rest);
                lemma_extract_enc_line(35, seq![116u8], rest);
            } else {
                assert(s =~= seq![35u8] + seq![102u8] + crlf() + rest);
                lemma_extract_enc_line(35, seq![102u8], rest);
            }
        },
        FrameModel::NullBulkString => {
            assert(s =~= seq![36u8] + seq![45u8, 49u8] + crlf() + rest);
            lemma_extract_enc_line(36, seq![45u8, 49u8], rest);
            assert(s.subrange(1, 3) == seq![45u8, 49u8]);
        },
        FrameModel::NullArray => {
            assert(s =~= seq![42u8] + seq![45u8, 49u8] + crlf() + rest);
            lemma_extract_enc_line(42, seq![45u8, 49u8], rest);
            assert(s.subrange(1, 3) == seq![45u8, 49u8]);
        },
        FrameModel::BulkString(d) => {
            let dl = dec_digits(d.len() as int);
            lemma_dec_digits_val(d.len() as int);
            lemma_digits_no_cr(dl);
            assert(s =~= seq![36u8] + dl + crlf() + (d + crlf() + rest));
            lemma_extract_enc_line(36, dl, d + crlf() + rest);
            let e = 1 + dl.len() as int;
            assert(s.subrange(1, e) == dl);
            assert(dl != seq![45u8, 49u8]) by {
                assert(dl[0] != 45);
            }
            assert(s.len() == e + 2 + d.len() + 2 + rest.len());
        },
        FrameModel::Array(es) => {
            lemma_measure_container(es, rest, 42);
        },
        FrameModel::SetFrame(es) => {
            lemma_measure_container(es, rest, 126);
        },
        FrameModel::MapFrame(es) => {
            let dl = dec_digits(es.len() as int);
            lemma_dec_digits_val(es.len() as int);
            lemma_digits_no_cr(dl);
            assert(s =~= seq![37u8] + dl + crlf() + (enc_entries(es) + rest));
            lemma_extract_enc_line(37, dl, enc_entries(es) + rest);
            let e = 1 + dl.len() as int;
            assert(s.subrange(1, e) == dl);
            assert(s.skip(e + 2) =~= enc_entries(es) + rest);
            lemma_measure_enc_entries(es, rest);
            assert(s.len() == e + 2 + enc_entries(es).len() + rest.len());
        },
    }
}

/// The array and set cases of `lemma_measure_enc`.
proof fn lemma_measure_container(es: Seq<FrameModel>, rest: Seq<u8>, tag: u8)
    requires
        tag == 42 || tag == 126,
        es.len() <= usize::MAX as int,
        forall|i: int| 0 <= i < es.len() ==> frame_wf(#[trigger] es[i]),
    ensures
        measure_frame((seq![tag] + dec_digits(es.len() as int) + crlf() + enc_list(es)) + rest)
            == Ok::<int, RespError>(
            (seq![tag] + dec_digits(es.len() as int) + crlf() + enc_list(es)).len() as int,
        ),
    decreases es, 1int,
{
    let dl = dec_digits(es.len() as int);
    let enc = seq![tag] + dl + crlf() + enc_list(es);
    let s = enc + rest;
    lemma_dec_digits_val(es.len() as int);
    lemma_digits_no_cr(dl);
    assert(s =~= seq![tag] + dl + crlf() + (enc_list(es) + rest));
    lemma_extract_enc_line(tag, dl, enc_list(es) + rest);
    let e = 1 + dl.len() as int;
    assert(s.subrange(1, e) == dl);
    if tag == 42 {
        assert(dl != seq![45u8, 49u8]) by {
            assert(dl[0] != 45);
        }
    }
    assert(s.skip(e + 2) =~= enc_list(es) + rest);
    lemma_measure_enc_list(es, rest);
    assert(s.len() == e + 2 + enc_list(es).len() + rest.len());
}

/// Measuring the encodings of a run of frames, with anything after them,
/// adds up to exactly the run's length.
proof fn lemma_measure_enc_list(es: Seq<FrameModel>, rest: Seq<u8>)
    requires
        forall|i: int| 0 <= i < es.len() ==> frame_wf(#[trigger] es[i]),
    ensures
        measure_elems(enc_list(es) + rest, es.len() as int) == Ok::<int, RespError>(
            enc_list(es).len() as int,
        ),
    decreases es, 0int,
{
    if es.len() == 0 {
        assert(enc_list(es) + rest =~= rest);
    } else {
        let f0 = es[0];
        let tail = es.drop_first();
        let r2 = enc_list(tail) + rest;
        assert(enc_list(es) + rest =~= enc_frame(f0) + r2);
        lemma_measure_enc(f0, r2);
        lemma_enc_len_lb(f0);
        let n0 = enc_frame(f0).len() as int;
        assert((enc_frame(f0) + r2).skip(n0) =~= r2);
        assert(forall|i: int| 0 <= i < tail.len() ==> tail[i] == es[i + 1]);
        lemma_measure_enc_list(tail, rest);
        assert(enc_list(es).len() == n0 + enc_list(tail).len());
    }
}

/// Measuring the encodings of a run of map entries counts two frames per
/// entry and adds up to exactly the run's length.
proof fn lemma_measure_enc_entries(es: Seq<(Seq<u8>, FrameModel)>, rest: Seq<u8>)
    requires
        forall|i: int|
            0 <= i < es.len() ==> no_crlf((#[trigger] es[i]).0) && frame_wf(es[i].1),
    ensures
        measure_elems(enc_entries(es) + rest, 2 * es.len() as int) == Ok::<int, RespError>(
            enc_entries(es).len() as int,
        ),
    decreases es, 0int,
{
    reveal_with_fuel(measure_elems, 3);
    if es.len() == 0 {
        assert(enc_entries(es) + rest =~= rest);
    } else {
        let k0 = es[0].0;
        let v0 = es[0].1;
        let tail = es.drop_first();
        let keyline = seq![43u8] + k0 + crlf();
        let r1 = enc_frame(v0) + enc_entries(tail) + rest;
        assert(enc_entries(es) + rest =~= keyline + r1);
        assert(keyline + r1 =~= seq![43u8] + k0 + crlf() + r1);
        lemma_extract_enc_line(43, k0, r1);
        let e = 1 + k0.len() as int;
        let s = keyline + r1;
        assert(measure_frame(s) == Ok::<int, RespError>(e + 2));
        assert(s.skip(e + 2) =~= r1);
        let r2 = enc_entries(tail) + rest;
        assert(r1 =~= enc_frame(v0) + r2);
        lemma_measure_enc(v0, r2);
        lemma_enc_len_lb(v0);
        let n0 = enc_frame(v0).len() as int;
        assert((enc_frame(v0) + r2).skip(n0) =~= r2);
        assert(forall|i: int| 0 <= i < tail.len() ==> tail[i] == es[i + 1]);
        lemma_measure_enc_entries(tail, rest);
        assert(2 * es.len() as int - 1 - 1 == 2 * tail.len() as int);
        assert(enc_entries(es).len() == (e + 2) + n0 + enc_entries(tail).len());
    }
}

/// The wire digits of an integer read back as that integer.
proof fn lemma_int_wire_facts(n: int)
    ensures
        int_text_valid(int_wire(n)),
        int_text_val(int_wire(n)) == n,
{
    if n < 0 {
        lemma_dec_digits_val(-n);
        assert(int_wire(n).skip(1) =~= dec_digits(-n));
    } else {
        lemma_dec_digits_val(n);
        assert(int_wire(n).skip(1) =~= dec_digits(n));
    }
}

/// Folding entries whose keys are fresh and pairwise distinct appends
/// them unchanged.
proof fn lemma_fold_from_id(acc: Seq<(Seq<u8>, FrameModel)>, raw: Seq<(Seq<u8>, FrameModel)>)
    requires
        forall|i: int, j: int| 0 <= i < j < raw.len() ==> raw[i].0 != raw[j].0,
        forall|i: int, j: int|
            0 <= i < acc.len() && 0 <= j < raw.len() ==> (#[trigger] acc[i]).0 != (
            #[trigger] raw[j]).0,
    ensures
        assoc_fold_from(acc, raw) == acc + raw,
    decreases raw,
{
    if raw.len() == 0 {
        assert(acc + raw =~= acc);
    } else {
        lemma_assoc_find_props(acc, raw[0].0);
        assert(assoc_find(acc, raw[0].0) is None);
        let acc2 = acc.push((raw[0].0, raw[0].1));
        assert(acc2 == assoc_insert(acc, raw[0].0, raw[0].1));
        let tail = raw.drop_first();
        assert(forall|i: int| 0 <= i < tail.len() ==> tail[i] == raw[i + 1]);
        lemma_fold_from_id(acc2, tail);
        assert(acc2 + tail =~= acc + raw);
    }
}

/// An association list with pairwise distinct keys folds to itself.
proof fn lemma_assoc_fold_id(es: Seq<(Seq<u8>, FrameModel)>)
    requires
        forall|i: int, j: int| 0 <= i < j < es.len() ==> es[i].0 != es[j].0,
    ensures
        assoc_fold(es) == es,
{
    lemma_fold_from_id(Seq::empty(), es);
    assert(Seq::<(Seq<u8>, FrameModel)>::empty() + es =~= es);
}

/// The round-trip law, in its general streaming form: a well-formed
/// frame's encoding, with any bytes after it, parses back to exactly that
/// frame, consuming exactly the encoding.
pub proof fn lemma_parse_enc(f: FrameModel, rest: Seq<u8>)
    requires
        frame_wf(f),
    ensures
        parse_frame(enc_frame(f) + rest) == Ok::<(FrameModel, int), RespError>(
            (f, enc_frame(f).len() as int),
        ),
    decreases f, 1int,
{
    let s = enc_frame(f) + rest;
    match f {
        FrameModel::SimpleString(d) => {
            assert(s =~= seq![43u8] + d + crlf() + rest);
            lemma_extract_enc_line(43, d, rest);
        },
        FrameModel::Error(d) => {
            assert(s =~= seq![45u8] + d + crlf() + rest);
            lemma_extract_enc_line(45, d, rest);
        },
        FrameModel::Integer(n) => {
            lemma_int_wire_facts(n);
            lemma_int_text_no_cr(int_wire(n));
            assert(s =~= seq![58u8] + int_wire(n) + crlf() + rest);
            lemma_extract_enc_line(58, int_wire(n), rest);
        },
        FrameModel::Double(d) => {
            lemma_double_no_cr(d);
            assert(s =~= seq![44u8] + d + crlf() + rest);
            lemma_extract_enc_line(44, d, rest);
        },
        FrameModel::Null => {
            assert(s.take(3) =~= null_wire());
            assert(s[0] == 95);
        },
        FrameModel::Boolean(b) => {
            if b {
                assert(s.take(4) =~= bool_true_wire());
                assert(s[0] == 35);
            } else {
                assert(s[0] == 35);
                assert(s.len() >= 4);
                assert(s.take(4)[1] == 102);
                assert(s.take(4) != bool_true_wire()) by {
                    assert(bool_true_wire()[1] == 116);
                }
                assert(fixed_prefix(s, bool_true_wire()) == Err::<(), RespError>(
                    RespError::InvalidFrameType,
                ));
                assert(s.take(4) =~= bool_false_wire());
            }
        },
        FrameModel::NullBulkString => {
            assert(s.take(5) =~= null_bulk_wire());
            assert(s[0] == 36);
        },
        FrameModel::NullArray => {
            assert(s.take(5) =~= null_array_wire());
            assert(s[0] == 42);
        },
        FrameModel::BulkString(d) => {
            let dl = dec_digits(d.len() as int);
            lemma_dec_digits_val(d.len() as int);
            lemma_digits_no_cr(dl);
            let r1 = d + crlf() + rest;
            assert(s =~= seq![36u8] + dl + crlf() + r1);
            lemma_extract_enc_line(36, dl, r1);
            let e = 1 + dl.len() as int;
            assert(s[0] == 36);
            assert(s.len() >= 5);
            assert(s.take(5)[1] == dl[0]);
            assert(s.take(5) != null_bulk_wire()) by {
                assert(null_bulk_wire()[1] == 45);
            }
            if s.len() < null_bulk_wire().len() {
                assert(s != null_bulk_wire().take(s.len() as int));
            }
            assert(fixed_prefix(s, null_bulk_wire()) == Err::<(), RespError>(
                RespError::InvalidFrameType,
            ));
            assert(s.subrange(1, e) == dl);
            assert(s.len() == e + 2 + d.len() + 2 + rest.len());
            assert(s.subrange(e + 2, e + 2 + d.len() as int) =~= d);
        },
        FrameModel::Array(es) => {
            let dl = dec_digits(es.len() as int);
            lemma_dec_digits_val(es.len() as int);
            assert(s[0] == 42);
            assert(s.len() >= 4);
            if s.len() >= 5 {
                assert(s.take(5)[1] == dl[0]);
                assert(s.take(5) != null_array_wire()) by {
                    assert(null_array_wire()[1] == 45);
                }
            } else {
                assert(s[1] == dl[0]);
                assert(s != null_array_wire().take(s.len() as int)) by {
                    assert(null_array_wire().take(s.len() as int)[1] == 45);
                }
            }
            assert(fixed_prefix(s, null_array_wire()) == Err::<(), RespError>(
                RespError::InvalidFrameType,
            ));
            lemma_parse_enc_container(es, rest, 42);
        },
        FrameModel::SetFrame(es) => {
            lemma_parse_enc_container(es, rest, 126);
        },
        FrameModel::MapFrame(es) => {
            let dl = dec_digits(es.len() as int);
            lemma_dec_digits_val(es.len() as int);
            lemma_digits_no_cr(dl);
            let r1 = enc_entries(es) + rest;
            assert(s =~= seq![37u8] + dl + crlf() + r1);
            lemma_extract_enc_line(37, dl, r1);
            let e = 1 + dl.len() as int;
            assert(s.subrange(1, e) == dl);
            assert(s.skip(e + 2) =~= r1);
            lemma_measure_enc_entries(es, rest);
            lemma_parse_enc_entries(es, rest);
            lemma_assoc_fold_id(es);
            assert(s.len() == e + 2 + enc_entries(es).len() + rest.len());
        },
    }
}

/// The array and set cases of `lemma_parse_enc`.
proof fn lemma_parse_enc_container(es: Seq<FrameModel>, rest: Seq<u8>, tag: u8)
    requires
        tag == 42 || tag == 126,
        es.len() <= usize::MAX as int,
        forall|i: int| 0 <= i < es.len() ==> frame_wf(#[trigger] es[i]),
    ensures
        parse_container((seq![tag] + dec_digits(es.len() as int) + crlf() + enc_list(es)) + rest,
            tag) == Ok::<(Seq<FrameModel>, int), RespError>(
            (es, (seq![tag] + dec_digits(es.len() as int) + crlf() + enc_list(es)).len() as int),
        ),
    decreases es, 1int,
{
    let dl = dec_digits(es.len() as int);
    let enc = seq![tag] + dl + crlf() + enc_list(es);
    let s = enc + rest;
    lemma_dec_digits_val(es.len() as int);
    lemma_digits_no_cr(dl);
    assert(s =~= seq![tag] + dl + crlf() + (enc_list(es) + rest));
    lemma_extract_enc_line(tag, dl, enc_list(es) + rest);
    let e = 1 + dl.len() as int;
    assert(s.subrange(1, e) == dl);
    assert(s.skip(e + 2) =~= enc_list(es) + rest);
    lemma_measure_enc_list(es, rest);
    lemma_parse_enc_list(es, rest);
    assert(s.len() == e + 2 + enc_list(es).len() + rest.len());
}

/// A run of encoded frames, with anything after it, parses back to the
/// same frames in order.
proof fn lemma_parse_enc_list(es: Seq<FrameModel>, rest: Seq<u8>)
    requires
        forall|i: int| 0 <= i < es.len() ==> frame_wf(#[trigger] es[i]),
    ensures
        parse_elems(enc_list(es) + rest, es.len() as int) == Ok::<
            (Seq<FrameModel>, int),
            RespError,
        >((es, enc_list(es).len() as int)),
    decreases es, 0int,
{
    if es.len() == 0 {
        assert(enc_list(es) + rest =~= rest);
        assert(Seq::<FrameModel>::empty() =~= es);
    } else {
        let f0 = es[0];
        let tail = es.drop_first();
        let r2 = enc_list(tail) + rest;
        assert(enc_list(es) + rest =~= enc_frame(f0) + r2);
        lemma_parse_enc(f0, r2);
        lemma_enc_len_lb(f0);
        let n0 = enc_frame(f0).len() as int;
        assert((enc_frame(f0) + r2).skip(n0) =~= r2);
        assert(forall|i: int| 0 <= i < tail.len() ==> tail[i] == es[i + 1]);
        lemma_parse_enc_list(tail, rest);
        assert(seq![f0] + tail =~= es);
        assert(enc_list(es).len() == n0 + enc_list(tail).len());
    }
}

/// A run of encoded map entries, with anything after it, parses back to
/// the same raw pairs in order.
proof fn lemma_parse_enc_entries(es: Seq<(Seq<u8>, FrameModel)>, rest: Seq<u8>)
    requires
        forall|i: int|
            0 <= i < es.len() ==> no_crlf((#[trigger] es[i]).0) && utf8_valid(es[i].0)
                && frame_wf(es[i].1),
    ensures
        parse_entries(enc_entries(es) + rest, es.len() as int) == Ok::<
            (Seq<(Seq<u8>, FrameModel)>, int),
            RespError,
        >((es, enc_entries(es).len() as int)),
    decreases es, 0int,
{
    if es.len() == 0 {
        assert(enc_entries(es) + rest =~= rest);
        assert(Seq::<(Seq<u8>, FrameModel)>::empty() =~= es);
    } else {
        let k0 = es[0].0;
        let v0 = es[0].1;
        let tail = es.drop_first();
        let r1 = enc_frame(v0) + enc_entries(tail) + rest;
        let s = enc_entries(es) + rest;
        assert(s =~= seq![43u8] + k0 + crlf() + r1);
        lemma_extract_enc_line(43, k0, r1);
        let e = 1 + k0.len() as int;
        assert(s.subrange(1, e) == k0);
        assert(utf8_valid(k0));
        assert(parse_simple(s, 43) == Ok::<(Seq<u8>, int), RespError>((k0, e + 2)));
        let r2 = enc_entries(tail) + rest;
        assert(s.skip(e + 2) =~= enc_frame(v0) + r2);
        lemma_parse_enc(v0, r2);
        lemma_enc_len_lb(v0);
        let n0 = enc_frame(v0).len() as int;
        assert((enc_frame(v0) + r2).skip(n0) =~= r2);
        assert(s.skip(e + 2 + n0) =~= r2);
        assert(forall|i: int| 0 <= i < tail.len() ==> tail[i] == es[i + 1]);
        lemma_parse_enc_entries(tail, rest);
        assert(seq![(k0, v0)] + tail =~= es);
        assert(enc_entries(es).len() == (e + 2) + n0 + enc_entries(tail).len());
    }
}

/// Law: for every well-formed frame, decoding a buffer holding exactly its
/// encoding yields the frame back with zero bytes remaining.
pub proof fn lemma_round_trip(f: FrameModel)
    requires
        frame_wf(f),
    ensures
        parse_frame(enc_frame(f)) == Ok::<(FrameModel, int), RespError>(
            (f, enc_frame(f).len() as int),
        ),
        enc_frame(f).skip(enc_frame(f).len() as int) == Seq::<u8>::empty(),
    decreases f,
{
    lemma_parse_enc(f, Seq::empty());
    assert(enc_frame(f) + Seq::<u8>::empty() =~= enc_frame(f));
    assert(enc_frame(f).skip(enc_frame(f).len() as int) =~= Seq::<u8>::empty());
}

/// Law: a buffer holding two concatenated encodings decodes both frames in
/// order, leaving the buffer empty.
pub proof fn lemma_two_frames(f1: FrameModel, f2: FrameModel)
    requires
        frame_wf(f1),
        frame_wf(f2),
    ensures
        parse_frame(enc_frame(f1) + enc_frame(f2)) == Ok::<(FrameModel, int), RespError>(
            (f1, enc_frame(f1).len() as int),
        ),
        (enc_frame(f1) + enc_frame(f2)).skip(enc_frame(f1).len() as int) == enc_frame(f2),
        parse_frame(enc_frame(f2)) == Ok::<(FrameModel, int), RespError>(
            (f2, enc_frame(f2).len() as int),
        ),
        enc_frame(f2).skip(enc_frame(f2).len() as int) == Seq::<u8>::empty(),
{
    lemma_parse_enc(f1, enc_frame(f2));
    assert((enc_frame(f1) + enc_frame(f2)).skip(enc_frame(f1).len() as int) =~= enc_frame(f2));
    lemma_round_trip(f2);
}

/// A stretch with no CRLF pair at all has no first CRLF.
proof fn lemma_crlf_none(s: Seq<u8>, i: int)
    requires
        0 <= i,
        forall|j: int| i <= j && j + 1 < s.len() ==> !(#[trigger] s[j] == 13 && s[j + 1] == 10),
    ensures
        crlf_from(s, i) is None,
    decreases s.len() - i,
{
    if i + 1 < s.len() {
        lemma_crlf_none(s, i + 1);
    }
}

/// Cutting a header line anywhere before its terminator leaves a buffer
/// that the line reader reports `NotComplete`.
proof fn lemma_line_prefix_nc(p: u8, body: Seq<u8>, tail: Seq<u8>, k: int)
    requires
        p != 13,
        no_crlf(body),
        0 < k < body.len() + 3,
    ensures
        extract_line((seq![p] + body + crlf() + tail).take(k), p) == Err::<int, RespError>(
            RespError::NotComplete,
        ),
{
    let full = seq![p] + body + crlf() + tail;
    let t = full.take(k);
    if k < 3 {
    } else {
        assert(t[0] == p);
        assert forall|j: int| 0 <= j && j + 1 < t.len() implies !(#[trigger] t[j] == 13 && t[j
            + 1] == 10) by {
            assert(t[j] == full[j]);
            assert(t[j + 1] == full[j + 1]);
            if j == 0 {
            } else if j < body.len() {
                assert(full[j] == body[j - 1]);
                assert(full[j + 1] == body[j]);
            } else {
                assert(j == body.len());
                assert(j + 1 < k <= body.len() + 2);
            }
        }
        lemma_crlf_none(t, 0);
    }
}

/// Cutting an encoded frame anywhere strictly inside it leaves a buffer
/// whose measure is `NotComplete`.
proof fn lemma_measure_prefix(f: FrameModel, k: int)
    requires
        frame_wf(f),
        0 <= k < enc_frame(f).len(),
    ensures
        measure_frame(enc_frame(f).take(k)) == Err::<int, RespError>(RespError::NotComplete),
    decreases f,
{
    let enc = enc_frame(f);
    let t = enc.take(k);
    if k == 0 {
        assert(t.len() == 0);
    } else {
        match f {
            FrameModel::SimpleString(d) => {
                assert(enc =~= seq![43u8] + d + crlf() + Seq::<u8>::empty());
                lemma_line_prefix_nc(43, d, Seq::empty(), k);
                assert(t[0] == 43);
            },
            FrameModel::Error(d) => {
                assert(enc =~= seq![45u8] + d + crlf() + Seq::<u8>::empty());
                lemma_line_prefix_nc(45, d, Seq::empty(), k);
                assert(t[0] == 45);
            },
            FrameModel::Integer(n) => {
                lemma_int_wire_facts(n);
                lemma_int_text_no_cr(int_wire(n));
                assert(enc =~= seq![58u8] + int_wire(n) + crlf() + Seq::<u8>::empty());
                lemma_line_prefix_nc(58, int_wire(n), Seq::empty(), k);
                assert(t[0] == 58);
            },
            FrameModel::Double(d) => {
                lemma_double_no_cr(d);
                assert(enc =~= seq![44u8] + d + crlf() + Seq::<u8>::empty());
                lemma_line_prefix_nc(44, d, Seq::empty(), k);
                assert(t[0] == 44);
            },
            FrameModel::Null => {
                assert(enc =~= seq![95u8] + Seq::<u8>::empty() + crlf() + Seq::<u8>::empty());
                lemma_line_prefix_nc(95, Seq::empty(), Seq::empty(), k);
                assert(t[0] == 95);
            },
            FrameModel::Boolean(b) => {
                let body = if b {
                    seq![116u8]
                } else {
                    seq![102u8]
                };
                assert(enc =~= seq![35u8] + body + crlf() + Seq::<u8>::empty());
                lemma_line_prefix_nc(35, body, Seq::empty(), k);
                assert(t[0] == 35);
            },
            FrameModel::NullBulkString => {
                assert(enc =~= seq![36u8] + seq![45u8, 49u8] + crlf() + Seq::<u8>::empty());
                lemma_line_prefix_nc(36, seq![45u8, 49u8], Seq::empty(), k);
                assert(t[0] == 36);
            },
            FrameModel::NullArray => {
                assert(enc =~= seq![42u8] + seq![45u8, 49u8] + crlf() + Seq::<u8>::empty());
                lemma_line_prefix_nc(42, seq![45u8, 49u8], Seq::empty(), k);
                assert(t[0] == 42);
            },
            FrameModel::BulkString(d) => {
                let dl = dec_digits(d.len() as int);
                lemma_dec_digits_val(d.len() as int);
                lemma_digits_no_cr(dl);
                let e = 1 + dl.len() as int;
                assert(enc =~= seq![36u8] + dl + crlf() + (d + crlf()));
                assert(t[0] == 36);
                if k < e + 2 {
                    lemma_line_prefix_nc(36, dl, d + crlf(), k);
                } else {
                    let tp = (d + crlf()).take(k - e - 2);
                    assert(t =~= seq![36u8] + dl + crlf() + tp);
                    lemma_extract_enc_line(36, dl, tp);
                    assert(t.subrange(1, e) == dl);
                    assert(dl != seq![45u8, 49u8]) by {
                        assert(dl[0] != 45);
                    }
                    assert(t.len() == k);
                    assert(k < e + 2 + d.len() + 2);
                }
            },
            FrameModel::Array(es) => {
                lemma_measure_container_prefix(es, k, 42);
            },
            FrameModel::SetFrame(es) => {
                lemma_measure_container_prefix(es, k, 126);
            },
            FrameModel::MapFrame(es) => {
                let dl = dec_digits(es.len() as int);
                lemma_dec_digits_val(es.len() as int);
                lemma_digits_no_cr(dl);
                let e = 1 + dl.len() as int;
                assert(enc =~= seq![37u8] + dl + crlf() + enc_entries(es));
                assert(t[0] == 37);
                if k < e + 2 {
                    lemma_line_prefix_nc(37, dl, enc_entries(es), k);
                } else {
                    let kp = k - e - 2;
                    let tp = enc_entries(es).take(kp);
                    assert(t =~= seq![37u8] + dl + crlf() + tp);
                    lemma_extract_enc_line(37, dl, tp);
                    assert(t.subrange(1, e) == dl);
                    assert(t.skip(e + 2) =~= tp);
                    assert(kp < enc_entries(es).len());
                    lemma_measure_entries_prefix(es, kp);
                }
            },
        }
    }
}

/// The array and set cases of `lemma_measure_prefix`.
proof fn lemma_measure_container_prefix(es: Seq<FrameModel>, k: int, tag: u8)
    requires
        tag == 42 || tag == 126,
        es.len() <= usize::MAX as int,
        forall|i: int| 0 <= i < es.len() ==> frame_wf(#[trigger] es[i]),
        0 < k < (seq![tag] + dec_digits(es.len() as int) + crlf() + enc_list(es)).len(),
    ensures
        measure_frame((seq![tag] + dec_digits(es.len() as int) + crlf() + enc_list(es)).take(k))
            == Err::<int, RespError>(RespError::NotComplete),
    decreases es, 1int,
{
    let dl = dec_digits(es.len() as int);
    let enc = seq![tag] + dl + crlf() + enc_list(es);
    let t = enc.take(k);
    lemma_dec_digits_val(es.len() as int);
    lemma_digits_no_cr(dl);
    let e = 1 + dl.len() as int;
    assert(t[0] == tag);
    if k < e + 2 {
        lemma_line_prefix_nc(tag, dl, enc_list(es), k);
    } else {
        let kp = k - e - 2;
        let tp = enc_list(es).take(kp);
        assert(t =~= seq![tag] + dl + crlf() + tp);
        lemma_extract_enc_line(tag, dl, tp);
        assert(t.subrange(1, e) == dl);
        if tag == 42 {
            assert(dl != seq![45u8, 49u8]) by {
                assert(dl[0] != 45);
            }
        }
        assert(t.skip(e + 2) =~= tp);
        assert(kp < enc_list(es).len());
        lemma_measure_list_prefix(es, kp);
    }
}

/// Cutting a run of encoded frames strictly inside it leaves a run whose
/// measure is `NotComplete`.
proof fn lemma_measure_list_prefix(es: Seq<FrameModel>, k: int)
    requires
        forall|i: int| 0 <= i < es.len() ==> frame_wf(#[trigger] es[i]),
        0 <= k < enc_list(es).len(),
    ensures
        measure_elems(enc_list(es).take(k), es.len() as int) == Err::<int, RespError>(
            RespError::NotComplete,
        ),
    decreases es, 0int,
{
    let t = enc_list(es).take(k);
    assert(es.len() > 0);
    let f0 = es[0];
    let tail = es.drop_first();
    assert(forall|i: int| 0 <= i < tail.len() ==> tail[i] == es[i + 1]);
    let n0 = enc_frame(f0).len() as int;
    lemma_enc_len_lb(f0);
    if k == 0 {
        assert(t.len() == 0);
        assert(measure_frame(t) == Err::<int, RespError>(RespError::NotComplete));
        assert(measure_elems(t, es.len() as int) == Err::<int, RespError>(
            RespError::NotComplete,
        ));
    } else if k < n0 {
        assert(t =~= enc_frame(f0).take(k));
        lemma_measure_prefix(f0, k);
        assert(measure_frame(t) == Err::<int, RespError>(RespError::NotComplete));
        assert(measure_elems(t, es.len() as int) == Err::<int, RespError>(
            RespError::NotComplete,
        ));
    } else {
        let kp = k - n0;
        let tp = enc_list(tail).take(kp);
        assert(t =~= enc_frame(f0) + tp);
        lemma_measure_enc(f0, tp);
        assert(measure_frame(t) == Ok::<int, RespError>(n0));
        assert(t.skip(n0) =~= tp);
        assert(kp < enc_list(tail).len());
        lemma_measure_list_prefix(tail, kp);
        assert(measure_elems(tp, tail.len() as int) == Err::<int, RespError>(
            RespError::NotComplete,
        ));
        assert(measure_elems(t, es.len() as int) == Err::<int, RespError>(
            RespError::NotComplete,
        ));
    }
}

/// Cutting a run of encoded map entries strictly inside it leaves a run
/// whose measure is `NotComplete`.
proof fn lemma_measure_entries_prefix(es: Seq<(Seq<u8>, FrameModel)>, k: int)
    requires
        forall|i: int|
            0 <= i < es.len() ==> no_crlf((#[trigger] es[i]).0) && frame_wf(es[i].1),
        0 <= k < enc_entries(es).len(),
    ensures
        measure_elems(enc_entries(es).take(k), 2 * es.len() as int) == Err::<int, RespError>(
            RespError::NotComplete,
        ),
    decreases es, 0int,
{
    reveal_with_fuel(measure_elems, 3);
    let t = enc_entries(es).take(k);
    assert(es.len() > 0);
    let k0 = es[0].0;
    let v0 = es[0].1;
    let tail = es.drop_first();
    assert(forall|i: int| 0 <= i < tail.len() ==> tail[i] == es[i + 1]);
    let keyline = seq![43u8] + k0 + crlf();
    let kl = keyline.len() as int;
    let n0 = enc_frame(v0).len() as int;
    lemma_enc_len_lb(v0);
    assert(enc_entries(es) =~= keyline + (enc_frame(v0) + enc_entries(tail)));
    if k == 0 {
        assert(t.len() == 0);
    } else if k < kl {
        assert(t =~= (seq![43u8] + k0 + crlf() + (enc_frame(v0) + enc_entries(tail))).take(k));
        lemma_line_prefix_nc(43, k0, enc_frame(v0) + enc_entries(tail), k);
        assert(t[0] == 43);
    } else if k < kl + n0 {
        let kp = k - kl;
        let tp = enc_frame(v0).take(kp);
        assert(t =~= seq![43u8] + k0 + crlf() + tp);
        lemma_extract_enc_line(43, k0, tp);
        assert(measure_frame(t) == Ok::<int, RespError>(kl));
        assert(t.skip(kl) =~= tp);
        if kp == 0 {
            assert(tp.len() == 0);
        } else {
            lemma_measure_prefix(v0, kp);
        }
    } else {
        let kp = k - kl - n0;
        let tp = enc_entries(tail).take(kp);
        assert(t =~= seq![43u8] + k0 + crlf() + (enc_frame(v0) + tp));
        lemma_extract_enc_line(43, k0, enc_frame(v0) + tp);
        assert(measure_frame(t) == Ok::<int, RespError>(kl));
        assert(t.skip(kl) =~= enc_frame(v0) + tp);
        lemma_measure_enc(v0, tp);
        assert((enc_frame(v0) + tp).skip(n0) =~= tp);
        assert(kp < enc_entries(tail).len());
        lemma_measure_entries_prefix(tail, kp);
        assert(2 * es.len() as int - 1 - 1 == 2 * tail.len() as int);
    }
}

/// Law: a buffer holding any strict prefix of a well-formed frame's
/// encoding decodes to `NotComplete` — and, decoding being atomic, the
/// decoder consumes nothing; appending the missing bytes then yields the
/// original frame (`lemma_parse_enc`).
pub proof fn lemma_prefix_not_complete(f: FrameModel, k: int)
    requires
        frame_wf(f),
        0 < k < enc_frame(f).len(),
    ensures
        parse_frame(enc_frame(f).take(k)) == Err::<(FrameModel, int), RespError>(
            RespError::NotComplete,
        ),
{
    let enc = enc_frame(f);
    let t = enc.take(k);
    assert(t[0] == enc[0]);
    match f {
        FrameModel::SimpleString(d) => {
            assert(enc =~= seq![43u8] + d + crlf() + Seq::<u8>::empty());
            lemma_line_prefix_nc(43, d, Seq::empty(), k);
            assert(t[0] == 43);
        },
        FrameModel::Error(d) => {
            assert(enc =~= seq![45u8] + d + crlf() + Seq::<u8>::empty());
            lemma_line_prefix_nc(45, d, Seq::empty(), k);
            assert(t[0] == 45);
        },
        FrameModel::Integer(n) => {
            lemma_int_wire_facts(n);
            lemma_int_text_no_cr(int_wire(n));
            assert(enc =~= seq![58u8] + int_wire(n) + crlf() + Seq::<u8>::empty());
            lemma_line_prefix_nc(58, int_wire(n), Seq::empty(), k);
            assert(t[0] == 58);
        },
        FrameModel::Double(d) => {
            lemma_double_no_cr(d);
            assert(enc =~= seq![44u8] + d + crlf() + Seq::<u8>::empty());
            lemma_line_prefix_nc(44, d, Seq::empty(), k);
            assert(t[0] == 44);
        },
        FrameModel::Null => {
            assert(t.len() < 3);
            assert(t[0] == 95);
        },
        FrameModel::Boolean(b) => {
            assert(t[0] == 35);
            if k < 3 {
            } else {
                assert(k == 3);
                if b {
                    assert(t =~= bool_true_wire().take(3));
                } else {
                    assert(t[1] == 102);
                    assert(t != bool_true_wire().take(3)) by {
                        assert(bool_true_wire().take(3)[1] == 116);
                    }
                    assert(t =~= bool_false_wire().take(3));
                }
            }
        },
        FrameModel::NullBulkString => {
            assert(t[0] == 36);
            if k >= 3 {
                assert(t =~= null_bulk_wire().take(k));
            }
        },
        FrameModel::NullArray => {
            assert(t[0] == 42);
            if k >= 3 {
                assert(t =~= null_array_wire().take(k));
            }
        },
        FrameModel::BulkString(d) => {
            let dl = dec_digits(d.len() as int);
            lemma_dec_digits_val(d.len() as int);
            lemma_digits_no_cr(dl);
            let e = 1 + dl.len() as int;
            assert(enc =~= seq![36u8] + dl + crlf() + (d + crlf()));
            assert(t[0] == 36);
            if k < 3 {
            } else {
                assert(t[1] == dl[0]);
                if k < 5 {
                    assert(t != null_bulk_wire().take(k)) by {
                        assert(null_bulk_wire().take(k)[1] == 45);
                    }
                } else {
                    assert(t.take(5)[1] == dl[0]);
                    assert(t.take(5) != null_bulk_wire()) by {
                        assert(null_bulk_wire()[1] == 45);
                    }
                }
                assert(fixed_prefix(t, null_bulk_wire()) == Err::<(), RespError>(
                    RespError::InvalidFrameType,
                ));
                if k < e + 2 {
                    lemma_line_prefix_nc(36, dl, d + crlf(), k);
                } else {
                    let tp = (d + crlf()).take(k - e - 2);
                    assert(t =~= seq![36u8] + dl + crlf() + tp);
                    lemma_extract_enc_line(36, dl, tp);
                    assert(t.subrange(1, e) == dl);
                    assert(t.len() == k);
                    assert(k < e + 2 + d.len() + 2);
                }
            }
        },
        FrameModel::Array(es) => {
            let dl = dec_digits(es.len() as int);
            lemma_dec_digits_val(es.len() as int);
            lemma_digits_no_cr(dl);
            let e = 1 + dl.len() as int;
            assert(enc =~= seq![42u8] + dl + crlf() + enc_list(es));
            assert(t[0] == 42);
            if k < 3 {
            } else {
                assert(t[1] == dl[0]);
                if k < 5 {
                    assert(t != null_array_wire().take(k)) by {
                        assert(null_array_wire().take(k)[1] == 45);
                    }
                } else {
                    assert(t.take(5)[1] == dl[0]);
                    assert(t.take(5) != null_array_wire()) by {
                        assert(null_array_wire()[1] == 45);
                    }
                }
                assert(fixed_prefix(t, null_array_wire()) == Err::<(), RespError>(
                    RespError::InvalidFrameType,
                ));
                if k < e + 2 {
                    lemma_line_prefix_nc(42, dl, enc_list(es), k);
                } else {
                    let kp = k - e - 2;
                    let tp = enc_list(es).take(kp);
                    assert(t =~= seq![42u8] + dl + crlf() + tp);
                    lemma_extract_enc_line(42, dl, tp);
                    assert(t.subrange(1, e) == dl);
                    assert(t.skip(e + 2) =~= tp);
                    assert(kp < enc_list(es).len());
                    lemma_measure_list_prefix(es, kp);
                }
            }
        },
        FrameModel::SetFrame(es) => {
            let dl = dec_digits(es.len() as int);
            lemma_dec_digits_val(es.len() as int);
            lemma_digits_no_cr(dl);
            let e = 1 + dl.len() as int;
            assert(enc =~= seq![126u8] + dl + crlf() + enc_list(es));
            assert(t[0] == 126);
            if k < e + 2 {
                lemma_line_prefix_nc(126, dl, enc_list(es), k);
            } else {
                let kp = k - e - 2;
                let tp = enc_list(es).take(kp);
                assert(t =~= seq![126u8] + dl + crlf() + tp);
                lemma_extract_enc_line(126, dl, tp);
                assert(t.subrange(1, e) == dl);
                assert(t.skip(e + 2) =~= tp);
                assert(kp < enc_list(es).len());
                lemma_measure_list_prefix(es, kp);
            }
        },
        FrameModel::MapFrame(es) => {
            let dl = dec_digits(es.len() as int);
            lemma_dec_digits_val(es.len() as int);
            lemma_digits_no_cr(dl);
            let e = 1 + dl.len() as int;
            assert(enc =~= seq![37u8] + dl + crlf() + enc_entries(es));
            assert(t[0] == 37);
            if k < e + 2 {
                lemma_line_prefix_nc(37, dl, enc_entries(es), k);
            } else {
                let kp = k - e - 2;
                let tp = enc_entries(es).take(kp);
                assert(t =~= seq![37u8] + dl + crlf() + tp);
                lemma_extract_enc_line(37, dl, tp);
                assert(t.subrange(1, e) == dl);
                assert(t.skip(e + 2) =~= tp);
                assert(kp < enc_entries(es).len());
                lemma_measure_entries_prefix(es, kp);
            }
        },
    }
}

/// Law: splitting a well-formed frame's encoding at any point first gives
/// `NotComplete`, and once the remainder arrives the whole buffer decodes
/// to the original frame.
pub proof fn lemma_split_resume(f: FrameModel, k: int)
    requires
        frame_wf(f),
        0 < k < enc_frame(f).len(),
    ensures
        parse_frame(enc_frame(f).take(k)) == Err::<(FrameModel, int), RespError>(
            RespError::NotComplete,
        ),
        enc_frame(f).take(k) + enc_frame(f).skip(k) == enc_frame(f),
        parse_frame(enc_frame(f)) == Ok::<(FrameModel, int), RespError>(
            (f, enc_frame(f).len() as int),
        ),
{
    lemma_prefix_not_complete(f, k);
    assert(enc_frame(f).take(k) + enc_frame(f).skip(k) =~= enc_frame(f));
    lemma_round_trip(f);
}
} // verus!
