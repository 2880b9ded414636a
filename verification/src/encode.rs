//! The encoder: every frame type serializes to its exact wire bytes, as
//! stated by `wire::enc_frame` over the frame's model.

use vstd::prelude::*;

use crate::frame::BulkString;
use crate::frame::Double;
use crate::frame::FrameModel;
use crate::frame::RespArray;
use crate::frame::RespFrame;
use crate::frame::RespMap;
use crate::frame::RespNull;
use crate::frame::RespNullArray;
use crate::frame::RespNullBulkString;
use crate::frame::RespSet;
use crate::frame::SimpleError;
use crate::frame::SimpleString;
use crate::frame::entries_view;
use crate::frame::frames_view;
use crate::frame::lemma_entries_view_index;
use crate::frame::lemma_entries_view_len;
use crate::frame::lemma_frames_view_index;
use crate::frame::lemma_frames_view_len;
use crate::wire::bool_false_wire;
use crate::wire::bool_true_wire;
use crate::wire::crlf;
use crate::wire::dec_digits;
use crate::wire::enc_entries;
use crate::wire::enc_frame;
use crate::wire::enc_list;
use crate::wire::int_wire;
use crate::wire::null_array_wire;
use crate::wire::null_bulk_wire;
use crate::wire::null_wire;

verus! {

/// Everything that can be serialized as one RESP frame. `frame_model` names
/// the frame the value stands for; `encode` produces that frame's bytes.
pub trait RespEncode: Sized {
    spec fn frame_model(self) -> FrameModel;

    fn encode(self) -> (r: Vec<u8>)
        ensures
            r@ == enc_frame(self.frame_model()),
    ;
}

fn push_crlf(out: &mut Vec<u8>)
    ensures
        final(out)@ == old(out)@ + crlf(),
{
    out.push(13);
    out.push(10);
    assert(out@ =~= old(out)@ + crlf());
}

fn push_bytes(out: &mut Vec<u8>, d: &Vec<u8>)
    ensures
        final(out)@ == old(out)@ + d@,
{
    let mut j: usize = 0;
    while j < d.len()
        invariant
            j <= d.len(),
            out@ == old(out)@ + d@.take(j as int),
        decreases d.len() - j,
    {
        out.push(d[j]);
        assert(d@.take(j + 1 as int) =~= d@.take(j as int).push(d@[j as int]));
        assert(out@ =~= old(out)@ + d@.take(j + 1 as int));
        j += 1;
    }
    assert(d@.take(d.len() as int) =~= d@);
}

/// Decimal digits of `n`, most significant first, no sign, no leading zeros.
fn push_uint(out: &mut Vec<u8>, n: u64)
    ensures
        final(out)@ == old(out)@ + dec_digits(n as int),
    decreases n,
{
    if n < 10 {
        out.push(48 + n as u8);
        assert(out@ =~= old(out)@ + dec_digits(n as int));
    } else {
        push_uint(out, n / 10);
        out.push(48 + (n % 10) as u8);
        assert(out@ =~= old(out)@ + dec_digits(n as int));
    }
}

/// The wire digits of a signed integer, with an explicit sign byte.
fn push_int_wire(out: &mut Vec<u8>, n: i64)
    ensures
        final(out)@ == old(out)@ + int_wire(n as int),
{
    if n < 0 {
        out.push(45);
        let mag: u64 = if n == i64::MIN {
            9223372036854775808u64
        } else {
            (-n) as u64
        };
        assert(mag as int == -(n as int));
        push_uint(out, mag);
        assert(out@ =~= old(out)@ + int_wire(n as int));
    } else {
        out.push(43);
        push_uint(out, n as u64);
        assert(out@ =~= old(out)@ + int_wire(n as int));
    }
}

/// `enc_list` grows by one encoded frame when one model is appended.
proof fn lemma_enc_list_push(es: Seq<FrameModel>, v: FrameModel)
    ensures
        enc_list(es.push(v)) == enc_list(es) + enc_frame(v),
    decreases es,
{
    if es.len() == 0 {
        assert(es.push(v).drop_first() =~= Seq::<FrameModel>::empty());
        assert(es.push(v)[0] == v);
        assert(enc_list(Seq::<FrameModel>::empty()) == Seq::<u8>::empty());
        assert(enc_list(es.push(v)) == enc_frame(v) + Seq::<u8>::empty());
        assert(es =~= Seq::<FrameModel>::empty());
        assert(enc_list(es.push(v)) =~= enc_list(es) + enc_frame(v));
    } else {
        assert(es.push(v).drop_first() =~= es.drop_first().push(v));
        lemma_enc_list_push(es.drop_first(), v);
        assert(enc_list(es.push(v)) =~= enc_list(es) + enc_frame(v));
    }
}

/// `enc_entries` grows by one encoded entry when one pair is appended.
proof fn lemma_enc_entries_push(es: Seq<(Seq<u8>, FrameModel)>, k: Seq<u8>, v: FrameModel)
    ensures
        enc_entries(es.push((k, v))) == enc_entries(es) + (seq![43u8] + k + crlf())
            + enc_frame(v),
    decreases es,
{
    if es.len() == 0 {
        assert(es.push((k, v)).drop_first() =~= Seq::<(Seq<u8>, FrameModel)>::empty());
        assert(es.push((k, v))[0] == (k, v));
        assert(enc_entries(Seq::<(Seq<u8>, FrameModel)>::empty()) == Seq::<u8>::empty());
        assert(enc_entries(es.push((k, v))) == (seq![43u8] + k + crlf()) + enc_frame(v)
            + Seq::<u8>::empty());
        assert(es =~= Seq::<(Seq<u8>, FrameModel)>::empty());
        assert(enc_entries(es.push((k, v))) =~= enc_entries(es) + (seq![43u8] + k + crlf())
            + enc_frame(v));
    } else {
        assert(es.push((k, v)).drop_first() =~= es.drop_first().push((k, v)));
        lemma_enc_entries_push(es.drop_first(), k, v);
        assert(enc_entries(es.push((k, v))) =~= enc_entries(es) + (seq![43u8] + k + crlf())
            + enc_frame(v));
    }
}

/// Appends the exact wire bytes of `f` to `out`.
pub fn encode_frame_into(f: &RespFrame, out: &mut Vec<u8>)
    ensures
        final(out)@ == old(out)@ + enc_frame(f@),
    decreases f,
{
    match f {
        RespFrame::SimpleString(s) => {
            out.push(43);
            push_bytes(out, &s.0);
            push_crlf(out);
            assert(out@ =~= old(out)@ + enc_frame(f@));
        },
        RespFrame::Error(s) => {
            out.push(45);
            push_bytes(out, &s.0);
            push_crlf(out);
            assert(out@ =~= old(out)@ + enc_frame(f@));
        },
        RespFrame::Integer(n) => {
            out.push(58);
            push_int_wire(out, *n);
            push_crlf(out);
            assert(out@ =~= old(out)@ + enc_frame(f@));
        },
        RespFrame::BulkString(b) => {
            out.push(36);
            push_uint(out, b.0.len() as u64);
            push_crlf(out);
            push_bytes(out, &b.0);
            push_crlf(out);
            assert(out@ =~= old(out)@ + enc_frame(f@));
        },
        RespFrame::NullBulkString(_) => {
            out.push(36);
            out.push(45);
            out.push(49);
            push_crlf(out);
            assert(out@ =~= old(out)@ + null_bulk_wire());
        },
        RespFrame::Null(_) => {
            out.push(95);
            push_crlf(out);
            assert(out@ =~= old(out)@ + null_wire());
        },
        RespFrame::NullArray(_) => {
            out.push(42);
            out.push(45);
            out.push(49);
            push_crlf(out);
            assert(out@ =~= old(out)@ + null_array_wire());
        },
        RespFrame::Boolean(b) => {
            out.push(35);
            out.push(if *b { 116 } else { 102 });
            push_crlf(out);
            assert(out@ =~= old(out)@ + if *b {
                bool_true_wire()
            } else {
                bool_false_wire()
            });
        },
        RespFrame::Double(d) => {
            out.push(44);
            push_bytes(out, &d.0);
            push_crlf(out);
            assert(out@ =~= old(out)@ + enc_frame(f@));
        },
        RespFrame::Array(a) => {
            encode_frames_into(42, &a.0, out);
            proof {
                lemma_frames_view_len(a.0@);
            }
        },
        RespFrame::SetFrame(a) => {
            encode_frames_into(126, &a.0, out);
            proof {
                lemma_frames_view_len(a.0@);
            }
        },
        RespFrame::MapFrame(m) => {
            encode_entries_into(&m.0, out);
            proof {
                lemma_entries_view_len(m.0@);
            }
        },
    }
}

/// Appends the map header and every entry: key as a simple string, then
/// the entry's value frame.
fn encode_entries_into(elems: &Vec<(Vec<u8>, RespFrame)>, out: &mut Vec<u8>)
    ensures
        final(out)@ == old(out)@ + seq![37u8] + dec_digits(elems@.len() as int) + crlf()
            + enc_entries(entries_view(elems@)),
    decreases elems,
{
    out.push(37);
    push_uint(out, elems.len() as u64);
    push_crlf(out);
    proof {
        lemma_entries_view_len(elems@);
    }
    let ghost ev = entries_view(elems@);
    let ghost head = old(out)@ + seq![37u8] + dec_digits(elems@.len() as int) + crlf();
    assert(out@ =~= head + enc_entries(ev.take(0)));
    let mut i: usize = 0;
    while i < elems.len()
        invariant
            i <= elems.len(),
            ev == entries_view(elems@),
            ev.len() == elems@.len(),
            out@ == head + enc_entries(ev.take(i as int)),
        decreases elems.len() - i,
    {
        proof {
            lemma_entries_view_index(elems@, i as int);
            assert(decreases_to!(*elems => elems@[i as int].1)) by {
                assert(decreases_to!(*elems => elems@[i as int]));
                assert(decreases_to!(elems@[i as int] => elems@[i as int].1));
            }
        }
        out.push(43);
        push_bytes(out, &elems[i].0);
        push_crlf(out);
        encode_frame_into(&elems[i].1, out);
        proof {
            assert(ev.take(i + 1 as int) =~= ev.take(i as int).push(ev[i as int]));
            lemma_enc_entries_push(ev.take(i as int), ev[i as int].0, ev[i as int].1);
            assert(out@ =~= head + enc_entries(ev.take(i + 1 as int)));
        }
        i += 1;
    }
    proof {
        assert(ev.take(elems@.len() as int) =~= ev);
    }
}

/// Appends a container header byte, the element count, and every element's
/// wire bytes.
fn encode_frames_into(tag: u8, elems: &Vec<RespFrame>, out: &mut Vec<u8>)
    ensures
        final(out)@ == old(out)@ + seq![tag] + dec_digits(elems@.len() as int) + crlf() + enc_list(
            frames_view(elems@),
        ),
    decreases elems,
{
    out.push(tag);
    push_uint(out, elems.len() as u64);
    push_crlf(out);
    proof {
        lemma_frames_view_len(elems@);
    }
    let ghost ev = frames_view(elems@);
    let ghost head = old(out)@ + seq![tag] + dec_digits(elems@.len() as int) + crlf();
    assert(out@ =~= head + enc_list(ev.take(0)));
    let mut i: usize = 0;
    while i < elems.len()
        invariant
            i <= elems.len(),
            ev == frames_view(elems@),
            ev.len() == elems@.len(),
            out@ == head + enc_list(ev.take(i as int)),
        decreases elems.len() - i,
    {
        proof {
            lemma_frames_view_index(elems@, i as int);
        }
        encode_frame_into(&elems[i], out);
        proof {
            assert(ev.take(i + 1 as int) =~= ev.take(i as int).push(ev[i as int]));
            lemma_enc_list_push(ev.take(i as int), ev[i as int]);
            assert(out@ =~= head + enc_list(ev.take(i + 1 as int)));
        }
        i += 1;
    }
    proof {
        assert(ev.take(elems@.len() as int) =~= ev);
    }
}

impl RespEncode for RespFrame {
    open spec fn frame_model(self) -> FrameModel {
        self@
    }

    fn encode(self) -> (r: Vec<u8>) {
        let mut out: Vec<u8> = Vec::new();
        encode_frame_into(&self, &mut out);
        out
    }
}

impl RespEncode for SimpleString {
    open spec fn frame_model(self) -> FrameModel {
        FrameModel::SimpleString(self.0@)
    }

    fn encode(self) -> (r: Vec<u8>) {
        let f = RespFrame::SimpleString(self);
        let mut out: Vec<u8> = Vec::new();
        encode_frame_into(&f, &mut out);
        out
    }
}

impl RespEncode for SimpleError {
    open spec fn frame_model(self) -> FrameModel {
        FrameModel::Error(self.0@)
    }

    fn encode(self) -> (r: Vec<u8>) {
        let f = RespFrame::Error(self);
        let mut out: Vec<u8> = Vec::new();
        encode_frame_into(&f, &mut out);
        out
    }
}

impl RespEncode for i64 {
    open spec fn frame_model(self) -> FrameModel {
        FrameModel::Integer(self as int)
    }

    fn encode(self) -> (r: Vec<u8>) {
        let f = RespFrame::Integer(self);
        let mut out: Vec<u8> = Vec::new();
        encode_frame_into(&f, &mut out);
        out
    }
}

impl RespEncode for BulkString {
    open spec fn frame_model(self) -> FrameModel {
        FrameModel::BulkString(self.0@)
    }

    fn encode(self) -> (r: Vec<u8>) {
        let f = RespFrame::BulkString(self);
        let mut out: Vec<u8> = Vec::new();
        encode_frame_into(&f, &mut out);
        out
    }
}

impl RespEncode for RespNullBulkString {
    open spec fn frame_model(self) -> FrameModel {
        FrameModel::NullBulkString
    }

    fn encode(self) -> (r: Vec<u8>) {
        let f = RespFrame::NullBulkString(self);
        let mut out: Vec<u8> = Vec::new();
        encode_frame_into(&f, &mut out);
        out
    }
}

impl RespEncode for RespNull {
    open spec fn frame_model(self) -> FrameModel {
        FrameModel::Null
    }

    fn encode(self) -> (r: Vec<u8>) {
        let f = RespFrame::Null(self);
        let mut out: Vec<u8> = Vec::new();
        encode_frame_into(&f, &mut out);
        out
    }
}

impl RespEncode for RespNullArray {
    open spec fn frame_model(self) -> FrameModel {
        FrameModel::NullArray
    }

    fn encode(self) -> (r: Vec<u8>) {
        let f = RespFrame::NullArray(self);
        let mut out: Vec<u8> = Vec::new();
        encode_frame_into(&f, &mut out);
        out
    }
}

impl RespEncode for bool {
    open spec fn frame_model(self) -> FrameModel {
        FrameModel::Boolean(self)
    }

    fn encode(self) -> (r: Vec<u8>) {
        let f = RespFrame::Boolean(self);
        let mut out: Vec<u8> = Vec::new();
        encode_frame_into(&f, &mut out);
        out
    }
}

impl RespEncode for Double {
    open spec fn frame_model(self) -> FrameModel {
        FrameModel::Double(self.0@)
    }

    fn encode(self) -> (r: Vec<u8>) {
        let f = RespFrame::Double(self);
        let mut out: Vec<u8> = Vec::new();
        encode_frame_into(&f, &mut out);
        out
    }
}

impl RespEncode for RespArray {
    open spec fn frame_model(self) -> FrameModel {
        FrameModel::Array(frames_view(self.0@))
    }

    fn encode(self) -> (r: Vec<u8>) {
        let f = RespFrame::Array(self);
        let mut out: Vec<u8> = Vec::new();
        encode_frame_into(&f, &mut out);
        out
    }
}

impl RespEncode for RespSet {
    open spec fn frame_model(self) -> FrameModel {
        FrameModel::SetFrame(frames_view(self.0@))
    }

    fn encode(self) -> (r: Vec<u8>) {
        let f = RespFrame::SetFrame(self);
        let mut out: Vec<u8> = Vec::new();
        encode_frame_into(&f, &mut out);
        out
    }
}

impl RespEncode for RespMap {
    open spec fn frame_model(self) -> FrameModel {
        FrameModel::MapFrame(entries_view(self.0@))
    }

    fn encode(self) -> (r: Vec<u8>) {
        let f = RespFrame::MapFrame(self);
        let mut out: Vec<u8> = Vec::new();
        encode_frame_into(&f, &mut out);
        out
    }
}

} // verus!
