//! The frame model: one Rust type per RESP wire variant, the `RespFrame`
//! union over them, the decode error type, and the mathematical model
//! (`FrameModel`) that all contracts in this crate speak of.

use vstd::prelude::*;

verus! {

/// Outcome kinds of a decode attempt that did not produce a frame.
///
/// `NotComplete` is the one transient kind: the buffer holds a prefix of a
/// valid frame and more bytes must arrive. Every other kind is a permanent
/// failure of the current buffer contents.
#[derive(Debug, Clone, Copy, PartialEq, Eq, Structural)]
pub enum RespError {
    /// Malformed frame content: a bulk payload not followed by CRLF.
    InvalidFrame,
    /// Unknown leading byte, or a fixed literal that does not match.
    InvalidFrameType,
    /// A declared length that no buffer could satisfy.
    InvalidFrameLength,
    /// More bytes are needed before one whole frame is present.
    NotComplete,
    /// A header or payload that should be a decimal integer is not one.
    ParseIntError,
    /// Text payload bytes that are not well-formed UTF-8.
    Utf8Error,
    /// A double payload that does not match the numeric grammar.
    ParseFloatError,
}

/// Simple string: `+<text>\r\n`. The payload is the text's UTF-8 bytes;
/// the decoder accepts only well-formed UTF-8 here.
#[derive(Debug, Clone, PartialEq, Eq)]
pub struct SimpleString(pub Vec<u8>);

/// Simple error: `-<text>\r\n`. The payload is the text's UTF-8 bytes;
/// the decoder accepts only well-formed UTF-8 here.
#[derive(Debug, Clone, PartialEq, Eq)]
pub struct SimpleError(pub Vec<u8>);

/// Bulk string: `$<len>\r\n<len bytes>\r\n`. Arbitrary byte payload.
#[derive(Debug, Clone, PartialEq, Eq)]
pub struct BulkString(pub Vec<u8>);

/// Double: `,<number>\r\n`. Holds the numeric text exactly as it stands on
/// the wire, already validated against the grammar
/// `[+|-]digits[.digits][(E|e)[+|-]digits]`; converting the text to a
/// machine float is left to unverified callers.
#[derive(Debug, Clone, PartialEq, Eq)]
pub struct Double(pub Vec<u8>);

/// Array: `*<count>\r\n` followed by `count` frames.
#[derive(Debug, PartialEq)]
pub struct RespArray(pub Vec<RespFrame>);

/// Null: `_\r\n`.
#[derive(Debug, Clone, PartialEq, Eq)]
pub struct RespNull;

/// Null array: `*-1\r\n`.
#[derive(Debug, Clone, PartialEq, Eq)]
pub struct RespNullArray;

/// Null bulk string: `$-1\r\n`.
#[derive(Debug, Clone, PartialEq, Eq)]
pub struct RespNullBulkString;

/// Map: `%<count>\r\n` then `count` pairs of simple-string key and frame
/// value. Stored as an association list in insertion order; keys are kept
/// unique, a later insert of an existing key overwrites its value in place.
#[derive(Debug, PartialEq)]
pub struct RespMap(pub Vec<(Vec<u8>, RespFrame)>);

/// Set: `~<count>\r\n` followed by `count` frames. Stored as an ordered
/// list: order and duplicates are preserved exactly as on the wire.
#[derive(Debug, PartialEq)]
pub struct RespSet(pub Vec<RespFrame>);

/// One RESP value of any variant.
#[derive(Debug, PartialEq)]
pub enum RespFrame {
    SimpleString(SimpleString),
    Error(SimpleError),
    Integer(i64),
    BulkString(BulkString),
    NullBulkString(RespNullBulkString),
    Array(RespArray),
    Null(RespNull),
    NullArray(RespNullArray),
    Boolean(bool),
    Double(Double),
    MapFrame(RespMap),
    SetFrame(RespSet),
}

/// The mathematical shape of a frame: what the contracts of the encoder and
/// decoder are stated over. Byte payloads become `Seq<u8>`, integers become
/// unbounded `int`, containers become sequences of models.
pub enum FrameModel {
    SimpleString(Seq<u8>),
    Error(Seq<u8>),
    Integer(int),
    BulkString(Seq<u8>),
    NullBulkString,
    Array(Seq<FrameModel>),
    Null,
    NullArray,
    Boolean(bool),
    Double(Seq<u8>),
    MapFrame(Seq<(Seq<u8>, FrameModel)>),
    SetFrame(Seq<FrameModel>),
}

impl View for SimpleString {
    type V = Seq<u8>;

    open spec fn view(&self) -> Seq<u8> {
        self.0@
    }
}

impl View for SimpleError {
    type V = Seq<u8>;

    open spec fn view(&self) -> Seq<u8> {
        self.0@
    }
}

impl View for BulkString {
    type V = Seq<u8>;

    open spec fn view(&self) -> Seq<u8> {
        self.0@
    }
}

impl View for Double {
    type V = Seq<u8>;

    open spec fn view(&self) -> Seq<u8> {
        self.0@
    }
}

/// The models of a list of frames, in order.
pub open spec fn frames_view(s: Seq<RespFrame>) -> Seq<FrameModel>
    decreases s,
{
    if s.len() == 0 {
        Seq::empty()
    } else {
        frames_view(s.drop_last()).push(s.last()@)
    }
}

/// The models of a list of map entries, in order.
pub open spec fn entries_view(s: Seq<(Vec<u8>, RespFrame)>) -> Seq<(Seq<u8>, FrameModel)>
    decreases s,
{
    if s.len() == 0 {
        Seq::empty()
    } else {
        entries_view(s.drop_last()).push((s.last().0@, s.last().1@))
    }
}

impl View for RespFrame {
    type V = FrameModel;

    open spec fn view(&self) -> FrameModel
        decreases self,
    {
        match self {
            RespFrame::SimpleString(s) => FrameModel::SimpleString(s.0@),
            RespFrame::Error(s) => FrameModel::Error(s.0@),
            RespFrame::Integer(n) => FrameModel::Integer(*n as int),
            RespFrame::BulkString(b) => FrameModel::BulkString(b.0@),
            RespFrame::NullBulkString(_) => FrameModel::NullBulkString,
            RespFrame::Array(a) => FrameModel::Array(frames_view(a.0@)),
            RespFrame::Null(_) => FrameModel::Null,
            RespFrame::NullArray(_) => FrameModel::NullArray,
            RespFrame::Boolean(b) => FrameModel::Boolean(*b),
            RespFrame::Double(d) => FrameModel::Double(d.0@),
            RespFrame::MapFrame(m) => FrameModel::MapFrame(entries_view(m.0@)),
            RespFrame::SetFrame(s) => FrameModel::SetFrame(frames_view(s.0@)),
        }
    }
}

impl View for RespArray {
    type V = Seq<FrameModel>;

    open spec fn view(&self) -> Seq<FrameModel> {
        frames_view(self.0@)
    }
}

impl View for RespSet {
    type V = Seq<FrameModel>;

    open spec fn view(&self) -> Seq<FrameModel> {
        frames_view(self.0@)
    }
}

impl View for RespMap {
    type V = Seq<(Seq<u8>, FrameModel)>;

    open spec fn view(&self) -> Seq<(Seq<u8>, FrameModel)> {
        entries_view(self.0@)
    }
}

/// `frames_view` taken at one index.
pub proof fn lemma_frames_view_index(s: Seq<RespFrame>, i: int)
    requires
        0 <= i < s.len(),
    ensures
        frames_view(s).len() == s.len(),
        frames_view(s)[i] == s[i]@,
    decreases s,
{
    lemma_frames_view_len(s);
    lemma_frames_view_len(s.drop_last());
    if i < s.len() - 1 {
        lemma_frames_view_index(s.drop_last(), i);
        assert(frames_view(s) == frames_view(s.drop_last()).push(s.last()@));
        assert(frames_view(s)[i] == frames_view(s.drop_last())[i]);
    } else {
        assert(frames_view(s) == frames_view(s.drop_last()).push(s.last()@));
        assert(frames_view(s)[i] == s.last()@);
    }
}

/// `frames_view` of a sequence with one frame appended.
pub proof fn lemma_frames_view_push(s: Seq<RespFrame>, f: RespFrame)
    ensures
        frames_view(s.push(f)) == frames_view(s).push(f@),
{
    assert(s.push(f).drop_last() =~= s);
    assert(s.push(f).last() == f);
}

/// `frames_view` has the same length as its argument.
pub proof fn lemma_frames_view_len(s: Seq<RespFrame>)
    ensures
        frames_view(s).len() == s.len(),
    decreases s,
{
    if s.len() > 0 {
        lemma_frames_view_len(s.drop_last());
        assert(s.drop_last().len() == s.len() - 1);
        assert(frames_view(s) == frames_view(s.drop_last()).push(s.last()@));
        assert(frames_view(s).len() == frames_view(s.drop_last()).len() + 1);
    } else {
        assert(frames_view(s) == Seq::<FrameModel>::empty());
    }
}

/// `entries_view` taken at one index.
pub proof fn lemma_entries_view_index(s: Seq<(Vec<u8>, RespFrame)>, i: int)
    requires
        0 <= i < s.len(),
    ensures
        entries_view(s).len() == s.len(),
        entries_view(s)[i] == (s[i].0@, s[i].1@),
    decreases s,
{
    lemma_entries_view_len(s);
    lemma_entries_view_len(s.drop_last());
    if i < s.len() - 1 {
        lemma_entries_view_index(s.drop_last(), i);
        assert(entries_view(s) == entries_view(s.drop_last()).push(
            (s.last().0@, s.last().1@),
        ));
        assert(entries_view(s)[i] == entries_view(s.drop_last())[i]);
    } else {
        assert(entries_view(s) == entries_view(s.drop_last()).push(
            (s.last().0@, s.last().1@),
        ));
        assert(entries_view(s)[i] == (s.last().0@, s.last().1@));
    }
}

/// `entries_view` of a sequence with one entry appended.
pub proof fn lemma_entries_view_push(s: Seq<(Vec<u8>, RespFrame)>, k: Vec<u8>, f: RespFrame)
    ensures
        entries_view(s.push((k, f))) == entries_view(s).push((k@, f@)),
{
    assert(s.push((k, f)).drop_last() =~= s);
    assert(s.push((k, f)).last() == (k, f));
}

/// `entries_view` has the same length as its argument.
pub proof fn lemma_entries_view_len(s: Seq<(Vec<u8>, RespFrame)>)
    ensures
        entries_view(s).len() == s.len(),
    decreases s,
{
    if s.len() > 0 {
        lemma_entries_view_len(s.drop_last());
        assert(entries_view(s) == entries_view(s.drop_last()).push(
            (s.last().0@, s.last().1@),
        ));
    } else {
        assert(entries_view(s) == Seq::<(Seq<u8>, FrameModel)>::empty());
    }
}

impl SimpleString {
    /// Wraps text bytes as a simple string frame.
    pub fn new(s: Vec<u8>) -> (r: Self)
        ensures
            r@ == s@,
    {
        SimpleString(s)
    }
}

impl SimpleError {
    /// Wraps text bytes as a simple error frame.
    pub fn new(s: Vec<u8>) -> (r: Self)
        ensures
            r@ == s@,
    {
        SimpleError(s)
    }
}

impl BulkString {
    /// Wraps a byte payload as a bulk string frame.
    pub fn new(s: Vec<u8>) -> (r: Self)
        ensures
            r@ == s@,
    {
        BulkString(s)
    }
}

impl Double {
    /// Wraps numeric text as a double frame. The text is taken as given;
    /// only frames whose text matches the numeric grammar round-trip
    /// through the codec.
    pub fn new(s: Vec<u8>) -> (r: Self)
        ensures
            r@ == s@,
    {
        Double(s)
    }
}

impl RespArray {
    /// Wraps a list of frames as an array frame.
    pub fn new(s: Vec<RespFrame>) -> (r: Self)
        ensures
            r@ == frames_view(s@),
    {
        RespArray(s)
    }
}

impl RespSet {
    /// Wraps a list of frames as a set frame; order and duplicates are kept.
    pub fn new(s: Vec<RespFrame>) -> (r: Self)
        ensures
            r@ == frames_view(s@),
    {
        RespSet(s)
    }
}

impl RespMap {
    /// An empty map frame.
    pub fn new() -> (r: Self)
        ensures
            r@ == Seq::<(Seq<u8>, FrameModel)>::empty(),
    {
        RespMap(Vec::new())
    }
}

impl Default for RespMap {
    fn default() -> (r: Self)
        ensures
            r@ == Seq::<(Seq<u8>, FrameModel)>::empty(),
    {
        RespMap::new()
    }
}

} // verus!
