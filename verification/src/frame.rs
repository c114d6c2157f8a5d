use bytes::Bytes;
use crate::text::{debug_quoted, quote_debug};
use vstd::prelude::*;

verus! {

/// The `Bytes` buffer of the `bytes` crate, carried opaquely in bulk frames.
#[verifier::external_type_specification]
#[verifier::external_body]
pub struct ExBytes(bytes::Bytes);

/// What a `Bytes` buffer holds.
pub uninterp spec fn bytes_contents(b: Bytes) -> Seq<u8>;

/// `Bytes::from(Vec<u8>)`: the buffer takes over the vector and holds exactly its bytes.
#[verifier::external_body]
pub(crate) fn bytes_from_vec(v: Vec<u8>) -> (b: Bytes)
    ensures
        bytes_contents(b) == v@,
{
    Bytes::from(v)
}

/// `<Bytes as AsRef<[u8]>>::as_ref`: a slice over the bytes that the buffer holds.
#[verifier::external_body]
pub(crate) fn bytes_as_slice(b: &Bytes) -> (s: &[u8])
    ensures
        s@ == bytes_contents(*b),
{
    b.as_ref()
}

/// `<Bytes as Clone>::clone`: a second handle on the same bytes.
#[verifier::external_body]
pub(crate) fn bytes_clone(b: &Bytes) -> (c: Bytes)
    ensures
        bytes_contents(c) == bytes_contents(*b),
{
    b.clone()
}

/// A RESP value.
///
/// `Hash` holds the fields of a hash as a list of (field, value) pairs; when a
/// field occurs more than once, its first occurrence is the one that counts.
pub enum Frame {
    Simple(String),
    Error(String),
    Integer(u64),
    Bulk(Bytes),
    Null,
    Array(Vec<Frame>),
    Hash(Vec<(String, Frame)>),
}

/// The mathematical value of a frame.
pub enum FrameView {
    Simple(Seq<char>),
    Error(Seq<char>),
    Integer(u64),
    Bulk(Seq<u8>),
    Null,
    Array(Seq<FrameView>),
    Hash(Map<Seq<char>, FrameView>),
}

pub open spec fn frame_view(f: Frame) -> FrameView
    decreases f, 0int,
{
    match f {
        Frame::Simple(s) => FrameView::Simple(s@),
        Frame::Error(s) => FrameView::Error(s@),
        Frame::Integer(n) => FrameView::Integer(n),
        Frame::Bulk(b) => FrameView::Bulk(bytes_contents(b)),
        Frame::Null => FrameView::Null,
        Frame::Array(v) => FrameView::Array(frames_view(v@)),
        Frame::Hash(v) => FrameView::Hash(entries_view(v@)),
    }
}

/// The views of a sequence of frames, element by element.
pub open spec fn frames_view(s: Seq<Frame>) -> Seq<FrameView>
    decreases s, 1int,
{
    if s.len() == 0 {
        Seq::empty()
    } else {
        frames_view(s.subrange(0, s.len() - 1)).push(frame_view(s[s.len() - 1]))
    }
}

/// The map that a list of (key, frame) pairs stands for: the first pair with a
/// given key gives that key's value.
pub open spec fn entries_view(s: Seq<(String, Frame)>) -> Map<Seq<char>, FrameView>
    decreases s, 1int,
{
    if s.len() == 0 {
        Map::empty()
    } else {
        entries_view(s.subrange(1, s.len() as int)).insert(s[0].0@, frame_view(s[0].1))
    }
}

/// How a failed read of the byte stream went wrong.
#[derive(Debug, Clone, Copy, PartialEq, Eq)]
pub enum IoErrorKind {
    /// The stream ended inside a frame.
    UnexpectedEof,
    /// A line of the stream was not UTF-8.
    InvalidData,
    /// Any other failure of the underlying stream.
    Other,
}

/// The errors of reading, writing and executing frames.
#[derive(Debug)]
pub enum Error {
    ConnectionClosed,
    Incomplete,
    Other,
    Protocol(String),
    Io(IoErrorKind),
}

pub enum ErrorView {
    ConnectionClosed,
    Incomplete,
    Other,
    Protocol(Seq<char>),
    Io(IoErrorKind),
}

impl View for Error {
    type V = ErrorView;

    open spec fn view(&self) -> ErrorView {
        match self {
            Error::ConnectionClosed => ErrorView::ConnectionClosed,
            Error::Incomplete => ErrorView::Incomplete,
            Error::Other => ErrorView::Other,
            Error::Protocol(m) => ErrorView::Protocol(m@),
            Error::Io(k) => ErrorView::Io(*k),
        }
    }
}

/// The name of an I/O error kind, as `Debug` prints it.
pub open spec fn io_kind_name(k: IoErrorKind) -> Seq<char> {
    match k {
        IoErrorKind::UnexpectedEof => "UnexpectedEof"@,
        IoErrorKind::InvalidData => "InvalidData"@,
        IoErrorKind::Other => "Other"@,
    }
}

/// The description of an I/O error kind, as `Display` prints it.
pub open spec fn io_kind_description(k: IoErrorKind) -> Seq<char> {
    match k {
        IoErrorKind::UnexpectedEof => "unexpected end of file"@,
        IoErrorKind::InvalidData => "invalid data"@,
        IoErrorKind::Other => "other error"@,
    }
}

/// The text of an error as `Debug` prints it.
pub open spec fn error_debug(e: ErrorView) -> Seq<char> {
    match e {
        ErrorView::ConnectionClosed => "ConnectionClosed"@,
        ErrorView::Incomplete => "Incomplete"@,
        ErrorView::Other => "Other"@,
        ErrorView::Protocol(m) => "Protocol("@ + debug_quoted(m) + ")"@,
        ErrorView::Io(k) => "Io("@ + io_kind_name(k) + ")"@,
    }
}

/// The text of an error as it is shown to a person.
pub open spec fn error_message(e: ErrorView) -> Seq<char> {
    match e {
        ErrorView::Protocol(m) => m,
        ErrorView::ConnectionClosed => "Connection closed"@,
        ErrorView::Io(k) => "IO error: "@ + io_kind_description(k),
        ErrorView::Incomplete => "Incomplete message"@,
        ErrorView::Other => "Internal server error"@,
    }
}

impl IoErrorKind {
    fn name(&self) -> (s: &'static str)
        ensures
            s@ == io_kind_name(*self),
    {
        match self {
            IoErrorKind::UnexpectedEof => "UnexpectedEof",
            IoErrorKind::InvalidData => "InvalidData",
            IoErrorKind::Other => "Other",
        }
    }

    fn description(&self) -> (s: &'static str)
        ensures
            s@ == io_kind_description(*self),
    {
        match self {
            IoErrorKind::UnexpectedEof => "unexpected end of file",
            IoErrorKind::InvalidData => "invalid data",
            IoErrorKind::Other => "other error",
        }
    }
}

impl Error {
    /// The error as `Debug` prints it (what `format!("{:?}", e)` gives).
    pub fn debug_text(&self) -> (s: String)
        ensures
            s@ == error_debug(self@),
    {
        match self {
            Error::ConnectionClosed => "ConnectionClosed".to_owned(),
            Error::Incomplete => "Incomplete".to_owned(),
            Error::Other => "Other".to_owned(),
            Error::Protocol(m) => {
                let mut s = "Protocol(".to_owned();
                let q = quote_debug(m.as_str());
                s.append(q.as_str());
                s.append(")");
                s
            },
            Error::Io(k) => {
                let mut s = "Io(".to_owned();
                s.append(k.name());
                s.append(")");
                s
            },
        }
    }

    /// The error as it is shown to a person.
    pub fn message(&self) -> (s: String)
        ensures
            s@ == error_message(self@),
    {
        match self {
            Error::Protocol(m) => m.clone(),
            Error::ConnectionClosed => "Connection closed".to_owned(),
            Error::Io(k) => {
                let mut s = "IO error: ".to_owned();
                s.append(k.description());
                s
            },
            Error::Incomplete => "Incomplete message".to_owned(),
            Error::Other => "Internal server error".to_owned(),
        }
    }
}

/// The value of an optional frame.
pub open spec fn opt_view(o: Option<Frame>) -> Option<FrameView> {
    match o {
        Some(f) => Some(f@),
        None => None,
    }
}

/// The value of a lookup's result.
pub open spec fn lookup_view(r: Result<Option<Frame>, Error>) -> Result<Option<FrameView>, ErrorView> {
    match r {
        Ok(o) => Ok(opt_view(o)),
        Err(e) => Err(e@),
    }
}

/// The value of a command's result.
pub open spec fn reply_view(r: Result<Frame, Error>) -> Result<FrameView, ErrorView> {
    match r {
        Ok(f) => Ok(f@),
        Err(e) => Err(e@),
    }
}

impl View for Frame {
    type V = FrameView;

    open spec fn view(&self) -> FrameView {
        frame_view(*self)
    }
}

impl Clone for Frame {
    /// A deep copy, with the same value as `self`.
    fn clone(&self) -> (c: Self)
        ensures
            c@ == self@,
        decreases self,
    {
        match self {
            Frame::Simple(s) => Frame::Simple(s.clone()),
            Frame::Error(s) => Frame::Error(s.clone()),
            Frame::Integer(n) => Frame::Integer(*n),
            Frame::Bulk(b) => Frame::Bulk(bytes_clone(b)),
            Frame::Null => Frame::Null,
            Frame::Array(items) => {
                let mut out: Vec<Frame> = Vec::new();
                let mut i: usize = 0;
                while i < items.len()
                    invariant
                        i <= items.len(),
                        *self == Frame::Array(*items),
                        frames_view(out@) == frames_view(items@.subrange(0, i as int)),
                    decreases items.len() - i,
                {
                    proof {
                        assert(decreases_to!(*self => self->Array_0));
                        assert(decreases_to!(*items => items@));
                        assert(decreases_to!(items@ => items@[i as int]));
                    }
                    let c = items[i].clone();
                    proof {
                        assert(out@.push(c).subrange(0, out@.len() as int) == out@);
                        assert(items@.subrange(0, i + 1).subrange(0, i as int) == items@.subrange(0, i as int));
                    }
                    out.push(c);
                    i = i + 1;
                }
                assert(items@.subrange(0, items@.len() as int) == items@);
                Frame::Array(out)
            },
            Frame::Hash(entries) => {
                let mut out: Vec<(String, Frame)> = Vec::new();
                let mut i: usize = 0;
                while i < entries.len()
                    invariant
                        i <= entries.len(),
                        *self == Frame::Hash(*entries),
                        out@.len() == i,
                        forall|j: int| 0 <= j < i ==> (#[trigger] out@[j]).0@ == entries@[j].0@
                            && out@[j].1@ == entries@[j].1@,
                    decreases entries.len() - i,
                {
                    let k = entries[i].0.clone();
                    proof {
                        assert(decreases_to!(*self => self->Hash_0));
                        assert(decreases_to!(*entries => entries@));
                        assert(decreases_to!(entries@ => entries@[i as int]));
                        assert(decreases_to!(entries@[i as int] => entries@[i as int].1));
                    }
                    let v = entries[i].1.clone();
                    out.push((k, v));
                    i = i + 1;
                }
                proof {
                    lemma_entries_view_congruent(out@, entries@);
                }
                Frame::Hash(out)
            },
        }
    }
}

/// `frames_view` keeps the length and views each element in place.
pub proof fn lemma_frames_view(s: Seq<Frame>)
    ensures
        frames_view(s).len() == s.len(),
        forall|i: int| 0 <= i < s.len() ==> #[trigger] frames_view(s)[i] == s[i]@,
    decreases s.len(),
{
    if s.len() > 0 {
        let t = s.subrange(0, s.len() - 1);
        lemma_frames_view(t);
        assert forall|i: int| 0 <= i < s.len() implies #[trigger] frames_view(s)[i] == s[i]@ by {
            if i < s.len() - 1 {
                assert(t[i] == s[i]);
            }
        }
    }
}

/// Two pair lists with the same keys and frame values, pair by pair, stand for the same map.
pub proof fn lemma_entries_view_congruent(a: Seq<(String, Frame)>, b: Seq<(String, Frame)>)
    requires
        a.len() == b.len(),
        forall|j: int| 0 <= j < a.len() ==> (#[trigger] a[j]).0@ == b[j].0@ && a[j].1@ == b[j].1@,
    ensures
        entries_view(a) == entries_view(b),
    decreases a.len(),
{
    if a.len() > 0 {
        let ta = a.subrange(1, a.len() as int);
        let tb = b.subrange(1, b.len() as int);
        assert forall|j: int| 0 <= j < ta.len() implies (#[trigger] ta[j]).0@ == tb[j].0@ && ta[j].1@ == tb[j].1@ by {
            assert(ta[j] == a[j + 1]);
            assert(tb[j] == b[j + 1]);
        }
        lemma_entries_view_congruent(ta, tb);
        assert(a[0].0@ == b[0].0@ && a[0].1@ == b[0].1@);
    }
}

} // verus!
