//! The RESP wire format: frames to bytes and bytes to frames.
use crate::frame::{
    bytes_as_slice, bytes_from_vec, frames_view, lemma_frames_view, Error, ErrorView, Frame, FrameView,
    IoErrorKind,
};
use vstd::prelude::*;
use crate::text::{
    parse_i32, parse_i32_span, parse_u64, parse_u64_span, trim, trim_bounds, utf8_to_string,
};
use vstd::utf8::{decode_utf8, encode_utf8, valid_utf8};

verus! {

/// The line terminator `\r\n`.
pub open spec fn crlf() -> Seq<u8> {
    seq![13u8, 10u8]
}

/// The decimal digits of `n`, as ASCII bytes.
pub open spec fn decimal(n: nat) -> Seq<u8>
    decreases n,
{
    if n < 10 {
        seq![(n + 48) as u8]
    } else {
        decimal(n / 10).push((n % 10 + 48) as u8)
    }
}

/// The bytes that writing a frame produces, and whether the write completes.
/// A hash cannot be written: the write stops there, keeping what came before.
pub open spec fn emit(f: FrameView) -> (Seq<u8>, bool)
    decreases f, 0int,
{
    match f {
        FrameView::Simple(s) => (seq![43u8] + encode_utf8(s) + crlf(), true),
        FrameView::Error(s) => (seq![45u8] + encode_utf8(s) + crlf(), true),
        FrameView::Integer(n) => (seq![58u8] + decimal(n as nat) + crlf(), true),
        FrameView::Bulk(b) => (seq![36u8] + decimal(b.len()) + crlf() + b + crlf(), true),
        FrameView::Null => (seq![36u8, 45u8, 49u8, 13u8, 10u8], true),
        FrameView::Array(items) => {
            let body = emit_items(items);
            (seq![42u8] + decimal(items.len()) + crlf() + body.0, body.1)
        },
        FrameView::Hash(_) => (Seq::empty(), false),
    }
}

/// The bytes that writing frames one after the other produces, and whether
/// all the writes complete; the first write that fails ends the sequence.
pub open spec fn emit_items(s: Seq<FrameView>) -> (Seq<u8>, bool)
    decreases s, 1int,
{
    if s.len() == 0 {
        (Seq::empty(), true)
    } else {
        let init = emit_items(s.subrange(0, s.len() - 1));
        if !init.1 {
            init
        } else {
            let last = emit(s[s.len() - 1]);
            (init.0 + last.0, last.1)
        }
    }
}

/// Appends the decimal digits of `n`.
pub fn write_decimal(out: &mut Vec<u8>, n: u64)
    ensures
        final(out)@ == old(out)@ + decimal(n as nat),
    decreases n,
{
    if n >= 10 {
        write_decimal(out, n / 10);
    }
    out.push((n % 10) as u8 + 48);
    proof {
        if n < 10 {
            assert(decimal(n as nat) == seq![(n + 48) as u8]);
        }
    }
}

fn write_bytes(out: &mut Vec<u8>, bytes: &[u8])
    ensures
        final(out)@ == old(out)@ + bytes@,
{
    let mut i: usize = 0;
    while i < bytes.len()
        invariant
            i <= bytes.len(),
            out@ == old(out)@ + bytes@.subrange(0, i as int),
        decreases bytes.len() - i,
    {
        out.push(bytes[i]);
        i = i + 1;
        proof {
            assert(bytes@.subrange(0, i as int) == bytes@.subrange(0, i - 1).push(bytes@[i - 1]));
        }
    }
    proof {
        assert(bytes@.subrange(0, bytes@.len() as int) == bytes@);
    }
}

/// Appends the RESP encoding of `frame`. A hash frame cannot be encoded: the
/// encoding stops there with `Error::Other`, keeping the bytes already written.
pub fn encode_frame(frame: &Frame, out: &mut Vec<u8>) -> (r: Result<(), Error>)
    ensures
        final(out)@ == old(out)@ + emit(frame@).0,
        r is Ok <==> emit(frame@).1,
        r matches Err(e) ==> e@ == ErrorView::Other,
    decreases frame,
{
    match frame {
        Frame::Simple(s) => {
            out.push(43);
            write_bytes(out, s.as_str().as_bytes());
            out.push(13);
            out.push(10);
            Ok(())
        },
        Frame::Bulk(b) => {
            let data = bytes_as_slice(b);
            out.push(36);
            write_decimal(out, data.len() as u64);
            out.push(13);
            out.push(10);
            write_bytes(out, data);
            out.push(13);
            out.push(10);
            Ok(())
        },
        Frame::Error(s) => {
            out.push(45);
            write_bytes(out, s.as_str().as_bytes());
            out.push(13);
            out.push(10);
            Ok(())
        },
        Frame::Integer(n) => {
            out.push(58);
            write_decimal(out, *n);
            out.push(13);
            out.push(10);
            Ok(())
        },
        Frame::Array(items) => {
            proof {
                lemma_frames_view(items@);
            }
            let ghost views = frame@->Array_0;
            out.push(42);
            write_decimal(out, items.len() as u64);
            out.push(13);
            out.push(10);
            let ghost header = out@;
            assert(old(out)@ + emit(frame@).0 =~= header + emit_items(views).0);
            let mut i: usize = 0;
            while i < items.len()
                invariant
                    i <= items.len(),
                    *frame == Frame::Array(*items),
                    views == frame@->Array_0,
                    old(out)@ + emit(frame@).0 == header + emit_items(views).0,
                    emit(frame@).1 == emit_items(views).1,
                    views.len() == items@.len(),
                    forall|j: int| 0 <= j < items@.len() ==> #[trigger] views[j] == items@[j]@,
                    emit_items(views.subrange(0, i as int)).1,
                    out@ == header + emit_items(views.subrange(0, i as int)).0,
                decreases items.len() - i,
            {
                proof {
                    assert(decreases_to!(*frame => frame->Array_0));
                    assert(decreases_to!(*items => items@));
                    assert(decreases_to!(items@ => items@[i as int]));
                }
                let r = encode_frame(&items[i], out);
                proof {
                    let p = views.subrange(0, i + 1);
                    assert(p.subrange(0, p.len() - 1) == views.subrange(0, i as int));
                    assert(p[p.len() - 1] == items@[i as int]@);
                }
                if r.is_err() {
                    proof {
                        assert(views.subrange(0, i + 1).len() <= views.len());
                        lemma_emit_items_stops(views, i + 1);
                        let prev = emit_items(views.subrange(0, i as int)).0;
                        assert(emit_items(views.subrange(0, i + 1)).0 == prev + emit(items@[i as int]@).0);
                        assert(out@ =~= header + (prev + emit(items@[i as int]@).0));
                    }
                    return r;
                }
                i = i + 1;
            }
            proof {
                assert(views.subrange(0, views.len() as int) == views);
            }
            Ok(())
        },
        Frame::Null => {
            out.push(36);
            out.push(45);
            out.push(49);
            out.push(13);
            out.push(10);
            Ok(())
        },
        Frame::Hash(_) => Err(Error::Other),
    }
}

/// Once writing a prefix of the frames fails, writing more of them adds nothing.
pub proof fn lemma_emit_items_stops(s: Seq<FrameView>, i: int)
    requires
        0 <= i <= s.len(),
        !emit_items(s.subrange(0, i)).1,
    ensures
        emit_items(s) == emit_items(s.subrange(0, i)),
    decreases s.len() - i,
{
    if i < s.len() {
        let p = s.subrange(0, i + 1);
        assert(p.subrange(0, p.len() - 1) == s.subrange(0, i));
        lemma_emit_items_stops(s, i + 1);
    } else {
        assert(s.subrange(0, i) == s);
    }
}

} // verus!

verus! {

/// The position of the first `\n` at or after `pos`.
pub open spec fn newline_from(s: Seq<u8>, pos: int) -> Option<int>
    decreases s.len() - pos,
{
    if pos < 0 || pos >= s.len() {
        None
    } else if s[pos] == 10 {
        Some(pos)
    } else {
        newline_from(s, pos + 1)
    }
}

/// A line read from `pos`: the bytes up to and including the next `\n`, or
/// up to the end when the stream has ended without one; with the position
/// after it. `None` when more input is needed to finish the line.
pub open spec fn read_line(s: Seq<u8>, pos: int, eof: bool) -> Option<(Seq<u8>, int)> {
    match newline_from(s, pos) {
        Some(j) => Some((s.subrange(pos, j + 1), j + 1)),
        None => if eof {
            Some((s.subrange(pos, s.len() as int), s.len() as int))
        } else {
            None
        },
    }
}

/// The text of a simple-string or error line: the line without its final `\r\n`.
pub open spec fn strip_crlf(t: Seq<char>) -> Seq<char> {
    if t.len() >= 2 && t[t.len() - 2] == '\r' && t[t.len() - 1] == '\n' {
        t.subrange(0, t.len() - 2)
    } else {
        t
    }
}

/// What decoding from a position of a byte stream gives.
pub enum DecodeView {
    /// A frame, and the position after it.
    Done(FrameView, int),
    /// The stream has not yet delivered enough bytes to tell.
    Short,
    /// An error, and the position just after the bytes read before it showed.
    Fail(ErrorView, int),
    /// A negative length other than -1, for which no buffer can be made.
    Unallocatable,
}

/// What decoding several frames in a row gives.
pub enum ItemsView {
    Done(Seq<FrameView>, int),
    Short,
    Fail(ErrorView, int),
    Unallocatable,
}

pub open spec fn lift_items(r: ItemsView) -> DecodeView {
    match r {
        ItemsView::Done(fs, end) => DecodeView::Done(FrameView::Array(fs), end),
        ItemsView::Short => DecodeView::Short,
        ItemsView::Fail(e, p) => DecodeView::Fail(e, p),
        ItemsView::Unallocatable => DecodeView::Unallocatable,
    }
}

pub open spec fn prepend_items(acc: Seq<FrameView>, r: ItemsView) -> ItemsView {
    match r {
        ItemsView::Done(fs, end) => ItemsView::Done(acc + fs, end),
        _ => r,
    }
}

pub open spec fn is_type_byte(b: u8) -> bool {
    b == 43 || b == 45 || b == 58 || b == 36 || b == 42
}

pub proof fn lemma_newline_from(s: Seq<u8>, pos: int)
    ensures
        newline_from(s, pos) matches Some(j) ==> pos <= j < s.len() && s[j] == 10 && forall|i: int|
            pos <= i < j ==> #[trigger] s[i] != 10,
        newline_from(s, pos) is None && 0 <= pos ==> forall|i: int| pos <= i < s.len() ==> #[trigger] s[i] != 10,
    decreases s.len() - pos,
{
    if 0 <= pos < s.len() && s[pos] != 10 {
        lemma_newline_from(s, pos + 1);
    }
}

/// The bulk-string body that follows a length line ending at `next`.
pub open spec fn decode_bulk(s: Seq<u8>, next: int, n: int, eof: bool) -> DecodeView {
    if next + n > s.len() {
        if eof {
            DecodeView::Fail(ErrorView::Io(crate::frame::IoErrorKind::UnexpectedEof), s.len() as int)
        } else {
            DecodeView::Short
        }
    } else {
        match read_line(s, next + n, eof) {
            None => DecodeView::Short,
            Some((tail, after)) => if !valid_utf8(tail) {
                DecodeView::Fail(ErrorView::Io(crate::frame::IoErrorKind::InvalidData), after)
            } else {
                DecodeView::Done(FrameView::Bulk(s.subrange(next, next + n)), after)
            },
        }
    }
}

/// Decoding one frame from position `pos` of the stream `s`; `eof` tells
/// whether the stream ends after `s`.
pub open spec fn decode_at(s: Seq<u8>, pos: int, eof: bool) -> DecodeView
    decreases (s.len() - pos) as nat, 0int,
{
    if pos < 0 || pos >= s.len() {
        if eof {
            DecodeView::Fail(ErrorView::ConnectionClosed, pos)
        } else {
            DecodeView::Short
        }
    } else if !is_type_byte(s[pos]) {
        DecodeView::Fail(ErrorView::Incomplete, pos + 1)
    } else {
        match read_line(s, pos + 1, eof) {
            None => DecodeView::Short,
            Some((line, next)) => {
                proof {
                    lemma_newline_from(s, pos + 1);
                }
                if !valid_utf8(line) {
                    DecodeView::Fail(ErrorView::Io(crate::frame::IoErrorKind::InvalidData), next)
                } else {
                    let text = decode_utf8(line);
                    let tag = s[pos];
                    if tag == 43 {
                        DecodeView::Done(FrameView::Simple(strip_crlf(text)), next)
                    } else if tag == 45 {
                        DecodeView::Done(FrameView::Error(strip_crlf(text)), next)
                    } else if tag == 58 {
                        match parse_u64(trim(text)) {
                            None => DecodeView::Fail(ErrorView::Protocol("invalid int"@), next),
                            Some(n) => DecodeView::Done(FrameView::Integer(n), next),
                        }
                    } else if tag == 36 {
                        match parse_i32(trim(text)) {
                            None => DecodeView::Fail(ErrorView::Protocol("invalid bulk length"@), next),
                            Some(n) => if n == -1 {
                                DecodeView::Done(FrameView::Null, next)
                            } else if n < 0 {
                                DecodeView::Unallocatable
                            } else {
                                decode_bulk(s, next, n as int, eof)
                            },
                        }
                    } else {
                        match parse_i32(trim(text)) {
                            None => DecodeView::Fail(ErrorView::Protocol("invalid array length"@), next),
                            Some(n) => if n == -1 {
                                DecodeView::Done(FrameView::Null, next)
                            } else if n < 0 {
                                DecodeView::Unallocatable
                            } else {
                                lift_items(decode_items(s, next, n as nat, eof))
                            },
                        }
                    }
                }
            },
        }
    }
}

/// Decoding `k` frames in a row from position `pos`.
pub open spec fn decode_items(s: Seq<u8>, pos: int, k: nat, eof: bool) -> ItemsView
    decreases (s.len() - pos) as nat, 1int, k,
{
    if k == 0 {
        ItemsView::Done(Seq::empty(), pos)
    } else {
        match decode_at(s, pos, eof) {
            DecodeView::Done(f, p2) => if pos < p2 <= s.len() {
                prepend_items(seq![f], decode_items(s, p2, (k - 1) as nat, eof))
            } else {
                ItemsView::Fail(ErrorView::Other, pos)
            },
            DecodeView::Short => ItemsView::Short,
            DecodeView::Fail(e, p) => ItemsView::Fail(e, p),
            DecodeView::Unallocatable => ItemsView::Unallocatable,
        }
    }
}

} // verus!

verus! {

/// The outcome of decoding a frame from a byte stream.
pub enum Decoded {
    /// A frame, and the position just after it.
    Frame(Frame, usize),
    /// More bytes are needed before the frame can be decoded.
    NeedMore,
    /// An error, and the position just after the bytes read before it
    /// showed: a stream reader has consumed them.
    Failed(Error, usize),
    /// The frame announces a negative length other than -1; reading it from
    /// a stream makes `Vec` fail with "capacity overflow".
    Unallocatable,
}

impl View for Decoded {
    type V = DecodeView;

    open spec fn view(&self) -> DecodeView {
        match self {
            Decoded::Frame(f, p) => DecodeView::Done(f@, *p as int),
            Decoded::NeedMore => DecodeView::Short,
            Decoded::Failed(e, p) => DecodeView::Fail(e@, *p as int),
            Decoded::Unallocatable => DecodeView::Unallocatable,
        }
    }
}

/// The position just after the line that starts at `from`, or `None` when
/// more input is needed to finish it.
fn line_end(input: &[u8], from: usize, eof: bool) -> (r: Option<usize>)
    requires
        from <= input@.len(),
    ensures
        r is None <==> read_line(input@, from as int, eof) is None,
        r matches Some(next) ==> from <= next <= input@.len() && read_line(input@, from as int, eof)
            == Some((input@.subrange(from as int, next as int), next as int)),
{
    let mut j: usize = from;
    while j < input.len()
        invariant
            from <= j <= input@.len(),
            forall|i: int| from <= i < j ==> #[trigger] input@[i] != 10,
        decreases input.len() - j,
    {
        if input[j] == 10 {
            proof {
                lemma_newline_from_first(input@, from as int, j as int);
            }
            return Some(j + 1);
        }
        j = j + 1;
    }
    proof {
        lemma_newline_from(input@, from as int);
        if newline_from(input@, from as int) is Some {
            let k = newline_from(input@, from as int)->0;
            assert(input@[k] == 10);
        }
    }
    if eof {
        Some(input.len())
    } else {
        None
    }
}

pub proof fn lemma_newline_from_first(s: Seq<u8>, pos: int, j: int)
    requires
        0 <= pos <= j < s.len(),
        s[j] == 10,
        forall|i: int| pos <= i < j ==> #[trigger] s[i] != 10,
    ensures
        newline_from(s, pos) == Some(j),
    decreases j - pos,
{
    if pos < j {
        lemma_newline_from_first(s, pos + 1, j);
    }
}

/// The bytes `input[from..to]` as a string, if they are valid UTF-8.
fn line_string(input: &[u8], from: usize, to: usize) -> (r: Option<String>)
    requires
        from <= to <= input@.len(),
    ensures
        r is Some <==> valid_utf8(input@.subrange(from as int, to as int)),
        r matches Some(t) ==> t@ == decode_utf8(input@.subrange(from as int, to as int)),
{
    utf8_to_string(copy_range(input, from, to))
}

fn copy_range(input: &[u8], from: usize, to: usize) -> (v: Vec<u8>)
    requires
        from <= to <= input@.len(),
    ensures
        v@ == input@.subrange(from as int, to as int),
{
    let mut v: Vec<u8> = Vec::new();
    let mut i: usize = from;
    while i < to
        invariant
            from <= i <= to <= input@.len(),
            v@ == input@.subrange(from as int, i as int),
        decreases to - i,
    {
        v.push(input[i]);
        i = i + 1;
        proof {
            assert(input@.subrange(from as int, i as int) == input@.subrange(from as int, i - 1).push(
                input@[i - 1],
            ));
        }
    }
    v
}

/// The text of a simple-string or error line without its final `\r\n`.
fn strip_line_end(text: String) -> (r: String)
    ensures
        r@ == strip_crlf(text@),
{
    let n = text.as_str().unicode_len();
    if n >= 2 && text.as_str().get_char(n - 2) == '\r' && text.as_str().get_char(n - 1) == '\n' {
        text.as_str().substring_char(0, n - 2).to_owned()
    } else {
        text
    }
}

/// Decodes one frame from position `pos` of `input`, the bytes of a stream
/// received so far; `eof` tells whether the stream ends there.
pub fn decode_frame(input: &[u8], pos: usize, eof: bool) -> (r: Decoded)
    requires
        pos <= input@.len(),
    ensures
        r@ == decode_at(input@, pos as int, eof),
        r matches Decoded::Frame(_, p) ==> pos < p <= input@.len(),
        r matches Decoded::Failed(_, p) ==> pos <= p <= input@.len(),
    decreases input@.len() - pos,
{
    if pos >= input.len() {
        return if eof {
            Decoded::Failed(Error::ConnectionClosed, pos)
        } else {
            Decoded::NeedMore
        };
    }
    let tag = input[pos];
    if !(tag == 43 || tag == 45 || tag == 58 || tag == 36 || tag == 42) {
        return Decoded::Failed(Error::Incomplete, pos + 1);
    }
    let next = match line_end(input, pos + 1, eof) {
        None => {
            return Decoded::NeedMore;
        },
        Some(n) => n,
    };
    let text = match line_string(input, pos + 1, next) {
        None => {
            return Decoded::Failed(Error::Io(IoErrorKind::InvalidData), next);
        },
        Some(t) => t,
    };
    if tag == 43 {
        Decoded::Frame(Frame::Simple(strip_line_end(text)), next)
    } else if tag == 45 {
        Decoded::Frame(Frame::Error(strip_line_end(text)), next)
    } else if tag == 58 {
        let (a, b) = trim_bounds(text.as_str());
        match parse_u64_span(text.as_str(), a, b) {
            None => Decoded::Failed(Error::Protocol("invalid int".to_owned()), next),
            Some(n) => Decoded::Frame(Frame::Integer(n), next),
        }
    } else if tag == 36 {
        let (a, b) = trim_bounds(text.as_str());
        match parse_i32_span(text.as_str(), a, b) {
            None => Decoded::Failed(Error::Protocol("invalid bulk length".to_owned()), next),
            Some(n) => {
                if n == -1 {
                    Decoded::Frame(Frame::Null, next)
                } else if n < 0 {
                    Decoded::Unallocatable
                } else {
                    decode_bulk_body(input, next, n as usize, eof)
                }
            },
        }
    } else {
        let (a, b) = trim_bounds(text.as_str());
        match parse_i32_span(text.as_str(), a, b) {
            None => Decoded::Failed(Error::Protocol("invalid array length".to_owned()), next),
            Some(n) => {
                if n == -1 {
                    Decoded::Frame(Frame::Null, next)
                } else if n < 0 {
                    Decoded::Unallocatable
                } else {
                    decode_array_body(input, pos, next, n as usize, eof)
                }
            },
        }
    }
}

fn decode_bulk_body(input: &[u8], next: usize, n: usize, eof: bool) -> (r: Decoded)
    requires
        next <= input@.len(),
        0 < next,
    ensures
        r@ == decode_bulk(input@, next as int, n as int, eof),
        r matches Decoded::Frame(_, p) ==> next <= p <= input@.len(),
        r matches Decoded::Failed(_, p) ==> next <= p <= input@.len(),
{
    if n > input.len() - next {
        return if eof {
            Decoded::Failed(Error::Io(IoErrorKind::UnexpectedEof), input.len())
        } else {
            Decoded::NeedMore
        };
    }
    let after = match line_end(input, next + n, eof) {
        None => {
            return Decoded::NeedMore;
        },
        Some(a) => a,
    };
    match line_string(input, next + n, after) {
        None => Decoded::Failed(Error::Io(IoErrorKind::InvalidData), after),
        Some(_) => {
            let data = copy_range(input, next, next + n);
            Decoded::Frame(Frame::Bulk(bytes_from_vec(data)), after)
        },
    }
}

fn decode_array_body(input: &[u8], pos: usize, next: usize, count: usize, eof: bool) -> (r: Decoded)
    requires
        pos < next <= input@.len(),
    ensures
        r@ == lift_items(decode_items(input@, next as int, count as nat, eof)),
        r matches Decoded::Frame(_, p) ==> next <= p <= input@.len(),
        r matches Decoded::Failed(_, p) ==> next <= p <= input@.len(),
    decreases input@.len() - pos, 1int,
{
    let ghost s = input@;
    let mut items: Vec<Frame> = Vec::new();
    let mut at: usize = next;
    let mut i: usize = 0;
    while i < count
        invariant
            pos < next <= at <= input@.len(),
            i <= count,
            s == input@,
            decode_items(s, next as int, count as nat, eof) == prepend_items(
                frames_view(items@),
                decode_items(s, at as int, (count - i) as nat, eof),
            ),
        decreases count - i,
    {
        match decode_frame(input, at, eof) {
            Decoded::Frame(f, p) => {
                proof {
                    let rest = decode_items(s, p as int, (count - i - 1) as nat, eof);
                    assert(decode_items(s, at as int, (count - i) as nat, eof) == prepend_items(
                        seq![f@],
                        rest,
                    ));
                    assert(frames_view(items@.push(f)) == frames_view(items@).push(f@)) by {
                        assert(items@.push(f).subrange(0, items@.len() as int) == items@);
                    }
                    assert(frames_view(items@) + seq![f@] == frames_view(items@).push(f@));
                    match rest {
                        ItemsView::Done(fs, e) => {
                            assert(frames_view(items@) + (seq![f@] + fs) == frames_view(items@).push(
                                f@,
                            ) + fs);
                        },
                        _ => {},
                    }
                }
                items.push(f);
                at = p;
            },
            Decoded::NeedMore => {
                return Decoded::NeedMore;
            },
            Decoded::Failed(e, p) => {
                return Decoded::Failed(e, p);
            },
            Decoded::Unallocatable => {
                return Decoded::Unallocatable;
            },
        }
        i = i + 1;
    }
    proof {
        assert(frames_view(items@) + Seq::<FrameView>::empty() == frames_view(items@));
    }
    Decoded::Frame(Frame::Array(items), at)
}

} // verus!
