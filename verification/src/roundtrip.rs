//! What the decoder makes of what the encoder writes.
use crate::frame::FrameView;
use crate::resp::{
    crlf, decimal, decode_at, decode_bulk, decode_items, emit, emit_items, is_type_byte,
    lemma_newline_from, lemma_newline_from_first, lift_items, newline_from, prepend_items, read_line,
    strip_crlf,
    DecodeView, ItemsView,
};
use crate::text::{
    all_digits, digits_value, is_digit, is_whitespace, lemma_trim_end, lemma_trim_start, parse_i32,
    parse_u64, trim,
};
use vstd::prelude::*;
use vstd::utf8::{
    decode_utf8, encode_scalar, encode_utf8, encode_utf8_decode_utf8, encode_utf8_valid_utf8,
    has_width_1_encoding, has_width_2_encoding, has_width_3_encoding, is_ascii_chars,
    is_ascii_chars_encode_utf8, valid_utf8,
};

verus! {

/// The characters `\r\n`.
pub open spec fn crlf_chars() -> Seq<char> {
    seq!['\r', '\n']
}

/// The decimal digits of `n`, as characters.
pub open spec fn decimal_chars(n: nat) -> Seq<char> {
    decimal(n).map_values(|b: u8| b as char)
}

pub proof fn lemma_encode_concat(a: Seq<char>, b: Seq<char>)
    ensures
        encode_utf8(a + b) == encode_utf8(a) + encode_utf8(b),
    decreases a.len(),
{
    if a.len() == 0 {
        assert(a + b == b);
        assert(encode_utf8(a) + encode_utf8(b) == encode_utf8(b));
    } else {
        lemma_encode_concat(a.drop_first(), b);
        assert((a + b).drop_first() == a.drop_first() + b);
        assert((a + b)[0] == a[0]);
        assert(encode_utf8(a + b) == encode_scalar(a[0] as u32) + encode_utf8(a.drop_first() + b));
        assert(encode_utf8(a) == encode_scalar(a[0] as u32) + encode_utf8(a.drop_first()));
        assert(encode_utf8(a + b) =~= encode_utf8(a) + encode_utf8(b));
    }
}

proof fn lemma_scalar_no_newline(c: char)
    requires
        c != '\n',
    ensures
        forall|j: int| 0 <= j < encode_scalar(c as u32).len() ==> #[trigger] encode_scalar(c as u32)[j] != 10,
{
    let v = c as u32;
    if has_width_1_encoding(v) {
        assert(v <= 0x7f ==> (v & 0x7f) as u8 == v) by (bit_vector);
        assert(v != 10);
    } else if has_width_2_encoding(v) {
        assert(0xC0u8 | ((v >> 6) & 0x1F) as u8 != 10u8) by (bit_vector);
        assert(0x80u8 | (v & 0x3F) as u8 != 10u8) by (bit_vector);
    } else if has_width_3_encoding(v) {
        assert(0xE0u8 | ((v >> 12) & 0x0F) as u8 != 10u8) by (bit_vector);
        assert(0x80u8 | ((v >> 6) & 0x3F) as u8 != 10u8) by (bit_vector);
        assert(0x80u8 | (v & 0x3F) as u8 != 10u8) by (bit_vector);
    } else {
        assert(0xF0u8 | ((v >> 18) & 0x7) as u8 != 10u8) by (bit_vector);
        assert(0x80u8 | ((v >> 12) & 0x3F) as u8 != 10u8) by (bit_vector);
        assert(0x80u8 | ((v >> 6) & 0x3F) as u8 != 10u8) by (bit_vector);
        assert(0x80u8 | (v & 0x3F) as u8 != 10u8) by (bit_vector);
    }
}

/// Only the character `\n` encodes to the byte `\n`.
pub proof fn lemma_encode_no_newline(cs: Seq<char>)
    requires
        forall|i: int| 0 <= i < cs.len() ==> #[trigger] cs[i] != '\n',
    ensures
        forall|j: int| 0 <= j < encode_utf8(cs).len() ==> #[trigger] encode_utf8(cs)[j] != 10,
    decreases cs.len(),
{
    if cs.len() > 0 {
        let t = cs.drop_first();
        assert forall|i: int| 0 <= i < t.len() implies #[trigger] t[i] != '\n' by {
            assert(t[i] == cs[i + 1]);
        }
        lemma_encode_no_newline(t);
        assert(cs[0] != '\n');
        lemma_scalar_no_newline(cs[0]);
        let e = encode_utf8(cs);
        let h = encode_scalar(cs[0] as u32);
        assert(e == h + encode_utf8(t));
        assert forall|j: int| 0 <= j < e.len() implies #[trigger] e[j] != 10 by {
            if j < h.len() {
                assert(e[j] == h[j]);
            } else {
                assert(e[j] == encode_utf8(t)[j - h.len()]);
            }
        }
    }
}

/// ASCII characters encode to their own codes.
pub proof fn lemma_encode_ascii(cs: Seq<char>, bs: Seq<u8>)
    requires
        bs.len() == cs.len(),
        forall|i: int| 0 <= i < bs.len() ==> #[trigger] bs[i] < 128 && cs[i] == bs[i] as char,
    ensures
        encode_utf8(cs) == bs,
{
    assert(is_ascii_chars(cs)) by {
        assert forall|i: int| 0 <= i < cs.len() implies '\0' <= #[trigger] cs[i] <= '\u{7f}' by {
            assert(bs[i] < 128);
        }
    }
    is_ascii_chars_encode_utf8(cs);
    assert forall|i: int| 0 <= i < bs.len() implies #[trigger] encode_utf8(cs)[i] == bs[i] by {
        assert(cs[i] as u8 == encode_utf8(cs)[i]);
        let b = bs[i];
        assert(b < 128 ==> ((b as char) as u8) == b);
    }
    assert(encode_utf8(cs) =~= bs);
}

pub proof fn lemma_crlf_chars()
    ensures
        encode_utf8(crlf_chars()) == crlf(),
{
    lemma_encode_ascii(crlf_chars(), crlf());
}

pub proof fn lemma_decimal(n: nat)
    ensures
        decimal(n).len() >= 1,
        forall|i: int| 0 <= i < decimal(n).len() ==> 48 <= #[trigger] decimal(n)[i] <= 57,
        encode_utf8(decimal_chars(n)) == decimal(n),
        all_digits(decimal_chars(n)),
        digits_value(decimal_chars(n)) == n,
    decreases n,
{
    let d = decimal(n);
    let cs = decimal_chars(n);
    if n >= 10 {
        lemma_decimal(n / 10);
        let p = decimal(n / 10);
        assert(d == p.push((n % 10 + 48) as u8));
        assert forall|i: int| 0 <= i < d.len() implies 48 <= #[trigger] d[i] <= 57 by {
            if i < p.len() {
                assert(d[i] == p[i]);
            }
        }
        assert(cs.drop_last() == decimal_chars(n / 10));
    }
    assert forall|i: int| 0 <= i < d.len() implies #[trigger] d[i] < 128 && cs[i] == d[i] as char by {
        assert(48 <= d[i] <= 57);
    }
    lemma_encode_ascii(cs, d);
    assert forall|i: int| 0 <= i < cs.len() implies is_digit(#[trigger] cs[i]) by {
        assert(48 <= d[i] <= 57);
        let b = d[i];
        assert(48 <= b <= 57 ==> '0' <= (b as char) && (b as char) <= '9');
    }
    let last = d[d.len() - 1];
    assert(last as int == n % 10 + 48);
    assert((last as char) as int == last as int);
    assert(cs.last() == last as char);
    assert(digits_value(cs) == digits_value(cs.drop_last()) * 10 + (cs.last() as int - 48));
    if n >= 10 {
        assert(digits_value(cs.drop_last()) == n / 10);
        assert((n / 10) * 10 + n % 10 == n);
    } else {
        assert(cs.drop_last().len() == 0);
    }
}

/// A line made of `body` and `\r\n`, with no `\n` in `body`, read from `start`.
pub proof fn lemma_read_crlf_line(s: Seq<u8>, start: int, body: Seq<u8>, eof: bool)
    requires
        0 <= start,
        start + body.len() + 2 <= s.len(),
        s.subrange(start, start + body.len() + 2) == body + crlf(),
        forall|j: int| 0 <= j < body.len() ==> #[trigger] body[j] != 10,
    ensures
        read_line(s, start, eof) == Some((body + crlf(), start + body.len() + 2)),
{
    let end = start + body.len() + 2;
    let line = body + crlf();
    assert forall|i: int| start <= i < end - 1 implies #[trigger] s[i] != 10 by {
        assert(s[i] == s.subrange(start, end)[i - start]);
        if i - start < body.len() {
            assert(line[i - start] == body[i - start]);
        } else {
            assert(line[i - start] == 13);
        }
    }
    assert(s[end - 1] == s.subrange(start, end)[end - 1 - start]);
    assert(line[end - 1 - start] == 10);
    lemma_newline_from_first(s, start, end - 1);
}

/// A line of text: the UTF-8 encoding of characters without `\n`, then `\r\n`.
pub proof fn lemma_text_line(cs: Seq<char>)
    requires
        forall|i: int| 0 <= i < cs.len() ==> #[trigger] cs[i] != '\n',
    ensures
        valid_utf8(encode_utf8(cs) + crlf()),
        decode_utf8(encode_utf8(cs) + crlf()) == cs + crlf_chars(),
        forall|j: int| 0 <= j < encode_utf8(cs).len() ==> #[trigger] encode_utf8(cs)[j] != 10,
{
    lemma_encode_concat(cs, crlf_chars());
    lemma_crlf_chars();
    encode_utf8_valid_utf8(cs + crlf_chars());
    encode_utf8_decode_utf8(cs + crlf_chars());
    lemma_encode_no_newline(cs);
}

/// Trimming a line whose text starts and ends with non-space characters
/// leaves just that text.
pub proof fn lemma_trim_line(cs: Seq<char>)
    requires
        cs.len() >= 1,
        !is_whitespace(cs[0]),
        !is_whitespace(cs[cs.len() - 1]),
    ensures
        trim(cs + crlf_chars()) == cs,
{
    let t = cs + crlf_chars();
    assert(t[0] == cs[0]);
    lemma_trim_start(t, 0);
    assert(t.subrange(0, t.len() as int) == t);
    assert forall|i: int| cs.len() <= i < t.len() implies is_whitespace(#[trigger] t[i]) by {
        assert(t[i] == crlf_chars()[i - cs.len()]);
    }
    assert(t[cs.len() - 1] == cs[cs.len() - 1]);
    lemma_trim_end(t, cs.len() as int);
    assert(t.subrange(0, cs.len() as int) == cs);
}

/// The digits of a number parse back to it.
pub proof fn lemma_parse_decimal(n: nat)
    ensures
        n <= u64::MAX ==> parse_u64(decimal_chars(n)) == Some(n as u64),
        n <= i32::MAX ==> parse_i32(decimal_chars(n)) == Some(n as i32),
        trim(decimal_chars(n) + crlf_chars()) == decimal_chars(n),
{
    lemma_decimal(n);
    let cs = decimal_chars(n);
    assert(is_digit(cs[0]));
    assert(is_digit(cs[cs.len() - 1]));
    lemma_trim_line(cs);
}

/// `-1` parses as -1.
pub proof fn lemma_parse_minus_one()
    ensures
        parse_i32(seq!['-', '1']) == Some(-1i32),
        trim(seq!['-', '1'] + crlf_chars()) == seq!['-', '1'],
{
    let s = seq!['-', '1'];
    let ds = s.drop_first();
    assert(ds == seq!['1']);
    assert(all_digits(ds));
    assert(ds.drop_last().len() == 0);
    assert(ds.last() == '1');
    assert(('1' as int) == 49);
    assert(digits_value(ds.drop_last()) == 0);
    assert(digits_value(ds) == 1);
    lemma_trim_line(s);
}

/// A frame that reads back as itself once written: no hashes (they cannot be
/// written), no `\n` inside simple strings or error messages (it would end
/// their line), and lengths that fit in an `i32`.
pub open spec fn wire_safe(f: FrameView) -> bool
    decreases f, 0int,
{
    match f {
        FrameView::Simple(s) => forall|i: int| 0 <= i < s.len() ==> #[trigger] s[i] != '\n',
        FrameView::Error(s) => forall|i: int| 0 <= i < s.len() ==> #[trigger] s[i] != '\n',
        FrameView::Integer(_) => true,
        FrameView::Bulk(b) => b.len() <= i32::MAX,
        FrameView::Null => true,
        FrameView::Array(items) => items.len() <= i32::MAX && all_wire_safe(items),
        FrameView::Hash(_) => false,
    }
}

pub open spec fn all_wire_safe(s: Seq<FrameView>) -> bool
    decreases s, 1int,
{
    s.len() == 0 || (wire_safe(s[0]) && all_wire_safe(s.subrange(1, s.len() as int)))
}

pub proof fn lemma_all_wire_safe(s: Seq<FrameView>)
    ensures
        all_wire_safe(s) <==> forall|i: int| 0 <= i < s.len() ==> #[trigger] wire_safe(s[i]),
    decreases s.len(),
{
    if s.len() > 0 {
        let t = s.subrange(1, s.len() as int);
        lemma_all_wire_safe(t);
        if forall|i: int| 0 <= i < s.len() ==> #[trigger] wire_safe(s[i]) {
            assert forall|i: int| 0 <= i < t.len() implies #[trigger] wire_safe(t[i]) by {
                assert(t[i] == s[i + 1]);
            }
            assert(wire_safe(s[0]));
        }
        if all_wire_safe(s) {
            assert forall|i: int| 0 <= i < s.len() implies #[trigger] wire_safe(s[i]) by {
                if i > 0 {
                    assert(s[i] == t[i - 1]);
                }
            }
        }
    }
}

/// Writing a wire-safe frame completes, and writes at least its type byte.
pub proof fn lemma_emit_complete(f: FrameView)
    requires
        wire_safe(f),
    ensures
        emit(f).1,
        emit(f).0.len() >= 1,
    decreases f, 0int,
{
    if let FrameView::Array(items) = f {
        lemma_all_wire_safe(items);
        lemma_emit_items_complete(items);
    }
}

pub proof fn lemma_emit_items_complete(s: Seq<FrameView>)
    requires
        forall|i: int| 0 <= i < s.len() ==> #[trigger] wire_safe(s[i]),
    ensures
        emit_items(s).1,
        s.len() > 0 ==> emit_items(s).0 == emit(s[0]).0 + emit_items(s.subrange(1, s.len() as int)).0,
    decreases s, 1int,
{
    if s.len() > 0 {
        let init = s.subrange(0, s.len() - 1);
        assert forall|i: int| 0 <= i < init.len() implies #[trigger] wire_safe(init[i]) by {
            assert(init[i] == s[i]);
        }
        assert(decreases_to!(s => init));
        lemma_emit_items_complete(init);
        assert(wire_safe(s[s.len() - 1]));
        lemma_emit_complete(s[s.len() - 1]);
        if s.len() > 1 {
            let tail = s.subrange(1, s.len() as int);
            let mid = init.subrange(1, init.len() as int);
            assert(tail.subrange(0, tail.len() - 1) == mid);
            assert(tail[tail.len() - 1] == s[s.len() - 1]);
            assert forall|i: int| 0 <= i < tail.len() implies #[trigger] wire_safe(tail[i]) by {
                assert(tail[i] == s[i + 1]);
            }
            assert forall|i: int| 0 <= i < mid.len() implies #[trigger] wire_safe(mid[i]) by {
                assert(mid[i] == s[i + 1]);
            }
            assert(decreases_to!(s => mid));
            lemma_emit_items_complete(mid);
            assert(init[0] == s[0]);
            assert(emit_items(s).0 == emit_items(init).0 + emit(s[s.len() - 1]).0);
            assert(emit_items(tail).0 == emit_items(mid).0 + emit(s[s.len() - 1]).0);
            assert(emit_items(s).0 =~= emit(s[0]).0 + emit_items(tail).0);
        } else {
            let tail = s.subrange(1, s.len() as int);
            assert(init.len() == 0);
            assert(tail.len() == 0);
            assert(emit_items(s).0 =~= emit(s[0]).0 + emit_items(tail).0);
        }
    }
}

proof fn lemma_window(s: Seq<u8>, pos: int, e: Seq<u8>, a: int, b: int)
    requires
        0 <= pos,
        pos + e.len() <= s.len(),
        s.subrange(pos, pos + e.len()) == e,
        0 <= a <= b <= e.len(),
    ensures
        s.subrange(pos + a, pos + b) == e.subrange(a, b),
        a < e.len() ==> s[pos + a] == e[a],
{
    assert(s.subrange(pos + a, pos + b) =~= e.subrange(a, b)) by {
        assert forall|i: int| 0 <= i < b - a implies s.subrange(pos + a, pos + b)[i] == #[trigger] e.subrange(a, b)[i] by {
            assert(s[pos + a + i] == s.subrange(pos, pos + e.len())[a + i]);
        }
    }
    if a < e.len() {
        assert(s[pos + a] == s.subrange(pos, pos + e.len())[a]);
    }
}

/// A number line (`body` followed by `\r\n`, starting at `start`) whose body
/// is the digits of `n` reads back as those digits.
proof fn lemma_number_line(s: Seq<u8>, start: int, n: nat, eof: bool)
    requires
        0 <= start,
        start + decimal(n).len() + 2 <= s.len(),
        s.subrange(start, start + decimal(n).len() + 2) == decimal(n) + crlf(),
    ensures
        read_line(s, start, eof) == Some((decimal(n) + crlf(), start + decimal(n).len() + 2)),
        valid_utf8(decimal(n) + crlf()),
        trim(decode_utf8(decimal(n) + crlf())) == decimal_chars(n),
        n <= u64::MAX ==> parse_u64(decimal_chars(n)) == Some(n as u64),
        n <= i32::MAX ==> parse_i32(decimal_chars(n)) == Some(n as i32),
{
    lemma_decimal(n);
    let cs = decimal_chars(n);
    assert forall|i: int| 0 <= i < cs.len() implies #[trigger] cs[i] != '\n' by {
        assert(is_digit(cs[i]));
    }
    lemma_text_line(cs);
    lemma_read_crlf_line(s, start, decimal(n), eof);
    lemma_parse_decimal(n);
}

/// The conditions under which a frame is looked for at `pos`: its encoding
/// stands there in the stream.
pub open spec fn written_at(s: Seq<u8>, pos: int, e: Seq<u8>) -> bool {
    &&& 0 <= pos
    &&& pos + e.len() <= s.len()
    &&& s.subrange(pos, pos + e.len()) == e
}

proof fn lemma_decode_simple(s: Seq<u8>, pos: int, cs: Seq<char>, eof: bool)
    requires
        wire_safe(FrameView::Simple(cs)),
        written_at(s, pos, emit(FrameView::Simple(cs)).0),
    ensures
        decode_at(s, pos, eof) == DecodeView::Done(
            FrameView::Simple(cs),
            pos + emit(FrameView::Simple(cs)).0.len(),
        ),
{
    let e = emit(FrameView::Simple(cs)).0;
    lemma_window(s, pos, e, 0, e.len() as int);
    lemma_window(s, pos, e, 1, e.len() as int);
    let body = encode_utf8(cs);
    assert(e.subrange(1, e.len() as int) =~= body + crlf());
    lemma_text_line(cs);
    lemma_read_crlf_line(s, pos + 1, body, eof);
    let t = cs + crlf_chars();
    assert(t.subrange(0, t.len() - 2) =~= cs);
    assert(strip_crlf(t) == cs);
}

proof fn lemma_decode_error(s: Seq<u8>, pos: int, cs: Seq<char>, eof: bool)
    requires
        wire_safe(FrameView::Error(cs)),
        written_at(s, pos, emit(FrameView::Error(cs)).0),
    ensures
        decode_at(s, pos, eof) == DecodeView::Done(
            FrameView::Error(cs),
            pos + emit(FrameView::Error(cs)).0.len(),
        ),
{
    let e = emit(FrameView::Error(cs)).0;
    lemma_window(s, pos, e, 0, e.len() as int);
    lemma_window(s, pos, e, 1, e.len() as int);
    let body = encode_utf8(cs);
    assert(e.subrange(1, e.len() as int) =~= body + crlf());
    lemma_text_line(cs);
    lemma_read_crlf_line(s, pos + 1, body, eof);
    let t = cs + crlf_chars();
    assert(t.subrange(0, t.len() - 2) =~= cs);
    assert(strip_crlf(t) == cs);
}

proof fn lemma_decode_integer(s: Seq<u8>, pos: int, n: u64, eof: bool)
    requires
        written_at(s, pos, emit(FrameView::Integer(n)).0),
    ensures
        decode_at(s, pos, eof) == DecodeView::Done(
            FrameView::Integer(n),
            pos + emit(FrameView::Integer(n)).0.len(),
        ),
{
    let e = emit(FrameView::Integer(n)).0;
    lemma_window(s, pos, e, 0, e.len() as int);
    lemma_window(s, pos, e, 1, e.len() as int);
    let d = decimal(n as nat);
    assert(e.subrange(1, e.len() as int) =~= d + crlf());
    lemma_number_line(s, pos + 1, n as nat, eof);
}

proof fn lemma_decode_null(s: Seq<u8>, pos: int, eof: bool)
    requires
        written_at(s, pos, emit(FrameView::Null).0),
    ensures
        decode_at(s, pos, eof) == DecodeView::Done(FrameView::Null, pos + emit(FrameView::Null).0.len()),
{
    let e = emit(FrameView::Null).0;
    lemma_window(s, pos, e, 0, e.len() as int);
    lemma_window(s, pos, e, 1, e.len() as int);
    let body = seq![45u8, 49u8];
    let cs = seq!['-', '1'];
    assert(e.subrange(1, e.len() as int) =~= body + crlf());
    lemma_encode_ascii(cs, body);
    assert forall|i: int| 0 <= i < cs.len() implies #[trigger] cs[i] != '\n' by {}
    lemma_text_line(cs);
    lemma_read_crlf_line(s, pos + 1, body, eof);
    lemma_parse_minus_one();
}

proof fn lemma_decode_bulk(s: Seq<u8>, pos: int, b: Seq<u8>, eof: bool)
    requires
        wire_safe(FrameView::Bulk(b)),
        written_at(s, pos, emit(FrameView::Bulk(b)).0),
    ensures
        decode_at(s, pos, eof) == DecodeView::Done(
            FrameView::Bulk(b),
            pos + emit(FrameView::Bulk(b)).0.len(),
        ),
{
    let e = emit(FrameView::Bulk(b)).0;
    let end = pos + e.len();
    lemma_window(s, pos, e, 0, e.len() as int);
    let n = b.len();
    let d = decimal(n);
    let head = seq![36u8] + d + crlf();
    assert(e =~= head + b + crlf());
    lemma_window(s, pos, e, 1, 1 + d.len() as int + 2);
    assert(e.subrange(1, 1 + d.len() as int + 2) =~= d + crlf());
    lemma_number_line(s, pos + 1, n, eof);
    let next = pos + 1 + d.len() + 2;
    lemma_window(s, pos, e, head.len() as int, head.len() + n as int);
    assert(e.subrange(head.len() as int, head.len() + n as int) =~= b);
    lemma_window(s, pos, e, head.len() + n as int, e.len() as int);
    assert(e.subrange(head.len() + n as int, e.len() as int) =~= Seq::<u8>::empty() + crlf());
    lemma_read_crlf_line(s, next + n as int, Seq::empty(), eof);
    lemma_crlf_chars();
    encode_utf8_valid_utf8(crlf_chars());
    assert(Seq::<u8>::empty() + crlf() =~= crlf());
    assert(decode_bulk(s, next, n as int, eof) == DecodeView::Done(FrameView::Bulk(b), end));
}

/// Decoding what writing a wire-safe frame produced gives back the frame,
/// whatever follows it in the stream.
pub proof fn lemma_decode_emit(s: Seq<u8>, pos: int, f: FrameView, eof: bool)
    requires
        wire_safe(f),
        written_at(s, pos, emit(f).0),
    ensures
        decode_at(s, pos, eof) == DecodeView::Done(f, pos + emit(f).0.len()),
    decreases f, 0int,
{
    match f {
        FrameView::Simple(cs) => lemma_decode_simple(s, pos, cs, eof),
        FrameView::Error(cs) => lemma_decode_error(s, pos, cs, eof),
        FrameView::Integer(n) => lemma_decode_integer(s, pos, n, eof),
        FrameView::Null => lemma_decode_null(s, pos, eof),
        FrameView::Bulk(b) => lemma_decode_bulk(s, pos, b, eof),
        FrameView::Array(items) => {
            let e = emit(f).0;
            let end = pos + e.len();
            lemma_window(s, pos, e, 0, e.len() as int);
            let k = items.len();
            let d = decimal(k);
            let body = emit_items(items).0;
            let head = seq![42u8] + d + crlf();
            assert(e =~= head + body);
            lemma_window(s, pos, e, 1, 1 + d.len() as int + 2);
            assert(e.subrange(1, 1 + d.len() as int + 2) =~= d + crlf());
            lemma_number_line(s, pos + 1, k, eof);
            let next = pos + 1 + d.len() + 2;
            lemma_window(s, pos, e, head.len() as int, e.len() as int);
            assert(e.subrange(head.len() as int, e.len() as int) =~= body);
            lemma_all_wire_safe(items);
            assert(decreases_to!(f => f->Array_0));
            lemma_decode_emit_items(s, next, items, eof);
            assert(lift_items(decode_items(s, next, k, eof)) == DecodeView::Done(f, end));
        },
        _ => {},
    }
}

/// Decoding what writing wire-safe frames in a row produced gives back the frames.
pub proof fn lemma_decode_emit_items(s: Seq<u8>, pos: int, fs: Seq<FrameView>, eof: bool)
    requires
        forall|i: int| 0 <= i < fs.len() ==> #[trigger] wire_safe(fs[i]),
        written_at(s, pos, emit_items(fs).0),
    ensures
        decode_items(s, pos, fs.len(), eof) == ItemsView::Done(fs, pos + emit_items(fs).0.len()),
    decreases fs, 1int,
{
    if fs.len() == 0 {
        assert(emit_items(fs).0.len() == 0);
        assert(fs =~= Seq::<FrameView>::empty());
    } else {
        lemma_emit_items_complete(fs);
        let e0 = emit(fs[0]).0;
        let rest = fs.subrange(1, fs.len() as int);
        let er = emit_items(rest).0;
        let all = emit_items(fs).0;
        assert(all == e0 + er);
        lemma_emit_complete(fs[0]);
        lemma_window(s, pos, all, 0, e0.len() as int);
        assert(all.subrange(0, e0.len() as int) =~= e0);
        lemma_decode_emit(s, pos, fs[0], eof);
        lemma_window(s, pos, all, e0.len() as int, all.len() as int);
        assert(all.subrange(e0.len() as int, all.len() as int) =~= er);
        assert forall|i: int| 0 <= i < rest.len() implies #[trigger] wire_safe(rest[i]) by {
            assert(rest[i] == fs[i + 1]);
        }
        lemma_decode_emit_items(s, pos + e0.len(), rest, eof);
        assert(seq![fs[0]] + rest =~= fs);
        assert(decode_items(s, pos, fs.len(), eof) == prepend_items(
            seq![fs[0]],
            decode_items(s, pos + e0.len(), rest.len(), eof),
        ));
    }
}

} // verus!

verus! {

/// A wire-safe frame written to a stream is read back as itself, whatever
/// follows it in the stream and whether or not the stream ends there.
pub proof fn law_decode_reads_back_what_encode_wrote(f: FrameView, rest: Seq<u8>, eof: bool)
    requires
        wire_safe(f),
    ensures
        emit(f).1,
        decode_at(emit(f).0 + rest, 0, eof) == DecodeView::Done(f, emit(f).0.len() as int),
{
    let e = emit(f).0;
    let s = e + rest;
    assert(s.subrange(0, e.len() as int) == e);
    lemma_emit_complete(f);
    lemma_decode_emit(s, 0, f, eof);
}

/// Once the stream has ended, decoding never waits for more bytes.
pub proof fn law_decode_at_end_never_waits(s: Seq<u8>, pos: int)
    ensures
        !(decode_at(s, pos, true) is Short),
    decreases (s.len() - pos) as nat, 0int, 0nat,
{
    if 0 <= pos < s.len() && is_type_byte(s[pos]) {
        lemma_newline_from(s, pos + 1);
        let r = read_line(s, pos + 1, true);
        if let Some((line, next)) = r {
            if valid_utf8(line) && s[pos] == 42 {
                let text = decode_utf8(line);
                if let Some(n) = parse_i32(trim(text)) {
                    if n >= 0 {
                        lemma_decode_items_at_end_never_waits(s, next, n as nat);
                    }
                }
            }
        }
    }
}

proof fn lemma_decode_items_at_end_never_waits(s: Seq<u8>, pos: int, k: nat)
    requires
        0 <= pos <= s.len(),
    ensures
        !(decode_items(s, pos, k, true) is Short),
    decreases (s.len() - pos) as nat, 1int, k,
{
    if k > 0 {
        law_decode_at_end_never_waits(s, pos);
        if let DecodeView::Done(f, p2) = decode_at(s, pos, true) {
            if pos < p2 <= s.len() {
                lemma_decode_items_at_end_never_waits(s, p2, (k - 1) as nat);
            }
        }
    }
}

} // verus!

verus! {

/// Only the first `s.len() - pos` bytes of `e` stand at `pos`, up to the end
/// of `s`: the stream has delivered part of `e`, not all of it.
pub open spec fn partly_written_at(s: Seq<u8>, pos: int, e: Seq<u8>) -> bool {
    &&& 0 <= pos <= s.len()
    &&& s.len() - pos < e.len()
    &&& s.subrange(pos, s.len() as int) == e.subrange(0, s.len() - pos)
}

proof fn lemma_partial_window(s: Seq<u8>, pos: int, e: Seq<u8>, a: int, b: int)
    requires
        partly_written_at(s, pos, e),
        0 <= a <= b <= s.len() - pos,
    ensures
        s.subrange(pos + a, pos + b) == e.subrange(a, b),
        a < s.len() - pos ==> s[pos + a] == e[a],
{
    let n = s.len() - pos;
    assert(s.subrange(pos + a, pos + b) =~= e.subrange(a, b)) by {
        assert forall|i: int| 0 <= i < b - a implies s.subrange(pos + a, pos + b)[i]
            == #[trigger] e.subrange(a, b)[i] by {
            assert(s[pos + a + i] == s.subrange(pos, s.len() as int)[a + i]);
            assert(e.subrange(0, n)[a + i] == e[a + i]);
        }
    }
    if a < n {
        assert(s[pos + a] == s.subrange(pos, s.len() as int)[a]);
        assert(e.subrange(0, n)[a] == e[a]);
    }
}

/// A line whose `\n` has not arrived yet cannot be read from an open stream.
proof fn lemma_line_not_arrived(s: Seq<u8>, start: int)
    requires
        0 <= start <= s.len(),
        forall|i: int| start <= i < s.len() ==> #[trigger] s[i] != 10,
    ensures
        read_line(s, start, false) is None,
{
    lemma_newline_from(s, start);
    if newline_from(s, start) is Some {
        let j = newline_from(s, start)->0;
        assert(s[j] == 10);
    }
}

/// When part of a frame has arrived and its first line, ending at `h`, has
/// not, an open stream waits for more.
proof fn lemma_short_in_first_line(s: Seq<u8>, pos: int, e: Seq<u8>, h: int)
    requires
        partly_written_at(s, pos, e),
        1 <= h <= e.len(),
        is_type_byte(e[0]),
        forall|j: int| 1 <= j < h - 1 ==> #[trigger] e[j] != 10,
        s.len() - pos < h,
    ensures
        decode_at(s, pos, false) == DecodeView::Short,
{
    let n = s.len() - pos;
    if n > 0 {
        lemma_partial_window(s, pos, e, 0, n);
        assert forall|i: int| pos + 1 <= i < s.len() implies #[trigger] s[i] != 10 by {
            lemma_partial_window(s, pos, e, i - pos, n);
            assert(e[i - pos] != 10);
        }
        lemma_line_not_arrived(s, pos + 1);
    }
}

/// The bytes of a line of text before its `\n`: none is a `\n`.
proof fn lemma_text_line_bytes(e: Seq<u8>, body: Seq<u8>)
    requires
        e.len() == body.len() + 3,
        e.subrange(1, e.len() as int) == body + crlf(),
        forall|j: int| 0 <= j < body.len() ==> #[trigger] body[j] != 10,
    ensures
        forall|j: int| 1 <= j < e.len() - 1 ==> #[trigger] e[j] != 10,
        e[e.len() - 1] == 10,
{
    assert forall|j: int| 1 <= j < e.len() - 1 implies #[trigger] e[j] != 10 by {
        assert(e[j] == e.subrange(1, e.len() as int)[j - 1]);
        if j - 1 < body.len() {
            assert((body + crlf())[j - 1] == body[j - 1]);
        } else {
            assert((body + crlf())[j - 1] == 13);
        }
    }
    assert(e[e.len() - 1] == e.subrange(1, e.len() as int)[e.len() - 2]);
}

proof fn lemma_prefix_of_line_frame(s: Seq<u8>, pos: int, f: FrameView, body: Seq<u8>)
    requires
        partly_written_at(s, pos, emit(f).0),
        emit(f).0.len() == body.len() + 3,
        emit(f).0.subrange(1, emit(f).0.len() as int) == body + crlf(),
        is_type_byte(emit(f).0[0]),
        forall|j: int| 0 <= j < body.len() ==> #[trigger] body[j] != 10,
    ensures
        decode_at(s, pos, false) == DecodeView::Short,
{
    let e = emit(f).0;
    lemma_text_line_bytes(e, body);
    lemma_short_in_first_line(s, pos, e, e.len() as int);
}

/// The header line `t` + digits + `\r\n` of a bulk string or an array.
proof fn lemma_header_bytes(e: Seq<u8>, d: Seq<u8>)
    requires
        e.len() >= d.len() + 3,
        e.subrange(1, d.len() as int + 3) == d + crlf(),
        forall|j: int| 0 <= j < d.len() ==> 48 <= #[trigger] d[j] <= 57,
    ensures
        forall|j: int| 1 <= j < d.len() + 2 ==> #[trigger] e[j] != 10,
{
    assert forall|j: int| 1 <= j < d.len() + 2 implies #[trigger] e[j] != 10 by {
        assert(e[j] == e.subrange(1, d.len() as int + 3)[j - 1]);
        if j - 1 < d.len() {
            assert((d + crlf())[j - 1] == d[j - 1]);
            assert(48 <= d[j - 1] <= 57);
        } else {
            assert((d + crlf())[j - 1] == 13);
        }
    }
}

/// Decoding from an open stream that has delivered only part of a wire-safe
/// frame waits for the rest.
pub proof fn lemma_decode_prefix(s: Seq<u8>, pos: int, f: FrameView)
    requires
        wire_safe(f),
        partly_written_at(s, pos, emit(f).0),
    ensures
        decode_at(s, pos, false) == DecodeView::Short,
    decreases f, 2int,
{
    let e = emit(f).0;
    let n = s.len() - pos;
    if n == 0 {
        assert(pos >= s.len());
    } else {
        lemma_decode_prefix_started(s, pos, f);
    }
}

proof fn lemma_decode_prefix_started(s: Seq<u8>, pos: int, f: FrameView)
    requires
        wire_safe(f),
        partly_written_at(s, pos, emit(f).0),
        s.len() - pos > 0,
    ensures
        decode_at(s, pos, false) == DecodeView::Short,
    decreases f, 1int,
{
    let e = emit(f).0;
    let n = s.len() - pos;
    match f {
        FrameView::Simple(cs) => {
            lemma_text_line(cs);
            assert(e.subrange(1, e.len() as int) =~= encode_utf8(cs) + crlf());
            lemma_prefix_of_line_frame(s, pos, f, encode_utf8(cs));
        },
        FrameView::Error(cs) => {
            lemma_text_line(cs);
            assert(e.subrange(1, e.len() as int) =~= encode_utf8(cs) + crlf());
            lemma_prefix_of_line_frame(s, pos, f, encode_utf8(cs));
        },
        FrameView::Integer(k) => {
            lemma_decimal(k as nat);
            assert(e.subrange(1, e.len() as int) =~= decimal(k as nat) + crlf());
            lemma_prefix_of_line_frame(s, pos, f, decimal(k as nat));
        },
        FrameView::Null => {
            let body = seq![45u8, 49u8];
            assert(e.subrange(1, e.len() as int) =~= body + crlf());
            lemma_prefix_of_line_frame(s, pos, f, body);
        },
        FrameView::Bulk(b) => {
            let k = b.len();
            let d = decimal(k);
            lemma_decimal(k);
            let head = seq![36u8] + d + crlf();
            let h = head.len() as int;
            assert(e =~= head + b + crlf());
            assert(e.subrange(1, d.len() as int + 3) =~= d + crlf());
            lemma_header_bytes(e, d);
            if n < h {
                lemma_short_in_first_line(s, pos, e, h);
            } else {
                lemma_partial_window(s, pos, e, 0, n);
                assert(s[pos] == e[0]);
                lemma_partial_window(s, pos, e, 1, h);
                lemma_number_line(s, pos + 1, k, false);
                let next = pos + h;
                if next + k as int <= s.len() {
                    let tail_start = next + k as int;
                    assert forall|i: int| tail_start <= i < s.len() implies #[trigger] s[i] != 10 by {
                        lemma_partial_window(s, pos, e, i - pos, n);
                        assert(e[i - pos] == crlf()[i - pos - h - k as int]);
                    }
                    lemma_line_not_arrived(s, tail_start);
                }
                assert(decode_bulk(s, next, k as int, false) == DecodeView::Short);
                assert(decode_at(s, pos, false) == DecodeView::Short);
            }
        },
        FrameView::Array(items) => {
            let k = items.len();
            let d = decimal(k);
            lemma_decimal(k);
            let body = emit_items(items).0;
            let head = seq![42u8] + d + crlf();
            let h = head.len() as int;
            assert(e =~= head + body);
            assert(e.subrange(1, d.len() as int + 3) =~= d + crlf());
            lemma_header_bytes(e, d);
            if n < h {
                lemma_short_in_first_line(s, pos, e, h);
            } else {
                lemma_partial_window(s, pos, e, 0, n);
                assert(s[pos] == e[0]);
                lemma_partial_window(s, pos, e, 1, h);
                lemma_number_line(s, pos + 1, k, false);
                let next = pos + h;
                lemma_partial_window(s, pos, e, h, n);
                assert(e.subrange(h, n) =~= body.subrange(0, n - h));
                lemma_all_wire_safe(items);
                assert(decreases_to!(f => f->Array_0));
                lemma_decode_items_prefix(s, next, items);
                assert(decode_items(s, next, k, false) == ItemsView::Short);
                assert(lift_items(decode_items(s, next, k, false)) == DecodeView::Short);
                assert(decode_at(s, pos, false) == DecodeView::Short);
            }
        },
        _ => {},
    }
}

/// Decoding frames in a row from an open stream that has delivered only part
/// of their encoding waits for the rest.
pub proof fn lemma_decode_items_prefix(s: Seq<u8>, pos: int, fs: Seq<FrameView>)
    requires
        forall|i: int| 0 <= i < fs.len() ==> #[trigger] wire_safe(fs[i]),
        partly_written_at(s, pos, emit_items(fs).0),
    ensures
        decode_items(s, pos, fs.len(), false) == ItemsView::Short,
    decreases fs, 0int,
{
    if fs.len() == 0 {
        assert(emit_items(fs).0.len() == 0);
    } else {
        lemma_emit_items_complete(fs);
        let e0 = emit(fs[0]).0;
        let rest = fs.subrange(1, fs.len() as int);
        let er = emit_items(rest).0;
        let all = emit_items(fs).0;
        assert(all == e0 + er);
        let n = s.len() - pos;
        lemma_emit_complete(fs[0]);
        if n < e0.len() {
            lemma_partial_window(s, pos, all, 0, n);
            assert(all.subrange(0, n) =~= e0.subrange(0, n));
            lemma_decode_prefix(s, pos, fs[0]);
        } else {
            lemma_partial_window(s, pos, all, 0, e0.len() as int);
            assert(all.subrange(0, e0.len() as int) =~= e0);
            lemma_decode_emit(s, pos, fs[0], false);
            lemma_partial_window(s, pos, all, e0.len() as int, n);
            assert(all.subrange(e0.len() as int, n) =~= er.subrange(0, n - e0.len()));
            assert forall|i: int| 0 <= i < rest.len() implies #[trigger] wire_safe(rest[i]) by {
                assert(rest[i] == fs[i + 1]);
            }
            lemma_decode_items_prefix(s, pos + e0.len(), rest);
        }
    }
}

/// Decoding a strict prefix of what writing a wire-safe frame produces, from
/// a stream that has not ended, asks for more bytes: a frame is never
/// decoded before all of it has arrived.
pub proof fn law_decode_waits_for_the_whole_frame(f: FrameView, n: int)
    requires
        wire_safe(f),
        0 <= n < emit(f).0.len(),
    ensures
        decode_at(emit(f).0.subrange(0, n), 0, false) == DecodeView::Short,
{
    let e = emit(f).0;
    let s = e.subrange(0, n);
    assert(s.subrange(0, s.len() as int) =~= e.subrange(0, n));
    lemma_decode_prefix(s, 0, f);
}

} // verus!
