//! Text conversions taken from std.
use vstd::prelude::*;
use vstd::utf8::{decode_utf8, is_ascii_chars, valid_utf8};

verus! {

/// What `String::from_utf8_lossy` makes of a byte sequence.
pub uninterp spec fn lossy_utf8(b: Seq<u8>) -> Seq<char>;

/// `String::from_utf8_lossy`, made an owned `String`: the bytes decoded as
/// UTF-8, with each invalid sequence replaced by U+FFFD; bytes that are valid
/// UTF-8 are decoded unchanged.
#[verifier::external_body]
pub(crate) fn utf8_lossy(b: &[u8]) -> (s: String)
    ensures
        s@ == lossy_utf8(b@),
        valid_utf8(b@) ==> s@ == decode_utf8(b@),
{
    String::from_utf8_lossy(b).into_owned()
}

/// What `str::to_uppercase` makes of a string.
pub uninterp spec fn uppercase(s: Seq<char>) -> Seq<char>;

/// The ASCII upper case of a character: `a` to `z` become `A` to `Z`, and
/// every other character stays.
pub open spec fn ascii_upper(c: char) -> char {
    if 'a' <= c && c <= 'z' {
        ((c as u32) - 32) as char
    } else {
        c
    }
}

/// The ASCII upper case of each character of a string.
pub open spec fn ascii_uppercase(s: Seq<char>) -> Seq<char> {
    s.map_values(|c: char| ascii_upper(c))
}

/// `str::to_uppercase`: the Unicode upper case of the string. Of a string of
/// ASCII characters, whose Unicode upper case is their ASCII upper case, the
/// contract states the result; of other strings it only names it.
#[verifier::external_body]
pub(crate) fn to_uppercase(s: &str) -> (u: String)
    ensures
        u@ == uppercase(s@),
        is_ascii_chars(s@) ==> u@ == ascii_uppercase(s@),
{
    s.to_uppercase()
}

/// What `format!("{:?}", s)` makes of a string: the string in double quotes,
/// with quotes, backslashes and unprintable characters escaped.
pub uninterp spec fn debug_quoted(s: Seq<char>) -> Seq<char>;

/// `<str as Debug>::fmt`, through `format!("{:?}", s)`.
#[verifier::external_body]
pub(crate) fn quote_debug(s: &str) -> (q: String)
    ensures
        q@ == debug_quoted(s@),
{
    format!("{:?}", s)
}

/// `String::from_utf8`: the bytes as a string when they are valid UTF-8.
#[verifier::external_body]
pub(crate) fn utf8_to_string(b: Vec<u8>) -> (s: Option<String>)
    ensures
        s is Some <==> valid_utf8(b@),
        s matches Some(t) ==> t@ == decode_utf8(b@),
{
    String::from_utf8(b).ok()
}

} // verus!

verus! {

/// `char::is_whitespace`: the characters with the Unicode `White_Space` property.
pub open spec fn is_whitespace(c: char) -> bool {
    ||| c == ' '
    ||| ('\t' <= c && c <= '\r')
    ||| c == '\u{85}'
    ||| c == '\u{a0}'
    ||| c == '\u{1680}'
    ||| ('\u{2000}' <= c && c <= '\u{200a}')
    ||| c == '\u{2028}'
    ||| c == '\u{2029}'
    ||| c == '\u{202f}'
    ||| c == '\u{205f}'
    ||| c == '\u{3000}'
}

/// `str::trim_start`: the string without its leading whitespace.
pub open spec fn trim_start(s: Seq<char>) -> Seq<char>
    decreases s.len(),
{
    if s.len() > 0 && is_whitespace(s[0]) {
        trim_start(s.drop_first())
    } else {
        s
    }
}

/// `str::trim_end`: the string without its trailing whitespace.
pub open spec fn trim_end(s: Seq<char>) -> Seq<char>
    decreases s.len(),
{
    if s.len() > 0 && is_whitespace(s.last()) {
        trim_end(s.drop_last())
    } else {
        s
    }
}

/// `str::trim`: the string without leading and trailing whitespace.
pub open spec fn trim(s: Seq<char>) -> Seq<char> {
    trim_end(trim_start(s))
}

pub open spec fn is_digit(c: char) -> bool {
    '0' <= c && c <= '9'
}

pub open spec fn all_digits(s: Seq<char>) -> bool {
    forall|i: int| 0 <= i < s.len() ==> is_digit(#[trigger] s[i])
}

/// The number that a string of decimal digits writes.
pub open spec fn digits_value(s: Seq<char>) -> int
    decreases s.len(),
{
    if s.len() == 0 {
        0
    } else {
        digits_value(s.drop_last()) * 10 + (s.last() as int - 48)
    }
}

/// `str::parse::<i32>`: an optional `+` or `-`, then one or more decimal
/// digits, whose value fits in an `i32`.
pub open spec fn parse_i32(s: Seq<char>) -> Option<i32> {
    if s.len() == 0 {
        None
    } else {
        let signed = s[0] == '+' || s[0] == '-';
        let ds = if signed {
            s.drop_first()
        } else {
            s
        };
        let v = if s[0] == '-' {
            -digits_value(ds)
        } else {
            digits_value(ds)
        };
        if ds.len() == 0 || !all_digits(ds) || v < i32::MIN || v > i32::MAX {
            None
        } else {
            Some(v as i32)
        }
    }
}

/// `str::parse::<u64>`: an optional `+`, then one or more decimal digits,
/// whose value fits in a `u64`.
pub open spec fn parse_u64(s: Seq<char>) -> Option<u64> {
    if s.len() == 0 {
        None
    } else {
        let ds = if s[0] == '+' {
            s.drop_first()
        } else {
            s
        };
        if ds.len() == 0 || !all_digits(ds) || digits_value(ds) > u64::MAX {
            None
        } else {
            Some(digits_value(ds) as u64)
        }
    }
}

fn is_whitespace_char(c: char) -> (b: bool)
    ensures
        b == is_whitespace(c),
{
    c == ' ' || ('\t' <= c && c <= '\r') || c == '\u{85}' || c == '\u{a0}' || c == '\u{1680}' || (
    '\u{2000}' <= c && c <= '\u{200a}') || c == '\u{2028}' || c == '\u{2029}' || c == '\u{202f}'
        || c == '\u{205f}' || c == '\u{3000}'
}

pub proof fn lemma_trim_start(s: Seq<char>, a: int)
    requires
        0 <= a <= s.len(),
        forall|i: int| 0 <= i < a ==> is_whitespace(#[trigger] s[i]),
        a == s.len() || !is_whitespace(s[a]),
    ensures
        trim_start(s) == s.subrange(a, s.len() as int),
    decreases a,
{
    if a == 0 {
        assert(s.subrange(0, s.len() as int) == s);
    } else {
        let t = s.drop_first();
        assert forall|i: int| 0 <= i < a - 1 implies is_whitespace(#[trigger] t[i]) by {
            assert(t[i] == s[i + 1]);
        }
        if a - 1 < t.len() {
            assert(t[a - 1] == s[a]);
        }
        lemma_trim_start(t, a - 1);
        assert(t.subrange(a - 1, t.len() as int) == s.subrange(a, s.len() as int));
    }
}

pub proof fn lemma_trim_end(s: Seq<char>, b: int)
    requires
        0 <= b <= s.len(),
        forall|i: int| b <= i < s.len() ==> is_whitespace(#[trigger] s[i]),
        b == 0 || !is_whitespace(s[b - 1]),
    ensures
        trim_end(s) == s.subrange(0, b),
    decreases s.len() - b,
{
    if b == s.len() {
        assert(s.subrange(0, b) == s);
    } else {
        let t = s.drop_last();
        assert forall|i: int| b <= i < t.len() implies is_whitespace(#[trigger] t[i]) by {
            assert(t[i] == s[i]);
        }
        if b > 0 {
            assert(t[b - 1] == s[b - 1]);
        }
        lemma_trim_end(t, b);
        assert(t.subrange(0, b) == s.subrange(0, b));
    }
}

/// The bounds, in characters, of `trim(s)` within `s`.
pub fn trim_bounds(s: &str) -> (r: (usize, usize))
    ensures
        r.0 <= r.1 <= s@.len(),
        trim(s@) == s@.subrange(r.0 as int, r.1 as int),
{
    let n = s.unicode_len();
    let mut a: usize = 0;
    while a < n && is_whitespace_char(s.get_char(a))
        invariant
            a <= n,
            n == s@.len(),
            forall|i: int| 0 <= i < a ==> is_whitespace(#[trigger] s@[i]),
        decreases n - a,
    {
        a = a + 1;
    }
    proof {
        lemma_trim_start(s@, a as int);
    }
    let ghost t = s@.subrange(a as int, n as int);
    let mut b: usize = n;
    while b > a && is_whitespace_char(s.get_char(b - 1))
        invariant
            a <= b <= n,
            n == s@.len(),
            t == s@.subrange(a as int, n as int),
            forall|i: int| b <= i < n ==> is_whitespace(#[trigger] s@[i]),
        decreases b,
    {
        b = b - 1;
    }
    proof {
        assert forall|i: int| b - a <= i < t.len() implies is_whitespace(#[trigger] t[i]) by {
            assert(t[i] == s@[i + a]);
        }
        if b > a {
            assert(t[b - a - 1] == s@[b - 1]);
        }
        lemma_trim_end(t, b - a);
        assert(t.subrange(0, b - a) == s@.subrange(a as int, b as int));
    }
    (a, b)
}

proof fn lemma_digits_monotone(s: Seq<char>, i: int, j: int)
    requires
        0 <= i <= j <= s.len(),
        all_digits(s),
    ensures
        digits_value(s.subrange(0, i)) <= digits_value(s.subrange(0, j)),
        0 <= digits_value(s.subrange(0, i)),
    decreases j - i,
{
    if i < j {
        lemma_digits_monotone(s, i, j - 1);
        let p = s.subrange(0, j);
        assert(p.drop_last() == s.subrange(0, j - 1));
        assert(is_digit(s[j - 1]));
        assert(p.last() == s[j - 1]);
    } else {
        lemma_digits_nonneg(s.subrange(0, i));
    }
}

pub proof fn lemma_digits_nonneg(s: Seq<char>)
    requires
        all_digits(s),
    ensures
        0 <= digits_value(s),
    decreases s.len(),
{
    if s.len() > 0 {
        let t = s.drop_last();
        assert forall|i: int| 0 <= i < t.len() implies is_digit(#[trigger] t[i]) by {
            assert(t[i] == s[i]);
        }
        lemma_digits_nonneg(t);
        assert(is_digit(s[s.len() - 1]));
    }
}

/// The value of the decimal digits `s[a..b]`, when they are all digits and
/// their value is at most `max`.
fn digits_upto(s: &str, a: usize, b: usize, max: u64) -> (r: Option<u64>)
    requires
        a <= b <= s@.len(),
    ensures
        r matches Some(v) ==> all_digits(s@.subrange(a as int, b as int)) && v == digits_value(
            s@.subrange(a as int, b as int),
        ) && v <= max,
        r is None ==> !all_digits(s@.subrange(a as int, b as int)) || digits_value(
            s@.subrange(a as int, b as int),
        ) > max,
{
    let ghost ds = s@.subrange(a as int, b as int);
    let mut acc: u64 = 0;
    let mut i: usize = a;
    while i < b
        invariant
            a <= i <= b <= s@.len(),
            ds == s@.subrange(a as int, b as int),
            forall|j: int| 0 <= j < i - a ==> is_digit(#[trigger] ds[j]),
            acc == digits_value(ds.subrange(0, i - a)),
            acc <= max,
        decreases b - i,
    {
        let c = s.get_char(i);
        proof {
            assert(ds[i - a] == c);
        }
        if !('0' <= c && c <= '9') {
            return None;
        }
        let d = (c as u32 - 48) as u64;
        let next: u128 = (acc as u128) * 10 + (d as u128);
        proof {
            let p = ds.subrange(0, i - a + 1);
            assert(p.drop_last() == ds.subrange(0, i - a));
            assert(p.last() == c);
        }
        if next > max as u128 {
            proof {
                if all_digits(ds) {
                    lemma_digits_monotone(ds, i - a + 1, ds.len() as int);
                    assert(ds.subrange(0, ds.len() as int) == ds);
                }
            }
            return None;
        }
        acc = next as u64;
        i = i + 1;
    }
    proof {
        assert(ds.subrange(0, ds.len() as int) == ds);
    }
    Some(acc)
}

/// `str::parse::<i32>` of the characters `s[a..b]`.
pub fn parse_i32_span(s: &str, a: usize, b: usize) -> (r: Option<i32>)
    requires
        a <= b <= s@.len(),
    ensures
        r == parse_i32(s@.subrange(a as int, b as int)),
{
    let ghost t = s@.subrange(a as int, b as int);
    if a == b {
        return None;
    }
    let c = s.get_char(a);
    proof {
        assert(t[0] == c);
    }
    let start = if c == '+' || c == '-' {
        a + 1
    } else {
        a
    };
    proof {
        if c == '+' || c == '-' {
            assert(t.drop_first() == s@.subrange(start as int, b as int));
        }
    }
    if start == b {
        return None;
    }
    match digits_upto(s, start, b, 2147483648) {
        None => None,
        Some(v) => {
            if c == '-' {
                Some((0 - (v as i64)) as i32)
            } else if v <= 2147483647 {
                Some(v as i32)
            } else {
                None
            }
        },
    }
}

/// `str::parse::<u64>` of the characters `s[a..b]`.
pub fn parse_u64_span(s: &str, a: usize, b: usize) -> (r: Option<u64>)
    requires
        a <= b <= s@.len(),
    ensures
        r == parse_u64(s@.subrange(a as int, b as int)),
{
    let ghost t = s@.subrange(a as int, b as int);
    if a == b {
        return None;
    }
    let c = s.get_char(a);
    proof {
        assert(t[0] == c);
    }
    let start = if c == '+' {
        a + 1
    } else {
        a
    };
    proof {
        if c == '+' {
            assert(t.drop_first() == s@.subrange(start as int, b as int));
        }
    }
    if start == b {
        return None;
    }
    digits_upto(s, start, b, 18446744073709551615)
}

} // verus!
