//! Reading a signed integer from one line of text.

use vstd::prelude::*;

verus! {

/// The one way in which reading a number from a line can fail.
#[derive(Clone, Copy, Debug, PartialEq, Eq, Structural)]
pub enum ParseError {
    /// The line, once trimmed, is not a signed decimal integer that fits in
    /// 32 bits: it is empty, holds something other than a sign and digits,
    /// or names a value out of range.
    InvalidNumericInput,
}

/// Whether `c` is white space: a code point with the Unicode property
/// `White_Space`.
pub open spec fn is_whitespace(c: char) -> bool {
    let u = c as int;
    ||| 0x09 <= u <= 0x0D
    ||| u == 0x20
    ||| u == 0x85
    ||| u == 0xA0
    ||| u == 0x1680
    ||| 0x2000 <= u <= 0x200A
    ||| u == 0x2028
    ||| u == 0x2029
    ||| u == 0x202F
    ||| u == 0x205F
    ||| u == 0x3000
}

/// `s` without its leading white space.
pub open spec fn trim_start(s: Seq<char>) -> Seq<char>
    decreases s.len(),
{
    if s.len() > 0 && is_whitespace(s.first()) {
        trim_start(s.drop_first())
    } else {
        s
    }
}

/// `s` without its trailing white space.
pub open spec fn trim_end(s: Seq<char>) -> Seq<char>
    decreases s.len(),
{
    if s.len() > 0 && is_whitespace(s.last()) {
        trim_end(s.drop_last())
    } else {
        s
    }
}

/// `s` without its leading and trailing white space.
pub open spec fn trim(s: Seq<char>) -> Seq<char> {
    trim_end(trim_start(s))
}

/// Whether `c` is one of the ten ASCII digits.
pub open spec fn is_digit(c: char) -> bool {
    '0' <= c <= '9'
}

/// The number that the digit `c` stands for.
pub open spec fn digit_value(c: char) -> int {
    c as int - '0' as int
}

/// Whether every member of `s` is a digit.
pub open spec fn all_digits(s: Seq<char>) -> bool {
    forall|i: int| 0 <= i < s.len() ==> is_digit(#[trigger] s[i])
}

/// The number written by the digits `s` in base ten; `0` for no digits.
pub open spec fn digits_value(s: Seq<char>) -> int
    decreases s.len(),
{
    if s.len() == 0 {
        0
    } else {
        10 * digits_value(s.drop_last()) + digit_value(s.last())
    }
}

/// Whether `s` starts with a sign, `+` or `-`.
pub open spec fn has_sign(s: Seq<char>) -> bool {
    s.len() > 0 && (s.first() == '+' || s.first() == '-')
}

/// The integer that `s` writes, whatever its size: an optional sign and
/// then one or more digits, with nothing before, between or after.
pub open spec fn signed_value(s: Seq<char>) -> Option<int> {
    let digits = if has_sign(s) {
        s.drop_first()
    } else {
        s
    };
    if digits.len() == 0 || !all_digits(digits) {
        None
    } else if s.first() == '-' {
        Some(-digits_value(digits))
    } else {
        Some(digits_value(digits))
    }
}

/// The integer that `s` writes, where there is one and it fits in 32 bits.
pub open spec fn i32_value(s: Seq<char>) -> Option<int> {
    match signed_value(s) {
        Some(v) if i32::MIN <= v <= i32::MAX => Some(v),
        _ => None,
    }
}

/// The number that a line of input gives: what the line writes once the
/// white space around it is taken off.
pub open spec fn line_value(line: Seq<char>) -> Option<int> {
    i32_value(trim(line))
}

/// Whether every member of `s` is white space.
pub open spec fn all_whitespace(s: Seq<char>) -> bool {
    forall|i: int| 0 <= i < s.len() ==> is_whitespace(#[trigger] s[i])
}

/// Where the part of `s` that `trim_start` leaves begins: all before it is
/// white space, and it does not begin with white space.
proof fn lemma_trim_start_bound(s: Seq<char>) -> (from: int)
    ensures
        0 <= from <= s.len(),
        trim_start(s) == s.subrange(from, s.len() as int),
        all_whitespace(s.subrange(0, from)),
        from < s.len() ==> !is_whitespace(s[from]),
    decreases s.len(),
{
    if s.len() > 0 && is_whitespace(s.first()) {
        let rest = s.drop_first();
        let inner = lemma_trim_start_bound(rest);
        assert(rest.subrange(inner, rest.len() as int) =~= s.subrange(inner + 1, s.len() as int));
        assert forall|i: int| 0 <= i < inner + 1 implies is_whitespace(
            #[trigger] s.subrange(0, inner + 1)[i],
        ) by {
            if i > 0 {
                assert(rest.subrange(0, inner)[i - 1] == s[i]);
            }
        }
        inner + 1
    } else {
        assert(s.subrange(0, s.len() as int) =~= s);
        0
    }
}

/// Where the part of `s` that `trim_end` leaves ends: all behind it is
/// white space, and it does not end with white space.
proof fn lemma_trim_end_bound(s: Seq<char>) -> (to: int)
    ensures
        0 <= to <= s.len(),
        trim_end(s) == s.subrange(0, to),
        all_whitespace(s.subrange(to, s.len() as int)),
        0 < to ==> !is_whitespace(s[to - 1]),
    decreases s.len(),
{
    if s.len() > 0 && is_whitespace(s.last()) {
        let rest = s.drop_last();
        let inner = lemma_trim_end_bound(rest);
        assert(rest.subrange(0, inner) =~= s.subrange(0, inner));
        assert forall|i: int| 0 <= i < s.len() - inner implies is_whitespace(
            #[trigger] s.subrange(inner, s.len() as int)[i],
        ) by {
            if i < rest.len() - inner {
                assert(rest.subrange(inner, rest.len() as int)[i] == s[inner + i]);
            }
        }
        inner
    } else {
        assert(s.subrange(0, s.len() as int) =~= s);
        s.len() as int
    }
}

/// What trimming does, without recursion: `trim(s)` is the stretch of `s`
/// between the two bounds that this lemma gives. All of `s` outside the
/// stretch is white space, and the stretch, unless it is empty, neither
/// begins nor ends with white space.
pub proof fn lemma_trim_is_the_core(s: Seq<char>) -> (bounds: (int, int))
    ensures
        0 <= bounds.0 <= bounds.1 <= s.len(),
        trim(s) == s.subrange(bounds.0, bounds.1),
        all_whitespace(s.subrange(0, bounds.0)),
        all_whitespace(s.subrange(bounds.1, s.len() as int)),
        bounds.0 < bounds.1 ==> !is_whitespace(s[bounds.0]) && !is_whitespace(s[bounds.1 - 1]),
{
    let from = lemma_trim_start_bound(s);
    let kept = s.subrange(from, s.len() as int);
    let to = lemma_trim_end_bound(kept);
    assert(kept.subrange(0, to) =~= s.subrange(from, from + to));
    assert(kept.subrange(to, kept.len() as int) =~= s.subrange(from + to, s.len() as int));
    (from, from + to)
}

/// White space in front of `s` does not change what is left of it.
proof fn lemma_trim_start_skips(pad: Seq<char>, s: Seq<char>)
    requires
        all_whitespace(pad),
    ensures
        trim_start(pad + s) == trim_start(s),
    decreases pad.len(),
{
    if pad.len() == 0 {
        assert(pad + s =~= s);
    } else {
        assert((pad + s).first() == pad[0]);
        assert((pad + s).drop_first() =~= pad.drop_first() + s);
        lemma_trim_start_skips(pad.drop_first(), s);
    }
}

/// White space behind `s` does not change what is left of it.
proof fn lemma_trim_end_skips(s: Seq<char>, pad: Seq<char>)
    requires
        all_whitespace(pad),
    ensures
        trim_end(s + pad) == trim_end(s),
    decreases pad.len(),
{
    if pad.len() == 0 {
        assert(s + pad =~= s);
    } else {
        assert((s + pad).last() == pad.last());
        assert((s + pad).drop_last() =~= s + pad.drop_last());
        lemma_trim_end_skips(s, pad.drop_last());
    }
}

/// Trimming the front of `s + pad` leaves nothing where `s` is all white
/// space, and otherwise the trimmed front of `s` with `pad` still behind it.
proof fn lemma_trim_start_keeps_tail(s: Seq<char>, pad: Seq<char>)
    requires
        all_whitespace(pad),
    ensures
        trim_start(s + pad) == if trim_start(s).len() == 0 {
            Seq::<char>::empty()
        } else {
            trim_start(s) + pad
        },
    decreases s.len(),
{
    if s.len() == 0 {
        assert(s + pad =~= pad + s);
        lemma_trim_start_skips(pad, s);
    } else if is_whitespace(s.first()) {
        assert((s + pad).first() == s.first());
        assert((s + pad).drop_first() =~= s.drop_first() + pad);
        lemma_trim_start_keeps_tail(s.drop_first(), pad);
    } else {
        assert((s + pad).first() == s.first());
    }
}

/// White space around a text does not change what trimming leaves of it.
pub proof fn lemma_trim_ignores_padding(before: Seq<char>, s: Seq<char>, after: Seq<char>)
    requires
        all_whitespace(before),
        all_whitespace(after),
    ensures
        trim(before + s + after) == trim(s),
{
    assert(before + s + after =~= before + (s + after));
    lemma_trim_start_skips(before, s + after);
    lemma_trim_start_keeps_tail(s, after);
    if trim_start(s).len() > 0 {
        lemma_trim_end_skips(trim_start(s), after);
    }
}

/// A line gives the same number with or without white space around it.
pub proof fn lemma_line_value_ignores_padding(before: Seq<char>, s: Seq<char>, after: Seq<char>)
    requires
        all_whitespace(before),
        all_whitespace(after),
    ensures
        line_value(before + s + after) == line_value(s),
{
    lemma_trim_ignores_padding(before, s, after);
}

/// Whether `c` is white space.
pub fn is_whitespace_char(c: char) -> (b: bool)
    ensures
        b == is_whitespace(c),
{
    let u: u32 = c as u32;
    (0x09 <= u && u <= 0x0D) || u == 0x20 || u == 0x85 || u == 0xA0 || u == 0x1680 || (0x2000
        <= u && u <= 0x200A) || u == 0x2028 || u == 0x2029 || u == 0x202F || u == 0x205F || u
        == 0x3000
}

/// The characters of `line`, in order.
fn chars_of(line: &str) -> (chars: Vec<char>)
    ensures
        chars@ == line@,
{
    let mut chars: Vec<char> = Vec::new();
    for c in it: line.chars()
        invariant
            it.seq() == line@,
            chars@ == it.seq().take(it.index() as int),
    {
        chars.push(c);
    }
    chars
}

/// The value of a digit string is never negative, and no prefix of it is
/// worth more than the whole.
proof fn lemma_prefix_value(s: Seq<char>, k: int)
    requires
        all_digits(s),
        0 <= k <= s.len(),
    ensures
        0 <= digits_value(s.take(k)) <= digits_value(s),
    decreases s.len(),
{
    if s.len() == 0 {
        assert(s.take(k) =~= s);
    } else if k == s.len() {
        assert(s.take(k) =~= s);
        lemma_prefix_value(s.drop_last(), k - 1);
        assert(s.drop_last().take(k - 1) =~= s.drop_last());
    } else {
        lemma_prefix_value(s.drop_last(), k);
        assert(s.drop_last().take(k) =~= s.take(k));
    }
}

/// Where the trimmed part of `chars` starts and ends.
fn trimmed_bounds(chars: &Vec<char>) -> (bounds: (usize, usize))
    ensures
        bounds.0 <= bounds.1 <= chars.len(),
        chars@.subrange(bounds.0 as int, bounds.1 as int) == trim(chars@),
{
    let len: usize = chars.len();
    let mut start: usize = 0;
    assert(chars@.subrange(0, len as int) =~= chars@);
    while start < len && is_whitespace_char(chars[start])
        invariant
            start <= len == chars.len(),
            trim_start(chars@) == trim_start(chars@.subrange(start as int, len as int)),
        decreases len - start,
    {
        assert(chars@.subrange(start as int, len as int).drop_first() =~= chars@.subrange(
            start + 1,
            len as int,
        ));
        start += 1;
    }
    let mut end: usize = len;
    while end > start && is_whitespace_char(chars[end - 1])
        invariant
            start <= end <= len == chars.len(),
            trim(chars@) == trim_end(chars@.subrange(start as int, end as int)),
        decreases end,
    {
        assert(chars@.subrange(start as int, end as int).drop_last() =~= chars@.subrange(
            start as int,
            end - 1,
        ));
        end -= 1;
    }
    (start, end)
}

/// Reads the integer that `text` writes between `start` and `end`, if
/// there is one and it fits in 32 bits.
fn parse_signed(text: &Vec<char>, start: usize, end: usize) -> (r: Option<i32>)
    requires
        start <= end <= text.len(),
    ensures
        match r {
            Some(n) => i32_value(text@.subrange(start as int, end as int)) == Some(n as int),
            None => i32_value(text@.subrange(start as int, end as int)) is None,
        },
{
    let ghost whole = text@.subrange(start as int, end as int);
    if start == end {
        return None;
    }
    let first: char = text[start];
    assert(first == whole.first());
    let negative: bool = first == '-';
    let from: usize = if first == '-' || first == '+' {
        start + 1
    } else {
        start
    };
    let ghost digits = text@.subrange(from as int, end as int);
    assert(digits =~= if has_sign(whole) {
        whole.drop_first()
    } else {
        whole
    });
    if from == end {
        return None;
    }
    let mut magnitude: i64 = 0;
    let mut i: usize = from;
    while i < end
        invariant
            start <= from <= i <= end <= text.len(),
            whole == text@.subrange(start as int, end as int),
            digits == text@.subrange(from as int, end as int),
            digits == if has_sign(whole) {
                whole.drop_first()
            } else {
                whole
            },
            all_digits(digits.take(i - from)),
            magnitude == digits_value(digits.take(i - from)),
            0 <= magnitude <= 0x8000_0000,
        decreases end - i,
    {
        let c: char = text[i];
        assert(c == digits[i - from]);
        if !('0' <= c && c <= '9') {
            return None;
        }
        assert(digits.take(i - from + 1).drop_last() =~= digits.take(i - from));
        assert(digits.take(i - from + 1).last() == c);
        magnitude = magnitude * 10 + (c as u32 - '0' as u32) as i64;
        if magnitude > 0x8000_0000 {
            proof {
                if all_digits(digits) {
                    lemma_prefix_value(digits, i - from + 1);
                }
            }
            return None;
        }
        i += 1;
    }
    assert(digits.take(i - from) =~= digits);
    if negative {
        Some((-magnitude) as i32)
    } else if magnitude <= 0x7fff_ffff {
        Some(magnitude as i32)
    } else {
        None
    }
}

/// Reads the integer that a line of input gives.
///
/// White space around the number is skipped. What is left must be an
/// optional sign followed by one or more decimal digits, and the value must
/// fit in 32 bits; a line of any other kind is refused.
pub fn parse_multiplicand(line: &str) -> (r: Result<i32, ParseError>)
    ensures
        match r {
            Ok(n) => line_value(line@) == Some(n as int),
            Err(e) => line_value(line@) is None && e == ParseError::InvalidNumericInput,
        },
{
    let chars: Vec<char> = chars_of(line);
    let (start, end) = trimmed_bounds(&chars);
    match parse_signed(&chars, start, end) {
        Some(n) => Ok(n),
        None => Err(ParseError::InvalidNumericInput),
    }
}

} // verus!
