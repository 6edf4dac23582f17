//! The multiplication table of an integer, as lines of text.

use crate::input::{
    all_digits, digits_value, is_digit, line_value, parse_multiplicand, signed_value, trim,
    ParseError,
};
use vstd::prelude::*;
use vstd::string::{StrSliceExecFns, StringExecFns};

verus! {

/// The number of lines of a table: the multipliers run from 1 to this.
pub const TABLE_ROWS: i32 = 10;

/// The character that writes the digit `d`, for `0 <= d <= 9`.
pub open spec fn digit_char(d: int) -> char {
    ('0' as int + d) as char
}

/// The digits that write `n` in base ten, the most significant first, with
/// no leading zero; `0` is written as the one digit `0`.
pub open spec fn decimal_digits(n: nat) -> Seq<char>
    decreases n,
{
    if n < 10 {
        seq![digit_char(n as int)]
    } else {
        decimal_digits(n / 10).push(digit_char((n % 10) as int))
    }
}

/// The text that writes `n` in base ten, with `-` in front of a negative
/// number and no sign otherwise.
pub open spec fn decimal_text(n: int) -> Seq<char> {
    if n < 0 {
        seq!['-'] + decimal_digits((-n) as nat)
    } else {
        decimal_digits(n as nat)
    }
}

/// One line of a table: `num`, the multiplier `m` and their product, as in
/// `5 x 3 = 15`.
pub open spec fn table_line(num: int, m: int) -> Seq<char> {
    decimal_text(num) + seq![' ', 'x', ' '] + decimal_text(m) + seq![' ', '=', ' ']
        + decimal_text(num * m)
}

/// Whether `lines` is the table of `num`: one line for each multiplier from
/// 1 to `TABLE_ROWS`, in increasing order.
pub open spec fn is_table_of(lines: Seq<String>, num: int) -> bool {
    &&& lines.len() == TABLE_ROWS
    &&& forall|k: int| 0 <= k < lines.len() ==> (#[trigger] lines[k])@ == table_line(num, k + 1)
}

/// The digits written for `n` are digits, at least one of them, and their
/// value in base ten is `n`.
proof fn lemma_digits_read_back(n: nat)
    ensures
        decimal_digits(n).len() > 0,
        all_digits(decimal_digits(n)),
        digits_value(decimal_digits(n)) == n,
    decreases n,
{
    if n < 10 {
        assert(decimal_digits(n).drop_last() =~= Seq::<char>::empty());
        assert(digits_value(decimal_digits(n).drop_last()) == 0);
    } else {
        lemma_digits_read_back(n / 10);
        assert(decimal_digits(n).drop_last() =~= decimal_digits(n / 10));
    }
}

/// Writing is undone by reading: the text written for `n` reads as `n`,
/// trimming takes nothing off it, and so a line that holds it gives `n`
/// where `n` fits in 32 bits.
pub proof fn lemma_written_number_reads_back(n: int)
    ensures
        signed_value(decimal_text(n)) == Some(n),
        trim(decimal_text(n)) == decimal_text(n),
        i32::MIN <= n <= i32::MAX ==> line_value(decimal_text(n)) == Some(n),
{
    let text = decimal_text(n);
    if n < 0 {
        let digits = decimal_digits((-n) as nat);
        lemma_digits_read_back((-n) as nat);
        assert(text.first() == '-');
        assert(text.drop_first() =~= digits);
        assert(text.last() == digits.last());
        assert(is_digit(digits[digits.len() - 1]));
    } else {
        lemma_digits_read_back(n as nat);
        assert(is_digit(text[0]));
        assert(is_digit(text[text.len() - 1]));
    }
}

/// Appends the digits of `n` to `text`.
fn push_decimal_digits(text: &mut String, n: u64)
    ensures
        final(text)@ == old(text)@ + decimal_digits(n as nat),
    decreases n,
{
    if n >= 10 {
        push_decimal_digits(text, n / 10);
    }
    let alphabet: &str = "0123456789";
    let d: usize = (n % 10) as usize;
    proof {
        reveal_strlit("0123456789");
    }
    let digit: &str = alphabet.substring_ascii(d, d + 1);
    assert(digit@ =~= seq![digit_char(d as int)]);
    text.append(digit);
}

/// The text that writes `n` in base ten.
pub fn format_decimal(n: i64) -> (text: String)
    ensures
        text@ == decimal_text(n as int),
{
    let mut text: String = String::new();
    if n < 0 {
        proof {
            reveal_strlit("-");
        }
        text.append("-");
        assert(text@ =~= seq!['-']);
        // `-n` does not fit for the least `i64`, so the magnitude is taken
        // in two steps that do.
        let magnitude: u64 = (-(n + 1)) as u64 + 1;
        push_decimal_digits(&mut text, magnitude);
    } else {
        push_decimal_digits(&mut text, n as u64);
        assert(text@ =~= decimal_digits(n as nat));
    }
    text
}

/// The line of the table of `num` for the multiplier `m`. The product is
/// the exact one, also where it does not fit in 32 bits.
pub fn format_table_line(num: i32, m: i32) -> (line: String)
    ensures
        line@ == table_line(num as int, m as int),
{
    assert(-0x4000_0000_0000_0000 <= num * m <= 0x4000_0000_0000_0000) by (nonlinear_arith)
        requires
            -0x8000_0000 <= num <= 0x8000_0000,
            -0x8000_0000 <= m <= 0x8000_0000,
    ;
    let product: i64 = num as i64 * m as i64;
    proof {
        reveal_strlit(" x ");
        reveal_strlit(" = ");
    }
    let mut line: String = format_decimal(num as i64);
    line.append(" x ");
    line.append(format_decimal(m as i64).as_str());
    line.append(" = ");
    line.append(format_decimal(product).as_str());
    assert(" x "@ =~= seq![' ', 'x', ' ']);
    assert(" = "@ =~= seq![' ', '=', ' ']);
    line
}

/// The multiplication table of `num`: its products with 1, 2, and so on up
/// to `TABLE_ROWS`, one line each and in that order.
pub fn multiplication_table(num: i32) -> (lines: Vec<String>)
    ensures
        is_table_of(lines@, num as int),
{
    let mut lines: Vec<String> = Vec::new();
    let mut m: i32 = 1;
    while m <= TABLE_ROWS
        invariant
            1 <= m <= TABLE_ROWS + 1,
            lines.len() == m - 1,
            forall|k: int|
                0 <= k < lines.len() ==> (#[trigger] lines[k])@ == table_line(num as int, k + 1),
        decreases TABLE_ROWS + 1 - m,
    {
        lines.push(format_table_line(num, m));
        m += 1;
    }
    lines
}

/// The multiplication table of the number that `raw_input` gives, or the
/// error where it gives none. No line is produced for a refused input.
pub fn table_for_input(raw_input: &str) -> (r: Result<Vec<String>, ParseError>)
    ensures
        match r {
            Ok(lines) => line_value(raw_input@) matches Some(num) && is_table_of(lines@, num),
            Err(e) => line_value(raw_input@) is None && e == ParseError::InvalidNumericInput,
        },
{
    match parse_multiplicand(raw_input) {
        Ok(num) => Ok(multiplication_table(num)),
        Err(e) => Err(e),
    }
}

} // verus!
