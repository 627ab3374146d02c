//! The text that positions are shown as: numbers in decimal, boards row by
//! row.
use vstd::prelude::*;
use vstd::string::StringExecFns;

verus! {

/// The character of the digit `d`.
pub open spec fn digit(d: int) -> char {
    if d == 0 {
        '0'
    } else if d == 1 {
        '1'
    } else if d == 2 {
        '2'
    } else if d == 3 {
        '3'
    } else if d == 4 {
        '4'
    } else if d == 5 {
        '5'
    } else if d == 6 {
        '6'
    } else if d == 7 {
        '7'
    } else if d == 8 {
        '8'
    } else {
        '9'
    }
}

/// The number `n` in decimal.
pub open spec fn decimal(n: nat) -> Seq<char>
    decreases n,
{
    if n < 10 {
        seq![digit(n as int)]
    } else {
        decimal(n / 10).push(digit((n % 10) as int))
    }
}

/// The cells `0..n` of row `y`, one after the other.
pub open spec fn row_text(cell: spec_fn(int, int) -> Seq<char>, y: int, n: int) -> Seq<char>
    decreases n,
{
    if n <= 0 {
        Seq::empty()
    } else {
        row_text(cell, y, n - 1) + cell(y, n - 1)
    }
}

/// The rows `0..m` of a board of `width` columns, each ended by a line feed.
pub open spec fn rows_text(cell: spec_fn(int, int) -> Seq<char>, m: int, width: int) -> Seq<char>
    decreases m,
{
    if m <= 0 {
        Seq::empty()
    } else {
        rows_text(cell, m - 1, width) + row_text(cell, m - 1, width).push('\n')
    }
}

/// `String::push` of std: the character is added at the end.
#[verifier::external_body]
pub(crate) fn push_char(s: &mut String, c: char)
    ensures
        final(s)@ == old(s)@.push(c),
{
    s.push(c);
}

/// The character of the digit `d`.
pub fn digit_char(d: u8) -> (c: char)
    requires
        d < 10,
    ensures
        c == digit(d as int),
{
    if d == 0 {
        '0'
    } else if d == 1 {
        '1'
    } else if d == 2 {
        '2'
    } else if d == 3 {
        '3'
    } else if d == 4 {
        '4'
    } else if d == 5 {
        '5'
    } else if d == 6 {
        '6'
    } else if d == 7 {
        '7'
    } else if d == 8 {
        '8'
    } else {
        '9'
    }
}

/// Adds `n` in decimal to `s`.
pub fn push_decimal(s: &mut String, n: u64)
    ensures
        final(s)@ == old(s)@ + decimal(n as nat),
    decreases n,
{
    if n < 10 {
        push_char(s, digit_char(n as u8));
        assert(s@ =~= old(s)@ + decimal(n as nat));
    } else {
        push_decimal(s, n / 10);
        push_char(s, digit_char((n % 10) as u8));
        assert(s@ =~= old(s)@ + decimal(n as nat));
    }
}

/// Adds to `s` what a cell that holds `point` points and no character is
/// shown as: its digit, or a dot where it is empty.
pub fn push_point(s: &mut String, point: i32)
    requires
        0 <= point <= 9,
    ensures
        final(s)@ == old(s)@ + point_text(point as int),
{
    if point > 0 {
        push_char(s, digit_char(point as u8));
    } else {
        push_char(s, '.');
    }
    assert(s@ =~= old(s)@ + point_text(point as int));
}

/// What a cell that holds `point` points and no character is shown as.
pub open spec fn point_text(point: int) -> Seq<char> {
    if point > 0 {
        seq![digit(point)]
    } else {
        seq!['.']
    }
}

} // verus!
