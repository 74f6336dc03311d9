use vstd::prelude::*;

use crate::solution::Solution;
use crate::tile::MAX_GRID_SIZE;

verus! {

/// The upper-case form of an ASCII lower-case letter; other characters stay.
pub open spec fn upper(c: char) -> char {
    if 97 <= (c as u32) <= 122 {
        ((c as u32) - 32) as char
    } else {
        c
    }
}

/// The decimal digit for `d` below ten.
pub open spec fn digit(d: int) -> char {
    ((48 + d) as u32) as char
}

/// The cells of `row` up to `k`, upper-cased, each followed by '|'.
pub open spec fn cells_text(s: Solution, row: int, k: int) -> Seq<char>
    decreases k,
{
    if k <= 0 {
        Seq::empty()
    } else {
        cells_text(s, row, k - 1) + seq![upper(s.cell(row, k - 1)), '|']
    }
}

/// `k` dashes.
pub open spec fn dashes(k: nat) -> Seq<char> {
    Seq::new(k, |i: int| '-')
}

/// A row as rendered: its number, its cells, then a rule of dashes.
pub open spec fn row_text(s: Solution, row: int) -> Seq<char> {
    seq![digit(row), '|'] + cells_text(s, row, s.n_variants as int) + seq!['\n'] + dashes(
        (s.n_variants * 2 + 2) as nat,
    ) + seq!['\n']
}

/// The rows below `k` as rendered, one after the other.
pub open spec fn grid_text(s: Solution, k: int) -> Seq<char>
    decreases k,
{
    if k <= 0 {
        Seq::empty()
    } else {
        grid_text(s, k - 1) + row_text(s, k - 1)
    }
}

/// The decimal digits of `x`, without leading zeros.
pub open spec fn decimal(x: nat) -> Seq<char>
    decreases x,
{
    if x < 10 {
        seq![digit(x as int)]
    } else {
        decimal(x / 10) + seq![digit((x % 10) as int)]
    }
}

/// `x` in decimal with at least two digits.
pub open spec fn padded(x: nat) -> Seq<char> {
    if x < 10 {
        seq!['0', digit(x as int)]
    } else {
        decimal(x)
    }
}

/// A duration of `secs` seconds as the clock shows it: `HH:MM:SS` once an
/// hour has passed, else `MM:SS`.
pub open spec fn duration_text(secs: nat) -> Seq<char> {
    let hours = secs / 3600;
    let minutes = (secs % 3600) / 60;
    let seconds = secs % 60;
    if hours > 0 {
        padded(hours) + seq![':'] + padded(minutes) + seq![':'] + padded(seconds)
    } else {
        padded(minutes) + seq![':'] + padded(seconds)
    }
}

fn digit_char(d: u64) -> (r: char)
    requires
        d < 10,
    ensures
        r == digit(d as int),
{
    let code: u8 = 48 + d as u8;
    code as char
}

fn push_decimal(out: &mut Vec<char>, x: u64)
    ensures
        final(out)@ == old(out)@ + decimal(x as nat),
    decreases x,
{
    if x >= 10 {
        push_decimal(out, x / 10);
    }
    out.push(digit_char(x % 10));
    assert(final(out)@ =~= old(out)@ + decimal(x as nat)) by {
        if x >= 10 {
            assert(decimal(x as nat) == decimal((x / 10) as nat) + seq![digit((x % 10) as int)]);
        }
    }
}

fn push_padded(out: &mut Vec<char>, x: u64)
    ensures
        final(out)@ == old(out)@ + padded(x as nat),
{
    if x < 10 {
        out.push('0');
        out.push(digit_char(x));
        assert(out@ =~= old(out)@ + padded(x as nat));
    } else {
        push_decimal(out, x);
    }
}

/// Formats a duration given in whole seconds as `HH:MM:SS` when it reaches
/// an hour and as `MM:SS` otherwise, each field zero-padded to two digits.
pub fn format_duration(total_secs: u64) -> (r: String)
    ensures
        r@ == duration_text(total_secs as nat),
{
    let hours = total_secs / 3600;
    let minutes = (total_secs % 3600) / 60;
    let seconds = total_secs % 60;
    let mut out: Vec<char> = Vec::new();
    if hours > 0 {
        push_padded(&mut out, hours);
        out.push(':');
    }
    push_padded(&mut out, minutes);
    out.push(':');
    push_padded(&mut out, seconds);
    assert(out@ =~= duration_text(total_secs as nat));
    chars_to_string(&out)
}

/// Relies on std's `FromIterator<char>` for `String`: the string holds the
/// characters in order.
#[verifier::external_body]
fn chars_to_string(chars: &Vec<char>) -> (r: String)
    ensures
        r@ == chars@,
{
    chars.iter().collect()
}

fn upper_char(c: char) -> (r: char)
    ensures
        r == upper(c),
{
    let code = c as u32;
    if 97 <= code && code <= 122 {
        let up: u8 = (code - 32) as u8;
        up as char
    } else {
        c
    }
}

impl Solution {
    /// The grid as text: per row its number and '|', each value upper-cased
    /// and followed by '|', a newline, then a rule of dashes and a newline.
    pub fn to_grid_string(&self) -> (r: String)
        requires
            self.n_rows <= MAX_GRID_SIZE,
            self.n_variants <= MAX_GRID_SIZE,
        ensures
            r@ == grid_text(*self, self.n_rows as int),
    {
        let mut out: Vec<char> = Vec::new();
        let mut row: usize = 0;
        while row < self.n_rows
            invariant
                self.n_rows <= MAX_GRID_SIZE,
                self.n_variants <= MAX_GRID_SIZE,
                row <= self.n_rows,
                out@ == grid_text(*self, row as int),
            decreases self.n_rows - row,
        {
            let ghost start = out@;
            let label: u8 = 48 + row as u8;
            out.push(label as char);
            out.push('|');
            let mut col: usize = 0;
            while col < self.n_variants
                invariant
                    self.n_variants <= MAX_GRID_SIZE,
                    row < MAX_GRID_SIZE,
                    col <= self.n_variants,
                    out@ == start + seq![digit(row as int), '|'] + cells_text(*self, row as int, col as int),
                decreases self.n_variants - col,
            {
                out.push(upper_char(self.grid[row][col]));
                out.push('|');
                col += 1;
                assert(out@ =~= start + seq![digit(row as int), '|'] + cells_text(*self, row as int, col as int));
            }
            out.push('\n');
            let total = self.n_variants * 2 + 2;
            let mut k: usize = 0;
            while k < total
                invariant
                    self.n_variants <= MAX_GRID_SIZE,
                    total == self.n_variants * 2 + 2,
                    k <= total,
                    out@ == start + seq![digit(row as int), '|'] + cells_text(*self, row as int, self.n_variants as int)
                        + seq!['\n'] + dashes(k as nat),
                decreases total - k,
            {
                out.push('-');
                k += 1;
                assert(out@ =~= start + seq![digit(row as int), '|'] + cells_text(*self, row as int, self.n_variants as int)
                        + seq!['\n'] + dashes(k as nat));
            }
            out.push('\n');
            row += 1;
            assert(out@ =~= grid_text(*self, row as int));
        }
        chars_to_string(&out)
    }
}

} // verus!
