//! How far a test run has come, as one line of text.

use crate::binary64;
use crate::binary64::{Binary, Float};
use crate::rounding;
use crate::text;
use vstd::prelude::*;

verus! {

/// How much of `total` is done, in percent and at most 100, in double precision.
pub open spec fn percentage(current: u32, total: u32) -> Binary {
    if total > 0 {
        let p = Binary::ratio(current as nat, total as nat).times(Binary::ratio(100, 1));
        if p.at_most(100) {
            p
        } else {
            Binary::ratio(100, 1)
        }
    } else {
        Binary::ratio(0, 1)
    }
}

/// How many of `width` cells are filled.
pub open spec fn filled_cells(current: u32, total: u32, width: usize) -> nat {
    let cells = percentage(current, total).over(100).times(Binary::ratio(width as nat, 1)).floor();
    if cells <= usize::MAX {
        cells
    } else {
        usize::MAX as nat
    }
}

/// The cells of a bar: those filled, then those left of `width`.
pub open spec fn bar(filled: nat, width: nat) -> Seq<char> {
    text::repeated('█', filled) + text::repeated(
        '░',
        if filled <= width {
            (width - filled) as nat
        } else {
            0
        },
    )
}

/// The decimal numeral of `n`, filled up on the left to three characters.
pub open spec fn padded(n: nat) -> Seq<char> {
    let d = text::decimal(n);
    text::repeated(' ', if d.len() < 3 { (3 - d.len()) as nat } else { 0 }) + d
}

/// A bar of `width` cells, the percentage to the nearest whole number, and the counts.
pub open spec fn progress_bar(current: u32, total: u32, width: usize) -> Seq<char> {
    "\r["@ + bar(filled_cells(current, total, width), width as nat) + "] "@ + padded(
        percentage(current, total).nearest_whole(),
    ) + "% ("@ + text::decimal(current as nat) + "/"@ + text::decimal(total as nat) + ")"@
}

proof fn lemma_percentage(current: u32, total: u32)
    ensures
        percentage(current, total).at_most(100),
        total > 0 && current >= total ==> percentage(current, total).at_least(100),
        current > 0 && total > 0 <==> percentage(current, total).significand > 0,
{
    let k = binary64::lemma_whole(100);
    let hundred = Binary::ratio(100, 1);
    assert(hundred.at_most(100) && hundred.at_least(100)) by (nonlinear_arith)
        requires
            hundred == (Binary { significand: 100 * binary64::up(k), exponent: -k }),
            0 <= k,
    ;
    if total > 0 && current > 0 {
        let q = Binary::ratio(current as nat, total as nat);
        rounding::lemma_rounded_normal(current as nat, total as nat, 0);
        rounding::lemma_rounded_normal(q.significand * hundred.significand, 1, q.exponent - k);
        assert(q.significand * hundred.significand > 0) by (nonlinear_arith)
            requires
                q.significand > 0,
                hundred.significand > 0,
        ;
        rounding::lemma_times_whole(q, 100);
        if current >= total {
            assert(binary64::up(0) == 1);
            assert(current * binary64::up(0) >= 1 * total * binary64::up(0)) by (nonlinear_arith)
                requires
                    binary64::up(0) == 1,
                    current >= total,
            ;
            rounding::lemma_rounded_bounds(current as nat, total as nat, 0, 1);
        }
    } else if total > 0 {
        let q = Binary::ratio(0, total as nat);
        assert(q.significand * hundred.significand == 0) by (nonlinear_arith)
            requires
                q.significand == 0,
        ;
        let p = q.times(hundred);
        assert(p.at_most(100)) by (nonlinear_arith)
            requires
                p.significand == 0,
        ;
    }
}

/// The width in double precision, in which not every number from two to the power of 53 on can be
/// written.
pub open spec fn double_width(width: usize) -> nat {
    Binary::ratio(width as nat, 1).floor()
}

/// A width below two to the power of 53 is the same in double precision.
pub proof fn law_double_width_is_exact(width: usize)
    requires
        width < binary64::LIMIT,
    ensures
        double_width(width) == width,
{
    let w = Binary::ratio(width as nat, 1);
    rounding::lemma_whole_bounds(width as nat);
    rounding::lemma_whole_part(w, width as nat);
}

/// How many cells are filled, against the width in double precision.
pub proof fn lemma_filled(current: u32, total: u32, width: usize)
    ensures
        filled_cells(current, total, width) <= double_width(width),
        total > 0 && current >= total && double_width(width) <= usize::MAX ==> filled_cells(
            current,
            total,
            width,
        ) == double_width(width),
        total == 0 || current == 0 ==> filled_cells(current, total, width) == 0,
{
    lemma_percentage(current, total);
    let p = percentage(current, total);
    let f = p.over(100);
    let w = Binary::ratio(width as nat, 1);
    let g = f.times(w);
    if p.significand > 0 {
        rounding::lemma_over_whole(p, 100);
        rounding::lemma_rounded_normal(width as nat, 1, 0);
        rounding::lemma_times_part(f, w);
        rounding::lemma_whole_part_monotone(g, w);
        if total > 0 && current >= total {
            rounding::lemma_whole_part_monotone(w, g);
        }
    } else {
        assert(g.significand == 0 && g.exponent == 0) by {
            assert(0 * w.significand == 0);
        }
        rounding::lemma_whole_part(g, 0);
    }
}

/// As long as a test is left to run, a cell of the bar is empty, whatever its width is.
pub proof fn law_not_full_before_the_end(current: u32, total: u32, width: usize)
    requires
        current < total,
        width >= 1,
    ensures
        filled_cells(current, total, width) < width,
{
    let q = Binary::ratio(current as nat, total as nat);
    let hundred = Binary::ratio(100, 1);
    let almost = rounding::almost_one();
    rounding::lemma_ratio_below_one(current as nat, total as nat);
    rounding::lemma_almost_hundred();
    rounding::lemma_times_monotone(q, almost, hundred);
    rounding::lemma_bounds_carry_over(q.times(hundred), almost.times(hundred), 100);
    let p = percentage(current, total);
    assert(p == q.times(hundred));
    rounding::lemma_over_monotone(p, almost.times(hundred), 100);
    rounding::lemma_part_is_below(p.over(100), width as nat);
}

/// A bar never shows more or fewer cells than it is wide, unless all tests have run and its width
/// grows in double precision.
pub proof fn law_bar_is_as_wide_as_asked(current: u32, total: u32, width: usize)
    requires
        current < total || total == 0 || double_width(width) <= width,
    ensures
        bar(filled_cells(current, total, width), width as nat).len() == width,
{
    lemma_filled(current, total, width);
    if current < total && width >= 1 {
        law_not_full_before_the_end(current, total, width);
    } else if width == 0 {
        law_double_width_is_exact(width);
    }
}

/// The bar is full exactly when all tests have run, for a width that is the same in double
/// precision.
pub proof fn law_full_exactly_at_the_end(current: u32, total: u32, width: usize)
    requires
        total > 0,
        width >= 1,
        double_width(width) == width,
    ensures
        filled_cells(current, total, width) == width <==> current >= total,
{
    lemma_filled(current, total, width);
    if current < total {
        law_not_full_before_the_end(current, total, width);
    }
}

/// Once all tests have run, the bar is full and reads 100 percent, for a width that is the same
/// in double precision.
pub proof fn law_full_at_the_end(current: u32, total: u32, width: usize)
    requires
        0 < total <= current,
        double_width(width) == width,
    ensures
        filled_cells(current, total, width) == width,
        percentage(current, total).nearest_whole() == 100,
{
    lemma_filled(current, total, width);
    lemma_percentage(current, total);
    rounding::lemma_whole_part(percentage(current, total), 100);
}

/// Before the first test, and while the total is unknown, the bar is empty and reads 0 percent.
pub proof fn law_empty_at_the_start(current: u32, total: u32, width: usize)
    requires
        current == 0 || total == 0,
    ensures
        filled_cells(current, total, width) == 0,
        percentage(current, total).nearest_whole() == 0,
{
    lemma_filled(current, total, width);
    lemma_percentage(current, total);
    let p = percentage(current, total);
    assert(p.significand * binary64::up(p.exponent) == 0) by (nonlinear_arith)
        requires
            p.significand == 0,
    ;
    rounding::lemma_whole_part(p, 0);
}

proof fn lemma_percentage_monotone(before: u32, after: u32, total: u32)
    requires
        before <= after,
    ensures
        percentage(before, total).not_above(percentage(after, total)),
{
    if total > 0 {
        let (n1, n2, d) = (before as nat, after as nat, total as nat);
        assert(binary64::up(0) == 1);
        assert(n1 * d * binary64::up(0) <= n2 * d * binary64::up(0)) by (nonlinear_arith)
            requires
                n1 <= n2,
                binary64::up(0) == 1,
        ;
        rounding::lemma_rounded_monotone(n1, d, 0, n2, d, 0);
        let hundred = Binary::ratio(100, 1);
        let p1 = Binary::ratio(n1, d).times(hundred);
        let p2 = Binary::ratio(n2, d).times(hundred);
        rounding::lemma_times_monotone(Binary::ratio(n1, d), Binary::ratio(n2, d), hundred);
        rounding::lemma_bounds_carry_over(p1, p2, 100);
        if p1.at_most(100) && !p2.at_most(100) {
            rounding::lemma_bounds_are_order(p1, 100);
        }
    }
}

/// The more tests have been run, the more the bar shows: it never goes back.
pub proof fn law_progress_never_goes_back(before: u32, after: u32, total: u32, width: usize)
    requires
        before <= after,
    ensures
        filled_cells(before, total, width) <= filled_cells(after, total, width),
        percentage(before, total).nearest_whole() <= percentage(after, total).nearest_whole(),
{
    lemma_percentage_monotone(before, after, total);
    let (p1, p2) = (percentage(before, total), percentage(after, total));
    let cells = Binary::ratio(width as nat, 1);
    rounding::lemma_over_monotone(p1, p2, 100);
    rounding::lemma_times_monotone(p1.over(100), p2.over(100), cells);
    rounding::lemma_whole_part_monotone(p1.over(100).times(cells), p2.over(100).times(cells));
    rounding::lemma_whole_part_monotone(p1, p2);
}

/// The percentage is never above 100.
pub proof fn law_at_most_100_percent(current: u32, total: u32)
    ensures
        percentage(current, total).nearest_whole() <= 100,
{
    lemma_percentage(current, total);
    rounding::lemma_whole_part(percentage(current, total), 100);
}

fn percent(current: u32, total: u32) -> (r: Float)
    ensures
        r@ == percentage(current, total),
        r@.wf(390),
        r@.exponent <= 0,
{
    proof {
        binary64::lemma_whole(100);
    }
    if total > 0 {
        let p: Float = Float::ratio(current as u64, total).times(Float::ratio(100, 1));
        if p.at_most(100) {
            proof {
                binary64::lemma_small_exponent(p@, 100);
            }
            p
        } else {
            Float::ratio(100, 1)
        }
    } else {
        Float::ratio(0, 1)
    }
}

/// The line of text that shows how far a run has come.
pub fn render_progress_bar(current: u32, total: u32, width: usize) -> (r: String)
    requires
        3 * width <= isize::MAX,
    ensures
        r@ == progress_bar(current, total, width),
{
    let p: Float = percent(current, total);
    let filled: usize = p.over(100).times(Float::ratio(width as u64, 1)).floor();
    let empty: usize = if filled <= width {
        width - filled
    } else {
        0
    };
    let mut digits: String = String::new();
    text::push_numeral(&mut digits, p.nearest_whole(), 10);
    let digits: Vec<char> = text::chars_of(digits.as_str());

    let mut out: String = String::new();
    out.append("\r[");
    text::push_repeated(&mut out, '█', filled);
    text::push_repeated(&mut out, '░', empty);
    out.append("] ");
    text::push_repeated(&mut out, ' ', if digits.len() < 3 {
        3 - digits.len()
    } else {
        0
    });
    out.append(text::string_of(digits.as_slice()).as_str());
    out.append("% (");
    text::push_numeral(&mut out, current as u64, 10);
    out.append("/");
    text::push_numeral(&mut out, total as u64, 10);
    out.append(")");
    assert(out@ =~= progress_bar(current, total, width));
    out
}

/// The number of cells of the bar.
pub const WIDTH: usize = 40;

/// What shows how far a run has come: a bar where the total is known, else the count, and
/// nothing where that is zero too.
pub open spec fn progress_text(current: u32, total: u32) -> Seq<char> {
    if total > 0 {
        progress_bar(current, total, WIDTH)
    } else if current > 0 {
        "\r"@ + text::decimal(current as nat) + " tests passed"@
    } else {
        Seq::empty()
    }
}

/// What shows how far a run has come.
pub fn render_progress(current: u32, total: u32) -> (r: String)
    ensures
        r@ == progress_text(current, total),
{
    if total > 0 {
        render_progress_bar(current, total, WIDTH)
    } else if current > 0 {
        let mut out: String = String::new();
        out.append("\r");
        text::push_numeral(&mut out, current as u64, 10);
        out.append(" tests passed");
        assert(out@ =~= progress_text(current, total));
        out
    } else {
        String::new()
    }
}

/// What clears the line that showed how far a run has come.
pub open spec fn clear_text() -> Seq<char> {
    "\r"@ + text::repeated(' ', 60) + "\r"@
}

/// What clears the line that showed how far a run has come.
pub fn clear_line() -> (r: String)
    ensures
        r@ == clear_text(),
{
    let mut out: String = String::new();
    out.append("\r");
    text::push_repeated(&mut out, ' ', 60);
    out.append("\r");
    assert(out@ =~= clear_text());
    out
}

/// A progress bar starts over its line, has its filled cells in front of the empty ones between
/// brackets, and behind them the percentage, aligned to the right of three places, and the counts.
pub proof fn law_bar_is_built(current: u32, total: u32, width: usize)
    ensures
        ({
            let filled = filled_cells(current, total, width);
            let n = percentage(current, total).nearest_whole();
            let cells = Seq::new(
                if filled > width {
                    filled
                } else {
                    width as nat
                },
                |i: int|
                    if i < filled {
                        '█'
                    } else {
                        '░'
                    },
            );
            let spaces = if n < 10 {
                "  "@
            } else if n < 100 {
                " "@
            } else {
                ""@
            };
            progress_bar(current, total, width) == "\r["@ + cells + "] "@ + spaces + text::decimal(n)
                + "% ("@ + text::decimal(current as nat) + "/"@ + text::decimal(total as nat)
                + ")"@
        }),
{
    let filled = filled_cells(current, total, width);
    let n = percentage(current, total).nearest_whole();
    let cells = Seq::new(
        if filled > width {
            filled
        } else {
            width as nat
        },
        |i: int|
            if i < filled {
                '█'
            } else {
                '░'
            },
    );
    law_at_most_100_percent(current, total);
    assert(cells =~= bar(filled, width as nat));
    reveal_strlit("  ");
    reveal_strlit(" ");
    reveal_strlit("");
    text::law_numeral_by_division(n, 10);
    text::law_numeral_by_division(n / 10, 10);
    text::law_numeral_by_division(n / 10 / 10, 10);
    let d = text::decimal(n);
    assert(d.len() == d.drop_last().len() + 1);
    let e = text::decimal(n / 10);
    assert(e.len() == e.drop_last().len() + 1);
    let f = text::decimal(n / 10 / 10);
    assert(f.len() == f.drop_last().len() + 1);
    let spaces = if n < 10 {
        "  "@
    } else if n < 100 {
        " "@
    } else {
        ""@
    };
    assert(padded(n) =~= spaces + d);
    assert(progress_bar(current, total, width) =~= "\r["@ + cells + "] "@ + spaces + d + "% ("@
        + text::decimal(current as nat) + "/"@ + text::decimal(total as nat) + ")"@);
}

/// A bar of forty cells is shown where the total is known, else the count alone, and nothing where
/// nothing has run.
pub proof fn law_progress_is_shown(current: u32, total: u32)
    ensures
        total > 0 ==> progress_text(current, total) == progress_bar(current, total, 40),
        current > 0 ==> progress_text(current, 0) == "\r"@ + text::decimal(current as nat)
            + " tests passed"@,
        progress_text(0, 0) == Seq::<char>::empty(),
{
}

/// The line is cleared from its start: sixty spaces, between two returns to the start.
pub proof fn law_line_is_cleared()
    ensures
        clear_text() == seq!['\r'] + Seq::new(60, |i: int| ' ') + seq!['\r'],
{
    reveal_strlit("\r");
    assert(clear_text() =~= seq!['\r'] + Seq::new(60, |i: int| ' ') + seq!['\r']);
}

} // verus!
