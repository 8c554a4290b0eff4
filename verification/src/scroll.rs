//! Overlap detection and vertical stitching for manual scrolling capture.
//!
//! Differences between frames are mean absolute channel differences over
//! sampled pixels. They are kept as exact ratios (`Score`): a sum of
//! differences and the number of channel samples it was taken over.
use vstd::prelude::*;

use crate::raster::Raster;
use crate::raster::Rgba;
use crate::raster::cropped_grid;
use crate::raster::is_grid;

verus! {

/// A mean channel difference: `difference / samples`.
#[derive(Clone, Copy, Debug, PartialEq, Eq, Structural)]
pub struct Score {
    pub difference: u64,
    pub samples: u64,
}

impl Score {
    /// Whether the mean is at most `limit`.
    pub open spec fn at_most(self, limit: int) -> bool {
        self.difference <= limit * self.samples
    }

    /// Whether the mean is at least `limit`.
    pub open spec fn at_least(self, limit: int) -> bool {
        self.difference >= limit * self.samples
    }

    /// Whether this mean is smaller than `other`'s.
    pub open spec fn less_than(self, other: Score) -> bool {
        self.difference * other.samples < other.difference * self.samples
    }

    pub fn is_at_most(self, limit: u64) -> (r: bool)
        requires
            limit <= 1000,
            self.samples <= 0xffff_ffff_ffff,
        ensures
            r == self.at_most(limit as int),
    {
        assert((limit as nat) * (self.samples as nat) <= 1000 * 0xffff_ffff_ffff) by (nonlinear_arith)
            requires
                limit <= 1000,
                self.samples <= 0xffff_ffff_ffff,
        ;
        (self.difference as u128) <= (limit as u128) * (self.samples as u128)
    }

    pub fn is_at_least(self, limit: u64) -> (r: bool)
        requires
            limit <= 1000,
            self.samples <= 0xffff_ffff_ffff,
        ensures
            r == self.at_least(limit as int),
    {
        assert((limit as nat) * (self.samples as nat) <= 1000 * 0xffff_ffff_ffff) by (nonlinear_arith)
            requires
                limit <= 1000,
                self.samples <= 0xffff_ffff_ffff,
        ;
        (self.difference as u128) >= (limit as u128) * (self.samples as u128)
    }

    pub fn is_less_than(self, other: Score) -> (r: bool)
        ensures
            r == self.less_than(other),
    {
        proof {
            assert((self.difference as nat) * (other.samples as nat) <= 0xffff_ffff_ffff_ffff * 0xffff_ffff_ffff_ffff) by (nonlinear_arith)
                requires
                    self.difference <= 0xffff_ffff_ffff_ffff,
                    other.samples <= 0xffff_ffff_ffff_ffff,
            ;
            assert((other.difference as nat) * (self.samples as nat) <= 0xffff_ffff_ffff_ffff * 0xffff_ffff_ffff_ffff) by (nonlinear_arith)
                requires
                    other.difference <= 0xffff_ffff_ffff_ffff,
                    self.samples <= 0xffff_ffff_ffff_ffff,
            ;
        }
        (self.difference as u128) * (other.samples as u128) < (other.difference as u128) * (self.samples as u128)
    }
}

pub open spec fn abs_diff(a: u8, b: u8) -> nat {
    if a >= b {
        (a - b) as nat
    } else {
        (b - a) as nat
    }
}

/// The summed absolute difference of the red, green and blue channels.
pub open spec fn pixel_difference(a: Rgba, b: Rgba) -> nat {
    abs_diff(a.r, b.r) + abs_diff(a.g, b.g) + abs_diff(a.b, b.b)
}

fn abs_diff_u64(a: u8, b: u8) -> (r: u64)
    ensures
        r == abs_diff(a, b),
        r <= 255,
{
    if a >= b {
        (a - b) as u64
    } else {
        (b - a) as u64
    }
}

fn pixel_diff(a: Rgba, b: Rgba) -> (r: u64)
    ensures
        r == pixel_difference(a, b),
        r <= 765,
{
    abs_diff_u64(a.r, b.r) + abs_diff_u64(a.g, b.g) + abs_diff_u64(a.b, b.b)
}

/// How far `x` is below `end`, or zero.
pub open spec fn remaining(x: int, end: int) -> nat {
    if x < end {
        (end - x) as nat
    } else {
        0
    }
}

/// The summed pixel difference of columns `x, x + step, ...` below `end`
/// between row `a` and row `b`.
pub open spec fn stepped_row_sum(a: Seq<Rgba>, b: Seq<Rgba>, x: int, step: int, end: int) -> nat
    decreases remaining(x, end),
    when step >= 1
{
    if x >= end {
        0
    } else {
        pixel_difference(a[x], b[x]) + stepped_row_sum(a, b, x + step, step, end)
    }
}

/// How many of the columns `x, x + step, ...` lie below `end`.
pub open spec fn stepped_count(x: int, step: int, end: int) -> nat
    decreases remaining(x, end),
    when step >= 1
{
    if x >= end {
        0
    } else {
        1 + stepped_count(x + step, step, end)
    }
}

pub proof fn lemma_stepped_bounds(a: Seq<Rgba>, b: Seq<Rgba>, x: int, step: int, end: int)
    requires
        step >= 1,
    ensures
        stepped_row_sum(a, b, x, step, end) <= 765 * stepped_count(x, step, end),
        x < end ==> stepped_count(x, step, end) >= 1,
        stepped_count(x, step, end) <= if x < end { end - x } else { 0 },
        x <= end ==> stepped_count(x, step, end) * step <= end - x + step - 1,
    decreases remaining(x, end),
{
    if x < end {
        lemma_stepped_bounds(a, b, x + step, step, end);
        let c = stepped_count(x + step, step, end);
        assert((1 + c) * step == step + c * step) by (nonlinear_arith);
    } else {
        assert(0 * step == 0) by (nonlinear_arith);
    }
}

/// With a step of `max(limit / parts, 1)`, a range no longer than `limit`
/// holds at most `2 * parts` sampled positions.
pub proof fn lemma_sampled_positions(x: int, len: int, limit: int, parts: int)
    requires
        0 <= len <= limit,
        parts >= 1,
    ensures
        stepped_count(x, if limit / parts >= 1 { limit / parts } else { 1 }, x + len) <= 2 * parts,
{
    let step = if limit / parts >= 1 { limit / parts } else { 1 };
    let empty: Seq<Rgba> = Seq::empty();
    lemma_stepped_bounds(empty, empty, x, step, x + len);
    let c = stepped_count(x, step, x + len);
    if limit / parts >= 1 {
        assert(limit < parts * (step + 1)) by (nonlinear_arith)
            requires
                step == limit / parts,
                parts >= 1,
        ;
        assert(c <= 2 * parts) by (nonlinear_arith)
            requires
                c * step <= len + step - 1,
                len <= limit,
                limit < parts * (step + 1),
                step >= 1,
                parts >= 1,
                c >= 0,
        ;
    } else {
        assert(limit < parts) by (nonlinear_arith)
            requires
                limit / parts < 1,
                limit >= 0,
                parts >= 1,
        ;
    }
}

/// The difference between row `previous_y` of `previous` and row `next_y`
/// of `next`, sampled every `max(width / 128, 1)` columns; none when the
/// widths differ, a row is out of range, or the rows are empty.
pub open spec fn spec_row_difference(
    previous: Seq<Seq<Rgba>>,
    previous_width: nat,
    next: Seq<Seq<Rgba>>,
    next_width: nat,
    previous_y: int,
    next_y: int,
) -> Option<Score> {
    if previous_width != next_width || previous_y < 0 || previous_y >= previous.len() || next_y < 0
        || next_y >= next.len() || previous_width == 0 {
        None
    } else {
        let step = if previous_width / 128 >= 1 { previous_width / 128 } else { 1 };
        Some(
            Score {
                difference: stepped_row_sum(previous[previous_y], next[next_y], 0, step as int, previous_width as int) as u64,
                samples: (3 * stepped_count(0, step as int, previous_width as int)) as u64,
            },
        )
    }
}

/// The summed pixel difference of two rows at columns `start, start +
/// step, ...` below `end`, and how many columns were compared.
fn stepped_row(a: &Raster, ay: u32, b: &Raster, by: u32, start: u32, step: u32, end: u32) -> (r: (u64, u64))
    requires
        step >= 1,
        ay < a.spec_height(),
        by < b.spec_height(),
        end <= a.spec_width(),
        end <= b.spec_width(),
    ensures
        r.0 == stepped_row_sum(a.grid()[ay as int], b.grid()[by as int], start as int, step as int, end as int),
        r.1 == stepped_count(start as int, step as int, end as int),
        r.0 <= 765 * r.1,
        r.1 <= end,
{
    let mut x: u32 = start;
    let mut sum: u64 = 0;
    let mut count: u64 = 0;
    let ghost ra = a.grid()[ay as int];
    let ghost rb = b.grid()[by as int];
    let _ = a.width();
    let _ = b.width();
    proof {
        lemma_stepped_bounds(ra, rb, start as int, step as int, end as int);
    }
    while x < end
        invariant
            step >= 1,
            ay < a.spec_height(),
            by < b.spec_height(),
            end <= a.spec_width(),
            end <= b.spec_width(),
            ra == a.grid()[ay as int],
            rb == b.grid()[by as int],
            is_grid(a.grid(), a.spec_width(), a.spec_height()),
            is_grid(b.grid(), b.spec_width(), b.spec_height()),
            sum + stepped_row_sum(ra, rb, x as int, step as int, end as int) == stepped_row_sum(ra, rb, start as int, step as int, end as int),
            count + stepped_count(x as int, step as int, end as int) == stepped_count(start as int, step as int, end as int),
            sum <= 765 * count,
            stepped_count(start as int, step as int, end as int) <= end,
        decreases end - x,
    {
        proof {
            lemma_stepped_bounds(ra, rb, x + step, step as int, end as int);
        }
        sum = sum + pixel_diff(a.pixel(x, ay), b.pixel(x, by));
        count = count + 1;
        if end - x <= step {
            assert(stepped_row_sum(ra, rb, x + step, step as int, end as int) == 0);
            assert(stepped_count(x + step, step as int, end as int) == 0);
            x = end;
        } else {
            x = x + step;
        }
    }
    (sum, count)
}

/// The difference between two rows, sampled across the width.
pub fn row_difference(previous: &Raster, next: &Raster, previous_y: u32, next_y: u32) -> (r: Option<Score>)
    ensures
        r == spec_row_difference(
            previous.grid(),
            previous.spec_width(),
            next.grid(),
            next.spec_width(),
            previous_y as int,
            next_y as int,
        ),
        r matches Some(s) ==> 3 <= s.samples <= 3 * previous.spec_width() && s.at_most(255),
{
    if previous.width() != next.width() || previous_y >= previous.height() || next_y >= next.height()
        || previous.width() == 0 {
        return None;
    }
    let width = previous.width();
    let step = if width / 128 >= 1 {
        width / 128
    } else {
        1
    };
    let (sum, count) = stepped_row(previous, previous_y, next, next_y, 0, step, width);
    proof {
        lemma_stepped_bounds(previous.grid()[previous_y as int], next.grid()[next_y as int], 0, step as int, width as int);
    }
    Some(Score { difference: sum, samples: 3 * count })
}

/// The pixel difference between `previous` shifted up by `offset` and
/// `next`, summed over rows `y, y + y_step, ...` below `end_y` and over the
/// columns `start_x, start_x + x_step, ...` below `end_x`.
pub open spec fn band_sum(
    previous: Seq<Seq<Rgba>>,
    next: Seq<Seq<Rgba>>,
    offset: int,
    y: int,
    y_step: int,
    end_y: int,
    start_x: int,
    x_step: int,
    end_x: int,
) -> nat
    decreases remaining(y, end_y),
    when y_step >= 1
{
    if y >= end_y {
        0
    } else {
        stepped_row_sum(previous[y + offset], next[y], start_x, x_step, end_x) + band_sum(
            previous,
            next,
            offset,
            y + y_step,
            y_step,
            end_y,
            start_x,
            x_step,
            end_x,
        )
    }
}


/// The mean difference over the block of rows `start_y..end_y` (of `next`,
/// compared with the rows `offset` lower in `previous`) and columns
/// `start_x..end_x`, sampled about every 120th overlapping row and every
/// 36th column.
pub open spec fn spec_band_difference(
    previous: Seq<Seq<Rgba>>,
    next: Seq<Seq<Rgba>>,
    height: nat,
    offset: int,
    start_y: int,
    end_y: int,
    start_x: int,
    end_x: int,
) -> Option<Score> {
    if end_x <= start_x || end_y <= start_y {
        None
    } else {
        let overlap = height - offset;
        let x_step = if (end_x - start_x) / 36 >= 1 { (end_x - start_x) / 36 } else { 1 };
        let y_step = if overlap / 120 >= 1 { overlap / 120 } else { 1 };
        Some(
            Score {
                difference: band_sum(previous, next, offset, start_y, y_step, end_y, start_x, x_step, end_x) as u64,
                samples: (3 * stepped_count(start_y, y_step, end_y) * stepped_count(start_x, x_step, end_x)) as u64,
            },
        )
    }
}

pub proof fn lemma_band_sum_bound(
    previous: Seq<Seq<Rgba>>,
    next: Seq<Seq<Rgba>>,
    offset: int,
    y: int,
    y_step: int,
    end_y: int,
    start_x: int,
    x_step: int,
    end_x: int,
)
    requires
        y_step >= 1,
        x_step >= 1,
    ensures
        band_sum(previous, next, offset, y, y_step, end_y, start_x, x_step, end_x) <= 765
            * stepped_count(y, y_step, end_y) * stepped_count(start_x, x_step, end_x),
    decreases remaining(y, end_y),
{
    if y < end_y {
        lemma_band_sum_bound(previous, next, offset, y + y_step, y_step, end_y, start_x, x_step, end_x);
        lemma_stepped_bounds(previous[y + offset], next[y], start_x, x_step, end_x);
        let r = stepped_count(y + y_step, y_step, end_y);
        let c = stepped_count(start_x, x_step, end_x);
        assert(765 * (1 + r) * c == 765 * c + 765 * r * c) by (nonlinear_arith);
    }
}

fn image_band_difference(
    previous: &Raster,
    next: &Raster,
    offset: u32,
    start_y: u32,
    end_y: u32,
    start_x: u32,
    end_x: u32,
) -> (r: Option<Score>)
    requires
        previous.spec_width() == next.spec_width(),
        previous.spec_height() == next.spec_height(),
        offset < previous.spec_height(),
        end_y + offset <= previous.spec_height(),
        end_x <= previous.spec_width(),
    ensures
        r == spec_band_difference(
            previous.grid(),
            next.grid(),
            previous.spec_height(),
            offset as int,
            start_y as int,
            end_y as int,
            start_x as int,
            end_x as int,
        ),
        r matches Some(s) ==> 3 <= s.samples <= 3 * 240 * 72 && s.at_most(255),
{
    if end_x <= start_x || end_y <= start_y {
        return None;
    }
    let height = previous.height();
    let _ = previous.width();
    let _ = next.width();
    let overlap = height - offset;
    let x_step = if (end_x - start_x) / 36 >= 1 {
        (end_x - start_x) / 36
    } else {
        1
    };
    let y_step = if overlap / 120 >= 1 {
        overlap / 120
    } else {
        1
    };
    let ghost g = previous.grid();
    let ghost h = next.grid();
    let ghost columns = stepped_count(start_x as int, x_step as int, end_x as int);
    let ghost rows = stepped_count(start_y as int, y_step as int, end_y as int);
    let ghost total = band_sum(g, h, offset as int, start_y as int, y_step as int, end_y as int, start_x as int, x_step as int, end_x as int);
    proof {
        lemma_sampled_positions(start_x as int, (end_x - start_x) as int, (end_x - start_x) as int, 36);
        lemma_sampled_positions(start_y as int, (end_y - start_y) as int, overlap as int, 120);
        lemma_stepped_bounds(g[0], h[0], start_x as int, x_step as int, end_x as int);
        lemma_stepped_bounds(g[0], h[0], start_y as int, y_step as int, end_y as int);
        assert(rows * columns <= 240 * 72) by (nonlinear_arith)
            requires
                rows <= 240,
                columns <= 72,
        ;
        lemma_band_sum_bound(g, h, offset as int, start_y as int, y_step as int, end_y as int, start_x as int, x_step as int, end_x as int);
        assert(765 * rows * columns <= 765 * (240 * 72)) by (nonlinear_arith)
            requires
                rows * columns <= 240 * 72,
        ;
    }
    let mut y: u32 = start_y;
    let mut difference: u64 = 0;
    let mut counted: u64 = 0;
    while y < end_y
        invariant
            previous.spec_width() == next.spec_width(),
            previous.spec_height() == next.spec_height(),
            end_y + offset <= previous.spec_height(),
            height == previous.spec_height(),
            end_x <= previous.spec_width(),
            g == previous.grid(),
            h == next.grid(),
            x_step >= 1,
            y_step >= 1,
            start_y <= y,
            rows <= 240,
            columns <= 72,
            columns == stepped_count(start_x as int, x_step as int, end_x as int),
            rows == stepped_count(start_y as int, y_step as int, end_y as int),
            total == band_sum(g, h, offset as int, start_y as int, y_step as int, end_y as int, start_x as int, x_step as int, end_x as int),
            difference + band_sum(g, h, offset as int, y as int, y_step as int, end_y as int, start_x as int, x_step as int, end_x as int) == total,
            counted + stepped_count(y as int, y_step as int, end_y as int) * columns == rows * columns,
            total <= 765 * rows * columns,
            total <= 765 * (240 * 72),
            rows * columns <= 240 * 72,
        decreases end_y - y,
    {
        assert(y + offset < height);
        let (sum, count) = stepped_row(previous, y + offset, next, y, start_x, x_step, end_x);
        proof {
            assert(band_sum(g, h, offset as int, y as int, y_step as int, end_y as int, start_x as int, x_step as int, end_x as int)
                == sum + band_sum(g, h, offset as int, y + y_step, y_step as int, end_y as int, start_x as int, x_step as int, end_x as int));
            lemma_band_sum_bound(g, h, offset as int, y + y_step, y_step as int, end_y as int, start_x as int, x_step as int, end_x as int);
            let r = stepped_count(y + y_step, y_step as int, end_y as int);
            assert((1 + r) * columns == columns + r * columns) by (nonlinear_arith);
            assert(r * columns >= 0) by (nonlinear_arith)
                requires
                    r >= 0,
                    columns >= 0,
            ;
        }
        difference = difference + sum;
        counted = counted + count;
        if end_y - y <= y_step {
            assert(band_sum(g, h, offset as int, y + y_step, y_step as int, end_y as int, start_x as int, x_step as int, end_x as int) == 0);
            assert(stepped_count(y + y_step, y_step as int, end_y as int) == 0);
            y = end_y;
        } else {
            y = y + y_step;
        }
    }
    proof {
        lemma_stepped_bounds(g[0], h[0], start_y as int, y_step as int, end_y as int);
        assert(rows * columns >= 1) by (nonlinear_arith)
            requires
                rows >= 1,
                columns >= 1,
        ;
        assert(3 * rows * columns == 3 * (rows * columns)) by (nonlinear_arith);
        assert(765 * rows * columns == 255 * (3 * (rows * columns))) by (nonlinear_arith);
        assert(stepped_count(y as int, y_step as int, end_y as int) == 0);
        assert(stepped_count(y as int, y_step as int, end_y as int) * columns == 0) by (nonlinear_arith)
            requires
                stepped_count(y as int, y_step as int, end_y as int) == 0,
        ;
        assert(band_sum(g, h, offset as int, y as int, y_step as int, end_y as int, start_x as int, x_step as int, end_x as int) == 0);
        assert(difference == total);
        assert(counted == rows * columns);
    }
    Some(Score { difference, samples: 3 * counted })
}


/// No score in `s` is smaller than one before it.
pub open spec fn ordered(s: Seq<Score>) -> bool {
    forall|i: int, j: int| 0 <= i < j < s.len() ==> !(#[trigger] s[j]).less_than(#[trigger] s[i])
}

/// Every score in `s` was taken over at least one sample.
pub open spec fn all_sampled(s: Seq<Score>) -> bool {
    forall|i: int| 0 <= i < s.len() ==> (#[trigger] s[i]).samples > 0
}

/// How many scores in `s` are at most `limit`.
pub open spec fn count_at_most(s: Seq<Score>, limit: int) -> nat
    decreases s.len(),
{
    if s.len() == 0 {
        0
    } else {
        count_at_most(s.drop_last(), limit) + if s.last().at_most(limit) {
            1nat
        } else {
            0nat
        }
    }
}

/// `v` stands in the middle (index `len / 2`) of `s` put in order; so it is
/// at most a limit exactly when more than half of `s` is.
pub open spec fn is_median(v: Score, s: Seq<Score>) -> bool {
    &&& exists|p: Seq<Score>|
        #![trigger p.to_multiset()]
        p.to_multiset() == s.to_multiset() && p.len() == s.len() && ordered(p) && p[(s.len() / 2) as int] == v
    &&& forall|limit: int| #[trigger] v.at_most(limit) <==> count_at_most(s, limit) > s.len() / 2
}

proof fn lemma_count_add(a: Seq<Score>, b: Seq<Score>, limit: int)
    ensures
        count_at_most(a + b, limit) == count_at_most(a, limit) + count_at_most(b, limit),
    decreases b.len(),
{
    if b.len() == 0 {
        assert(a + b =~= a);
    } else {
        lemma_count_add(a, b.drop_last(), limit);
        assert((a + b).drop_last() =~= a + b.drop_last());
    }
}

proof fn lemma_count_range(s: Seq<Score>, limit: int)
    ensures
        count_at_most(s, limit) <= s.len(),
        (forall|i: int| 0 <= i < s.len() ==> (#[trigger] s[i]).at_most(limit)) ==> count_at_most(s, limit) == s.len(),
        (forall|i: int| 0 <= i < s.len() ==> !(#[trigger] s[i]).at_most(limit)) ==> count_at_most(s, limit) == 0,
    decreases s.len(),
{
    if s.len() > 0 {
        lemma_count_range(s.drop_last(), limit);
        if forall|i: int| 0 <= i < s.len() ==> (#[trigger] s[i]).at_most(limit) {
            assert forall|i: int| 0 <= i < s.drop_last().len() implies (#[trigger] s.drop_last()[i]).at_most(limit) by {
                assert(s.drop_last()[i] == s[i]);
            }
        }
        if forall|i: int| 0 <= i < s.len() ==> !(#[trigger] s[i]).at_most(limit) {
            assert forall|i: int| 0 <= i < s.drop_last().len() implies !(#[trigger] s.drop_last()[i]).at_most(limit) by {
                assert(s.drop_last()[i] == s[i]);
            }
        }
    }
}

proof fn lemma_count_insert(q: Seq<Score>, p: int, e: Score, limit: int)
    requires
        0 <= p <= q.len(),
    ensures
        count_at_most(q.insert(p, e), limit) == count_at_most(q, limit) + if e.at_most(limit) {
            1nat
        } else {
            0nat
        },
{
    let a = q.take(p);
    let b = q.skip(p);
    assert(q =~= a + b);
    assert(q.insert(p, e) =~= (a + seq![e]) + b);
    lemma_count_add(a, b, limit);
    lemma_count_add(a + seq![e], b, limit);
    lemma_count_add(a, seq![e], limit);
    assert(seq![e].drop_last() =~= Seq::<Score>::empty());
    assert(count_at_most(Seq::<Score>::empty(), limit) == 0);
    assert(count_at_most(seq![e], limit) == if e.at_most(limit) {
        1nat
    } else {
        0nat
    });
}

proof fn lemma_threshold_below(a: Score, v: Score, limit: int)
    requires
        a.samples > 0,
        v.samples > 0,
        !v.less_than(a),
        v.at_most(limit),
    ensures
        a.at_most(limit),
{
    let (ad, as_, vd, vs) = (a.difference as int, a.samples as int, v.difference as int, v.samples as int);
    assert(ad * vs <= limit * as_ * vs) by (nonlinear_arith)
        requires
            ad * vs <= vd * as_,
            vd <= limit * vs,
            as_ > 0,
    ;
    assert(ad <= limit * as_) by (nonlinear_arith)
        requires
            ad * vs <= limit * as_ * vs,
            vs > 0,
    ;
}

proof fn lemma_threshold_above(a: Score, v: Score, limit: int)
    requires
        a.samples > 0,
        v.samples > 0,
        !a.less_than(v),
        !v.at_most(limit),
    ensures
        !a.at_most(limit),
{
    let (ad, as_, vd, vs) = (a.difference as int, a.samples as int, v.difference as int, v.samples as int);
    assert(limit * vs * as_ < ad * vs) by (nonlinear_arith)
        requires
            vd * as_ <= ad * vs,
            vd > limit * vs,
            as_ > 0,
    ;
    assert(limit * as_ < ad) by (nonlinear_arith)
        requires
            limit * vs * as_ < ad * vs,
            vs > 0,
    ;
}

proof fn lemma_ordered_threshold(p: Seq<Score>, limit: int)
    requires
        p.len() > 0,
        ordered(p),
        all_sampled(p),
    ensures
        p[(p.len() / 2) as int].at_most(limit) <==> count_at_most(p, limit) > p.len() / 2,
{
    let k = (p.len() / 2) as int;
    let v = p[k];
    if v.at_most(limit) {
        let a = p.take(k + 1);
        assert forall|i: int| 0 <= i < a.len() implies (#[trigger] a[i]).at_most(limit) by {
            assert(a[i] == p[i]);
            if i < k {
                lemma_threshold_below(p[i], v, limit);
            }
        }
        lemma_count_range(a, limit);
        lemma_count_range(p.skip(k + 1), limit);
        assert(p =~= a + p.skip(k + 1));
        lemma_count_add(a, p.skip(k + 1), limit);
    } else {
        let b = p.skip(k);
        assert forall|i: int| 0 <= i < b.len() implies !(#[trigger] b[i]).at_most(limit) by {
            assert(b[i] == p[k + i]);
            if i > 0 {
                lemma_threshold_above(p[k + i], v, limit);
            }
        }
        lemma_count_range(b, limit);
        lemma_count_range(p.take(k), limit);
        assert(p =~= p.take(k) + b);
        lemma_count_add(p.take(k), b, limit);
    }
}

pub proof fn lemma_less_then_at_most(a: Score, b: Score, c: Score)
    requires
        a.samples > 0,
        b.samples > 0,
        c.samples > 0,
        a.less_than(b),
        !c.less_than(b),
    ensures
        a.less_than(c),
{
    let (ad, as_, bd, bs, cd, cs) = (
        a.difference as int,
        a.samples as int,
        b.difference as int,
        b.samples as int,
        c.difference as int,
        c.samples as int,
    );
    assert(ad * bs * cs < bd * as_ * cs) by (nonlinear_arith)
        requires
            ad * bs < bd * as_,
            cs > 0,
    ;
    assert(bd * cs * as_ <= cd * bs * as_) by (nonlinear_arith)
        requires
            bd * cs <= cd * bs,
            as_ > 0,
    ;
    assert(ad * cs * bs < cd * as_ * bs) by (nonlinear_arith)
        requires
            ad * bs * cs < bd * as_ * cs,
            bd * cs * as_ <= cd * bs * as_,
    ;
    assert(ad * cs < cd * as_) by (nonlinear_arith)
        requires
            ad * cs * bs < cd * as_ * bs,
            bs > 0,
    ;
}

proof fn lemma_insert_ordered(q: Seq<Score>, p: int, e: Score)
    requires
        0 <= p <= q.len(),
        ordered(q),
        all_sampled(q),
        e.samples > 0,
        forall|k: int| 0 <= k < p ==> !e.less_than(#[trigger] q[k]),
        p < q.len() ==> e.less_than(q[p]),
    ensures
        ordered(q.insert(p, e)),
        all_sampled(q.insert(p, e)),
{
    let n = q.insert(p, e);
    assert forall|i: int, j: int| 0 <= i < j < n.len() implies !(#[trigger] n[j]).less_than(#[trigger] n[i]) by {
        if i == p {
            let jj = j - 1;
            if p < jj {
                assert(!q[jj].less_than(q[p]));
            }
            lemma_less_then_at_most(e, q[p], q[jj]);
        }
    }
}

/// The score in the middle of `scores` once they are put in order.
fn median_score(scores: &Vec<Score>) -> (r: Option<Score>)
    requires
        all_sampled(scores@),
    ensures
        scores@.len() == 0 <==> r is None,
        r matches Some(v) ==> is_median(v, scores@) && scores@.contains(v),
{
    let mut sorted: Vec<Score> = Vec::new();
    let mut i: usize = 0;
    assert(sorted@ =~= scores@.take(0));
    while i < scores.len()
        invariant
            i <= scores.len(),
            all_sampled(scores@),
            sorted@.to_multiset() == scores@.take(i as int).to_multiset(),
            forall|limit: int| #[trigger] count_at_most(sorted@, limit) == count_at_most(scores@.take(i as int), limit),
            sorted@.len() == i,
            ordered(sorted@),
            all_sampled(sorted@),
        decreases scores.len() - i,
    {
        let e = scores[i];
        let mut p: usize = 0;
        while p < sorted.len() && !e.is_less_than(sorted[p])
            invariant
                p <= sorted.len(),
                forall|k: int| 0 <= k < p ==> !e.less_than(#[trigger] sorted@[k]),
            decreases sorted.len() - p,
        {
            p = p + 1;
        }
        proof {
            lemma_insert_ordered(sorted@, p as int, e);
            vstd::seq_lib::to_multiset_insert(sorted@, p as int, e);
            vstd::seq_lib::to_multiset_build(scores@.take(i as int), e);
            assert(scores@.take(i + 1) == scores@.take(i as int).push(e));
            assert forall|limit: int| #[trigger] count_at_most(sorted@.insert(p as int, e), limit) == count_at_most(scores@.take(i + 1), limit) by {
                lemma_count_insert(sorted@, p as int, e, limit);
                assert(scores@.take(i as int).push(e).drop_last() =~= scores@.take(i as int));
            }
        }
        sorted.insert(p, e);
        i = i + 1;
    }
    if sorted.len() == 0 {
        return None;
    }
    let v = sorted[sorted.len() / 2];
    proof {
        assert(scores@.take(scores@.len() as int) == scores@);
        assert(sorted@.to_multiset() == scores@.to_multiset());
        assert(sorted@.contains(v));
        assert forall|limit: int| #[trigger] v.at_most(limit) <==> count_at_most(scores@, limit) > scores@.len() / 2 by {
            lemma_ordered_threshold(sorted@, limit);
        }
        vstd::seq_lib::to_multiset_contains(sorted@, v);
        vstd::seq_lib::to_multiset_contains(scores@, v);
    }
    Some(v)
}


pub open spec fn smaller(a: int, b: int) -> int {
    if a <= b {
        a
    } else {
        b
    }
}

pub open spec fn larger(a: int, b: int) -> int {
    if a >= b {
        a
    } else {
        b
    }
}

/// The column range of vertical band `band` out of five, `margin` columns
/// in from both sides of a `width`-column image.
pub open spec fn band_columns(width: int, margin: int, band_width: int, band: int) -> (int, int) {
    let start_x = margin + band * band_width;
    let end_x = if band == 4 {
        width - margin
    } else {
        smaller(start_x + band_width, width - margin)
    };
    (start_x, end_x)
}

/// The scores of the first `count` bands that have one, in band order.
pub open spec fn band_scores(
    previous: Seq<Seq<Rgba>>,
    next: Seq<Seq<Rgba>>,
    width: nat,
    height: nat,
    offset: int,
    start_y: int,
    end_y: int,
    margin: int,
    band_width: int,
    count: nat,
) -> Seq<Score>
    decreases count,
{
    if count == 0 {
        Seq::empty()
    } else {
        let before = band_scores(previous, next, width, height, offset, start_y, end_y, margin, band_width, (count - 1) as nat);
        let (start_x, end_x) = band_columns(width as int, margin, band_width, count - 1);
        match spec_band_difference(previous, next, height, offset, start_y, end_y, start_x, end_x) {
            Some(s) => before.push(s),
            None => before,
        }
    }
}

/// The band scores that `image_difference` takes the median of: none when
/// the images differ in size, the offset leaves no rows, or the overlap is
/// too small to leave a margin.
pub open spec fn image_bands(
    previous: Seq<Seq<Rgba>>,
    previous_width: nat,
    previous_height: nat,
    next: Seq<Seq<Rgba>>,
    next_width: nat,
    next_height: nat,
    offset: int,
) -> Option<Seq<Score>> {
    if previous_width != next_width || previous_height != next_height || offset < 0 || offset >= previous_height {
        None
    } else {
        let overlap = previous_height - offset;
        let vertical_margin = smaller(overlap / 10, 48);
        let start_y = vertical_margin;
        let end_y = overlap - vertical_margin;
        let margin = smaller((previous_width / 40) as int, 32);
        let usable = previous_width - 2 * margin;
        if end_y <= start_y || usable < 5 {
            None
        } else {
            let band_width = larger(usable / 5, 1);
            Some(band_scores(previous, next, previous_width, previous_height, offset, start_y, end_y, margin, band_width, 5))
        }
    }
}

/// Whether `r` is what comparing `previous` shifted up by `offset` rows
/// with `next` gives: the median of the five band scores.
pub open spec fn is_image_difference(previous: Raster, next: Raster, offset: int, r: Option<Score>) -> bool {
    match image_bands(
        previous.grid(),
        previous.spec_width(),
        previous.spec_height(),
        next.grid(),
        next.spec_width(),
        next.spec_height(),
        offset,
    ) {
        None => r is None,
        Some(bands) => if bands.len() == 0 {
            r is None
        } else {
            r matches Some(v) && is_median(v, bands)
        },
    }
}

/// Compares rows `offset..` of `previous` with the rows of `next` they
/// would show after scrolling by `offset`: the median of five vertical
/// band scores, which ignores one or two bands with local changes.
pub fn image_difference(previous: &Raster, next: &Raster, offset: u32) -> (r: Option<Score>)
    ensures
        is_image_difference(*previous, *next, offset as int, r),
        r matches Some(s) ==> 3 <= s.samples <= 3 * 240 * 72 && s.at_most(255),
{
    if previous.width() != next.width() || previous.height() != next.height() || offset >= previous.height() {
        return None;
    }
    let width = previous.width();
    let height = previous.height();
    let overlap = height - offset;
    let vertical_margin = if overlap / 10 <= 48 {
        overlap / 10
    } else {
        48
    };
    let start_y = vertical_margin;
    let end_y = overlap - vertical_margin;
    let margin = if width / 40 <= 32 {
        width / 40
    } else {
        32
    };
    if end_y <= start_y || width - 2 * margin < 5 {
        return None;
    }
    let usable = width - 2 * margin;
    let band_width = if usable / 5 >= 1 {
        usable / 5
    } else {
        1
    };
    let ghost g = previous.grid();
    let ghost h = next.grid();
    let mut scores: Vec<Score> = Vec::new();
    let mut band: u32 = 0;
    while band < 5
        invariant
            band <= 5,
            g == previous.grid(),
            h == next.grid(),
            width == previous.spec_width(),
            height == previous.spec_height(),
            previous.spec_width() == next.spec_width(),
            previous.spec_height() == next.spec_height(),
            offset < height,
            end_y + offset <= height,
            usable == width - 2 * margin,
            usable >= 5,
            band_width == larger((usable / 5) as int, 1),
            scores@ == band_scores(g, h, width as nat, height as nat, offset as int, start_y as int, end_y as int, margin as int, band_width as int, band as nat),
            forall|i: int| 0 <= i < scores@.len() ==> 3 <= (#[trigger] scores@[i]).samples <= 3 * 240 * 72 && scores@[i].at_most(255),
        decreases 5 - band,
    {
        assert(band * band_width <= 4 * (usable / 5)) by (nonlinear_arith)
            requires
                band <= 4,
                band_width == usable / 5,
        ;
        let start_x = margin + band * band_width;
        let end_x = if band == 4 {
            width - margin
        } else if start_x + band_width <= width - margin {
            start_x + band_width
        } else {
            width - margin
        };
        if let Some(score) = image_band_difference(previous, next, offset, start_y, end_y, start_x, end_x) {
            scores.push(score);
        }
        band = band + 1;
    }
    median_score(&scores)
}


/// The rows `start..stop` of `next` among which a seam is chosen, for a
/// frame of `height` rows scrolled by `offset`.
pub open spec fn seam_window(height: int, offset: int) -> (int, int) {
    let overlap = height - offset;
    let margin = smaller(overlap / 10, 48);
    let start = larger(margin, 1);
    let end = larger(overlap - margin, start + 1);
    (start, smaller(end, overlap))
}

/// How well row `row` of `next` matches the row of `previous` it shows
/// after scrolling by `offset`.
pub open spec fn seam_score(previous: Raster, next: Raster, offset: int, row: int) -> Option<Score> {
    spec_row_difference(previous.grid(), previous.spec_width(), next.grid(), next.spec_width(), row + offset, row)
}

/// Whether `seam` is the seam `find_seam` picks: the first row of the
/// window whose score is the smallest, or the window's start when no row
/// has a score.
pub open spec fn is_seam(previous: Raster, next: Raster, offset: int, seam: int) -> bool {
    let height = next.spec_height() as int;
    if previous.spec_width() != next.spec_width() || previous.spec_height() != next.spec_height() || offset >= height {
        seam == larger(height - offset, 0)
    } else if height - offset < 4 {
        seam == height - offset
    } else {
        let (start, stop) = seam_window(height, offset);
        if forall|row: int| start <= row < stop ==> seam_score(previous, next, offset, row) is None {
            seam == start
        } else {
            &&& start <= seam < stop
            &&& seam_score(previous, next, offset, seam) is Some
            &&& forall|row: int|
                start <= row < stop && (#[trigger] seam_score(previous, next, offset, row)) is Some
                    ==> !seam_score(previous, next, offset, row)->0.less_than(seam_score(previous, next, offset, seam)->0)
            &&& forall|row: int|
                start <= row < seam && (#[trigger] seam_score(previous, next, offset, row)) is Some
                    ==> seam_score(previous, next, offset, seam)->0.less_than(seam_score(previous, next, offset, row)->0)
        }
    }
}

/// The seam is where the two frames agree best: when a row of the window can
/// be compared, the seam is one, no row of the window has a smaller mean
/// difference than the seam's row, and every earlier row of the window has
/// a larger one.
pub proof fn lemma_seam_agrees_best(previous: Raster, next: Raster, offset: int, seam: int)
    requires
        is_seam(previous, next, offset, seam),
        previous.spec_width() == next.spec_width(),
        previous.spec_height() == next.spec_height(),
        0 <= offset,
        next.spec_height() - offset >= 4,
        exists|row: int|
            seam_window(next.spec_height() as int, offset).0 <= row < seam_window(next.spec_height() as int, offset).1
                && (#[trigger] seam_score(previous, next, offset, row)) is Some,
    ensures
        seam_window(next.spec_height() as int, offset).0 <= seam < seam_window(next.spec_height() as int, offset).1,
        seam_score(previous, next, offset, seam) is Some,
        forall|row: int|
            seam_window(next.spec_height() as int, offset).0 <= row < seam_window(next.spec_height() as int, offset).1
                && (#[trigger] seam_score(previous, next, offset, row)) is Some
                ==> seam_score(previous, next, offset, seam)->0.difference * seam_score(previous, next, offset, row)->0.samples
                <= seam_score(previous, next, offset, row)->0.difference * seam_score(previous, next, offset, seam)->0.samples,
        forall|row: int|
            seam_window(next.spec_height() as int, offset).0 <= row < seam
                && (#[trigger] seam_score(previous, next, offset, row)) is Some
                ==> seam_score(previous, next, offset, seam)->0.difference * seam_score(previous, next, offset, row)->0.samples
                < seam_score(previous, next, offset, row)->0.difference * seam_score(previous, next, offset, seam)->0.samples,
{
    let (start, stop) = seam_window(next.spec_height() as int, offset);
    let row0 = choose|row: int| start <= row < stop && (#[trigger] seam_score(previous, next, offset, row)) is Some;
    assert(!(forall|row: int| start <= row < stop ==> seam_score(previous, next, offset, row) is None));
}

/// The row of `next` at which the new frame takes over from what was
/// stitched before: where the two frames agree best.
pub fn find_seam(previous: &Raster, next: &Raster, offset: u32) -> (r: u32)
    ensures
        is_seam(*previous, *next, offset as int, r as int),
{
    let height = next.height();
    if previous.width() != next.width() || previous.height() != height || offset >= height {
        return if offset >= height { 0 } else { height - offset };
    }
    let overlap = height - offset;
    if overlap < 4 {
        return overlap;
    }
    let margin = if overlap / 10 <= 48 {
        overlap / 10
    } else {
        48
    };
    let start = if margin >= 1 {
        margin
    } else {
        1
    };
    let end = if overlap - margin >= start + 1 {
        overlap - margin
    } else {
        start + 1
    };
    let stop = if end <= overlap {
        end
    } else {
        overlap
    };
    let mut best_row = start;
    let mut best: Option<Score> = None;
    let mut row = start;
    while row < stop
        invariant
            start <= row <= stop,
            stop <= overlap,
            overlap == height - offset,
            height == next.spec_height(),
            start >= 1,
            best is None ==> best_row == start && forall|k: int|
                start <= k < row ==> (#[trigger] seam_score(*previous, *next, offset as int, k)) is None,
            best is Some ==> start <= best_row < row,
            best is Some ==> seam_score(*previous, *next, offset as int, best_row as int) == best,
            best is Some ==> best->0.samples > 0,
            best is Some ==> forall|k: int|
                start <= k < row && (#[trigger] seam_score(*previous, *next, offset as int, k)) is Some
                    ==> !seam_score(*previous, *next, offset as int, k)->0.less_than(best->0),
            best is Some ==> forall|k: int|
                start <= k < best_row && (#[trigger] seam_score(*previous, *next, offset as int, k)) is Some
                    ==> best->0.less_than(seam_score(*previous, *next, offset as int, k)->0),
            forall|k: int|
                start <= k < row && (#[trigger] seam_score(*previous, *next, offset as int, k)) is Some
                    ==> seam_score(*previous, *next, offset as int, k)->0.samples > 0,
        decreases stop - row,
    {
        let candidate = row_difference(previous, next, row + offset, row);
        assert(seam_score(*previous, *next, offset as int, row as int) == candidate);
        if let Some(s) = candidate {
            let take = match best {
                None => true,
                Some(b) => s.is_less_than(b),
            };
            if take {
                proof {
                    if let Some(b) = best {
                        assert forall|k: int|
                            start <= k < row + 1 && (#[trigger] seam_score(*previous, *next, offset as int, k)) is Some
                                implies !seam_score(*previous, *next, offset as int, k)->0.less_than(s) by {
                            let sk = seam_score(*previous, *next, offset as int, k)->0;
                            if k < row && sk.less_than(s) {
                                lemma_less_then_at_most(sk, s, b);
                            }
                        }
                        assert forall|k: int|
                            start <= k < row && (#[trigger] seam_score(*previous, *next, offset as int, k)) is Some
                                implies s.less_than(seam_score(*previous, *next, offset as int, k)->0) by {
                            let sk = seam_score(*previous, *next, offset as int, k)->0;
                            lemma_less_then_at_most(s, b, sk);
                        }
                    }
                }
                best = Some(s);
                best_row = row;
            }
        }
        row = row + 1;
    }
    best_row
}

/// Whether row `y` belongs to a bar fixed to the bottom of the viewport: it
/// stays the same between the frames, yet differs from the row that
/// scrolled into its place.
pub open spec fn is_fixed_row(previous: Raster, next: Raster, offset: int, y: int) -> bool {
    &&& spec_row_difference(previous.grid(), previous.spec_width(), next.grid(), next.spec_width(), y, y) matches Some(
        same,
    ) && same.at_most(6)
    &&& y >= offset
    &&& spec_row_difference(previous.grid(), previous.spec_width(), next.grid(), next.spec_width(), y, y - offset) matches Some(
        aligned,
    ) && aligned.at_least(10)
}

/// The first row of the run of fixed rows that ends at row `y`, looking no
/// higher than `lowest`; `y + 1` when row `y` is not fixed.
pub open spec fn fixed_run_start(previous: Raster, next: Raster, offset: int, y: int, lowest: int) -> int
    decreases y - lowest + 1,
{
    if y < lowest || !is_fixed_row(previous, next, offset, y) {
        y + 1
    } else {
        fixed_run_start(previous, next, offset, y - 1, lowest)
    }
}

/// The band of rows `(start, height)` at the bottom of both frames that is
/// fixed, when it is at least eight rows tall.
pub open spec fn spec_bottom_fixed_band(previous: Raster, next: Raster, offset: int) -> Option<(u32, u32)> {
    let height = previous.spec_height() as int;
    if previous.spec_width() != next.spec_width() || previous.spec_height() != next.spec_height() || offset == 0
        || offset >= height {
        None
    } else {
        let scan_start = larger(height - offset - 128, 0);
        let start = fixed_run_start(previous, next, offset, height - 1, scan_start);
        if height - start >= 8 {
            Some((start as u32, height as u32))
        } else {
            None
        }
    }
}

proof fn lemma_fixed_run_start_bounds(previous: Raster, next: Raster, offset: int, y: int, lowest: int)
    ensures
        fixed_run_start(previous, next, offset, y, lowest) <= y + 1,
        y >= lowest - 1 ==> fixed_run_start(previous, next, offset, y, lowest) >= lowest,
    decreases y - lowest + 1,
{
    if y >= lowest && is_fixed_row(previous, next, offset, y) {
        lemma_fixed_run_start_bounds(previous, next, offset, y - 1, lowest);
    }
}

proof fn lemma_fixed_run_rows(previous: Raster, next: Raster, offset: int, y: int, lowest: int, z: int)
    requires
        fixed_run_start(previous, next, offset, y, lowest) <= z <= y,
    ensures
        is_fixed_row(previous, next, offset, z),
    decreases y - lowest + 1,
{
    lemma_fixed_run_start_bounds(previous, next, offset, y, lowest);
    if z < y {
        lemma_fixed_run_rows(previous, next, offset, y - 1, lowest, z);
    }
}

/// A fixed bottom bar is a band of at least eight rows that reaches the
/// bottom of both frames, each of whose rows stays (nearly) the same
/// between the frames, mean difference at most 6, and differs from the
/// content row that scrolled into its place, mean difference at least 10.
pub proof fn lemma_fixed_band_rows(previous: Raster, next: Raster, offset: int, start: u32, end: u32)
    requires
        spec_bottom_fixed_band(previous, next, offset) == Some((start, end)),
    ensures
        end == previous.spec_height(),
        end - start >= 8,
        start >= offset,
        forall|y: int|
            start <= y < end ==> ((#[trigger] spec_row_difference(
                previous.grid(),
                previous.spec_width(),
                next.grid(),
                next.spec_width(),
                y,
                y,
            )) matches Some(same) && same.difference <= 6 * same.samples),
        forall|y: int|
            start <= y < end ==> ((#[trigger] spec_row_difference(
                previous.grid(),
                previous.spec_width(),
                next.grid(),
                next.spec_width(),
                y,
                y - offset,
            )) matches Some(aligned) && aligned.difference >= 10 * aligned.samples),
{
    let height = previous.spec_height() as int;
    let lowest = larger(height - offset - 128, 0);
    previous.lemma_extent_fits();
    lemma_fixed_run_start_bounds(previous, next, offset, height - 1, lowest);
    assert forall|y: int| start <= y < end implies ((#[trigger] spec_row_difference(
        previous.grid(),
        previous.spec_width(),
        next.grid(),
        next.spec_width(),
        y,
        y,
    )) matches Some(same) && same.difference <= 6 * same.samples) by {
        lemma_fixed_run_rows(previous, next, offset, height - 1, lowest, y);
        assert(is_fixed_row(previous, next, offset, y));
    }
    assert forall|y: int| start <= y < end implies ((#[trigger] spec_row_difference(
        previous.grid(),
        previous.spec_width(),
        next.grid(),
        next.spec_width(),
        y,
        y - offset,
    )) matches Some(aligned) && aligned.difference >= 10 * aligned.samples) by {
        lemma_fixed_run_rows(previous, next, offset, height - 1, lowest, y);
        assert(is_fixed_row(previous, next, offset, y));
    }
    lemma_fixed_run_rows(previous, next, offset, height - 1, lowest, start as int);
}

/// When the new frame is exactly the old one scrolled by `offset`, nothing
/// is a fixed bar: every bottom row equals the content row that scrolled
/// into its place.
pub proof fn lemma_scrolled_content_has_no_fixed_band(previous: Raster, next: Raster, offset: int)
    requires
        forall|y: int| offset <= y < previous.spec_height() ==> #[trigger] next.grid()[y - offset] == previous.grid()[y],
    ensures
        spec_bottom_fixed_band(previous, next, offset) is None,
{
    let height = previous.spec_height() as int;
    if !(previous.spec_width() != next.spec_width() || previous.spec_height() != next.spec_height() || offset == 0
        || offset >= height) {
        let lowest = larger(height - offset - 128, 0);
        let y = height - 1;
        let w = previous.spec_width();
        previous.lemma_extent_fits();
        if w > 0 && y < previous.grid().len() && y - offset < next.grid().len() {
            let step: int = if w / 128 >= 1 { (w / 128) as int } else { 1 };
            assert(next.grid()[y - offset] == previous.grid()[y]);
            lemma_same_rows_no_difference(previous.grid()[y], 0, step, w as int);
            lemma_stepped_bounds(previous.grid()[y], previous.grid()[y], 0, step, w as int);
        }
        assert(!is_fixed_row(previous, next, offset, y));
        assert(fixed_run_start(previous, next, offset, y, lowest) == height);
    }
}

/// Finds a toolbar or similar bar that stays at the bottom of the viewport
/// while the content scrolls behind it.
pub fn find_bottom_fixed_band(previous: &Raster, next: &Raster, offset: u32) -> (r: Option<(u32, u32)>)
    ensures
        r == spec_bottom_fixed_band(*previous, *next, offset as int),
{
    let height = previous.height();
    if previous.width() != next.width() || height != next.height() || offset == 0 || offset >= height {
        return None;
    }
    let scan_start = if height - offset >= 128 {
        height - offset - 128
    } else {
        0
    };
    let mut run_start: Option<u32> = None;
    let mut y = scan_start;
    let width = previous.width();
    while y < height
        invariant
            scan_start <= y <= height,
            height == previous.spec_height(),
            width == previous.spec_width(),
            run_start == (if fixed_run_start(*previous, *next, offset as int, y - 1, scan_start as int) < y {
                Some(fixed_run_start(*previous, *next, offset as int, y - 1, scan_start as int) as u32)
            } else {
                None::<u32>
            }),
        decreases height - y,
    {
        proof {
            lemma_fixed_run_start_bounds(*previous, *next, offset as int, y - 1, scan_start as int);
        }
        let same_screen = row_difference(previous, next, y, y);
        let aligned = if y >= offset {
            row_difference(previous, next, y, y - offset)
        } else {
            None
        };
        let same_ok = match same_screen {
            Some(same) => same.is_at_most(6),
            None => false,
        };
        let aligned_ok = match aligned {
            Some(score) => score.is_at_least(10),
            None => false,
        };
        if same_ok && aligned_ok {
            if run_start.is_none() {
                run_start = Some(y);
            }
        } else {
            run_start = None;
        }
        y = y + 1;
    }
    proof {
        lemma_fixed_run_start_bounds(*previous, *next, offset as int, height - 1, scan_start as int);
    }
    if let Some(start) = run_start {
        if height - start >= 8 {
            return Some((start, height));
        }
    }
    None
}

/// Copies the fixed bar of `next` (its rows `start_y..end_y`, which it
/// shows `offset` rows lower than the content) over the stitched image,
/// where the scrolled content would otherwise have put stale rows.
pub fn patch_fixed_rows(
    stitched: &mut Raster,
    next: &Raster,
    document_offset: u32,
    offset: u32,
    start_y: u32,
    end_y: u32,
) -> (r: Result<(), String>)
    requires
        next.spec_width() <= old(stitched).spec_width(),
    ensures
        start_y >= end_y || end_y > next.spec_height() || start_y < offset ==> r is Ok && *final(stitched)
            == *old(stitched),
        !(start_y >= end_y || end_y > next.spec_height() || start_y < offset) ==> {
            let source_start = start_y - offset;
            let target_start = document_offset + start_y;
            if source_start + (end_y - start_y) > next.spec_height() || document_offset + end_y > old(stitched).spec_height() {
                &&& r matches Err(e) && e@ == "滚动截图固定元素回填范围无效"@
                &&& *final(stitched) == *old(stitched)
            } else {
                &&& r is Ok
                &&& final(stitched).spec_width() == old(stitched).spec_width()
                &&& final(stitched).spec_height() == old(stitched).spec_height()
                &&& final(stitched).grid() == Seq::new(
                    old(stitched).spec_height(),
                    |y: int|
                        if target_start <= y < document_offset + end_y {
                            next.grid()[source_start + y - target_start] + old(stitched).grid()[y].skip(next.spec_width() as int)
                        } else {
                            old(stitched).grid()[y]
                        },
                )
            }
        },
{
    if start_y >= end_y || end_y > next.height() || start_y < offset {
        return Ok(());
    }
    let source_start = start_y - offset;
    let row_count = end_y - start_y;
    let height = stitched.height();
    if source_start > next.height() - row_count || document_offset > u32::MAX - end_y || document_offset + end_y > height {
        return Err("滚动截图固定元素回填范围无效".to_owned());
    }
    *stitched = stitched.with_rows_replaced(document_offset + start_y, next, source_start, row_count);
    Ok(())
}

/// What `append_scrolled_frame_at_seam` gives: the stitched rows that come
/// before the seam, then the rows of `next` from the seam on.
pub open spec fn spec_append_at_seam(
    stitched_width: nat,
    stitched_height: nat,
    next_width: nat,
    next_height: nat,
    offset: int,
    seam: int,
) -> Result<(nat, nat), Seq<char>> {
    if stitched_width != next_width || offset == 0 || offset > next_height || seam > next_height - offset {
        Err("滚动截图拼接尺寸无效"@)
    } else if stitched_height < next_height - offset - seam {
        Err("滚动截图重叠区域超出已拼接图像"@)
    } else if stitched_height - (next_height - offset - seam) + (next_height - seam) > u32::MAX {
        Err("滚动截图拼接高度溢出"@)
    } else {
        Ok(((stitched_height - (next_height - offset - seam)) as nat, (next_height - seam) as nat))
    }
}

/// Appends the rows of `next` that scrolled into view to `stitched`,
/// switching from the old rows to the new frame at row `seam` of the
/// frames' overlap.
pub fn append_scrolled_frame_at_seam(stitched: Raster, next: &Raster, offset: u32, seam: u32) -> (r: Result<Raster, String>)
    ensures
        match spec_append_at_seam(
            stitched.spec_width(),
            stitched.spec_height(),
            next.spec_width(),
            next.spec_height(),
            offset as int,
            seam as int,
        ) {
            Ok((kept, _)) => r matches Ok(image) && image.spec_width() == stitched.spec_width()
                && image.spec_height() == kept + next.spec_height() - seam && image.grid() == stitched.grid().take(kept as int)
                + next.grid().skip(seam as int),
            Err(message) => r matches Err(e) && e@ == message,
        },
{
    let next_height = next.height();
    if stitched.width() != next.width() || offset == 0 || offset > next_height || seam > next_height - offset {
        return Err("滚动截图拼接尺寸无效".to_owned());
    }
    let old_overlap_after_seam = next_height - offset - seam;
    let stitched_height = stitched.height();
    if stitched_height < old_overlap_after_seam {
        return Err("滚动截图重叠区域超出已拼接图像".to_owned());
    }
    let kept_height = stitched_height - old_overlap_after_seam;
    if kept_height > u32::MAX - (next_height - seam) {
        return Err("滚动截图拼接高度溢出".to_owned());
    }
    Ok(Raster::stacked(&stitched, kept_height, next, seam))
}

/// Stitching at any seam inside the overlap gives the same image when the
/// stitched image ends with the rows that the new frame starts with: no row
/// is dropped and none is repeated.
pub proof fn lemma_seam_keeps_every_row_once(
    stitched: Seq<Seq<Rgba>>,
    next: Seq<Seq<Rgba>>,
    offset: int,
    seam: int,
)
    requires
        0 < offset <= next.len(),
        0 <= seam <= next.len() - offset,
        stitched.len() >= next.len() - offset,
        stitched.skip(stitched.len() - (next.len() - offset)) == next.take(next.len() - offset),
    ensures
        stitched.take(stitched.len() - (next.len() - offset - seam)) + next.skip(seam) == stitched + next.skip(
            next.len() - offset,
        ),
{
    let overlap = next.len() - offset;
    let kept = stitched.len() - (overlap - seam);
    let lhs = stitched.take(kept) + next.skip(seam);
    let rhs = stitched + next.skip(overlap);
    assert forall|i: int| 0 <= i < lhs.len() implies lhs[i] == rhs[i] by {
        if i >= kept && i < stitched.len() {
            let j = i - (stitched.len() - overlap);
            assert(stitched.skip(stitched.len() - overlap)[j] == next.take(overlap)[j]);
        }
    }
    assert(lhs =~= rhs);
}


/// Where `find_vertical_offset` looks: the offsets it tries, and the
/// columns it samples for each row's signature.
#[derive(Clone, Copy, Debug, PartialEq, Eq, Structural)]
pub struct SearchWindow {
    pub min_offset: u32,
    pub max_offset: u32,
    pub left: u32,
    pub right: u32,
    pub samples: u32,
}

/// The search window for frames of `width` x `height` pixels; none when
/// the frames are too small to compare.
pub open spec fn search_window(width: nat, height: nat) -> Option<SearchWindow> {
    if height < 40 {
        None
    } else {
        let min_offset = larger((height / 40) as int, 4);
        let max_offset = larger(height - 32, min_offset);
        let margin = smaller(larger((width / 20) as int, 8), (width / 3) as int);
        let left = margin;
        let right = width - margin;
        if right <= left {
            None
        } else {
            Some(
                SearchWindow {
                    min_offset: min_offset as u32,
                    max_offset: max_offset as u32,
                    left: left as u32,
                    right: right as u32,
                    samples: smaller(right - left, 96) as u32,
                },
            )
        }
    }
}

fn compute_search_window(width: u32, height: u32) -> (r: Option<SearchWindow>)
    ensures
        r == search_window(width as nat, height as nat),
        r matches Some(w) ==> 4 <= w.min_offset <= w.max_offset < height && w.left < w.right <= width && 1
            <= w.samples <= 96 && w.samples <= w.right - w.left,
{
    if height < 40 {
        return None;
    }
    let min_offset = if height / 40 >= 4 {
        height / 40
    } else {
        4
    };
    let max_offset = if height - 32 >= min_offset {
        height - 32
    } else {
        min_offset
    };
    let wide = if width / 20 >= 8 {
        width / 20
    } else {
        8
    };
    let margin = if wide <= width / 3 {
        wide
    } else {
        width / 3
    };
    let left = margin;
    let right = width - margin;
    if right <= left {
        return None;
    }
    let samples = if right - left <= 96 {
        right - left
    } else {
        96
    };
    Some(SearchWindow { min_offset, max_offset, left, right, samples })
}

/// The column that sample `sample` of a row signature reads.
pub open spec fn sample_column(w: SearchWindow, sample: int) -> int {
    let usable = w.right - w.left;
    let x = if w.samples <= 1 {
        w.left as int
    } else {
        w.left + sample * (usable - 1) / (w.samples - 1)
    };
    smaller(x, w.right - 1)
}

/// The sampled pixels of row `y`, evenly spread over the window's columns.
pub open spec fn signature(image: Raster, w: SearchWindow, y: int) -> Seq<Rgba> {
    Seq::new(w.samples as nat, |s: int| image.grid()[y][sample_column(w, s)])
}

/// The summed pixel difference of the first `n` samples of two signatures.
pub open spec fn signature_sum(a: Seq<Rgba>, b: Seq<Rgba>, n: int) -> nat
    decreases n,
{
    if n <= 0 {
        0
    } else {
        signature_sum(a, b, n - 1) + pixel_difference(a[n - 1], b[n - 1])
    }
}

/// How far the signature of row `previous_y` of `previous` is from that of
/// row `next_y` of `next`.
pub open spec fn match_error(previous: Raster, next: Raster, w: SearchWindow, previous_y: int, next_y: int) -> nat {
    signature_sum(signature(previous, w, previous_y), signature(next, w, next_y), w.samples as int)
}

/// The rows of `next` that row `previous_y` of `previous` may have
/// scrolled to.
pub open spec fn candidate_rows(w: SearchWindow, previous_y: int) -> (int, int) {
    (larger(previous_y - w.max_offset, 0), previous_y - w.min_offset)
}

/// `next_y` is the first candidate row with the smallest match error.
pub open spec fn is_best_match(previous: Raster, next: Raster, w: SearchWindow, previous_y: int, next_y: int) -> bool {
    let (first, last) = candidate_rows(w, previous_y);
    &&& first <= next_y <= last
    &&& forall|k: int|
        first <= k <= last ==> match_error(previous, next, w, previous_y, next_y) <= #[trigger] match_error(
            previous,
            next,
            w,
            previous_y,
            k,
        )
    &&& forall|k: int|
        first <= k < next_y ==> match_error(previous, next, w, previous_y, next_y) < #[trigger] match_error(
            previous,
            next,
            w,
            previous_y,
            k,
        )
}

pub open spec fn best_match(previous: Raster, next: Raster, w: SearchWindow, previous_y: int) -> int {
    choose|next_y: int| is_best_match(previous, next, w, previous_y, next_y)
}

/// Row `previous_y` votes: its best match is close enough.
pub open spec fn votes_for(previous: Raster, next: Raster, w: SearchWindow, previous_y: int, offset: int) -> bool {
    let next_y = best_match(previous, next, w, previous_y);
    &&& match_error(previous, next, w, previous_y, next_y) <= 12 * w.samples
    &&& previous_y - next_y == offset
}

/// The votes for `offset` from rows `min_offset..upto` of `previous`.
pub open spec fn vote_count(previous: Raster, next: Raster, w: SearchWindow, offset: int, upto: int) -> nat
    decreases upto - w.min_offset,
{
    if upto <= w.min_offset {
        0
    } else {
        vote_count(previous, next, w, offset, upto - 1) + if votes_for(previous, next, w, upto - 1, offset) {
            1nat
        } else {
            0nat
        }
    }
}

/// The summed match errors of those votes.
pub open spec fn vote_error(previous: Raster, next: Raster, w: SearchWindow, offset: int, upto: int) -> nat
    decreases upto - w.min_offset,
{
    if upto <= w.min_offset {
        0
    } else {
        vote_error(previous, next, w, offset, upto - 1) + if votes_for(previous, next, w, upto - 1, offset) {
            match_error(previous, next, w, upto - 1, best_match(previous, next, w, upto - 1))
        } else {
            0nat
        }
    }
}

/// An offset with enough votes to be chosen.
pub open spec fn eligible_offset(previous: Raster, next: Raster, w: SearchWindow, offset: int) -> bool {
    &&& w.min_offset <= offset <= w.max_offset
    &&& vote_count(previous, next, w, offset, previous.spec_height() as int) >= larger((previous.spec_height() / 80) as int, 5)
}

/// Offset `a` has more votes than `b`, or as many with a smaller total error.
pub open spec fn better_offset(previous: Raster, next: Raster, w: SearchWindow, a: int, b: int) -> bool {
    let h = previous.spec_height() as int;
    ||| vote_count(previous, next, w, a, h) > vote_count(previous, next, w, b, h)
    ||| vote_count(previous, next, w, a, h) == vote_count(previous, next, w, b, h) && vote_error(
        previous,
        next,
        w,
        a,
        h,
    ) < vote_error(previous, next, w, b, h)
}

/// `offset` is the first eligible offset that no other beats.
pub open spec fn is_chosen_offset(previous: Raster, next: Raster, w: SearchWindow, offset: int) -> bool {
    &&& eligible_offset(previous, next, w, offset)
    &&& forall|o: int| #[trigger]
        eligible_offset(previous, next, w, o) ==> !better_offset(previous, next, w, o, offset)
    &&& forall|o: int|
        #[trigger] eligible_offset(previous, next, w, o) && o < offset ==> better_offset(previous, next, w, offset, o)
}


fn sample_x(w: SearchWindow, sample: u32) -> (r: u32)
    requires
        w.left < w.right,
        1 <= w.samples <= 96,
        sample < w.samples,
    ensures
        r == sample_column(w, sample as int),
        w.left <= r < w.right,
{
    let usable = w.right - w.left;
    let x: u64 = if w.samples <= 1 {
        w.left as u64
    } else {
        let ghost a = sample as int;
        let ghost b = (usable - 1) as int;
        assert(a * b <= 96 * 0xffff_ffff) by (nonlinear_arith)
            requires
                0 <= a < 96,
                0 <= b <= 0xffff_ffff,
        ;
        assert((sample as nat) * ((usable - 1) as nat) / ((w.samples - 1) as nat) <= (sample as nat) * ((usable - 1) as nat)) by (nonlinear_arith)
            requires
                w.samples - 1 >= 1,
        ;
        w.left as u64 + (sample as u64) * ((usable - 1) as u64) / ((w.samples - 1) as u64)
    };
    if x < (w.right - 1) as u64 {
        x as u32
    } else {
        w.right - 1
    }
}

/// The signature of every row of `image`.
fn build_row_signatures(image: &Raster, w: SearchWindow) -> (r: Vec<Vec<Rgba>>)
    requires
        w.left < w.right <= image.spec_width(),
        1 <= w.samples <= 96,
    ensures
        r@.len() == image.spec_height(),
        forall|y: int| 0 <= y < r@.len() ==> (#[trigger] r@[y])@ == signature(*image, w, y),
{
    let height = image.height();
    let mut rows: Vec<Vec<Rgba>> = Vec::new();
    let mut y: u32 = 0;
    while y < height
        invariant
            y <= height,
            height == image.spec_height(),
            w.left < w.right <= image.spec_width(),
            1 <= w.samples <= 96,
            rows@.len() == y,
            forall|k: int| 0 <= k < y ==> (#[trigger] rows@[k])@ == signature(*image, w, k),
        decreases height - y,
    {
        let mut row: Vec<Rgba> = Vec::new();
        let mut s: u32 = 0;
        while s < w.samples
            invariant
                s <= w.samples,
                y < image.spec_height(),
                w.left < w.right <= image.spec_width(),
                1 <= w.samples <= 96,
                row@ == signature(*image, w, y as int).take(s as int),
            decreases w.samples - s,
        {
            let x = sample_x(w, s);
            row.push(image.pixel(x, y));
            s = s + 1;
            assert(row@ =~= signature(*image, w, y as int).take(s as int));
        }
        assert(row@ =~= signature(*image, w, y as int));
        rows.push(row);
        y = y + 1;
    }
    rows
}

proof fn lemma_signature_sum_bound(a: Seq<Rgba>, b: Seq<Rgba>, n: int)
    ensures
        signature_sum(a, b, n) <= 765 * if n > 0 { n } else { 0 },
    decreases n,
{
    if n > 0 {
        lemma_signature_sum_bound(a, b, n - 1);
    }
}

/// The summed pixel difference of two equally long signatures.
fn row_signature_difference(a: &Vec<Rgba>, b: &Vec<Rgba>) -> (r: u64)
    requires
        a@.len() == b@.len(),
        a@.len() <= 96,
    ensures
        r == signature_sum(a@, b@, a@.len() as int),
        r <= 765 * 96,
{
    let mut sum: u64 = 0;
    let mut i: usize = 0;
    while i < a.len()
        invariant
            i <= a@.len(),
            a@.len() == b@.len(),
            a@.len() <= 96,
            sum == signature_sum(a@, b@, i as int),
        decreases a.len() - i,
    {
        proof {
            lemma_signature_sum_bound(a@, b@, i as int);
        }
        sum = sum + pixel_diff(a[i], b[i]);
        i = i + 1;
    }
    proof {
        lemma_signature_sum_bound(a@, b@, i as int);
    }
    sum
}

proof fn lemma_best_match_unique(previous: Raster, next: Raster, w: SearchWindow, previous_y: int, next_y: int)
    requires
        is_best_match(previous, next, w, previous_y, next_y),
    ensures
        best_match(previous, next, w, previous_y) == next_y,
{
    let other = best_match(previous, next, w, previous_y);
    assert(is_best_match(previous, next, w, previous_y, other));
    if other < next_y {
        assert(match_error(previous, next, w, previous_y, next_y) < match_error(previous, next, w, previous_y, other));
    } else if other > next_y {
        assert(match_error(previous, next, w, previous_y, other) < match_error(previous, next, w, previous_y, next_y));
    }
}

/// The best candidate row of `next` for row `previous_y` of `previous`, and
/// its error.
fn find_best_match(
    previous: &Raster,
    next: &Raster,
    w: SearchWindow,
    previous_rows: &Vec<Vec<Rgba>>,
    next_rows: &Vec<Vec<Rgba>>,
    previous_y: u32,
) -> (r: (u32, u64))
    requires
        4 <= w.min_offset <= w.max_offset,
        w.min_offset <= previous_y < previous.spec_height(),
        previous.spec_height() == next.spec_height(),
        w.samples <= 96,
        previous_rows@.len() == previous.spec_height(),
        next_rows@.len() == next.spec_height(),
        forall|y: int| 0 <= y < previous_rows@.len() ==> (#[trigger] previous_rows@[y])@ == signature(*previous, w, y),
        forall|y: int| 0 <= y < next_rows@.len() ==> (#[trigger] next_rows@[y])@ == signature(*next, w, y),
    ensures
        r.0 == best_match(*previous, *next, w, previous_y as int),
        is_best_match(*previous, *next, w, previous_y as int, r.0 as int),
        r.1 == match_error(*previous, *next, w, previous_y as int, r.0 as int),
        r.1 <= 765 * 96,
{
    let first = if previous_y >= w.max_offset {
        previous_y - w.max_offset
    } else {
        0
    };
    let last = previous_y - w.min_offset;
    let previous_row = &previous_rows[previous_y as usize];
    let mut best_y = first;
    let mut best_error = row_signature_difference(previous_row, &next_rows[first as usize]);
    let mut k = first + 1;
    while k <= last
        invariant
            first < k <= last + 1,
            last < previous_y,
            last < previous.spec_height(),
            (first as int, last as int) == candidate_rows(w, previous_y as int),
            previous_row@ == signature(*previous, w, previous_y as int),
            previous_row@.len() == w.samples,
            w.samples <= 96,
            next_rows@.len() == next.spec_height(),
            previous.spec_height() == next.spec_height(),
            forall|y: int| 0 <= y < next_rows@.len() ==> (#[trigger] next_rows@[y])@ == signature(*next, w, y),
            first <= best_y < k,
            best_error == match_error(*previous, *next, w, previous_y as int, best_y as int),
            best_error <= 765 * 96,
            forall|j: int| first <= j < k ==> best_error <= #[trigger] match_error(*previous, *next, w, previous_y as int, j),
            forall|j: int| first <= j < best_y ==> best_error < #[trigger] match_error(*previous, *next, w, previous_y as int, j),
        decreases last + 1 - k,
    {
        let error = row_signature_difference(previous_row, &next_rows[k as usize]);
        assert(error == match_error(*previous, *next, w, previous_y as int, k as int));
        if error < best_error {
            best_error = error;
            best_y = k;
        }
        k = k + 1;
    }
    proof {
        lemma_best_match_unique(*previous, *next, w, previous_y as int, best_y as int);
    }
    (best_y, best_error)
}


proof fn lemma_vote_bounds(previous: Raster, next: Raster, w: SearchWindow, offset: int, upto: int)
    requires
        upto >= w.min_offset,
        w.samples <= 96,
    ensures
        vote_count(previous, next, w, offset, upto) <= upto - w.min_offset,
        vote_error(previous, next, w, offset, upto) <= 1152 * (upto - w.min_offset),
    decreases upto - w.min_offset,
{
    if upto > w.min_offset {
        lemma_vote_bounds(previous, next, w, offset, upto - 1);
        let best = best_match(previous, next, w, upto - 1);
        if votes_for(previous, next, w, upto - 1, offset) {
            assert(match_error(previous, next, w, upto - 1, best) <= 12 * 96);
        }
    }
}

/// Tallies, for every offset up to the window's largest, the rows of
/// `previous` whose best match lies that many rows up in `next`, and their
/// summed match errors.
fn tally_votes(
    previous: &Raster,
    next: &Raster,
    w: SearchWindow,
    previous_rows: &Vec<Vec<Rgba>>,
    next_rows: &Vec<Vec<Rgba>>,
) -> (r: (Vec<u32>, Vec<u64>))
    requires
        4 <= w.min_offset <= w.max_offset < previous.spec_height(),
        previous.spec_height() == next.spec_height(),
        1 <= w.samples <= 96,
        previous_rows@.len() == previous.spec_height(),
        next_rows@.len() == next.spec_height(),
        forall|y: int| 0 <= y < previous_rows@.len() ==> (#[trigger] previous_rows@[y])@ == signature(*previous, w, y),
        forall|y: int| 0 <= y < next_rows@.len() ==> (#[trigger] next_rows@[y])@ == signature(*next, w, y),
    ensures
        r.0@.len() == w.max_offset + 1,
        r.1@.len() == w.max_offset + 1,
        forall|o: int| 0 <= o <= w.max_offset ==> #[trigger] r.0@[o] == vote_count(*previous, *next, w, o, previous.spec_height() as int),
        forall|o: int| 0 <= o <= w.max_offset ==> #[trigger] r.1@[o] == vote_error(*previous, *next, w, o, previous.spec_height() as int),
{
    let height = previous.height();
    let mut votes: Vec<u32> = Vec::new();
    let mut errors: Vec<u64> = Vec::new();
    let mut i: u32 = 0;
    while i <= w.max_offset
        invariant
            i <= w.max_offset + 1,
            w.max_offset < height,
            votes@.len() == i,
            errors@.len() == i,
            forall|o: int| 0 <= o < i ==> #[trigger] votes@[o] == 0,
            forall|o: int| 0 <= o < i ==> #[trigger] errors@[o] == 0,
        decreases w.max_offset + 1 - i,
    {
        votes.push(0);
        errors.push(0);
        i = i + 1;
    }
    let threshold: u64 = (w.samples as u64) * 12;
    let mut y: u32 = w.min_offset;
    while y < height
        invariant
            w.min_offset <= y <= height,
            height == previous.spec_height(),
            4 <= w.min_offset <= w.max_offset < previous.spec_height(),
            previous.spec_height() == next.spec_height(),
            1 <= w.samples <= 96,
            threshold == 12 * w.samples,
            previous_rows@.len() == previous.spec_height(),
            next_rows@.len() == next.spec_height(),
            forall|k: int| 0 <= k < previous_rows@.len() ==> (#[trigger] previous_rows@[k])@ == signature(*previous, w, k),
            forall|k: int| 0 <= k < next_rows@.len() ==> (#[trigger] next_rows@[k])@ == signature(*next, w, k),
            votes@.len() == w.max_offset + 1,
            errors@.len() == w.max_offset + 1,
            forall|o: int| 0 <= o <= w.max_offset ==> #[trigger] votes@[o] == vote_count(*previous, *next, w, o, y as int),
            forall|o: int| 0 <= o <= w.max_offset ==> #[trigger] errors@[o] == vote_error(*previous, *next, w, o, y as int),
        decreases height - y,
    {
        let (best_y, best_error) = find_best_match(previous, next, w, previous_rows, next_rows, y);
        let ghost old_votes = votes@;
        let ghost old_errors = errors@;
        if best_error <= threshold {
            let offset = y - best_y;
            proof {
                lemma_vote_bounds(*previous, *next, w, offset as int, y as int);
            }
            let v = votes[offset as usize];
            let e = errors[offset as usize];
            votes.set(offset as usize, v + 1);
            errors.set(offset as usize, e + best_error);
        }
        proof {
            assert forall|o: int| 0 <= o <= w.max_offset implies #[trigger] votes@[o] == vote_count(*previous, *next, w, o, y + 1) by {
                assert(votes_for(*previous, *next, w, y as int, o) == (best_error <= threshold && y - best_y == o));
            }
            assert forall|o: int| 0 <= o <= w.max_offset implies #[trigger] errors@[o] == vote_error(*previous, *next, w, o, y + 1) by {
                assert(votes_for(*previous, *next, w, y as int, o) == (best_error <= threshold && y - best_y == o));
            }
        }
        y = y + 1;
    }
    (votes, errors)
}

/// The offset `find_vertical_offset` settles on, if any has enough votes.
fn choose_offset(previous: &Raster, next: &Raster, w: SearchWindow, votes: &Vec<u32>, errors: &Vec<u64>) -> (r: Option<u32>)
    requires
        4 <= w.min_offset <= w.max_offset < previous.spec_height(),
        votes@.len() == w.max_offset + 1,
        errors@.len() == w.max_offset + 1,
        forall|o: int| 0 <= o <= w.max_offset ==> #[trigger] votes@[o] == vote_count(*previous, *next, w, o, previous.spec_height() as int),
        forall|o: int| 0 <= o <= w.max_offset ==> #[trigger] errors@[o] == vote_error(*previous, *next, w, o, previous.spec_height() as int),
    ensures
        r matches Some(o) ==> is_chosen_offset(*previous, *next, w, o as int),
        r is None ==> forall|o: int| !#[trigger] eligible_offset(*previous, *next, w, o),
{
    let height = previous.height();
    let minimum_votes = if height / 80 >= 5 {
        height / 80
    } else {
        5
    };
    let mut best: Option<(u32, u32, u64)> = None;
    let mut o = w.min_offset;
    while o <= w.max_offset
        invariant
            w.min_offset <= o <= w.max_offset + 1,
            w.max_offset < height,
            height == previous.spec_height(),
            minimum_votes == larger((height / 80) as int, 5),
            votes@.len() == w.max_offset + 1,
            errors@.len() == w.max_offset + 1,
            forall|k: int| 0 <= k <= w.max_offset ==> #[trigger] votes@[k] == vote_count(*previous, *next, w, k, previous.spec_height() as int),
            forall|k: int| 0 <= k <= w.max_offset ==> #[trigger] errors@[k] == vote_error(*previous, *next, w, k, previous.spec_height() as int),
            best is None ==> forall|k: int| w.min_offset <= k < o ==> !#[trigger] eligible_offset(*previous, *next, w, k),
            best matches Some((bo, bv, be)) ==> {
                &&& w.min_offset <= bo < o
                &&& bv == vote_count(*previous, *next, w, bo as int, height as int)
                &&& be == vote_error(*previous, *next, w, bo as int, height as int)
                &&& eligible_offset(*previous, *next, w, bo as int)
                &&& forall|k: int|
                    #[trigger] eligible_offset(*previous, *next, w, k) && k < o ==> !better_offset(*previous, *next, w, k, bo as int)
                &&& forall|k: int|
                    #[trigger] eligible_offset(*previous, *next, w, k) && k < bo ==> better_offset(*previous, *next, w, bo as int, k)
            },
        decreases w.max_offset + 1 - o,
    {
        let vote_count_here = votes[o as usize];
        let error_here = errors[o as usize];
        assert(eligible_offset(*previous, *next, w, o as int) == (vote_count_here >= minimum_votes));
        if vote_count_here >= minimum_votes {
            let replace = match best {
                None => true,
                Some((_, best_votes, best_error)) => vote_count_here > best_votes || (vote_count_here == best_votes
                    && error_here < best_error),
            };
            if replace {
                best = Some((o, vote_count_here, error_here));
            }
        }
        o = o + 1;
    }
    match best {
        Some((bo, _, _)) => Some(bo),
        None => None,
    }
}

/// The offset chosen among the window's offsets, when one has enough votes.
pub open spec fn chosen_offset(previous: Raster, next: Raster, w: SearchWindow) -> Option<int> {
    if exists|o: int| is_chosen_offset(previous, next, w, o) {
        Some(choose|o: int| is_chosen_offset(previous, next, w, o))
    } else {
        None
    }
}

/// The offset found between two frames is the one most rows vote for: it
/// lies in the search window, has at least `max(height / 80, 5)` votes, no
/// offset in the window has more, one with as many has no smaller total
/// error, and every smaller offset with enough votes has fewer, or as many
/// with a larger total error.
pub proof fn lemma_found_offset_wins_the_vote(previous: Raster, next: Raster, o: int, bands: Seq<Score>)
    requires
        spec_vertical_offset(previous, next) == Some((o, bands)),
    ensures
        search_window(previous.spec_width(), previous.spec_height()) is Some,
        ({
            let w = search_window(previous.spec_width(), previous.spec_height())->0;
            let h = previous.spec_height() as int;
            let needed = larger((previous.spec_height() / 80) as int, 5);
            &&& w.min_offset <= o <= w.max_offset
            &&& vote_count(previous, next, w, o, h) >= needed
            &&& forall|other: int|
                w.min_offset <= other <= w.max_offset && #[trigger] vote_count(previous, next, w, other, h) >= needed
                    ==> vote_count(previous, next, w, o, h) >= vote_count(previous, next, w, other, h) && (vote_count(
                    previous,
                    next,
                    w,
                    o,
                    h,
                ) == vote_count(previous, next, w, other, h) ==> vote_error(previous, next, w, o, h) <= vote_error(
                    previous,
                    next,
                    w,
                    other,
                    h,
                ))
            &&& forall|other: int|
                w.min_offset <= other < o && #[trigger] vote_count(previous, next, w, other, h) >= needed
                    ==> vote_count(previous, next, w, o, h) > vote_count(previous, next, w, other, h) || (vote_count(
                    previous,
                    next,
                    w,
                    o,
                    h,
                ) == vote_count(previous, next, w, other, h) && vote_error(previous, next, w, o, h) < vote_error(
                    previous,
                    next,
                    w,
                    other,
                    h,
                ))
        }),
{
    let w = search_window(previous.spec_width(), previous.spec_height())->0;
    let h = previous.spec_height() as int;
    let needed = larger((previous.spec_height() / 80) as int, 5);
    assert(is_chosen_offset(previous, next, w, o));
    assert forall|other: int|
        w.min_offset <= other <= w.max_offset && #[trigger] vote_count(previous, next, w, other, h) >= needed
            implies vote_count(previous, next, w, o, h) >= vote_count(previous, next, w, other, h) && (vote_count(
            previous,
            next,
            w,
            o,
            h,
        ) == vote_count(previous, next, w, other, h) ==> vote_error(previous, next, w, o, h) <= vote_error(
            previous,
            next,
            w,
            other,
            h,
        )) by {
        assert(eligible_offset(previous, next, w, other));
        assert(!better_offset(previous, next, w, other, o));
    }
    assert forall|other: int|
        w.min_offset <= other < o && #[trigger] vote_count(previous, next, w, other, h) >= needed
            implies vote_count(previous, next, w, o, h) > vote_count(previous, next, w, other, h) || (vote_count(
            previous,
            next,
            w,
            o,
            h,
        ) == vote_count(previous, next, w, other, h) && vote_error(previous, next, w, o, h) < vote_error(
            previous,
            next,
            w,
            other,
            h,
        )) by {
        assert(eligible_offset(previous, next, w, other));
        assert(better_offset(previous, next, w, o, other));
    }
}

/// The best match of a row is a candidate row with the smallest match
/// error, and the first such.
pub proof fn lemma_best_match_is_smallest(previous: Raster, next: Raster, w: SearchWindow, previous_y: int, next_y: int)
    requires
        is_best_match(previous, next, w, previous_y, next_y),
    ensures
        larger(previous_y - w.max_offset, 0) <= next_y <= previous_y - w.min_offset,
        forall|k: int|
            larger(previous_y - w.max_offset, 0) <= k <= previous_y - w.min_offset ==> match_error(
                previous,
                next,
                w,
                previous_y,
                next_y,
            ) <= #[trigger] match_error(previous, next, w, previous_y, k),
        forall|k: int|
            larger(previous_y - w.max_offset, 0) <= k < next_y ==> match_error(previous, next, w, previous_y, next_y)
                < #[trigger] match_error(previous, next, w, previous_y, k),
{
}

/// What `find_vertical_offset` finds: the chosen offset and the band
/// scores of the frames compared at it, whose median is the reported
/// score.
pub open spec fn spec_vertical_offset(previous: Raster, next: Raster) -> Option<(int, Seq<Score>)> {
    if previous.spec_width() != next.spec_width() || previous.spec_height() != next.spec_height() {
        None
    } else {
        match search_window(previous.spec_width(), previous.spec_height()) {
            None => None,
            Some(w) => match chosen_offset(previous, next, w) {
                None => None,
                Some(o) => match image_bands(
                    previous.grid(),
                    previous.spec_width(),
                    previous.spec_height(),
                    next.grid(),
                    next.spec_width(),
                    next.spec_height(),
                    o,
                ) {
                    Some(bands) => if bands.len() > 0 {
                        Some((o, bands))
                    } else {
                        None
                    },
                    None => None,
                },
            },
        }
    }
}

proof fn lemma_chosen_offset_unique(previous: Raster, next: Raster, w: SearchWindow, o: int)
    requires
        is_chosen_offset(previous, next, w, o),
    ensures
        chosen_offset(previous, next, w) == Some(o),
{
    let other = choose|k: int| is_chosen_offset(previous, next, w, k);
    assert(is_chosen_offset(previous, next, w, other));
    if other < o {
        assert(better_offset(previous, next, w, o, other));
        assert(!better_offset(previous, next, w, o, other));
    } else if other > o {
        assert(better_offset(previous, next, w, other, o));
        assert(!better_offset(previous, next, w, other, o));
    }
}

/// How far the content moved up between two frames of a manual scroll,
/// and how well the frames agree at that offset.
///
/// Every row of `previous` is matched, by a compact signature of sampled
/// pixels, against the rows of `next` it may have moved to; each close
/// match votes for its offset. The offset with the most votes (the
/// smallest total error among equals) wins, which resists blank rows and
/// repeated separators.
pub fn find_vertical_offset(previous: &Raster, next: &Raster) -> (r: Option<(u32, Score)>)
    ensures
        r is None <==> spec_vertical_offset(*previous, *next) is None,
        r matches Some((o, s)) ==> (spec_vertical_offset(*previous, *next) matches Some((so, bands)) && so == o
            && is_median(s, bands)),
        r matches Some((o, s)) ==> s.samples <= 3 * 240 * 72,
{
    if previous.width() != next.width() || previous.height() != next.height() {
        return None;
    }
    let w = match compute_search_window(previous.width(), previous.height()) {
        Some(w) => w,
        None => return None,
    };
    let previous_rows = build_row_signatures(previous, w);
    let next_rows = build_row_signatures(next, w);
    let (votes, errors) = tally_votes(previous, next, w, &previous_rows, &next_rows);
    let offset = match choose_offset(previous, next, w, &votes, &errors) {
        Some(o) => o,
        None => {
            assert(!exists|o: int| is_chosen_offset(*previous, *next, w, o));
            return None;
        },
    };
    proof {
        lemma_chosen_offset_unique(*previous, *next, w, offset as int);
    }
    match image_difference(previous, next, offset) {
        Some(score) => Some((offset, score)),
        None => None,
    }
}


/// How one frame offered for stitching was taken.
#[derive(Clone, Copy, Debug, PartialEq, Eq, Structural)]
pub enum StitchFrameResult {
    /// The frame added new rows to the capture.
    Accepted,
    /// The frame shows what the previous one showed.
    NoChange,
    /// The frame would make the capture too large.
    LimitReached,
}

/// Two frames show the same thing: more than half of their band scores
/// are at most 2.
pub open spec fn spec_frames_match(a: Raster, b: Raster) -> bool {
    match image_bands(a.grid(), a.spec_width(), a.spec_height(), b.grid(), b.spec_width(), b.spec_height(), 0) {
        Some(bands) => bands.len() > 0 && count_at_most(bands, 2) > bands.len() / 2,
        None => false,
    }
}

/// Whether two frames show the same thing: their difference is at most 2.
pub fn frames_match(a: &Raster, b: &Raster) -> (r: bool)
    ensures
        r == spec_frames_match(*a, *b),
{
    match image_difference(a, b, 0) {
        Some(s) => s.is_at_most(2),
        None => false,
    }
}

/// Rejects a region too small to scroll through: under 32 pixels wide or
/// 64 pixels tall.
pub fn check_scroll_region(width: u32, height: u32) -> (r: Result<(), String>)
    ensures
        width < 32 || height < 64 ==> (r matches Err(e) && e@ == "滚动截图区域太小，请选择完整的可滚动内容区域"@),
        !(width < 32 || height < 64) ==> r is Ok,
{
    if width < 32 || height < 64 {
        return Err("滚动截图区域太小，请选择完整的可滚动内容区域".to_owned());
    }
    Ok(())
}

/// The stitched image with a fixed bar of `frame`, rows `band` of the
/// viewport, copied over the rows it covers in the document.
pub open spec fn patched_grid(
    stitched: Raster,
    frame: Raster,
    document_offset: int,
    offset: int,
    band: Option<(u32, u32)>,
) -> Seq<Seq<Rgba>> {
    match band {
        None => stitched.grid(),
        Some((start_y, end_y)) => Seq::new(
            stitched.spec_height(),
            |y: int|
                if document_offset + start_y <= y < document_offset + end_y {
                    frame.grid()[(start_y - offset) + y - (document_offset + start_y)] + stitched.grid()[y].skip(
                        frame.spec_width() as int,
                    )
                } else {
                    stitched.grid()[y]
                },
        ),
    }
}

/// The most frames one long screenshot holds.
pub const MAX_SEGMENTS: u32 = 24;

/// A long screenshot may be at most 16000 rows tall and hold at most
/// 16 million pixels.
pub open spec fn within_size_limit(width: nat, height: nat) -> bool {
    height <= 16000 && width * height <= 16_000_000
}

/// A manual scrolling capture in progress: the frames seen so far
/// stitched into one tall image.
pub struct ScrollCapture {
    previous: Raster,
    stitched: Raster,
    document_offset: u32,
    last_fixed_band: Option<(u32, u32)>,
    pending: Option<Raster>,
    segments: u32,
}

impl ScrollCapture {
    /// The stitched image is as wide as the frames, and ends with the last
    /// accepted frame, which starts `document_offset` rows down.
    pub closed spec fn wf(self) -> bool {
        &&& self.stitched.spec_width() == self.previous.spec_width()
        &&& self.document_offset + self.previous.spec_height() == self.stitched.spec_height()
        &&& 1 <= self.segments <= MAX_SEGMENTS
        &&& self.segments >= 2 ==> within_size_limit(self.stitched.spec_width(), self.stitched.spec_height())
    }

    /// The last accepted frame.
    pub closed spec fn previous_frame(self) -> Raster {
        self.previous
    }

    pub closed spec fn stitched_image(self) -> Raster {
        self.stitched
    }

    /// How far the document has scrolled since the first frame.
    pub closed spec fn scrolled(self) -> int {
        self.document_offset as int
    }

    /// The fixed bottom bar found when the last frame was accepted.
    pub closed spec fn fixed_band(self) -> Option<(u32, u32)> {
        self.last_fixed_band
    }

    /// A frame that differs from the last accepted one and waits to be
    /// seen again before it is stitched.
    pub closed spec fn pending_frame(self) -> Option<Raster> {
        self.pending
    }

    /// How many frames make up the capture.
    pub closed spec fn segment_count(self) -> int {
        self.segments as int
    }

    pub closed spec fn with_pending(self, pending: Option<Raster>) -> ScrollCapture {
        ScrollCapture { pending, ..self }
    }

    /// Starts a capture from its first frame.
    pub fn start(first: Raster) -> (r: ScrollCapture)
        ensures
            r.wf(),
            r.previous_frame() == first,
            r.stitched_image().spec_width() == first.spec_width(),
            r.stitched_image().spec_height() == first.spec_height(),
            r.stitched_image().grid() == first.grid(),
            r.scrolled() == 0,
            r.fixed_band() is None,
            r.pending_frame() is None,
            r.segment_count() == 1,
    {
        let stitched = first.copy();
        ScrollCapture { previous: first, stitched, document_offset: 0, last_fixed_band: None, pending: None, segments: 1 }
    }

    pub fn segments(&self) -> (r: u32)
        ensures
            r == self.segment_count(),
    {
        self.segments
    }

    /// Whether the capture holds as many frames as it may.
    pub fn is_full(&self) -> (r: bool)
        ensures
            r == (self.segment_count() >= MAX_SEGMENTS),
    {
        self.segments >= MAX_SEGMENTS
    }

    /// Whether `current` shows something other than the last accepted frame.
    pub fn shows_new_content(&self, current: &Raster) -> (r: bool)
        ensures
            r == !spec_frames_match(self.previous_frame(), *current),
    {
        !frames_match(&self.previous, current)
    }

    /// Takes the frame waiting to be stitched, if any.
    pub fn take_pending(&mut self) -> (r: Option<Raster>)
        requires
            old(self).wf(),
        ensures
            final(self).wf(),
            r == old(self).pending_frame(),
            *final(self) == old(self).with_pending(None),
    {
        let mut pending: Option<Raster> = None;
        std::mem::swap(&mut pending, &mut self.pending);
        pending
    }
}

/// What stitching `frame` into the capture `before` does: `after` is the
/// capture afterwards and `r` what the stitching answers.
pub open spec fn stitch_step(
    before: ScrollCapture,
    frame: Raster,
    after: ScrollCapture,
    r: Result<StitchFrameResult, String>,
) -> bool {
    let previous = before.previous_frame();
    let stitched = before.stitched_image();
    if spec_frames_match(previous, frame) {
        r == Ok::<StitchFrameResult, String>(StitchFrameResult::NoChange) && after == before
    } else if before.segment_count() >= MAX_SEGMENTS {
        r == Ok::<StitchFrameResult, String>(StitchFrameResult::LimitReached) && after == before
    } else {
        match spec_vertical_offset(previous, frame) {
            None => after == before && (r matches Err(e) && e@ == "未找到相邻画面的重叠区域；请放慢滚动速度并保持纵向滚动"@),
            Some((offset, bands)) => if count_at_most(bands, 28) <= bands.len() / 2 {
                after == before && (r matches Err(e) && e@ == "滚动画面变化过大，无法可靠拼接；请一次滚动少一些并避开动画区域"@)
            } else if stitched.spec_height() + offset > u32::MAX {
                after == before && (r matches Err(e) && e@ == "滚动截图高度溢出"@)
            } else if stitched.spec_height() + offset > 16000 || stitched.spec_width() * (stitched.spec_height() + offset)
                > 16_000_000 {
                after == before && r == Ok::<StitchFrameResult, String>(StitchFrameResult::LimitReached)
            } else {
                let band = spec_bottom_fixed_band(previous, frame, offset);
                &&& r == Ok::<StitchFrameResult, String>(StitchFrameResult::Accepted)
                &&& after.previous_frame() == frame
                &&& after.scrolled() == before.scrolled() + offset
                &&& after.fixed_band() == band
                &&& after.pending_frame() == before.pending_frame()
                &&& after.segment_count() == before.segment_count() + 1
                &&& after.stitched_image().spec_width() == stitched.spec_width()
                &&& after.stitched_image().spec_height() == stitched.spec_height() + offset
                &&& exists|seam: int|
                    is_seam(previous, frame, offset, seam) && #[trigger] after.stitched_image().grid() == patched_grid(
                        stitched,
                        frame,
                        before.scrolled(),
                        offset,
                        band,
                    ).take(stitched.spec_height() - (frame.spec_height() - offset - seam)) + frame.grid().skip(seam)
            },
        }
    }
}

proof fn lemma_fixed_run_start_is_fixed(previous: Raster, next: Raster, offset: int, y: int, lowest: int)
    requires
        fixed_run_start(previous, next, offset, y, lowest) <= y,
    ensures
        is_fixed_row(previous, next, offset, fixed_run_start(previous, next, offset, y, lowest)),
    decreases y - lowest + 1,
{
    if y >= lowest && is_fixed_row(previous, next, offset, y) {
        lemma_fixed_run_start_bounds(previous, next, offset, y - 1, lowest);
        if fixed_run_start(previous, next, offset, y - 1, lowest) <= y - 1 {
            lemma_fixed_run_start_is_fixed(previous, next, offset, y - 1, lowest);
        }
    }
}

impl ScrollCapture {
    /// Stitches `frame` under what was captured so far, unless it shows
    /// nothing new or would make the capture too large.
    pub fn stitch(&mut self, frame: Raster) -> (r: Result<StitchFrameResult, String>)
        requires
            old(self).wf(),
        ensures
            final(self).wf(),
            stitch_step(*old(self), frame, *final(self), r),
    {
        if frames_match(&self.previous, &frame) {
            return Ok(StitchFrameResult::NoChange);
        }
        if self.segments >= MAX_SEGMENTS {
            return Ok(StitchFrameResult::LimitReached);
        }
        let (offset, score) = match find_vertical_offset(&self.previous, &frame) {
            Some(found) => found,
            None => return Err("未找到相邻画面的重叠区域；请放慢滚动速度并保持纵向滚动".to_owned()),
        };
        if !score.is_at_most(28) {
            return Err("滚动画面变化过大，无法可靠拼接；请一次滚动少一些并避开动画区域".to_owned());
        }
        let stitched_height = self.stitched.height();
        let width = self.stitched.width();
        if stitched_height > u32::MAX - offset {
            return Err("滚动截图高度溢出".to_owned());
        }
        let next_height = stitched_height + offset;
        if next_height > 16000 {
            return Ok(StitchFrameResult::LimitReached);
        }
        assert((width as nat) * (next_height as nat) <= 0xffff_ffff * 16000) by (nonlinear_arith)
            requires
                width <= 0xffff_ffff,
                next_height <= 16000,
        ;
        if (width as u64) * (next_height as u64) > 16_000_000 {
            return Ok(StitchFrameResult::LimitReached);
        }
        let ghost before = *self;
        let ghost previous = self.previous;
        let frame_height = frame.height();
        let _ = frame.width();
        let _ = self.previous.height();
        let fixed_band = find_bottom_fixed_band(&self.previous, &frame, offset);
        let seam = find_seam(&self.previous, &frame, offset);
        proof {
            if let Some((start_y, end_y)) = fixed_band {
                let h = previous.spec_height() as int;
                let lowest = larger(h - offset - 128, 0);
                lemma_fixed_run_start_bounds(previous, frame, offset as int, h - 1, lowest);
                lemma_fixed_run_start_is_fixed(previous, frame, offset as int, h - 1, lowest);
            }
        }
        if let Some((start_y, end_y)) = fixed_band {
            match patch_fixed_rows(&mut self.stitched, &frame, self.document_offset, offset, start_y, end_y) {
                Ok(()) => {},
                Err(e) => return Err(e),
            }
        }
        let ghost patched = self.stitched;
        assert(patched.grid() == patched_grid(before.stitched, frame, before.document_offset as int, offset as int, fixed_band));
        let mut old_stitched = Raster::filled(0, 0, Rgba { r: 0, g: 0, b: 0, a: 0 });
        std::mem::swap(&mut old_stitched, &mut self.stitched);
        match append_scrolled_frame_at_seam(old_stitched, &frame, offset, seam) {
            Ok(image) => {
                self.stitched = image;
            },
            Err(e) => return Err(e),
        }
        self.previous = frame;
        if self.document_offset > u32::MAX - offset {
            return Err("滚动截图文档偏移溢出".to_owned());
        }
        self.document_offset = self.document_offset + offset;
        self.last_fixed_band = fixed_band;
        self.segments = self.segments + 1;
        assert(is_seam(previous, frame, offset as int, seam as int));
        Ok(StitchFrameResult::Accepted)
    }
}


/// What one poll of the scrolled region does with the frame `current`:
/// a frame that differs from the last accepted one waits until a second
/// poll shows the same picture (so a smooth-scroll animation is never
/// stitched), and is stitched then. `r` is `Ok(false)` when the capture has
/// grown as large as it may.
pub open spec fn poll_step(
    before: ScrollCapture,
    current: Raster,
    after: ScrollCapture,
    r: Result<bool, String>,
) -> bool {
    match before.pending_frame() {
        Some(candidate) => if !spec_frames_match(candidate, current) {
            r == Ok::<bool, String>(true) && after == before.with_pending(Some(current))
        } else {
            exists|stitched: Result<StitchFrameResult, String>|
                #[trigger] stitch_step(before.with_pending(None), current, after, stitched) && r == match stitched {
                    Ok(StitchFrameResult::LimitReached) => Ok::<bool, String>(false),
                    Ok(_) => Ok::<bool, String>(true),
                    Err(e) => Err::<bool, String>(e),
                }
        },
        None => r == Ok::<bool, String>(true) && after == if spec_frames_match(before.previous_frame(), current) {
            before
        } else {
            before.with_pending(Some(current))
        },
    }
}

/// The image a finished capture gives: the stitched image, cut off above
/// a fixed bottom bar of the last frame when one was found.
pub open spec fn finished_image_height(capture: ScrollCapture) -> nat {
    let stitched = capture.stitched_image();
    match capture.fixed_band() {
        Some((start_y, _)) => if capture.scrolled() + start_y <= u32::MAX && 0 < capture.scrolled() + start_y
            < stitched.spec_height() {
            (capture.scrolled() + start_y) as nat
        } else {
            stitched.spec_height()
        },
        None => stitched.spec_height(),
    }
}

impl ScrollCapture {
    /// Handles one poll of the scrolled region, which showed `current`.
    pub fn poll(&mut self, current: Raster) -> (r: Result<bool, String>)
        requires
            old(self).wf(),
        ensures
            final(self).wf(),
            poll_step(*old(self), current, *final(self), r),
    {
        let mut pending: Option<Raster> = None;
        std::mem::swap(&mut pending, &mut self.pending);
        match pending {
            Some(candidate) => {
                if !frames_match(&candidate, &current) {
                    self.pending = Some(current);
                    return Ok(true);
                }
                let stitched = self.stitch(current);
                match stitched {
                    Ok(StitchFrameResult::LimitReached) => Ok(false),
                    Ok(_) => Ok(true),
                    Err(e) => Err(e),
                }
            },
            None => {
                if !frames_match(&self.previous, &current) {
                    self.pending = Some(current);
                }
                Ok(true)
            },
        }
    }

    /// Ends the capture: the stitched image and how many frames it holds,
    /// unless no scrolled frame was ever added.
    pub fn finish(self) -> (r: Result<(Raster, u32), String>)
        requires
            self.wf(),
        ensures
            self.segment_count() == 1 ==> (r matches Err(e) && e@ == "尚未记录滚动内容，请先向下滚动至少一次，再按 Enter 完成"@),
            r matches Ok((image, segments)) ==> 2 <= segments <= MAX_SEGMENTS && within_size_limit(
                image.spec_width(),
                image.spec_height(),
            ),
            self.segment_count() != 1 ==> (r matches Ok((image, segments)) && segments == self.segment_count()
                && image.spec_width() == self.stitched_image().spec_width() && image.spec_height()
                == finished_image_height(self) && image.grid() == cropped_grid(
                self.stitched_image().grid(),
                0,
                0,
                self.stitched_image().spec_width(),
                finished_image_height(self),
            )),
    {
        if self.segments == 1 {
            return Err("尚未记录滚动内容，请先向下滚动至少一次，再按 Enter 完成".to_owned());
        }
        let height = self.stitched.height();
        let width = self.stitched.width();
        let visible = match self.last_fixed_band {
            Some((start_y, _)) => {
                if self.document_offset <= u32::MAX - start_y && 0 < self.document_offset + start_y
                    && self.document_offset + start_y < height {
                    self.document_offset + start_y
                } else {
                    height
                }
            },
            None => height,
        };
        let image = self.stitched.crop(0, 0, width, visible);
        assert((width as nat) * (visible as nat) <= (width as nat) * (height as nat)) by (nonlinear_arith)
            requires
                visible <= height,
        ;
        Ok((image, self.segments))
    }
}


proof fn lemma_same_rows_no_difference(a: Seq<Rgba>, x: int, step: int, end: int)
    requires
        step >= 1,
    ensures
        stepped_row_sum(a, a, x, step, end) == 0,
    decreases remaining(x, end),
{
    if x < end {
        lemma_same_rows_no_difference(a, x + step, step, end);
    }
}

proof fn lemma_same_frame_no_band_difference(
    g: Seq<Seq<Rgba>>,
    y: int,
    y_step: int,
    end_y: int,
    start_x: int,
    x_step: int,
    end_x: int,
)
    requires
        y_step >= 1,
        x_step >= 1,
    ensures
        band_sum(g, g, 0, y, y_step, end_y, start_x, x_step, end_x) == 0,
    decreases remaining(y, end_y),
{
    if y < end_y {
        lemma_same_rows_no_difference(g[y], start_x, x_step, end_x);
        lemma_same_frame_no_band_difference(g, y + y_step, y_step, end_y, start_x, x_step, end_x);
    }
}

proof fn lemma_same_frame_band_scores(
    g: Seq<Seq<Rgba>>,
    width: nat,
    height: nat,
    start_y: int,
    end_y: int,
    margin: int,
    band_width: int,
    count: nat,
)
    requires
        height > 0,
    ensures
        forall|i: int|
            0 <= i < band_scores(g, g, width, height, 0, start_y, end_y, margin, band_width, count).len()
                ==> (#[trigger] band_scores(g, g, width, height, 0, start_y, end_y, margin, band_width, count)[i]).difference
                == 0,
    decreases count,
{
    if count > 0 {
        lemma_same_frame_band_scores(g, width, height, start_y, end_y, margin, band_width, (count - 1) as nat);
        let before = band_scores(g, g, width, height, 0, start_y, end_y, margin, band_width, (count - 1) as nat);
        let after = band_scores(g, g, width, height, 0, start_y, end_y, margin, band_width, count);
        let (start_x, end_x) = band_columns(width as int, margin, band_width, count - 1);
        if end_x > start_x && end_y > start_y {
            let x_step = if (end_x - start_x) / 36 >= 1 { (end_x - start_x) / 36 } else { 1 };
            let y_step = if (height - 0) / 120 >= 1 { (height - 0) / 120 } else { 1 };
            lemma_same_frame_no_band_difference(g, start_y, y_step, end_y, start_x, x_step, end_x);
            let s = spec_band_difference(g, g, height, 0, start_y, end_y, start_x, end_x)->0;
            assert(s.difference == 0);
            assert(after == before.push(s));
            assert forall|i: int| 0 <= i < after.len() implies (#[trigger] after[i]).difference == 0 by {
                if i < before.len() {
                    assert(after[i] == before[i]);
                }
            }
        }
    }
}

/// A frame compared with itself, unshifted, shows no difference at all, so
/// a frame always matches itself: polling an unchanged region never
/// stitches anything.
pub proof fn lemma_identical_frames_match(frame: Raster, v: Score)
    requires
        is_image_difference(frame, frame, 0, Some(v)),
    ensures
        v.difference == 0,
        spec_frames_match(frame, frame),
{
    let bands = image_bands(
        frame.grid(),
        frame.spec_width(),
        frame.spec_height(),
        frame.grid(),
        frame.spec_width(),
        frame.spec_height(),
        0,
    )->0;
    let height = frame.spec_height();
    let overlap = height as int;
    let vertical_margin = smaller(overlap / 10, 48);
    let margin = smaller((frame.spec_width() / 40) as int, 32);
    let usable = frame.spec_width() - 2 * margin;
    let band_width = larger(usable / 5, 1);
    lemma_same_frame_band_scores(
        frame.grid(),
        frame.spec_width(),
        height,
        vertical_margin,
        overlap - vertical_margin,
        margin,
        band_width,
        5,
    );
    let p = choose|p: Seq<Score>|
        #![trigger p.to_multiset()]
        p.to_multiset() == bands.to_multiset() && p.len() == bands.len() && ordered(p) && p[(bands.len() / 2) as int]
            == v;
    assert(p.contains(v)) by {
        assert(p[(bands.len() / 2) as int] == v);
    }
    vstd::seq_lib::to_multiset_contains(p, v);
    vstd::seq_lib::to_multiset_contains(bands, v);
    let k = choose|k: int| 0 <= k < bands.len() && bands[k] == v;
    assert(bands[k].difference == 0);
    assert forall|i: int| 0 <= i < bands.len() implies (#[trigger] bands[i]).at_most(2) by {
        assert(bands[i].difference == 0);
    }
    lemma_count_range(bands, 2);
}

} // verus!
