use vstd::prelude::*;
use vstd::arithmetic::div_mod::{lemma_fundamental_div_mod, lemma_mod_pos_bound};
use vstd::arithmetic::mul::{lemma_mul_inequality, lemma_mul_is_distributive_add};

use crate::item::Alignment;
use crate::Scalar;

verus! {

/// What a container reads of one child along one dimension.
#[derive(Clone, Copy, Debug)]
pub struct ExtentAndMargins {
    pub margin_start: Scalar,
    pub extent: Scalar,
    pub margin_end: Scalar,
    /// The child asks for a new line before it.
    pub wrap_me: bool,
    /// The child's own alignment in this dimension (used across the flex axis).
    pub alignment: Alignment,
}

/// Most children a line computation accepts: as many as a `Context` can hold.
pub const MAX_CHILDREN: usize = 4294967295;

pub open spec fn max(a: int, b: int) -> int {
    if a >= b {
        a
    } else {
        b
    }
}

pub open spec fn min(a: int, b: int) -> int {
    if a <= b {
        a
    } else {
        b
    }
}

/// The nearest value that a `Scalar` can hold.
pub open spec fn clamp_scalar(v: int) -> int {
    if v < i16::MIN {
        i16::MIN as int
    } else if v > i16::MAX {
        i16::MAX as int
    } else {
        v
    }
}

/// Division rounding toward zero, as Rust's `/` on integers does.
pub open spec fn trunc_div(a: int, b: int) -> int {
    if a >= 0 {
        a / b
    } else {
        -((-a) / b)
    }
}

/// `margin_start + extent + margin_end` of a child.
pub open spec fn outer_extent(x: ExtentAndMargins) -> int {
    x.margin_start + x.extent + x.margin_end
}

/// Measuring across the flex axis, after the first `k` children: the summed
/// thickness of the finished lines, and the thickness of the current line.
pub open spec fn cross_scan(e: Seq<ExtentAndMargins>, wrap: bool, k: int) -> (int, int)
    decreases k,
{
    if k <= 0 {
        (0, 0)
    } else {
        let (done, cur) = cross_scan(e, wrap, k - 1);
        let x = e[k - 1];
        if wrap && x.wrap_me {
            (done + cur, max(0, outer_extent(x)))
        } else {
            (done, max(cur, outer_extent(x)))
        }
    }
}

/// Extent across the flex axis: the thickest child of each line, lines stacked.
pub open spec fn cross_extent(e: Seq<ExtentAndMargins>, wrap: bool) -> int {
    let (done, cur) = cross_scan(e, wrap, e.len() as int);
    done + cur
}

/// Measuring along the flex axis, after the first `k` children: the length of
/// the current line, the longest finished line, and the last margin_end.
pub open spec fn along_scan(e: Seq<ExtentAndMargins>, wrap: bool, k: int) -> (int, int, int)
    decreases k,
{
    if k <= 0 {
        (0, 0, 0)
    } else {
        let (acc0, longest0, last_end) = along_scan(e, wrap, k - 1);
        let x = e[k - 1];
        let (acc, longest) = if wrap && x.wrap_me {
            (0, max(acc0, longest0))
        } else {
            (acc0, longest0)
        };
        (acc + max(last_end, x.margin_start as int) + x.extent + x.margin_end, longest, x.margin_end as int)
    }
}

/// Extent along the flex axis: the longest line, where each child adds the
/// larger of the previous margin_end and its margin_start, its extent and its
/// margin_end.
pub open spec fn along_extent(e: Seq<ExtentAndMargins>, wrap: bool) -> int {
    let (acc, longest, _) = along_scan(e, wrap, e.len() as int);
    max(acc, longest)
}

pub(crate) fn clamp_to_scalar(v: i64) -> (r: Scalar)
    ensures
        r == clamp_scalar(v as int),
{
    if v < i16::MIN as i64 {
        i16::MIN
    } else if v > i16::MAX as i64 {
        i16::MAX
    } else {
        v as i16
    }
}

fn max_i64(a: i64, b: i64) -> (r: i64)
    ensures
        r == max(a as int, b as int),
{
    if a >= b {
        a
    } else {
        b
    }
}

/// Extent that a container needs across its flex axis (or in any dimension
/// of a fixed container).
pub fn calc_cross_axis(e: &Vec<ExtentAndMargins>, respect_line_break: bool) -> (r: i64)
    requires
        e.len() <= MAX_CHILDREN,
    ensures
        r == cross_extent(e@, respect_line_break),
{
    let mut done: i64 = 0;
    let mut cur: i64 = 0;
    let mut i: usize = 0;
    while i < e.len()
        invariant
            i <= e.len() <= MAX_CHILDREN,
            (done as int, cur as int) == cross_scan(e@, respect_line_break, i as int),
            0 <= done <= i * 98302,
            0 <= cur <= 98301,
        decreases e.len() - i,
    {
        let x = e[i];
        let outer = x.margin_start as i64 + x.extent as i64 + x.margin_end as i64;
        if respect_line_break && x.wrap_me {
            done = done + cur;
            cur = max_i64(0, outer);
        } else {
            cur = max_i64(cur, outer);
        }
        i = i + 1;
    }
    done + cur
}

/// Extent that a flex container needs along its flex axis.
pub fn calc_along_axis(e: &Vec<ExtentAndMargins>, respect_line_break: bool) -> (r: i64)
    requires
        e.len() <= MAX_CHILDREN,
    ensures
        r == along_extent(e@, respect_line_break),
{
    let mut acc: i64 = 0;
    let mut longest: i64 = 0;
    let mut last_end: i64 = 0;
    let mut i: usize = 0;
    while i < e.len()
        invariant
            i <= e.len() <= MAX_CHILDREN,
            (acc as int, longest as int, last_end as int) == along_scan(e@, respect_line_break, i as int),
            -(i * 98304) <= acc <= i * 98304,
            -(i * 98304) <= longest <= i * 98304,
            i16::MIN <= last_end <= i16::MAX,
        decreases e.len() - i,
    {
        let x = e[i];
        if respect_line_break && x.wrap_me {
            longest = max_i64(acc, longest);
            acc = 0;
        }
        acc = acc + max_i64(last_end, x.margin_start as i64) + x.extent as i64 + x.margin_end as i64;
        last_end = x.margin_end as i64;
        i = i + 1;
    }
    max_i64(acc, longest)
}

/// Largest magnitude of a gap or of a free space that the gap arithmetic takes.
pub const GAP_BOUND: i64 = 2305843009213693952;

/// Justify: the share of the free space `space` that the `k`-th of `n`
/// internal gaps receives (`1 <= k <= n`). Every gap gets `space / n`, rounded
/// toward zero; the first `space - n * (space / n)` gaps get one more.
pub open spec fn chop_share(space: int, n: int, k: int) -> int {
    let base = trunc_div(space, n);
    let rest = space - base * n;
    if k <= rest {
        base + 1
    } else {
        base
    }
}

/// Sum of the shares of the first `k` internal gaps.
pub open spec fn chop_sum(space: int, n: int, k: int) -> int
    decreases k,
{
    if k <= 0 {
        0
    } else {
        chop_sum(space, n, k - 1) + chop_share(space, n, k)
    }
}

proof fn lemma_trunc_div_parts(space: int, n: int)
    requires
        n >= 1,
    ensures
        space >= 0 ==> 0 <= space - trunc_div(space, n) * n < n,
        space >= 0 ==> trunc_div(space, n) == space / n,
        space >= 0 ==> space - trunc_div(space, n) * n == space % n,
        space >= 0 ==> trunc_div(space, n) >= 0,
        space < 0 ==> -n < space - trunc_div(space, n) * n <= 0,
        space < 0 ==> trunc_div(space, n) <= 0,
{
    let a = if space >= 0 {
        space
    } else {
        -space
    };
    lemma_fundamental_div_mod(a, n);
    lemma_mod_pos_bound(a, n);
    assert(a / n >= 0) by (nonlinear_arith)
        requires
            a >= 0,
            n >= 1,
    ;
    assert((a / n) * n == n * (a / n)) by (nonlinear_arith);
    assert((-(a / n)) * n == -(n * (a / n))) by (nonlinear_arith);
}

/// The first `k` shares sum to `k * base` plus one for each of them that is
/// among the first `rest`.
proof fn lemma_chop_sum_closed(space: int, n: int, k: int)
    requires
        n >= 1,
        0 <= k <= n,
    ensures
        space >= 0 ==> chop_sum(space, n, k) == k * trunc_div(space, n) + min(k, space - trunc_div(space, n) * n),
        space < 0 ==> chop_sum(space, n, k) == k * trunc_div(space, n),
    decreases k,
{
    lemma_trunc_div_parts(space, n);
    if k > 0 {
        lemma_chop_sum_closed(space, n, k - 1);
        lemma_mul_is_distributive_add(trunc_div(space, n), k - 1, 1);
        assert(k * trunc_div(space, n) == (k - 1) * trunc_div(space, n) + trunc_div(space, n)) by (nonlinear_arith);
    }
}

/// Each partial sum of the shares lies between zero and `space`.
proof fn lemma_chop_sum_bounds(space: int, n: int, k: int)
    requires
        n >= 1,
        0 <= k <= n,
    ensures
        space >= 0 ==> 0 <= chop_sum(space, n, k) <= space,
        space < 0 ==> space <= chop_sum(space, n, k) <= 0,
        -(if space < 0 { -space } else { space }) - 1 <= chop_share(space, n, k)
            <= (if space < 0 { -space } else { space }) + 1,
{
    lemma_chop_sum_closed(space, n, k);
    lemma_trunc_div_parts(space, n);
    let b = trunc_div(space, n);
    if space >= 0 {
        lemma_mul_inequality(k, n, b);
        assert(0 <= k * b) by (nonlinear_arith)
            requires
                k >= 0,
                b >= 0,
        ;
        assert(b <= space) by (nonlinear_arith)
            requires
                b * n <= space,
                n >= 1,
                b >= 0,
        ;
    } else {
        assert(n * b <= k * b <= 0) by (nonlinear_arith)
            requires
                0 <= k <= n,
                b <= 0,
        ;
        assert(space <= b) by (nonlinear_arith)
            requires
                space <= b * n,
                n >= 1,
                b <= 0,
        ;
    }
}

/// Justify distribution: with `n >= 1` internal gaps and a free space
/// `space >= 0`, the shares sum to `space`, each is `space / n` rounded down
/// or up, and the `space % n` larger shares come first.
pub proof fn lemma_justify_is_exact(space: int, n: int)
    requires
        n >= 1,
        space >= 0,
    ensures
        chop_sum(space, n, n) == space,
        forall|k: int|
            1 <= k <= n ==> #[trigger] chop_share(space, n, k) == space / n || chop_share(space, n, k) == space
                / n + 1,
        forall|k: int|
            1 <= k <= n ==> (#[trigger] chop_share(space, n, k) == space / n + 1 <==> k <= space % n),
{
    lemma_chop_sum_closed(space, n, n);
    lemma_trunc_div_parts(space, n);
}

/// Justify: adds to each gap but the first its share of `extra_space`, so
/// that the children after the first move apart. `chop(9, 2) = [5, 4]`,
/// `chop(18, 4) = [5, 4, 5, 4]`.
pub fn enlarge_gaps_inbetween(gaps_before: &mut Vec<i64>, extra_space: i64)
    requires
        -GAP_BOUND <= extra_space <= GAP_BOUND,
        old(gaps_before).len() <= MAX_CHILDREN,
        forall|i: int| 0 <= i < old(gaps_before).len() ==> -GAP_BOUND <= #[trigger] old(gaps_before)@[i] <= GAP_BOUND,
    ensures
        final(gaps_before).len() == old(gaps_before).len(),
        old(gaps_before).len() < 2 ==> final(gaps_before)@ == old(gaps_before)@,
        old(gaps_before).len() >= 1 ==> final(gaps_before)@[0] == old(gaps_before)@[0],
        forall|i: int|
            1 <= i < old(gaps_before).len() ==> #[trigger] final(gaps_before)@[i] == old(gaps_before)@[i]
                + chop_share(extra_space as int, old(gaps_before).len() - 1, i),
{
    let len = gaps_before.len();
    if len < 2 {
        return ;
    }
    let n: usize = len - 1;
    let ni: i64 = n as i64;
    proof {
        lemma_trunc_div_parts(extra_space as int, n as int);
        lemma_chop_sum_bounds(extra_space as int, n as int, 0);
    }
    let segment: i64 = extra_space / ni;
    assert(segment == trunc_div(extra_space as int, n as int));
    let rest: i64 = extra_space - segment * ni;
    let mut i: usize = 1;
    while i <= n
        invariant
            1 <= i <= n + 1,
            n == len - 1,
            ni == n,
            len == old(gaps_before).len(),
            gaps_before.len() == len,
            segment == trunc_div(extra_space as int, n as int),
            rest == extra_space - segment * n,
            -GAP_BOUND <= extra_space <= GAP_BOUND,
            -GAP_BOUND - 1 <= segment <= GAP_BOUND,
            gaps_before@[0] == old(gaps_before)@[0],
            forall|j: int| 1 <= j < i ==> #[trigger] gaps_before@[j] == old(gaps_before)@[j] + chop_share(extra_space as int, n as int, j),
            forall|j: int| i <= j < len ==> #[trigger] gaps_before@[j] == old(gaps_before)@[j],
            forall|j: int| 0 <= j < len ==> -GAP_BOUND <= #[trigger] old(gaps_before)@[j] <= GAP_BOUND,
        decreases n + 1 - i,
    {
        proof {
            lemma_chop_sum_bounds(extra_space as int, n as int, i as int);
        }
        let share: i64 = if (i as i64) <= rest {
            segment + 1
        } else {
            segment
        };
        let g = gaps_before[i] + share;
        gaps_before.set(i, g);
        i = i + 1;
    }
}

/// Placement of one child across the axis, inside `space` starting at
/// `offset`: `(position, size)`. The size is clamped to the space left by the
/// margins (never below zero), except that fill (front and back) takes all of it.
pub open spec fn cross_place(x: ExtentAndMargins, space: int, offset: int) -> (int, int) {
    let max_size = max(0, space - x.margin_start - x.margin_end);
    let clamped = min(x.extent as int, max_size);
    if x.alignment.front && x.alignment.back {
        (offset + x.margin_start, max_size)
    } else if x.alignment.front {
        (offset + x.margin_start, clamped)
    } else if x.alignment.back {
        (offset + space - clamped - x.margin_end, clamped)
    } else {
        (offset + trunc_div(space - clamped, 2), clamped)
    }
}

/// Fill alignment gives the child all the space between its margins.
pub proof fn lemma_fill_takes_the_space(x: ExtentAndMargins, space: int, offset: int)
    requires
        x.alignment.front,
        x.alignment.back,
        space - x.margin_start - x.margin_end >= 0,
    ensures
        cross_place(x, space, offset).1 == space - x.margin_start - x.margin_end,
        cross_place(x, space, offset).0 == offset + x.margin_start,
{
}

pub fn arrange_cross_one(x: ExtentAndMargins, space: i64, offset: i64) -> (r: (i64, i64))
    requires
        -GAP_BOUND <= space <= GAP_BOUND,
        -GAP_BOUND <= offset <= GAP_BOUND,
    ensures
        (r.0 as int, r.1 as int) == cross_place(x, space as int, offset as int),
{
    let room = space - x.margin_start as i64 - x.margin_end as i64;
    let max_size: i64 = if room > 0 {
        room
    } else {
        0
    };
    let clamped: i64 = if (x.extent as i64) <= max_size {
        x.extent as i64
    } else {
        max_size
    };
    if x.alignment.front && x.alignment.back {
        (offset + x.margin_start as i64, max_size)
    } else if x.alignment.front {
        (offset + x.margin_start as i64, clamped)
    } else if x.alignment.back {
        (offset + space - clamped - x.margin_end as i64, clamped)
    } else {
        (offset + (space - clamped) / 2, clamped)
    }
}

/// First index from `j` on whose child asks for a new line, or the length.
pub open spec fn next_wrap(e: Seq<ExtentAndMargins>, j: int) -> int
    decreases e.len() - j,
{
    if j >= e.len() || j < 0 {
        e.len() as int
    } else if e[j].wrap_me {
        j
    } else {
        next_wrap(e, j + 1)
    }
}

/// Thickness of the band (line) of child `i` when lines are honoured.
pub open spec fn band_thickness(e: Seq<ExtentAndMargins>, i: int) -> int {
    cross_scan(e, true, next_wrap(e, i + 1)).1
}

/// Where the band of child `i` starts, relative to the container.
pub open spec fn band_offset(e: Seq<ExtentAndMargins>, i: int) -> int {
    cross_scan(e, true, i + 1).0
}

/// Placement of child `i` across the axis: with lines, inside its band;
/// without, inside the whole `space`.
pub open spec fn cross_layout(e: Seq<ExtentAndMargins>, wrap: bool, space: int, offset: int, i: int) -> (int, int) {
    if wrap {
        cross_place(e[i], band_thickness(e, i), offset + band_offset(e, i))
    } else {
        cross_place(e[i], space, offset)
    }
}

proof fn lemma_next_wrap_in_line(e: Seq<ExtentAndMargins>, j: int, t: int)
    requires
        0 <= j <= t <= e.len(),
        t == e.len() || e[t].wrap_me,
        forall|k: int| j <= k < t ==> !(#[trigger] e[k]).wrap_me,
    ensures
        next_wrap(e, j) == t,
    decreases t - j,
{
    if j < t {
        lemma_next_wrap_in_line(e, j + 1, t);
    }
}

/// Lines stacked across the axis leave no gap: the first band starts at the
/// container's edge, a child that asks for a new line starts its band where
/// the previous band ends, the others share the band of the previous child,
/// and the last band ends exactly at the extent measured for the container.
pub proof fn lemma_bands_stack(e: Seq<ExtentAndMargins>)
    ensures
        e.len() > 0 ==> band_offset(e, 0) == 0,
        forall|i: int|
            0 < i < e.len() && (#[trigger] e[i]).wrap_me ==> band_offset(e, i) == band_offset(e, i - 1)
                + band_thickness(e, i - 1),
        forall|i: int|
            0 < i < e.len() && !(#[trigger] e[i]).wrap_me ==> band_offset(e, i) == band_offset(e, i - 1)
                && band_thickness(e, i) == band_thickness(e, i - 1),
        e.len() > 0 ==> band_offset(e, e.len() - 1) + band_thickness(e, e.len() - 1) == cross_extent(e, true),
{
    assert forall|i: int| 0 < i < e.len() && (#[trigger] e[i]).wrap_me implies band_offset(e, i) == band_offset(
        e,
        i - 1,
    ) + band_thickness(e, i - 1) by {
        lemma_next_wrap_in_line(e, i, i);
    }
    assert forall|i: int| 0 < i < e.len() && !(#[trigger] e[i]).wrap_me implies band_offset(e, i)
        == band_offset(e, i - 1) && band_thickness(e, i) == band_thickness(e, i - 1) by {
        assert(next_wrap(e, i) == next_wrap(e, i + 1));
    }
    if e.len() > 0 {
        assert(cross_scan(e, true, 0) == (0int, 0int));
        lemma_next_wrap_in_line(e, e.len() as int, e.len() as int);
    }
}

/// Places every child across the axis; see `cross_layout`.
pub fn arrange_cross_axis_range(e: &Vec<ExtentAndMargins>, allow_wrap: bool, space: i64, offset: i64) -> (r: Vec<(i64, i64)>)
    requires
        e.len() <= MAX_CHILDREN,
        i16::MIN <= space <= i16::MAX,
        i16::MIN <= offset <= i16::MAX,
    ensures
        r.len() == e.len(),
        forall|i: int|
            0 <= i < e.len() ==> (#[trigger] r@[i].0 as int, r@[i].1 as int) == cross_layout(
                e@,
                allow_wrap,
                space as int,
                offset as int,
                i,
            ),
{
    let n = e.len();
    let mut r: Vec<(i64, i64)> = Vec::new();
    if !allow_wrap {
        let mut i: usize = 0;
        while i < n
            invariant
                i <= n == e.len(),
                !allow_wrap,
                i16::MIN <= space <= i16::MAX,
                i16::MIN <= offset <= i16::MAX,
                r.len() == i,
                forall|k: int|
                    0 <= k < i ==> (#[trigger] r@[k].0 as int, r@[k].1 as int) == cross_layout(
                        e@,
                        allow_wrap,
                        space as int,
                        offset as int,
                        k,
                    ),
            decreases n - i,
        {
            r.push(arrange_cross_one(e[i], space, offset));
            i = i + 1;
        }
        return r;
    }
    let mut acc: i64 = 0;
    let mut i: usize = 0;
    while i < n
        invariant
            i <= n == e.len() <= MAX_CHILDREN,
            allow_wrap,
            i16::MIN <= space <= i16::MAX,
            i16::MIN <= offset <= i16::MAX,
            r.len() == i,
            i < n ==> (i == 0 || e@[i as int].wrap_me),
            acc == cross_scan(e@, true, i as int).0 + cross_scan(e@, true, i as int).1,
            0 <= acc <= i * 98302,
            forall|k: int|
                0 <= k < i ==> (#[trigger] r@[k].0 as int, r@[k].1 as int) == cross_layout(
                    e@,
                    allow_wrap,
                    space as int,
                    offset as int,
                    k,
                ),
        decreases n - i,
    {
        let start = i;
        let mut thick: i64 = 0;
        let mut j: usize = i;
        while j < n && (j == start || !e[j].wrap_me)
            invariant
                start <= j <= n == e.len() <= MAX_CHILDREN,
                start == i,
                start < n,
                start == 0 || e@[start as int].wrap_me,
                forall|k: int| start < k < j ==> !(#[trigger] e@[k]).wrap_me,
                j > start ==> cross_scan(e@, true, j as int) == (acc as int, thick as int),
                j == start ==> thick == 0,
                0 <= thick <= 98301,
                acc == cross_scan(e@, true, start as int).0 + cross_scan(e@, true, start as int).1,
            decreases n - j,
        {
            let x = e[j];
            let outer = x.margin_start as i64 + x.extent as i64 + x.margin_end as i64;
            proof {
                assert(cross_scan(e@, true, 0) == (0int, 0int));
            }
            thick = max_i64(thick, outer);
            j = j + 1;
        }
        proof {
            lemma_next_wrap_in_line(e@, start as int + 1, j as int);
        }
        let mut k: usize = start;
        while k < j
            invariant
                start <= k <= j <= n == e.len() <= MAX_CHILDREN,
                allow_wrap,
                r.len() == k,
                0 <= acc <= start * 98302,
                0 <= thick <= 98301,
                i16::MIN <= offset <= i16::MAX,
                forall|m: int| start < m < j ==> !(#[trigger] e@[m]).wrap_me,
                j == n || e@[j as int].wrap_me,
                start == 0 || e@[start as int].wrap_me,
                cross_scan(e@, true, j as int) == (acc as int, thick as int),
                acc == cross_scan(e@, true, start as int).0 + cross_scan(e@, true, start as int).1,
                forall|m: int|
                    0 <= m < k ==> (#[trigger] r@[m].0 as int, r@[m].1 as int) == cross_layout(
                        e@,
                        allow_wrap,
                        space as int,
                        offset as int,
                        m,
                    ),
            decreases j - k,
        {
            proof {
                lemma_next_wrap_in_line(e@, k as int + 1, j as int);
                lemma_cross_scan_in_line(e@, start as int, k as int + 1, j as int);
            }
            r.push(arrange_cross_one(e[k], thick, offset + acc));
            k = k + 1;
        }
        acc = acc + thick;
        i = j;
    }
    r
}

/// Inside one line `[s, t)`, the finished lines stay as they were at the
/// line's first child.
proof fn lemma_cross_scan_in_line(e: Seq<ExtentAndMargins>, s: int, k: int, t: int)
    requires
        0 <= s < k <= t <= e.len(),
        s == 0 || e[s].wrap_me,
        forall|m: int| s < m < t ==> !(#[trigger] e[m]).wrap_me,
    ensures
        cross_scan(e, true, k).0 == cross_scan(e, true, s).0 + cross_scan(e, true, s).1,
    decreases k - s,
{
    if k > s + 1 {
        lemma_cross_scan_in_line(e, s, k - 1, t);
    }
}

/// What a flex container decides its children's positions along its axis by.
#[derive(Clone, Copy, Debug)]
pub struct LineParams {
    /// The container's extent along the axis.
    pub space: Scalar,
    /// The container's position along the axis.
    pub offset: Scalar,
    pub alignment: Alignment,
    /// Break before a child that asks for it.
    pub allow_wrap: bool,
    /// Break before a child that would overflow the line.
    pub auto_wrap: bool,
}

/// Whether `x` goes on a new line, when the current line has used `acc`
/// (without its trailing margin) and ended with margin `last_end`.
pub open spec fn breaks_line(p: LineParams, x: ExtentAndMargins, acc: int, last_end: int) -> bool {
    (p.allow_wrap && x.wrap_me) || (p.auto_wrap && acc + max(last_end, x.margin_start as int) + x.extent
        + x.margin_end > p.space)
}

/// Along the axis, after the first `k` children: where the current line
/// started, what it has used (margins collapsed, without its trailing
/// margin), and its trailing margin. No line breaks before its first child.
pub open spec fn line_scan(e: Seq<ExtentAndMargins>, p: LineParams, k: int) -> (int, int, int)
    decreases k,
{
    if k <= 0 {
        (0, 0, 0)
    } else {
        let (s, acc, last_end) = line_scan(e, p, k - 1);
        let x = e[k - 1];
        if k - 1 > 0 && breaks_line(p, x, acc, last_end) {
            (k - 1, max(0, x.margin_start as int) + x.extent, x.margin_end as int)
        } else {
            (s, acc + max(last_end, x.margin_start as int) + x.extent, x.margin_end as int)
        }
    }
}

/// Child `i` is the first of its line.
pub open spec fn starts_line(e: Seq<ExtentAndMargins>, p: LineParams, i: int) -> bool {
    i == 0 || breaks_line(p, e[i], line_scan(e, p, i).1, line_scan(e, p, i).2)
}

/// First index from `j` on that starts a line, or the length.
pub open spec fn next_line(e: Seq<ExtentAndMargins>, p: LineParams, j: int) -> int
    decreases e.len() - j,
{
    if j >= e.len() || j < 0 {
        e.len() as int
    } else if starts_line(e, p, j) {
        j
    } else {
        next_line(e, p, j + 1)
    }
}

/// Free space of the line of child `i`: the container's extent less what the
/// line uses, its trailing margin included.
pub open spec fn line_free(e: Seq<ExtentAndMargins>, p: LineParams, i: int) -> int {
    let end = line_scan(e, p, next_line(e, p, i + 1));
    p.space - (end.1 + end.2)
}

/// Space before the first child of a line: none for start and justify, half
/// the free space (rounded toward zero) for center, all of it for end.
pub open spec fn line_lead(a: Alignment, free: int) -> int {
    if a.front {
        0
    } else if a.back {
        free
    } else {
        trunc_div(free, 2)
    }
}

/// Position of child `i` along the axis: the container's position, the
/// line's lead, the line's use up to the child (margins collapsed), and with
/// justify the shares of the free space of the gaps before it.
pub open spec fn along_pos(e: Seq<ExtentAndMargins>, p: LineParams, i: int) -> int {
    let s = line_scan(e, p, i + 1).0;
    let t = next_line(e, p, i + 1);
    let free = line_free(e, p, i);
    let share = if p.alignment.front && p.alignment.back {
        chop_sum(free, t - s - 1, i - s)
    } else {
        0
    };
    p.offset + line_lead(p.alignment, free) + line_scan(e, p, i + 1).1 - e[i].extent + share
}

proof fn lemma_next_line_in_line(e: Seq<ExtentAndMargins>, p: LineParams, j: int, t: int)
    requires
        0 <= j <= t <= e.len(),
        t == e.len() || starts_line(e, p, t),
        forall|k: int| j <= k < t ==> !#[trigger] starts_line(e, p, k),
    ensures
        next_line(e, p, j) == t,
    decreases t - j,
{
    if j < t {
        lemma_next_line_in_line(e, p, j + 1, t);
    }
}

/// Margin collapsing: with start, center or end alignment, two neighbours on
/// one line are apart by the larger of the first's margin_end and the
/// second's margin_start, not by their sum.
pub proof fn lemma_adjacent_margins_collapse(e: Seq<ExtentAndMargins>, p: LineParams, i: int)
    requires
        0 <= i,
        i + 1 < e.len(),
        !starts_line(e, p, i + 1),
        !(p.alignment.front && p.alignment.back),
    ensures
        along_pos(e, p, i + 1) - (along_pos(e, p, i) + e[i].extent) == max(
            e[i].margin_end as int,
            e[i + 1].margin_start as int,
        ),
{
    assert(next_line(e, p, i + 1) == next_line(e, p, i + 2));
}

/// Center: a line of one child puts half of its free space before it.
pub proof fn lemma_single_child_centered(e: Seq<ExtentAndMargins>, p: LineParams)
    requires
        e.len() == 1,
        !p.alignment.front,
        !p.alignment.back,
        line_free(e, p, 0) % 2 == 0,
    ensures
        line_free(e, p, 0) == p.space - (max(0, e[0].margin_start as int) + e[0].extent + e[0].margin_end),
        along_pos(e, p, 0) == p.offset + line_free(e, p, 0) / 2 + max(0, e[0].margin_start as int),
{
    assert(line_scan(e, p, 0) == (0int, 0int, 0int));
    assert(next_line(e, p, 1) == 1);
    let free = line_free(e, p, 0);
    if free < 0 {
        assert(trunc_div(free, 2) == free / 2) by {
            assert(-(-free / 2) == free / 2) by (nonlinear_arith)
                requires
                    free % 2 == 0,
                    free < 0,
            ;
        }
    }
}

fn line_lead_exec(a: Alignment, free: i64) -> (r: i64)
    requires
        -GAP_BOUND <= free <= GAP_BOUND,
    ensures
        r == line_lead(a, free as int),
{
    if a.front {
        0
    } else if a.back {
        free
    } else {
        free / 2
    }
}

/// Positions along the axis of all children of a flex container; see
/// `along_pos`.
pub fn arrange_along_axis_range(e: &Vec<ExtentAndMargins>, p: LineParams) -> (r: Vec<i64>)
    requires
        e.len() <= MAX_CHILDREN,
    ensures
        r.len() == e.len(),
        forall|i: int| 0 <= i < e.len() ==> #[trigger] r@[i] == along_pos(e@, p, i),
{
    let n = e.len();
    let mut r: Vec<i64> = Vec::new();
    let mut i: usize = 0;
    let space = p.space as i64;
    while i < n
        invariant
            i <= n == e.len() <= MAX_CHILDREN,
            space == p.space,
            r.len() == i,
            i < n ==> starts_line(e@, p, i as int),
            forall|k: int| 0 <= k < i ==> #[trigger] r@[k] == along_pos(e@, p, k),
        decreases n - i,
    {
        let start = i;
        let mut acc: i64 = 0;
        let mut last_end: i64 = 0;
        let mut gaps: Vec<i64> = Vec::new();
        let mut j: usize = i;
        while j < n
            invariant
                start <= j <= n == e.len() <= MAX_CHILDREN,
                start == i,
                start < n,
                space == p.space,
                starts_line(e@, p, start as int),
                gaps.len() == j - start,
                j == start ==> acc == 0 && last_end == 0,
                j > start ==> line_scan(e@, p, j as int) == (start as int, acc as int, last_end as int),
                forall|m: int| start < m <= j ==> (#[trigger] line_scan(e@, p, m)).0 == start,
                forall|m: int|
                    start < m <= j ==> -(m - start) * 98304 <= (#[trigger] line_scan(e@, p, m)).1 <= (m
                        - start) * 98304,
                forall|m: int| start < m < j ==> !#[trigger] starts_line(e@, p, m),
                forall|k: int|
                    0 <= k < j - start ==> #[trigger] gaps@[k] + e@[start + k].extent == line_scan(
                        e@,
                        p,
                        start + k + 1,
                    ).1 - (if k == 0 {
                        0
                    } else {
                        line_scan(e@, p, start + k).1
                    }),
                forall|k: int| 0 <= k < j - start ==> -65536 <= #[trigger] gaps@[k] <= 65536,
                -(j - start) * 98304 <= acc <= (j - start) * 98304,
                i16::MIN <= last_end <= i16::MAX,
            ensures
                start < j,
                j == n || starts_line(e@, p, j as int),
            decreases n - j,
        {
            let x = e[j];
            let g: i64 = max_i64(last_end, x.margin_start as i64);
            if j > start {
                let over = acc + g + x.extent as i64 + x.margin_end as i64 > space;
                if (p.allow_wrap && x.wrap_me) || (p.auto_wrap && over) {
                    break ;
                }
            }
            proof {
                assert(line_scan(e@, p, 0) == (0int, 0int, 0int));
            }
            gaps.push(g);
            acc = acc + g + x.extent as i64;
            last_end = x.margin_end as i64;
            j = j + 1;
        }
        proof {
            lemma_next_line_in_line(e@, p, start as int + 1, j as int);
        }
        let free: i64 = space - (acc + last_end);
        let lead = line_lead_exec(p.alignment, free);
        let len = gaps.len();
        if p.alignment.front && p.alignment.back {
            enlarge_gaps_inbetween(&mut gaps, free);
        } else {
            let g0 = gaps[0] + lead;
            gaps.set(0, g0);
        }
        let ghost m = len - 1;
        let mut run: i64 = p.offset as i64;
        let mut k: usize = 0;
        while k < len
            invariant
                start < j <= n == e.len() <= MAX_CHILDREN,
                len == j - start,
                gaps.len() == len,
                m == len - 1,
                r.len() == start + k,
                k <= len,
                free == p.space - (acc + last_end),
                line_scan(e@, p, j as int) == (start as int, acc as int, last_end as int),
                -(j - start) * 98304 <= acc <= (j - start) * 98304,
                i16::MIN <= last_end <= i16::MAX,
                lead == line_lead(p.alignment, free as int),
                j == n || starts_line(e@, p, j as int),
                forall|q: int| start < q <= j ==> (#[trigger] line_scan(e@, p, q)).0 == start,
                forall|q: int|
                    start < q <= j ==> -(q - start) * 98304 <= (#[trigger] line_scan(e@, p, q)).1 <= (q
                        - start) * 98304,
                forall|q: int| start < q < j ==> !#[trigger] starts_line(e@, p, q),
                forall|q: int|
                    0 <= q < len ==> #[trigger] gaps@[q] + e@[start + q].extent == line_scan(
                        e@,
                        p,
                        start + q + 1,
                    ).1 - (if q == 0 {
                        0
                    } else {
                        line_scan(e@, p, start + q).1
                    }) + (if p.alignment.front && p.alignment.back {
                        if q == 0 {
                            0
                        } else {
                            chop_share(free as int, m, q)
                        }
                    } else if q == 0 {
                        lead as int
                    } else {
                        0
                    }),
                k == 0 ==> run == p.offset,
                k > 0 ==> run == p.offset + lead + line_scan(e@, p, start + k).1 + (if p.alignment.front
                    && p.alignment.back {
                    chop_sum(free as int, m, k - 1)
                } else {
                    0
                }),
                forall|q: int| 0 <= q < start + k ==> #[trigger] r@[q] == along_pos(e@, p, q),
            decreases len - k,
        {
            proof {
                lemma_next_line_in_line(e@, p, start + k + 1, j as int);
                if m >= 1 {
                    lemma_chop_sum_bounds(free as int, m, k as int);
                }
                if k > 0 && m >= 1 {
                    lemma_chop_sum_bounds(free as int, m, k - 1);
                }
            }
            let pos = run + gaps[k];
            r.push(pos);
            run = pos + e[start + k].extent as i64;
            k = k + 1;
        }
        i = j;
    }
    r
}

} // verus!
