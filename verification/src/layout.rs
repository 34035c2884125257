//! Dividing a parent's region among its children along the primary axis.
//!
//! Each child carries a [`Measure`]. Children are placed one after another along the parent's
//! [`Flow`]; a child with a fixed position stands outside of that sequence. The parent's
//! [`Placement`] decides whether the children may run past the parent's end or have to share
//! what the parent has.
//!
//! All lengths are whole cells. A share of the viewport is written in parts of [`WHOLE`], so no
//! result depends on floating-point rounding.

use crate::apportion::{as_ints, count_set, distribute, rank};
use crate::rect::{clamp_i32, int_max, saturate, LogicalRect};
use vstd::prelude::*;

verus! {

/// The share that stands for the whole viewport in [`Measure::Percent`].
pub const WHOLE: u32 = 10_000;

/// A layout mode that changes how a parent node interprets [`Measure`].
#[derive(Debug, Clone, Copy, PartialEq, Eq, Structural)]
pub enum Placement {
    /// Places measures with exact, deterministic sizes.
    Overflow,
    /// Constrains measures to the parent's render region.
    Fit,
}

impl Default for Placement {
    fn default() -> (r: Self)
        ensures
            r == Placement::Overflow,
    {
        Placement::Overflow
    }
}

/// A layout quantity describing how much space a node occupies along its parent's primary axis.
#[derive(Debug, Clone, Copy, PartialEq, Eq, Structural)]
pub enum Measure {
    /// Occupies an exact number of cells.
    Exact(i32),
    /// Occupies a share of the viewport size on the primary axis, in parts of [`WHOLE`].
    ///
    /// A viewport unit is defined as the space allocated to the parent along its primary axis.
    /// Under [`Placement::Fit`] the shares of one parent are weights: only their proportions
    /// count.
    Percent(u32),
    /// Positioned locally within the parent without participating in layout flow.
    ///
    /// Defined as a tuple of `(x, y, width, height)`.
    Fixed(i32, i32, i32, i32),
}

impl Default for Measure {
    fn default() -> (r: Self)
        ensures
            r == Measure::Percent(WHOLE),
    {
        Measure::Percent(WHOLE)
    }
}

/// The primary layout axis of a node.
///
/// A node's children are arranged sequentially along this axis, with each child consuming space
/// according to its [`Measure`].
#[derive(Debug, Clone, Copy, PartialEq, Eq, Structural)]
pub enum Flow {
    /// Children are laid out from top to bottom.
    Vertical,
    /// Children are laid out from left to right.
    Horizontal,
}

impl Default for Flow {
    fn default() -> (r: Self)
        ensures
            r == Flow::Vertical,
    {
        Flow::Vertical
    }
}

/// The stretch of the primary axis that one child receives.
#[derive(Clone, Copy, Debug, PartialEq, Eq, Structural)]
pub struct Variable {
    pub start: i32,
    pub size: i32,
}

/// `n / d` rounded to the nearest integer, halves away from zero.
pub open spec fn round_div(n: int, d: int) -> int
    recommends
        d > 0,
{
    if n >= 0 {
        (2 * n + d) / (2 * d)
    } else {
        -((2 * (-n) + d) / (2 * d))
    }
}

/// The cells that an exact measure asks for; other measures ask for none.
pub open spec fn exact_size(m: Measure) -> int {
    match m {
        Measure::Exact(n) => int_max(n as int, 0),
        _ => 0,
    }
}

/// The weight of a share; other measures weigh nothing.
pub open spec fn weight(m: Measure) -> int {
    match m {
        Measure::Percent(w) => w as int,
        _ => 0,
    }
}

/// The size of one measure where children may overflow the parent.
pub open spec fn overflow_size(viewport: int, m: Measure) -> int {
    match m {
        Measure::Exact(n) => int_max(n as int, 0),
        Measure::Percent(w) => clamp_i32(round_div(viewport * w, WHOLE as int)),
        Measure::Fixed(..) => 0,
    }
}

/// The cells that the exact measures among the first `n` ask for.
pub open spec fn exact_sum(ms: Seq<Measure>, n: int) -> int
    decreases n,
{
    if n <= 0 {
        0
    } else {
        exact_sum(ms, n - 1) + exact_size(ms[n - 1])
    }
}

/// The weights of the shares among the first `n`, added up.
pub open spec fn weight_sum(ms: Seq<Measure>, n: int) -> int
    decreases n,
{
    if n <= 0 {
        0
    } else {
        weight_sum(ms, n - 1) + weight(ms[n - 1])
    }
}

/// All the weights of a list of measures, added up.
pub open spec fn total_weight(ms: Seq<Measure>) -> int {
    weight_sum(ms, ms.len() as int)
}

/// What is left of the viewport for the shares once the exact measures are served.
pub open spec fn fit_remaining(viewport: int, ms: Seq<Measure>) -> int {
    int_max(viewport - exact_sum(ms, ms.len() as int), 0)
}

/// The cells that measure `i` receives before the leftover cells are handed out: its part of
/// what remains, by weight, rounded down.
pub open spec fn fit_floor(viewport: int, ms: Seq<Measure>, i: int) -> int {
    if total_weight(ms) > 0 {
        (fit_remaining(viewport, ms) * weight(ms[i])) / total_weight(ms)
    } else {
        0
    }
}

/// What the rounding down of [`fit_floor`] cut off, in parts of the total weight.
pub open spec fn fit_rem(viewport: int, ms: Seq<Measure>, i: int) -> int {
    if total_weight(ms) > 0 {
        (fit_remaining(viewport, ms) * weight(ms[i])) % total_weight(ms)
    } else {
        0
    }
}

/// The rounded-down parts of the first `n` measures, added up.
pub open spec fn floor_sum(viewport: int, ms: Seq<Measure>, n: int) -> int
    decreases n,
{
    if n <= 0 {
        0
    } else {
        floor_sum(viewport, ms, n - 1) + fit_floor(viewport, ms, n - 1)
    }
}

/// The cells that rounding down has left over.
pub open spec fn fit_leftover(viewport: int, ms: Seq<Measure>) -> int {
    if total_weight(ms) > 0 {
        fit_remaining(viewport, ms) - floor_sum(viewport, ms, ms.len() as int)
    } else {
        0
    }
}

/// The remainders of all measures, in order.
pub open spec fn fit_rems(viewport: int, ms: Seq<Measure>) -> Seq<int> {
    Seq::new(ms.len(), |i: int| fit_rem(viewport, ms, i))
}

/// Which of the measures are shares.
pub open spec fn shares(ms: Seq<Measure>) -> Seq<bool> {
    Seq::new(ms.len(), |i: int| ms[i] is Percent)
}

/// Whether measure `i` receives one of the leftover cells: it is a share, and fewer shares than
/// there are leftover cells have a larger remainder, or the same remainder and a lower index.
pub open spec fn fit_bonus(viewport: int, ms: Seq<Measure>, i: int) -> bool {
    &&& ms[i] is Percent
    &&& rank(fit_rems(viewport, ms), shares(ms), i) < fit_leftover(viewport, ms)
}

/// The size of measure `i` where the children share what the parent has.
pub open spec fn fit_size(viewport: int, ms: Seq<Measure>, i: int) -> int {
    match ms[i] {
        Measure::Exact(n) => int_max(n as int, 0),
        Measure::Percent(_) => fit_floor(viewport, ms, i) + if fit_bonus(viewport, ms, i) {
            1int
        } else {
            0int
        },
        Measure::Fixed(..) => 0,
    }
}

/// The size of measure `i` along the primary axis.
pub open spec fn flow_size(placement: Placement, viewport: int, ms: Seq<Measure>, i: int) -> int {
    match placement {
        Placement::Overflow => overflow_size(viewport, ms[i]),
        Placement::Fit => fit_size(viewport, ms, i),
    }
}

/// Where measure `i` starts on the primary axis: at `start`, moved on by the sizes of the
/// measures before it. The position saturates at the bounds of `i32`.
pub open spec fn flow_start(
    placement: Placement,
    start: int,
    viewport: int,
    ms: Seq<Measure>,
    i: int,
) -> int
    decreases i,
{
    if i <= 0 {
        start
    } else {
        clamp_i32(
            flow_start(placement, start, viewport, ms, i - 1) + flow_size(
                placement,
                viewport,
                ms,
                i - 1,
            ),
        )
    }
}

/// The sizes of the first `n` measures, added up.
pub open spec fn size_sum(placement: Placement, viewport: int, ms: Seq<Measure>, n: int) -> int
    decreases n,
{
    if n <= 0 {
        0
    } else {
        size_sum(placement, viewport, ms, n - 1) + flow_size(placement, viewport, ms, n - 1)
    }
}

/// Whether `vars` is the division of the axis that `ms` asks for.
pub open spec fn is_split(
    vars: Seq<Variable>,
    placement: Placement,
    start: int,
    viewport: int,
    ms: Seq<Measure>,
) -> bool {
    &&& vars.len() == ms.len()
    &&& forall|i: int|
        0 <= i < ms.len() ==> {
            &&& (#[trigger] vars[i]).size == flow_size(placement, viewport, ms, i)
            &&& vars[i].start == flow_start(placement, start, viewport, ms, i)
        }
}

/// The cells that the share `w` of `viewport` comes to.
fn percent_of(viewport: i32, w: u32) -> (size: i32)
    ensures
        size as int == clamp_i32(round_div(viewport * w, WHOLE as int)),
{
    let magnitude: u128 = if viewport >= 0 {
        viewport as u128
    } else {
        (-(viewport as i64)) as u128
    };
    assert(magnitude * w <= 0x8000_0000 * 0xffff_ffff) by (nonlinear_arith)
        requires
            0 <= magnitude <= 0x8000_0000,
            0 <= w <= 0xffff_ffff,
    ;
    let scaled: u128 = magnitude * (w as u128);
    let rounded: u128 = (2 * scaled + WHOLE as u128) / (2 * WHOLE as u128);
    assert(viewport >= 0 ==> viewport * w == scaled) by (nonlinear_arith)
        requires
            viewport >= 0 ==> magnitude == viewport,
            scaled == magnitude * w,
    ;
    assert(viewport < 0 ==> -(viewport * w) == scaled) by (nonlinear_arith)
        requires
            viewport < 0 ==> magnitude == -viewport,
            scaled == magnitude * w,
    ;
    assert(viewport < 0 ==> viewport * w <= 0) by (nonlinear_arith)
        requires
            w >= 0,
    ;
    if rounded > 0x8000_0000 {
        if viewport >= 0 {
            i32::MAX
        } else {
            i32::MIN
        }
    } else if viewport >= 0 {
        saturate(rounded as i64)
    } else {
        saturate(-(rounded as i64))
    }
}

/// Divides the axis where children may overflow the parent: each measure receives what it asks
/// for, whatever the viewport holds.
pub fn split_overflow(start: i32, viewport: i32, measures: &Vec<Measure>) -> (vars: Vec<Variable>)
    ensures
        is_split(vars@, Placement::Overflow, start as int, viewport as int, measures@),
{
    let n = measures.len();
    let mut vars: Vec<Variable> = Vec::new();
    let mut cursor: i32 = start;
    let mut i: usize = 0;
    while i < n
        invariant
            n == measures.len(),
            i <= n,
            vars.len() == i,
            cursor == flow_start(Placement::Overflow, start as int, viewport as int, measures@, i as int),
            forall|j: int|
                0 <= j < i ==> {
                    &&& (#[trigger] vars[j]).size == flow_size(
                        Placement::Overflow,
                        viewport as int,
                        measures@,
                        j,
                    )
                    &&& vars[j].start == flow_start(
                        Placement::Overflow,
                        start as int,
                        viewport as int,
                        measures@,
                        j,
                    )
                },
        decreases n - i,
    {
        let size = match measures[i] {
            Measure::Exact(v) => if v >= 0 {
                v
            } else {
                0
            },
            Measure::Percent(w) => percent_of(viewport, w),
            Measure::Fixed(..) => 0,
        };
        vars.push(Variable { start: cursor, size });
        cursor = saturate(cursor as i64 + size as i64);
        i = i + 1;
    }
    vars
}

/// The remainders of the first `n` measures, added up.
pub open spec fn rem_sum(viewport: int, ms: Seq<Measure>, n: int) -> int
    decreases n,
{
    if n <= 0 {
        0
    } else {
        rem_sum(viewport, ms, n - 1) + fit_rem(viewport, ms, n - 1)
    }
}

/// What rounding down does to one measure: its part is split into whole cells and a remainder
/// below the total weight. A measure without weight has neither.
pub proof fn lemma_fit_part(viewport: int, ms: Seq<Measure>, i: int)
    requires
        total_weight(ms) > 0,
        0 <= i < ms.len(),
    ensures
        total_weight(ms) * fit_floor(viewport, ms, i) + fit_rem(viewport, ms, i) == fit_remaining(
            viewport,
            ms,
        ) * weight(ms[i]),
        0 <= fit_rem(viewport, ms, i) < total_weight(ms),
        0 <= fit_floor(viewport, ms, i),
        !(ms[i] is Percent) ==> fit_floor(viewport, ms, i) == 0 && fit_rem(viewport, ms, i) == 0,
{
    let w = total_weight(ms);
    let q = fit_remaining(viewport, ms) * weight(ms[i]);
    assert(q >= 0) by (nonlinear_arith)
        requires
            q == fit_remaining(viewport, ms) * weight(ms[i]),
            fit_remaining(viewport, ms) >= 0,
            weight(ms[i]) >= 0,
    ;
    vstd::arithmetic::div_mod::lemma_fundamental_div_mod(q, w);
    vstd::arithmetic::div_mod::lemma_mod_bound(q, w);
    vstd::arithmetic::div_mod::lemma_div_pos_is_pos(q, w);
    if !(ms[i] is Percent) {
        assert(q == 0) by (nonlinear_arith)
            requires
                q == fit_remaining(viewport, ms) * weight(ms[i]),
                weight(ms[i]) == 0,
        ;
        vstd::arithmetic::div_mod::lemma_div_basics(w);
        vstd::arithmetic::div_mod::lemma_small_mod(0, w as nat);
    }
}

/// The weights of a prefix are part of the total weight.
pub proof fn lemma_weight_sum_grows(ms: Seq<Measure>, a: int, b: int)
    requires
        0 <= a <= b,
    ensures
        0 <= weight_sum(ms, a) <= weight_sum(ms, b),
        0 <= exact_sum(ms, a) <= exact_sum(ms, b),
    decreases b,
{
    if b > a {
        lemma_weight_sum_grows(ms, a, b - 1);
    } else if a > 0 {
        lemma_weight_sum_grows(ms, a - 1, a - 1);
    }
}

/// Rounding down loses nothing: the whole cells and the remainders of a prefix together are the
/// prefix's weight in what remains. The whole cells of any prefix are none but non-negative, and
/// each share adds less than one total weight to the remainders.
pub proof fn lemma_fit_accounting(viewport: int, ms: Seq<Measure>, n: int)
    requires
        total_weight(ms) > 0,
        0 <= n <= ms.len(),
    ensures
        total_weight(ms) * floor_sum(viewport, ms, n) + rem_sum(viewport, ms, n) == fit_remaining(
            viewport,
            ms,
        ) * weight_sum(ms, n),
        0 <= floor_sum(viewport, ms, n),
        0 <= rem_sum(viewport, ms, n) <= count_set(shares(ms), n) * (total_weight(ms) - 1),
    decreases n,
{
    if n > 0 {
        lemma_fit_accounting(viewport, ms, n - 1);
        lemma_fit_part(viewport, ms, n - 1);
        let w = total_weight(ms);
        let r = fit_remaining(viewport, ms);
        let f0 = floor_sum(viewport, ms, n - 1);
        let f = fit_floor(viewport, ms, n - 1);
        let w0 = weight_sum(ms, n - 1);
        let wi = weight(ms[n - 1]);
        let c0 = count_set(shares(ms), n - 1);
        assert(w * (f0 + f) == w * f0 + w * f) by (nonlinear_arith);
        assert(r * (w0 + wi) == r * w0 + r * wi) by (nonlinear_arith);
        assert((c0 + 1) * (w - 1) == c0 * (w - 1) + (w - 1)) by (nonlinear_arith);
    }
}

/// The leftover cells are none but non-negative, and there is a share for each of them.
pub proof fn lemma_fit_leftover_bounds(viewport: int, ms: Seq<Measure>)
    ensures
        0 <= fit_leftover(viewport, ms) <= count_set(shares(ms), ms.len() as int),
        fit_leftover(viewport, ms) <= fit_remaining(viewport, ms),
{
    let n = ms.len() as int;
    crate::apportion::lemma_count_set_bounds(shares(ms), n);
    if total_weight(ms) > 0 {
        lemma_fit_accounting(viewport, ms, n);
        let w = total_weight(ms);
        let r = fit_remaining(viewport, ms);
        let f = floor_sum(viewport, ms, n);
        let k = count_set(shares(ms), n);
        let l = fit_leftover(viewport, ms);
        assert(w * l == w * r - w * f) by (nonlinear_arith)
            requires
                l == r - f,
        ;
        assert(w * l == rem_sum(viewport, ms, n)) by (nonlinear_arith)
            requires
                w * f + rem_sum(viewport, ms, n) == r * w,
                w * l == w * r - w * f,
        ;
        assert(0 <= l <= k) by (nonlinear_arith)
            requires
                w > 0,
                k >= 0,
                0 <= w * l <= k * (w - 1),
        ;
    }
}

/// The whole cells of one measure are among those of any prefix that holds it.
pub proof fn lemma_floor_within_sum(viewport: int, ms: Seq<Measure>, i: int, n: int)
    requires
        0 <= i < n <= ms.len(),
    ensures
        fit_floor(viewport, ms, i) <= floor_sum(viewport, ms, n),
        0 <= fit_floor(viewport, ms, i),
    decreases n,
{
    if total_weight(ms) > 0 {
        lemma_fit_part(viewport, ms, i);
        lemma_fit_accounting(viewport, ms, n - 1);
        lemma_fit_part(viewport, ms, n - 1);
        if i < n - 1 {
            lemma_floor_within_sum(viewport, ms, i, n - 1);
        }
    } else {
        lemma_floor_sum_zero(viewport, ms, n);
    }
}

proof fn lemma_floor_sum_zero(viewport: int, ms: Seq<Measure>, n: int)
    requires
        total_weight(ms) <= 0,
    ensures
        floor_sum(viewport, ms, n) == 0,
    decreases n,
{
    if n > 0 {
        lemma_floor_sum_zero(viewport, ms, n - 1);
    }
}

/// Under [`Placement::Fit`] the sizes of a prefix are what its exact measures ask for, its whole
/// cells, and as many leftover cells as it has received.
pub proof fn lemma_fit_size_sum(viewport: int, ms: Seq<Measure>, bonus: Seq<bool>, n: int)
    requires
        0 <= n <= ms.len(),
        bonus.len() == ms.len(),
        forall|i: int| 0 <= i < ms.len() ==> bonus[i] == fit_bonus(viewport, ms, i),
    ensures
        size_sum(Placement::Fit, viewport, ms, n) == exact_sum(ms, n) + floor_sum(viewport, ms, n)
            + count_set(bonus, n),
    decreases n,
{
    if n > 0 {
        lemma_fit_size_sum(viewport, ms, bonus, n - 1);
        if total_weight(ms) > 0 {
            lemma_fit_part(viewport, ms, n - 1);
        }
    }
}

/// Under [`Placement::Fit`], where a share has a weight, the sizes add up to the viewport, or
/// to what the exact measures ask for if that is more: the shares receive exactly what remains,
/// whatever the rounding.
pub proof fn lemma_fit_conserves(viewport: int, ms: Seq<Measure>)
    requires
        total_weight(ms) > 0,
    ensures
        size_sum(Placement::Fit, viewport, ms, ms.len() as int) == int_max(
            viewport,
            exact_sum(ms, ms.len() as int),
        ),
{
    let n = ms.len() as int;
    let bonus = Seq::new(ms.len(), |i: int| fit_bonus(viewport, ms, i));
    lemma_fit_leftover_bounds(viewport, ms);
    crate::apportion::lemma_served_count(
        fit_rems(viewport, ms),
        shares(ms),
        fit_leftover(viewport, ms),
    );
    assert(bonus =~= crate::apportion::served(
        fit_rems(viewport, ms),
        shares(ms),
        fit_leftover(viewport, ms),
    ));
    lemma_fit_size_sum(viewport, ms, bonus, n);
}

/// The sizes of a prefix are none but non-negative, and part of the sizes of any longer prefix,
/// where the viewport is not negative.
pub proof fn lemma_size_sum_grows(
    placement: Placement,
    viewport: int,
    ms: Seq<Measure>,
    a: int,
    b: int,
)
    requires
        viewport >= 0,
        0 <= a <= b <= ms.len(),
    ensures
        0 <= size_sum(placement, viewport, ms, a) <= size_sum(placement, viewport, ms, b),
    decreases b,
{
    if b > 0 {
        if a < b {
            lemma_size_sum_grows(placement, viewport, ms, a, b - 1);
        } else {
            lemma_size_sum_grows(placement, viewport, ms, a - 1, b - 1);
        }
        let i = b - 1;
        match placement {
            Placement::Overflow => {
                if let Measure::Percent(w) = ms[i] {
                    assert(viewport * w >= 0) by (nonlinear_arith)
                        requires
                            viewport >= 0,
                            w >= 0,
                    ;
                    vstd::arithmetic::div_mod::lemma_div_pos_is_pos(
                        2 * (viewport * w) + WHOLE,
                        2 * WHOLE,
                    );
                }
            },
            Placement::Fit => {
                if total_weight(ms) > 0 {
                    lemma_fit_part(viewport, ms, i);
                }
            },
        }
    }
}

/// Under [`Placement::Fit`] the children stay within the parent along the primary axis, where
/// the exact measures leave room for that: each child begins at or behind the start, and ends
/// at or before the end of the viewport.
pub proof fn lemma_fit_contains(start: int, viewport: int, ms: Seq<Measure>, i: int)
    requires
        0 <= i < ms.len(),
        viewport >= 0,
        exact_sum(ms, ms.len() as int) <= viewport,
        i32::MIN <= start,
        start + viewport <= i32::MAX,
    ensures
        flow_start(Placement::Fit, start, viewport, ms, i) == start + size_sum(
            Placement::Fit,
            viewport,
            ms,
            i,
        ),
        start <= flow_start(Placement::Fit, start, viewport, ms, i),
        flow_start(Placement::Fit, start, viewport, ms, i) + flow_size(
            Placement::Fit,
            viewport,
            ms,
            i,
        ) <= start + viewport,
    decreases i,
{
    let n = ms.len() as int;
    lemma_size_sum_grows(Placement::Fit, viewport, ms, i, i + 1);
    lemma_size_sum_grows(Placement::Fit, viewport, ms, i + 1, n);
    if total_weight(ms) > 0 {
        lemma_fit_conserves(viewport, ms);
    } else {
        lemma_fit_sum_without_shares(viewport, ms, n);
    }
    if i > 0 {
        lemma_fit_contains(start, viewport, ms, i - 1);
    }
}

/// Under [`Placement::Fit`], where no share has a weight, the sizes are what the exact measures
/// ask for.
pub proof fn lemma_fit_sum_without_shares(viewport: int, ms: Seq<Measure>, n: int)
    requires
        total_weight(ms) <= 0,
        0 <= n <= ms.len(),
    ensures
        size_sum(Placement::Fit, viewport, ms, n) == exact_sum(ms, n),
    decreases n,
{
    if n > 0 {
        lemma_fit_sum_without_shares(viewport, ms, n - 1);
        crate::apportion::lemma_rank_bounds(
            fit_rems(viewport, ms),
            shares(ms),
            n - 1,
            ms.len() as int,
        );
    }
}

/// Divides the axis where the children share what the parent has.
///
/// The exact measures are served first. What remains of the viewport goes to the shares by
/// weight: each receives its part rounded down, and the cells that this leaves over go, one
/// each, to the shares with the largest remainders, the lower index first among equals. So the
/// shares together receive exactly what remained, provided any of them has a weight.
pub fn split_fit(start: i32, viewport: i32, measures: &Vec<Measure>) -> (vars: Vec<Variable>)
    ensures
        is_split(vars@, Placement::Fit, start as int, viewport as int, measures@),
        total_weight(measures@) > 0 ==> size_sum(
            Placement::Fit,
            viewport as int,
            measures@,
            measures.len() as int,
        ) == int_max(viewport as int, exact_sum(measures@, measures.len() as int)),
{
    let n = measures.len();
    let ghost ms = measures@;
    let ghost vp = viewport as int;

    let mut sum_exact: u128 = 0;
    let mut total: u128 = 0;
    let mut i: usize = 0;
    while i < n
        invariant
            n == measures.len(),
            ms == measures@,
            i <= n,
            sum_exact == exact_sum(ms, i as int),
            total == weight_sum(ms, i as int),
            sum_exact <= i * 0x7fff_ffff,
            total <= i * 0xffff_ffff,
        decreases n - i,
    {
        match measures[i] {
            Measure::Exact(v) => {
                if v > 0 {
                    sum_exact = sum_exact + v as u128;
                }
            },
            Measure::Percent(w) => {
                total = total + w as u128;
            },
            Measure::Fixed(..) => {},
        }
        i = i + 1;
    }
    let remaining: u128 = if viewport > 0 && viewport as u128 > sum_exact {
        viewport as u128 - sum_exact
    } else {
        0
    };
    assert(remaining == fit_remaining(vp, ms));

    let mut floors: Vec<i32> = Vec::new();
    let mut rems: Vec<u128> = Vec::new();
    let mut eligible: Vec<bool> = Vec::new();
    let mut floor_total: u128 = 0;
    let mut i: usize = 0;
    while i < n
        invariant
            n == measures.len(),
            ms == measures@,
            vp == viewport as int,
            i <= n,
            total == total_weight(ms),
            remaining == fit_remaining(vp, ms),
            remaining <= 0x7fff_ffff,
            floors.len() == i,
            rems.len() == i,
            eligible.len() == i,
            floor_total == floor_sum(vp, ms, i as int),
            floor_total <= i * 0x7fff_ffff,
            forall|j: int| 0 <= j < i ==> (#[trigger] floors[j]) == fit_floor(vp, ms, j),
            forall|j: int| 0 <= j < i ==> (#[trigger] rems[j]) == fit_rem(vp, ms, j),
            forall|j: int| 0 <= j < i ==> (#[trigger] eligible[j]) == (ms[j] is Percent),
        decreases n - i,
    {
        match measures[i] {
            Measure::Percent(w) => {
                if total == 0 {
                    floors.push(0);
                    rems.push(0);
                } else {
                    proof {
                        lemma_fit_part(vp, ms, i as int);
                        lemma_weight_sum_grows(ms, i as int + 1, n as int);
                        lemma_weight_sum_grows(ms, i as int, i as int);
                        assert(w <= total);
                        let q = remaining * w;
                        assert(0 <= q <= 0x7fff_ffff * 0xffff_ffff) by (nonlinear_arith)
                            requires
                                q == remaining * w,
                                0 <= remaining <= 0x7fff_ffff,
                                0 <= w <= 0xffff_ffff,
                        ;
                        assert(fit_floor(vp, ms, i as int) <= remaining) by (nonlinear_arith)
                            requires
                                total * fit_floor(vp, ms, i as int) + fit_rem(vp, ms, i as int)
                                    == remaining * w,
                                0 <= fit_rem(vp, ms, i as int),
                                0 <= w <= total,
                                total > 0,
                                remaining >= 0,
                        ;
                    }
                    let quota: u128 = remaining * (w as u128);
                    let floor: u128 = quota / total;
                    floors.push(floor as i32);
                    rems.push(quota % total);
                    floor_total = floor_total + floor;
                }
                eligible.push(true);
            },
            _ => {
                proof {
                    if total > 0 {
                        lemma_fit_part(vp, ms, i as int);
                    }
                }
                floors.push(0);
                rems.push(0);
                eligible.push(false);
            },
        }
        i = i + 1;
    }
    proof {
        lemma_fit_leftover_bounds(vp, ms);
        if total > 0 {
            lemma_fit_accounting(vp, ms, n as int);
        }
        assert(eligible@ =~= shares(ms));
        assert(as_ints(rems@) =~= fit_rems(vp, ms));
    }
    let leftover: usize = if total > 0 {
        (remaining - floor_total) as usize
    } else {
        0
    };
    assert(leftover == fit_leftover(vp, ms));
    let bonus = distribute(&rems, &eligible, leftover);
    proof {
        assert forall|j: int| 0 <= j < n implies bonus[j] == fit_bonus(vp, ms, j) by {}
        lemma_fit_size_sum(vp, ms, bonus@, n as int);
    }

    let mut vars: Vec<Variable> = Vec::new();
    let mut cursor: i32 = start;
    let mut i: usize = 0;
    while i < n
        invariant
            n == measures.len(),
            ms == measures@,
            vp == viewport as int,
            i <= n,
            floors.len() == n,
            bonus.len() == n,
            vars.len() == i,
            remaining == fit_remaining(vp, ms),
            remaining <= 0x7fff_ffff,
            leftover == fit_leftover(vp, ms),
            forall|j: int| 0 <= j < n ==> (#[trigger] floors[j]) == fit_floor(vp, ms, j),
            forall|j: int| 0 <= j < n ==> (#[trigger] bonus[j]) == fit_bonus(vp, ms, j),
            cursor == flow_start(Placement::Fit, start as int, vp, ms, i as int),
            forall|j: int|
                0 <= j < i ==> {
                    &&& (#[trigger] vars[j]).size == flow_size(Placement::Fit, vp, ms, j)
                    &&& vars[j].start == flow_start(Placement::Fit, start as int, vp, ms, j)
                },
        decreases n - i,
    {
        let size = match measures[i] {
            Measure::Exact(v) => if v >= 0 {
                v
            } else {
                0
            },
            Measure::Percent(_) => {
                if bonus[i] {
                    proof {
                        lemma_floor_within_sum(vp, ms, i as int, n as int);
                        crate::apportion::lemma_rank_bounds(
                            fit_rems(vp, ms),
                            shares(ms),
                            i as int,
                            n as int,
                        );
                    }
                    floors[i] + 1
                } else {
                    floors[i]
                }
            },
            Measure::Fixed(..) => 0,
        };
        vars.push(Variable { start: cursor, size });
        cursor = saturate(cursor as i64 + size as i64);
        i = i + 1;
    }
    vars
}

/// Divides the axis among the measures, as the placement asks.
pub fn split_measures(
    placement: Placement,
    start: i32,
    viewport: i32,
    measures: &Vec<Measure>,
) -> (vars: Vec<Variable>)
    ensures
        is_split(vars@, placement, start as int, viewport as int, measures@),
{
    match placement {
        Placement::Overflow => split_overflow(start, viewport, measures),
        Placement::Fit => split_fit(start, viewport, measures),
    }
}

/// The region of child `i` of a parent that occupies `area`.
///
/// A fixed measure is placed at its own offset from the parent's origin, with its own extent. Any
/// other child starts where the children before it end on the primary axis, has its size on that
/// axis from its measure, and spans the parent on the other axis.
pub open spec fn split_rect(
    flow: Flow,
    placement: Placement,
    area: LogicalRect,
    ms: Seq<Measure>,
    i: int,
) -> LogicalRect {
    match ms[i] {
        Measure::Fixed(x, y, width, height) => LogicalRect {
            x: clamp_i32(area.x + x) as i32,
            y: clamp_i32(area.y + y) as i32,
            width,
            height,
        },
        _ => match flow {
            Flow::Horizontal => LogicalRect {
                x: flow_start(placement, area.x as int, area.width as int, ms, i) as i32,
                y: area.y,
                width: flow_size(placement, area.width as int, ms, i) as i32,
                height: area.height,
            },
            Flow::Vertical => LogicalRect {
                x: area.x,
                y: flow_start(placement, area.y as int, area.height as int, ms, i) as i32,
                width: area.width,
                height: flow_size(placement, area.height as int, ms, i) as i32,
            },
        },
    }
}

/// Assigns each measure its region within `area`, in the order of the measures.
pub fn compute_split(
    flow: Flow,
    placement: Placement,
    area: LogicalRect,
    measures: &Vec<Measure>,
) -> (rects: Vec<LogicalRect>)
    ensures
        rects.len() == measures.len(),
        forall|i: int|
            0 <= i < measures.len() ==> (#[trigger] rects[i]) == split_rect(
                flow,
                placement,
                area,
                measures@,
                i,
            ),
{
    let vars = match flow {
        Flow::Horizontal => split_measures(placement, area.x, area.width, measures),
        Flow::Vertical => split_measures(placement, area.y, area.height, measures),
    };
    let n = measures.len();
    let mut rects: Vec<LogicalRect> = Vec::new();
    let mut i: usize = 0;
    while i < n
        invariant
            n == measures.len(),
            i <= n,
            rects.len() == i,
            flow is Horizontal ==> is_split(
                vars@,
                placement,
                area.x as int,
                area.width as int,
                measures@,
            ),
            flow is Vertical ==> is_split(
                vars@,
                placement,
                area.y as int,
                area.height as int,
                measures@,
            ),
            forall|j: int|
                0 <= j < i ==> (#[trigger] rects[j]) == split_rect(
                    flow,
                    placement,
                    area,
                    measures@,
                    j,
                ),
        decreases n - i,
    {
        let v = vars[i];
        let rect = match measures[i] {
            Measure::Fixed(x, y, width, height) => LogicalRect {
                x: saturate(area.x as i64 + x as i64),
                y: saturate(area.y as i64 + y as i64),
                width,
                height,
            },
            _ => match flow {
                Flow::Horizontal => LogicalRect {
                    x: v.start,
                    y: area.y,
                    width: v.size,
                    height: area.height,
                },
                Flow::Vertical => LogicalRect {
                    x: area.x,
                    y: v.start,
                    width: area.width,
                    height: v.size,
                },
            },
        };
        rects.push(rect);
        i = i + 1;
    }
    rects
}

/// Under [`Placement::Overflow`] an exact measure has its size whatever the viewport holds, and
/// so has its position while only exact and fixed measures stand before it: children are not
/// clamped to the parent.
pub proof fn lemma_overflow_ignores_viewport(
    start: int,
    viewport_a: int,
    viewport_b: int,
    ms: Seq<Measure>,
    i: int,
)
    requires
        0 <= i < ms.len(),
        forall|j: int| 0 <= j <= i ==> !((#[trigger] ms[j]) is Percent),
    ensures
        flow_size(Placement::Overflow, viewport_a, ms, i) == exact_size(ms[i]),
        flow_size(Placement::Overflow, viewport_a, ms, i) == flow_size(
            Placement::Overflow,
            viewport_b,
            ms,
            i,
        ),
        flow_start(Placement::Overflow, start, viewport_a, ms, i) == flow_start(
            Placement::Overflow,
            start,
            viewport_b,
            ms,
            i,
        ),
    decreases i,
{
    if i > 0 {
        lemma_overflow_ignores_viewport(start, viewport_a, viewport_b, ms, i - 1);
    }
}

/// Under [`Placement::Fit`], where the exact measures alone take up the viewport, every share
/// has size zero.
pub proof fn lemma_fit_shares_vanish(viewport: int, ms: Seq<Measure>, i: int)
    requires
        0 <= i < ms.len(),
        ms[i] is Percent,
        exact_sum(ms, ms.len() as int) >= viewport,
    ensures
        fit_size(viewport, ms, i) == 0,
{
    crate::apportion::lemma_rank_bounds(fit_rems(viewport, ms), shares(ms), i, ms.len() as int);
    if total_weight(ms) > 0 {
        lemma_fit_part(viewport, ms, i);
        lemma_fit_leftover_bounds(viewport, ms);
        assert(fit_remaining(viewport, ms) * weight(ms[i]) == 0) by (nonlinear_arith)
            requires
                fit_remaining(viewport, ms) == 0,
        ;
        assert(fit_floor(viewport, ms, i) == 0) by (nonlinear_arith)
            requires
                total_weight(ms) * fit_floor(viewport, ms, i) + fit_rem(viewport, ms, i) == 0,
                total_weight(ms) > 0,
                fit_floor(viewport, ms, i) >= 0,
                fit_rem(viewport, ms, i) >= 0,
        ;
    }
}

/// The axis along which a [`Layout`] divides a region.
#[derive(Clone, Copy, Debug, PartialEq, Eq, Structural)]
pub enum Axis {
    Horizontal,
    Vertical,
}

impl Default for Axis {
    fn default() -> (r: Self)
        ensures
            r == Axis::Vertical,
    {
        Axis::Vertical
    }
}

/// Where the `i`-th of `count` equal parts of `extent` begins, counted from zero: the exact
/// place, rounded to the nearest cell.
pub open spec fn even_edge(extent: int, count: int, i: int) -> int {
    round_div(extent * i, count)
}

/// The simplest of layouts: it divides a region evenly among a number of children.
#[derive(Clone, Copy, Debug, PartialEq, Eq, Structural)]
pub struct Layout {
    pub axis: Axis,
}

impl Default for Layout {
    fn default() -> (r: Self)
        ensures
            r.axis == Axis::Vertical,
    {
        Layout { axis: Axis::Vertical }
    }
}

impl Layout {
    /// Part `i` of `count` of `rect`: along the axis it reaches from its edge to the next,
    /// both counted from zero; across the axis it is as `rect` is.
    pub open spec fn part(self, rect: LogicalRect, count: int, i: int) -> LogicalRect {
        match self.axis {
            Axis::Horizontal => LogicalRect {
                x: even_edge(rect.width as int, count, i) as i32,
                y: rect.y,
                width: (even_edge(rect.width as int, count, i + 1) - even_edge(
                    rect.width as int,
                    count,
                    i,
                )) as i32,
                height: rect.height,
            },
            Axis::Vertical => LogicalRect {
                x: rect.x,
                y: even_edge(rect.height as int, count, i) as i32,
                width: rect.width,
                height: (even_edge(rect.height as int, count, i + 1) - even_edge(
                    rect.height as int,
                    count,
                    i,
                )) as i32,
            },
        }
    }

    /// Divides `rect` evenly among `count` children.
    pub fn split(self, rect: LogicalRect, count: u32) -> (parts: Vec<LogicalRect>)
        ensures
            parts.len() == count,
            forall|i: int| 0 <= i < count ==> (#[trigger] parts[i]) == self.part(rect, count as int, i),
    {
        let mut parts: Vec<LogicalRect> = Vec::new();
        let extent = match self.axis {
            Axis::Horizontal => rect.width,
            Axis::Vertical => rect.height,
        };
        let mut i: u32 = 0;
        while i < count
            invariant
                i <= count,
                parts.len() == i,
                extent == match self.axis {
                    Axis::Horizontal => rect.width,
                    Axis::Vertical => rect.height,
                },
                forall|j: int| 0 <= j < i ==> (#[trigger] parts[j]) == self.part(
                    rect,
                    count as int,
                    j,
                ),
            decreases count - i,
        {
            let from = edge(extent, count, i);
            let to = edge(extent, count, i + 1);
            proof {
                lemma_edges_grow(extent as int, count as int, i as int);
            }
            let part = match self.axis {
                Axis::Horizontal => LogicalRect {
                    x: from,
                    y: rect.y,
                    width: (to as i64 - from as i64) as i32,
                    height: rect.height,
                },
                Axis::Vertical => LogicalRect {
                    x: rect.x,
                    y: from,
                    width: rect.width,
                    height: (to as i64 - from as i64) as i32,
                },
            };
            parts.push(part);
            i = i + 1;
        }
        parts
    }
}

/// An edge lies between zero and the extent, and the edges follow each other in the direction
/// of the extent: the distance of two neighbours is within the extent.
pub proof fn lemma_edges_grow(extent: int, count: int, i: int)
    requires
        0 <= i < count,
    ensures
        extent >= 0 ==> 0 <= even_edge(extent, count, i) <= even_edge(extent, count, i + 1)
            <= extent,
        extent < 0 ==> extent <= even_edge(extent, count, i + 1) <= even_edge(extent, count, i)
            <= 0,
{
    let m = if extent >= 0 {
        extent
    } else {
        -extent
    };
    assert(0 <= m * i <= m * (i + 1) <= m * count) by (nonlinear_arith)
        requires
            m >= 0,
            0 <= i < count,
    ;
    let a = 2 * (m * i) + count;
    let b = 2 * (m * (i + 1)) + count;
    let top = 2 * (m * count) + count;
    vstd::arithmetic::div_mod::lemma_div_is_ordered(a, b, 2 * count);
    vstd::arithmetic::div_mod::lemma_div_is_ordered(b, top, 2 * count);
    vstd::arithmetic::div_mod::lemma_div_pos_is_pos(a, 2 * count);
    assert(top == (2 * count) * m + count) by (nonlinear_arith)
        requires
            top == 2 * (m * count) + count,
    ;
    vstd::arithmetic::div_mod::lemma_fundamental_div_mod_converse(top, 2 * count, m, count);
    if m * i == 0 {
        vstd::arithmetic::div_mod::lemma_basic_div(a, 2 * count);
    }
    if m * (i + 1) == 0 {
        vstd::arithmetic::div_mod::lemma_basic_div(b, 2 * count);
    }
    assert(extent * i == if extent >= 0 {
        m * i
    } else {
        -(m * i)
    }) by (nonlinear_arith)
        requires
            m == if extent >= 0 {
                extent
            } else {
                -extent
            },
    ;
    assert(extent * (i + 1) == if extent >= 0 {
        m * (i + 1)
    } else {
        -(m * (i + 1))
    }) by (nonlinear_arith)
        requires
            m == if extent >= 0 {
                extent
            } else {
                -extent
            },
    ;
    if extent < 0 {
        assert(even_edge(extent, count, i) == -(a / (2 * count)));
        assert(even_edge(extent, count, i + 1) == -(b / (2 * count)));
    }
}

/// Computes where part `i` of `count` begins.
fn edge(extent: i32, count: u32, i: u32) -> (e: i32)
    requires
        i <= count,
        count > 0,
    ensures
        e == even_edge(extent as int, count as int, i as int),
{
    let m: u128 = if extent >= 0 {
        extent as u128
    } else {
        (-(extent as i64)) as u128
    };
    assert(m * i <= 0x8000_0000 * 0xffff_ffff) by (nonlinear_arith)
        requires
            0 <= m <= 0x8000_0000,
            0 <= i <= 0xffff_ffff,
    ;
    let scaled: u128 = m * (i as u128);
    let rounded: u128 = (2 * scaled + count as u128) / (2 * count as u128);
    proof {
        assert(extent * i == if extent >= 0 {
            scaled as int
        } else {
            -(scaled as int)
        }) by (nonlinear_arith)
            requires
                scaled == m * i,
                m == if extent >= 0 {
                    extent as int
                } else {
                    -(extent as int)
                },
        ;
        assert(extent < 0 ==> extent * i <= 0) by (nonlinear_arith)
            requires
                i >= 0,
        ;
        if i < count {
            lemma_edges_grow(extent as int, count as int, i as int);
        } else {
            lemma_edges_grow(extent as int, count as int, i as int - 1);
        }
        if extent < 0 && scaled == 0 {
            assert(extent * i == 0);
        }
    }
    if extent >= 0 {
        rounded as i32
    } else {
        (-(rounded as i64)) as i32
    }
}

} // verus!
