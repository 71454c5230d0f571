//! Which pixels of a scanline are worth a ray.
//!
//! The silhouette of a sphere is a circle, and a circle crosses a scanline in
//! at most one run of pixels. The runs of different spheres may overlap; they
//! are merged, so that a pixel two spheres share is traced once.

use crate::binary32::{one, Binary32};
use crate::screen::SCREEN_WIDTH;
use vstd::arithmetic::div_mod::{
    lemma_div_by_multiple, lemma_div_is_ordered, lemma_fundamental_div_mod,
};
use vstd::arithmetic::mul::lemma_mul_inequality;
use vstd::arithmetic::power2::lemma_pow2_pos;
use vstd::prelude::*;

verus! {

/// A run of pixel columns, half-open on the far edge.
#[derive(Clone, Copy, Debug, PartialEq, Eq, Structural)]
pub struct Span {
    pub lo: usize,
    pub hi: usize,
}

/// Where a circle crosses a scanline: the columns of the two crossings, and
/// the squared half-width between them, which is not positive when the circle
/// does not reach the line.
#[derive(Clone, Copy, Debug, PartialEq, Eq, Structural)]
pub struct Crossing {
    pub inside: Binary32,
    pub lo: Binary32,
    pub hi: Binary32,
}

impl Span {
    /// Whether a column lies in the run.
    pub open spec fn has(self, px: int) -> bool {
        self.lo <= px < self.hi
    }
}

/// Whether a column coordinate lies at or beyond the right edge of the screen.
pub open spec fn past_edge(v: Binary32) -> bool {
    !v.nan() && v.value() >= SCREEN_WIDTH * one()
}

/// The run of on-screen columns that a crossing covers, if there is one.
pub open spec fn span_of(c: Crossing) -> Option<Span> {
    let zero = Binary32 { bits: 0 };
    if c.inside.at_most(zero) || c.hi.below(zero) || past_edge(c.lo) {
        None
    } else {
        let lo = if c.lo.below(zero) {
            0
        } else {
            c.lo.whole()
        };
        let hi = if past_edge(c.hi) {
            SCREEN_WIDTH as int
        } else {
            c.hi.whole() + 1
        };
        if hi > lo {
            Some(Span { lo: lo as usize, hi: hi as usize })
        } else {
            None
        }
    }
}

/// Whole parts tell on which side of the edge a coordinate lies.
proof fn lemma_past_edge(v: Binary32)
    ensures
        past_edge(v) <==> v.whole() >= SCREEN_WIDTH,
{
    lemma_pow2_pos(149);
    lemma_column(v.value(), SCREEN_WIDTH as int);
    assert(SCREEN_WIDTH * one() >= 0) by (nonlinear_arith)
        requires
            one() > 0,
            SCREEN_WIDTH >= 0,
    ;
}

/// The on-screen columns of one crossing.
pub fn row_span(c: Crossing) -> (r: Option<Span>)
    ensures
        r == span_of(c),
{
    let zero: Binary32 = Binary32 { bits: 0 };
    proof {
        lemma_past_edge(c.lo);
        lemma_past_edge(c.hi);
    }
    if c.inside.le(zero) {
        return None;
    }
    let first: usize = c.lo.trunc_u32() as usize;
    let last: usize = c.hi.trunc_u32() as usize;
    if c.hi.lt(zero) || first >= SCREEN_WIDTH {
        return None;
    }
    let lo: usize = if c.lo.lt(zero) {
        0
    } else {
        first
    };
    let hi: usize = if last >= SCREEN_WIDTH {
        SCREEN_WIDTH
    } else {
        last + 1
    };
    if hi > lo {
        Some(Span { lo, hi })
    } else {
        None
    }
}

/// A run holds exactly the on-screen columns that the stretch between the two
/// crossings touches: column `px` reaches from `px` up to `px + 1`.
pub proof fn law_span_touches_columns(c: Crossing, px: int)
    requires
        !c.inside.nan() && !c.lo.nan() && !c.hi.nan(),
        c.inside.value() > 0,
        0 <= px,
    ensures
        (span_of(c) matches Some(s) && s.has(px)) <==> {
            &&& px < SCREEN_WIDTH
            &&& c.lo.value() < (px + 1) * one()
            &&& px * one() <= c.hi.value()
        },
{
    let zero = Binary32 { bits: 0 };
    lemma_pow2_pos(149);
    assert(zero.value() == 0);
    lemma_past_edge(c.lo);
    lemma_past_edge(c.hi);
    lemma_column(c.lo.value(), px + 1);
    lemma_column(c.hi.value(), px);
    lemma_column(c.hi.value(), 0);
    lemma_column(c.lo.value(), 0);
    assert(px * one() >= 0) by (nonlinear_arith)
        requires
            px >= 0,
            one() > 0,
    ;
    assert((px + 1) * one() > 0) by (nonlinear_arith)
        requires
            px >= 0,
            one() > 0,
    ;
}

/// Comparing with a whole number of units is comparing the quotient.
pub proof fn lemma_column(v: int, k: int)
    requires
        0 <= k,
    ensures
        v / one() >= k <==> v >= k * one(),
{
    lemma_pow2_pos(149);
    lemma_fundamental_div_mod(v, one());
    lemma_div_by_multiple(k, one());
    if v >= k * one() {
        lemma_div_is_ordered(k * one(), v, one());
    } else if v / one() >= k {
        lemma_mul_inequality(k, v / one(), one());
        assert(one() * (v / one()) == (v / one()) * one()) by (nonlinear_arith);
    }
}

/// Whether any of the runs holds a column.
pub open spec fn covered(spans: Seq<Span>, px: int) -> bool {
    exists|i: int| 0 <= i < spans.len() && #[trigger] spans[i].has(px)
}

/// No run is empty.
pub open spec fn all_nonempty(spans: Seq<Span>) -> bool {
    forall|i: int| 0 <= i < spans.len() ==> (#[trigger] spans[i]).lo < spans[i].hi
}

/// The runs stand in order with at least one free column between any two.
pub open spec fn separated(spans: Seq<Span>) -> bool {
    forall|i: int, j: int|
        0 <= i < j < spans.len() ==> (#[trigger] spans[i]).hi < (#[trigger] spans[j]).lo
}

/// The runs of those crossings that have one, in order.
pub open spec fn spans_of(crossings: Seq<Crossing>) -> Seq<Span>
    decreases crossings.len(),
{
    if crossings.len() == 0 {
        seq![]
    } else {
        match span_of(crossings.last()) {
            Some(s) => spans_of(crossings.drop_last()).push(s),
            None => spans_of(crossings.drop_last()),
        }
    }
}

/// Up to four runs: the first `count` entries of `spans`.
#[derive(Clone, Copy, Debug)]
pub struct Spans {
    pub spans: [Span; 4],
    pub count: usize,
}

impl Spans {
    /// A valid count.
    pub open spec fn wf(self) -> bool {
        self.count <= 4
    }

    /// The runs.
    pub open spec fn view(self) -> Seq<Span> {
        self.spans@.take(self.count as int)
    }
}

/// Every run that comes out of a crossing lies on the screen and holds at
/// least one column.
pub proof fn lemma_spans_of(crossings: Seq<Crossing>)
    ensures
        spans_of(crossings).len() <= crossings.len(),
        all_nonempty(spans_of(crossings)),
        forall|i: int|
            0 <= i < spans_of(crossings).len() ==> (#[trigger] spans_of(crossings)[i]).hi
                <= SCREEN_WIDTH,
    decreases crossings.len(),
{
    if crossings.len() > 0 {
        lemma_spans_of(crossings.drop_last());
        lemma_past_edge(crossings.last().lo);
        lemma_past_edge(crossings.last().hi);
    }
}

/// The runs of one scanline, one for each crossing that has any.
pub fn row_spans(crossings: &[Crossing; 4]) -> (r: Spans)
    ensures
        r.wf(),
        r@ == spans_of(crossings@),
{
    let mut spans: [Span; 4] = [Span { lo: 0, hi: 0 };4];
    let mut n: usize = 0;
    let mut k: usize = 0;
    assert(spans@.take(0) =~= spans_of(crossings@.take(0)));
    while k < 4
        invariant
            n <= k <= 4,
            spans@.take(n as int) == spans_of(crossings@.take(k as int)),
        decreases 4 - k,
    {
        proof {
            assert(crossings@.take(k + 1).drop_last() =~= crossings@.take(k as int));
        }
        if let Some(s) = row_span(crossings[k]) {
            let ghost before = spans@;
            spans[n] = s;
            n += 1;
            assert(spans@.take(n as int) =~= before.take(n - 1).push(s));
        }
        k += 1;
    }
    assert(crossings@.take(4) =~= crossings@);
    Spans { spans, count: n }
}

/// Exchanging two runs changes nothing about which columns are held.
proof fn lemma_swap_covers(s: Seq<Span>, i: int, j: int, px: int)
    requires
        0 <= i < s.len(),
        0 <= j < s.len(),
    ensures
        covered(s.update(i, s[j]).update(j, s[i]), px) == covered(s, px),
{
    let t = s.update(i, s[j]).update(j, s[i]);
    assert(t[i] == s[j] && t[j] == s[i]);
    if covered(s, px) {
        let k = choose|k: int| 0 <= k < s.len() && #[trigger] s[k].has(px);
        if k == i {
            assert(t[j].has(px));
        } else if k == j {
            assert(t[i].has(px));
        } else {
            assert(t[k].has(px));
        }
    }
    if covered(t, px) {
        let k = choose|k: int| 0 <= k < t.len() && #[trigger] t[k].has(px);
        if k == i {
            assert(s[j].has(px));
        } else if k == j {
            assert(s[i].has(px));
        } else {
            assert(s[k].has(px));
        }
    }
}

/// Puts the runs in order of their first column.
fn sort_spans(given: Spans) -> (r: Spans)
    requires
        given.wf(),
        all_nonempty(given@),
    ensures
        r.wf(),
        r.count == given.count,
        all_nonempty(r@),
        forall|i: int, j: int| 0 <= i <= j < r@.len() ==> r@[i].lo <= r@[j].lo,
        forall|px: int| covered(r@, px) == covered(given@, px),
{
    let n: usize = given.count;
    let mut spans: [Span; 4] = given.spans;
    let mut i: usize = 1;
    while i < n
        invariant
            n == given.count <= 4,
            1 <= i,
            i <= n || n == 0,
            all_nonempty(spans@.take(n as int)),
            forall|a: int, b: int| 0 <= a <= b < i && b < n ==> spans@[a].lo <= spans@[b].lo,
            forall|px: int| covered(spans@.take(n as int), px) == covered(given@, px),
        decreases n - i,
    {
        let mut j: usize = i;
        while j > 0 && spans[j - 1].lo > spans[j].lo
            invariant
                n == given.count <= 4,
                j <= i < n,
                all_nonempty(spans@.take(n as int)),
                forall|a: int, b: int|
                    0 <= a <= b <= i && a != j && b != j ==> spans@[a].lo <= spans@[b].lo,
                forall|b: int| j <= b <= i ==> spans@[j as int].lo <= spans@[b].lo,
                forall|px: int| covered(spans@.take(n as int), px) == covered(given@, px),
            decreases j,
        {
            let ghost before = spans@;
            let upper: Span = spans[j];
            let lower: Span = spans[j - 1];
            spans[j] = lower;
            spans[j - 1] = upper;
            proof {
                assert(spans@.take(n as int) =~= before.take(n as int).update(
                    j as int,
                    before.take(n as int)[j - 1],
                ).update(j - 1, before.take(n as int)[j as int]));
                assert forall|px: int|
                    covered(spans@.take(n as int), px) == covered(given@, px) by {
                    lemma_swap_covers(before.take(n as int), j as int, j - 1, px);
                }
                assert forall|k: int| 0 <= k < n implies (#[trigger] spans@.take(n as int)[k]).lo
                    < spans@.take(n as int)[k].hi by {
                    assert(before.take(n as int)[j as int].lo < before.take(n as int)[j as int].hi);
                    assert(before.take(n as int)[j - 1].lo < before.take(n as int)[j - 1].hi);
                    assert(before.take(n as int)[k].lo < before.take(n as int)[k].hi);
                }
            }
            j -= 1;
        }
        i += 1;
    }
    Spans { spans, count: n }
}

/// Merges runs that overlap or touch.
///
/// What comes out holds the same columns, in order, and no two runs touch. Only
/// one list of runs is like that for a given set of columns.
pub fn merge_spans(given: Spans) -> (r: Spans)
    requires
        given.wf(),
        all_nonempty(given@),
    ensures
        r.wf(),
        r.count <= given.count,
        all_nonempty(r@),
        separated(r@),
        forall|px: int| covered(r@, px) == covered(given@, px),
{
    let sorted: Spans = sort_spans(given);
    let n: usize = sorted.count;
    let mut out: [Span; 4] = [Span { lo: 0, hi: 0 };4];
    if n == 0 {
        assert(out@.take(0) =~= given@);
        return Spans { spans: out, count: 0 };
    }
    let mut m: usize = 0;
    let mut lo: usize = sorted.spans[0].lo;
    let mut hi: usize = sorted.spans[0].hi;
    let mut k: usize = 1;
    proof {
        assert(sorted@[0].lo < sorted@[0].hi);
        assert forall|px: int| covered(sorted@.take(1), px) == (lo <= px < hi) by {
            assert(sorted@.take(1)[0] == sorted@[0]);
            if lo <= px < hi {
                assert(sorted@.take(1)[0].has(px));
            }
        }
    }
    while k < n
        invariant
            n == sorted.count <= 4,
            m < k <= n,
            sorted.wf(),
            all_nonempty(sorted@),
            forall|i: int, j: int| 0 <= i <= j < sorted@.len() ==> sorted@[i].lo <= sorted@[j].lo,
            lo < hi,
            sorted@[0].lo <= lo <= sorted@[k - 1].lo,
            all_nonempty(out@.take(m as int)),
            separated(out@.take(m as int)),
            forall|i: int| 0 <= i < m ==> (#[trigger] out@[i]).hi < lo,
            forall|px: int|
                #[trigger] covered(sorted@.take(k as int), px) <==> covered(out@.take(m as int), px)
                    || lo <= px < hi,
        decreases n - k,
    {
        let next: Span = sorted.spans[k];
        let ghost before = out@;
        let ghost (lo0, hi0, m0) = (lo, hi, m);
        proof {
            assert(sorted@[k as int] == next);
            assert forall|px: int|
                #[trigger] covered(sorted@.take(k + 1), px) <==> covered(
                    sorted@.take(k as int),
                    px,
                ) || next.has(px) by {
                lemma_covered_push(sorted@.take(k as int), next, px);
                assert(sorted@.take(k + 1) =~= sorted@.take(k as int).push(next));
            }
        }
        if next.lo <= hi {
            if next.hi > hi {
                hi = next.hi;
            }
        } else {
            out[m] = Span { lo, hi };
            m += 1;
            lo = next.lo;
            hi = next.hi;
            proof {
                let done = Span { lo: lo0, hi: hi0 };
                assert(out@.take(m as int) =~= before.take(m0 as int).push(done));
                assert forall|px: int|
                    #[trigger] covered(out@.take(m as int), px) <==> covered(
                        before.take(m0 as int),
                        px,
                    ) || done.has(px) by {
                    lemma_covered_push(before.take(m0 as int), done, px);
                }
            }
        }
        k += 1;
    }
    let ghost before = out@;
    out[m] = Span { lo, hi };
    proof {
        let done = Span { lo, hi };
        assert(out@.take(m + 1) =~= before.take(m as int).push(done));
        assert(sorted@.take(n as int) =~= sorted@);
        assert forall|px: int| covered(out@.take(m + 1), px) == covered(given@, px) by {
            lemma_covered_push(before.take(m as int), done, px);
            assert(covered(sorted@.take(n as int), px) == covered(sorted@, px));
        }
    }
    Spans { spans: out, count: m + 1 }
}

/// One more run adds its own columns and no others.
proof fn lemma_covered_push(s: Seq<Span>, x: Span, px: int)
    ensures
        covered(s.push(x), px) <==> covered(s, px) || x.has(px),
{
    if covered(s, px) {
        let k = choose|k: int| 0 <= k < s.len() && #[trigger] s[k].has(px);
        assert(s.push(x)[k].has(px));
    }
    if x.has(px) {
        assert(s.push(x)[s.len() as int].has(px));
    }
    if covered(s.push(x), px) {
        let k = choose|k: int| 0 <= k < s.push(x).len() && #[trigger] s.push(x)[k].has(px);
        if k < s.len() {
            assert(s[k].has(px));
        }
    }
}

/// Merged runs are determined by the columns they hold: two lists of runs in
/// order, none empty and no two touching, are the same if they hold the same
/// columns.
pub proof fn law_merged_is_one(a: Seq<Span>, b: Seq<Span>)
    requires
        all_nonempty(a) && separated(a),
        all_nonempty(b) && separated(b),
        forall|px: int| covered(a, px) == covered(b, px),
    ensures
        a == b,
    decreases a.len(),
{
    if a.len() == 0 || b.len() == 0 {
        if a.len() > 0 {
            lemma_last_column(a, b);
        }
        if b.len() > 0 {
            lemma_last_column(b, a);
        }
        assert(a =~= b);
    } else {
        lemma_last_column(a, b);
        lemma_last_column(b, a);
        assert(a.last() == b.last());
        assert forall|px: int| covered(a.drop_last(), px) == covered(b.drop_last(), px) by {
            lemma_covered_before(a, px);
            lemma_covered_before(b, px);
        }
        lemma_drop_last(a);
        lemma_drop_last(b);
        law_merged_is_one(a.drop_last(), b.drop_last());
        assert(a =~= a.drop_last().push(a.last()));
        assert(b =~= b.drop_last().push(b.last()));
    }
}

/// If a list holds what another one does, its last run reaches as far, and
/// begins no later if it reaches no farther.
proof fn lemma_last_column(a: Seq<Span>, b: Seq<Span>)
    requires
        a.len() > 0,
        all_nonempty(a) && separated(a),
        all_nonempty(b) && separated(b),
        forall|px: int| covered(a, px) == covered(b, px),
    ensures
        b.len() > 0,
        b.last().hi >= a.last().hi,
        b.last().hi == a.last().hi ==> b.last().lo <= a.last().lo,
{
    let end: int = a.last().hi - 1;
    let first: int = a.last().lo as int;
    assert(a[a.len() - 1].has(end));
    assert(a[a.len() - 1].has(first));
    assert(covered(a, end) && covered(b, end));
    let j = choose|j: int| 0 <= j < b.len() && #[trigger] b[j].has(end);
    if j < b.len() - 1 {
        assert(b[j].hi < b[b.len() - 1].lo);
        assert(b[b.len() - 1].lo < b[b.len() - 1].hi);
    } else if b.last().hi == a.last().hi && b.last().lo > first {
        let gap: int = b.last().lo - 1;
        assert(a[a.len() - 1].has(gap));
        assert(covered(a, gap) && covered(b, gap));
        let k = choose|k: int| 0 <= k < b.len() && #[trigger] b[k].has(gap);
        assert(b[k].hi < b[b.len() - 1].lo);
    }
}

/// All but the last of the runs hold the columns before the last one.
proof fn lemma_covered_before(a: Seq<Span>, px: int)
    requires
        a.len() > 0,
        separated(a),
    ensures
        covered(a.drop_last(), px) <==> covered(a, px) && px < a.last().lo,
{
    if covered(a.drop_last(), px) {
        let k = choose|k: int| 0 <= k < a.len() - 1 && #[trigger] a.drop_last()[k].has(px);
        assert(a[k].has(px));
        assert(a[k].hi < a[a.len() - 1].lo);
    }
    if covered(a, px) && px < a.last().lo {
        let k = choose|k: int| 0 <= k < a.len() && #[trigger] a[k].has(px);
        assert(a.drop_last()[k].has(px));
    }
}

/// Dropping the last run leaves the rest in order.
proof fn lemma_drop_last(a: Seq<Span>)
    requires
        a.len() > 0,
        all_nonempty(a) && separated(a),
    ensures
        all_nonempty(a.drop_last()) && separated(a.drop_last()),
{
    assert forall|i: int| 0 <= i < a.drop_last().len() implies (#[trigger] a.drop_last()[i]).lo
        < a.drop_last()[i].hi by {
        assert(a[i].lo < a[i].hi);
    }
    assert forall|i: int, j: int| 0 <= i < j < a.drop_last().len() implies (
    #[trigger] a.drop_last()[i]).hi < (#[trigger] a.drop_last()[j]).lo by {
        assert(a[i].hi < a[j].lo);
    }
}

/// Whether a crossing that counts touches a column of the screen, from the numbers
/// alone: the column reaches from `px` up to `px + 1`, and the stretch between the
/// two crossings has a part in it. What is no number counts as zero.
pub open spec fn touches(c: Crossing, px: int) -> bool {
    let from = if c.lo.nan() {
        0
    } else {
        c.lo.value()
    };
    let to = if c.hi.nan() {
        0
    } else {
        c.hi.value()
    };
    &&& c.inside.nan() || c.inside.value() > 0
    &&& 0 <= px < 480
    &&& from < (px + 1) * one()
    &&& px * one() <= to
}

/// The columns of a crossing's run are those that it touches, for every crossing
/// there is; without any there is no run.
pub proof fn law_run_is_what_is_touched(c: Crossing, px: int)
    ensures
        (span_of(c) matches Some(s) && s.lo <= px < s.hi) <==> touches(c, px),
        span_of(c) matches Some(s) ==> s.lo < s.hi <= 480,
{
    let zero = Binary32 { bits: 0 };
    lemma_pow2_pos(149);
    assert(zero.value() == 0);
    lemma_past_edge(c.lo);
    lemma_past_edge(c.hi);
    lemma_column(c.hi.value(), 0);
    lemma_column(c.lo.value(), 0);
    lemma_column(0, 0);
    lemma_column(0, 1);
    assert(1 * one() == one()) by (nonlinear_arith);
    if 0 <= px {
        lemma_column(c.lo.value(), px + 1);
        lemma_column(c.hi.value(), px);
        assert(px * one() >= 0) by (nonlinear_arith)
            requires
                px >= 0,
                one() > 0,
        ;
        assert((px + 1) * one() > 0) by (nonlinear_arith)
            requires
                px >= 0,
                one() > 0,
        ;
        if px >= 1 {
            assert(px * one() > 0) by (nonlinear_arith)
                requires
                    px >= 1,
                    one() > 0,
            ;
        }
    }
}

/// The columns that the runs of a scanline hold are those that any of its
/// crossings touches.
pub proof fn law_runs_hold_what_is_touched(crossings: Seq<Crossing>, px: int)
    ensures
        covered(spans_of(crossings), px) <==> exists|i: int|
            0 <= i < crossings.len() && #[trigger] touches(crossings[i], px),
    decreases crossings.len(),
{
    if crossings.len() > 0 {
        let (fewer, last) = (crossings.drop_last(), crossings.last());
        law_runs_hold_what_is_touched(fewer, px);
        law_run_is_what_is_touched(last, px);
        if let Some(s) = span_of(last) {
            lemma_covered_push(spans_of(fewer), s, px);
        }
        if covered(spans_of(fewer), px) {
            let i = choose|i: int| 0 <= i < fewer.len() && #[trigger] touches(fewer[i], px);
            assert(touches(crossings[i], px));
        }
        if touches(last, px) {
            assert(touches(crossings[crossings.len() - 1], px));
        }
        if exists|i: int| 0 <= i < crossings.len() && #[trigger] touches(crossings[i], px) {
            let i = choose|i: int|
                0 <= i < crossings.len() && #[trigger] touches(crossings[i], px);
            if i < fewer.len() {
                assert(touches(fewer[i], px));
            }
        }
    }
}

/// There is one run for each crossing that touches any column, in order: the
/// runs of two scanlines one after the other are those of the two.
pub proof fn law_runs_come_in_order(a: Seq<Crossing>, b: Seq<Crossing>)
    ensures
        spans_of(a + b) == spans_of(a) + spans_of(b),
        a.len() == 1 ==> spans_of(a) == match span_of(a[0]) {
            Some(s) => seq![s],
            None => seq![],
        },
    decreases b.len(),
{
    if b.len() == 0 {
        assert(a + b =~= a);
        assert(spans_of(a) + spans_of(b) =~= spans_of(a));
    } else {
        law_runs_come_in_order(a, b.drop_last());
        assert((a + b).drop_last() =~= a + b.drop_last());
        assert((a + b).last() == b.last());
        if let Some(s) = span_of(b.last()) {
            assert(spans_of(a) + spans_of(b) =~= (spans_of(a) + spans_of(b.drop_last())).push(s));
        }
    }
    if a.len() == 1 {
        assert(a.drop_last() =~= seq![]);
        assert(spans_of(a.drop_last()) =~= seq![]);
        if let Some(s) = span_of(a[0]) {
            assert(spans_of(a) =~= seq![s]);
        }
    }
}

/// Merged runs, read off their ends alone: each holds a column, and between one
/// and the next at least one column is free. A column is held if it lies between
/// the ends of any of them, of which there are as many as are counted.
pub proof fn law_merged_runs_by_their_ends(r: Spans, px: int)
    requires
        r.wf(),
        all_nonempty(r@),
        separated(r@),
    ensures
        r.count <= 4,
        r@.len() == r.count,
        forall|i: int| 0 <= i < r.count ==> (#[trigger] r.spans@[i]).lo < r.spans@[i].hi,
        forall|i: int, j: int|
            0 <= i < j < r.count ==> (#[trigger] r.spans@[i]).hi < (#[trigger] r.spans@[j]).lo,
        covered(r@, px) <==> exists|i: int|
            0 <= i < r.count && (#[trigger] r.spans@[i]).lo <= px < r.spans@[i].hi,
{
    assert forall|i: int| 0 <= i < r.count implies (#[trigger] r.spans@[i]).lo < r.spans@[i].hi by {
        assert(r@[i].lo < r@[i].hi);
    }
    assert forall|i: int, j: int| 0 <= i < j < r.count implies (#[trigger] r.spans@[i]).hi < (
    #[trigger] r.spans@[j]).lo by {
        assert(r@[i].hi < r@[j].lo);
    }
    if covered(r@, px) {
        let i = choose|i: int| 0 <= i < r@.len() && #[trigger] r@[i].has(px);
        assert(r.spans@[i].lo <= px);
    }
    if exists|i: int| 0 <= i < r.count && (#[trigger] r.spans@[i]).lo <= px < r.spans@[i].hi {
        let i = choose|i: int|
            0 <= i < r.count && (#[trigger] r.spans@[i]).lo <= px < r.spans@[i].hi;
        assert(r@[i].has(px));
    }
}

} // verus!
