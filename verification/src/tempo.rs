//! The tempo map: the tempo changes of a chart, each with the time at which it
//! starts, and the lookup from a position of the chart to a time.
//!
//! Positions are resolved to ticks, of which a measure has
//! [`TICKS_PER_MEASURE`]; a tick lasts one microsecond at a tempo of one
//! thousandth of a beat per minute. Times are whole microseconds, rounded down
//! once per tempo segment.

use crate::fraction::Fraction;
use crate::notedata::BeatPair;
use vstd::arithmetic::div_mod::*;
use vstd::arithmetic::mul::*;
use vstd::prelude::*;

verus! {

/// Ticks in a measure: 240 000 ms per measure at one beat per minute, in
/// microseconds, for a tempo given in thousandths.
pub const TICKS_PER_MEASURE: i64 = 240_000_000_000;

/// Why a chart could not be turned into a timeline.
#[derive(Debug, Copy, Clone, PartialEq, Eq, Structural)]
pub enum TimingError {
    /// The playback rate is zero or negative.
    InvalidRate,
    /// The tempo list or the chart breaks a rule of its format.
    MalformedChart,
    /// A time does not fit in 64 bits.
    TimeOutOfRange,
}

/// One span of the chart that is played at one tempo.
#[derive(Debug, Copy, Clone, PartialEq, Eq)]
pub struct TempoSegment {
    /// The measure in which the segment begins.
    pub measure: i32,
    /// Where in that measure it begins.
    pub fraction: Fraction,
    /// The tempo in thousandths of a beat per minute.
    pub bpm: i64,
    /// The time at which the segment begins, in microseconds.
    pub start: i64,
}

/// The fraction lies in the half-open interval from zero to one.
pub open spec fn is_proper(f: Fraction) -> bool {
    0 <= f.numer() < f.denom()
}

/// The ticks from the start of a measure to a fraction of it, rounded down.
pub open spec fn fraction_ticks(f: Fraction) -> int {
    (TICKS_PER_MEASURE as int * f.numer()) / f.denom()
}

/// The ticks from measure zero to a position.
pub open spec fn position_ticks(measure: int, f: Fraction) -> int {
    TICKS_PER_MEASURE as int * measure + fraction_ticks(f)
}

/// The first position is not after the second: measures are compared first,
/// then the fractions, exactly.
pub open spec fn position_le(m1: int, f1: Fraction, m2: int, f2: Fraction) -> bool {
    m1 < m2 || (m1 == m2 && f1.numer() * f2.denom() <= f2.numer() * f1.denom())
}

/// The first position is before the second.
pub open spec fn position_lt(m1: int, f1: Fraction, m2: int, f2: Fraction) -> bool {
    m1 < m2 || (m1 == m2 && f1.numer() * f2.denom() < f2.numer() * f1.denom())
}

/// A tempo list from which a tempo map can be built: it is not empty, every
/// tempo is positive, every fraction is proper, and the positions strictly
/// increase.
pub open spec fn bpm_list_valid(bpms: Seq<BeatPair<i64>>) -> bool {
    &&& bpms.len() > 0
    &&& forall|k: int| 0 <= k < bpms.len() ==> bpm_valid(#[trigger] bpms[k])
    &&& forall|k: int| 0 < k < bpms.len() ==> #[trigger] bpm_follows(bpms[k - 1], bpms[k])
}

/// The tempo is positive and the fraction of its position is proper.
pub open spec fn bpm_valid(pair: BeatPair<i64>) -> bool {
    pair.value > 0 && is_proper(pair.sub_beat) && pair.sub_beat.wf()
}

/// The second tempo change stands after the first.
pub open spec fn bpm_follows(a: BeatPair<i64>, b: BeatPair<i64>) -> bool {
    position_lt(a.beat as int, a.sub_beat, b.beat as int, b.sub_beat)
}

/// The time in microseconds at which the tempo change `k` takes effect: the
/// first at `offset`, each later one after the ticks of the segment before it,
/// divided by that segment's tempo and rounded down.
pub open spec fn segment_start(bpms: Seq<BeatPair<i64>>, offset: int, k: int) -> int
    decreases k,
{
    if k <= 0 {
        offset
    } else {
        segment_start(bpms, offset, k - 1) + (position_ticks(bpms[k].beat as int, bpms[k].sub_beat)
            - position_ticks(bpms[k - 1].beat as int, bpms[k - 1].sub_beat)) / (bpms[k
            - 1].value as int)
    }
}

/// Every tempo change of the list starts at a time that fits in 64 bits.
pub open spec fn starts_fit(bpms: Seq<BeatPair<i64>>, offset: int) -> bool {
    forall|k: int|
        0 <= k < bpms.len() ==> i64::MIN <= #[trigger] segment_start(bpms, offset, k) <= i64::MAX
}

/// The segments of a tempo map: each begins where the one before it ends.
pub open spec fn segments_wf(segs: Seq<TempoSegment>) -> bool {
    &&& segs.len() > 0
    &&& forall|k: int| 0 <= k < segs.len() ==> segment_valid(#[trigger] segs[k])
    &&& forall|k: int| 0 < k < segs.len() ==> #[trigger] segment_follows(segs[k - 1], segs[k])
}

/// The tempo is positive and the fraction of the position is proper.
pub open spec fn segment_valid(s: TempoSegment) -> bool {
    s.bpm > 0 && is_proper(s.fraction) && s.fraction.wf()
}

/// Segment `b` stands after segment `a` and begins when `a` has run through
/// the ticks between them at its tempo.
pub open spec fn segment_follows(a: TempoSegment, b: TempoSegment) -> bool {
    &&& position_lt(a.measure as int, a.fraction, b.measure as int, b.fraction)
    &&& b.start == a.start + (position_ticks(b.measure as int, b.fraction) - position_ticks(
        a.measure as int,
        a.fraction,
    )) / (a.bpm as int)
}

/// The last of the first `n` segments that begins at or before the position;
/// the first segment when none does.
pub open spec fn segment_at_or_before(
    segs: Seq<TempoSegment>,
    measure: int,
    f: Fraction,
    n: int,
) -> int
    decreases n,
{
    if n <= 1 {
        0
    } else if position_le(segs[n - 1].measure as int, segs[n - 1].fraction, measure, f) {
        n - 1
    } else {
        segment_at_or_before(segs, measure, f, n - 1)
    }
}

/// The segment whose tempo holds at a position.
pub open spec fn active_segment(segs: Seq<TempoSegment>, measure: int, f: Fraction) -> int {
    segment_at_or_before(segs, measure, f, segs.len() as int)
}

/// The time of a position in microseconds: the start of its segment plus the
/// ticks from there, divided by the segment's tempo and rounded down.
pub open spec fn time_us(segs: Seq<TempoSegment>, measure: int, f: Fraction) -> int {
    let k = active_segment(segs, measure, f);
    segs[k].start + (position_ticks(measure, f) - position_ticks(
        segs[k].measure as int,
        segs[k].fraction,
    )) / (segs[k].bpm as int)
}

/// A quotient rounded toward zero.
pub open spec fn truncated_quotient(a: int, b: int) -> int {
    if a >= 0 {
        a / b
    } else {
        -((-a) / b)
    }
}

/// The time in whole milliseconds at which a moment of the chart is reached
/// when it is played at `rate` thousandths of its speed.
pub open spec fn timestamp_ms(time_us: int, rate: int) -> int {
    truncated_quotient(time_us, rate)
}

/// The value fits in an `i64`.
pub open spec fn fits_i64(x: int) -> bool {
    i64::MIN <= x <= i64::MAX
}

/// Of two fractions with positive denominators, the smaller has no more ticks.
pub proof fn lemma_fraction_ticks_monotone(f1: Fraction, f2: Fraction)
    requires
        f1.denom() > 0,
        f2.denom() > 0,
        f1.numer() * f2.denom() <= f2.numer() * f1.denom(),
    ensures
        fraction_ticks(f1) <= fraction_ticks(f2),
{
    let t = TICKS_PER_MEASURE as int;
    let (n1, d1, n2, d2) = (f1.numer(), f1.denom(), f2.numer(), f2.denom());
    let q = (t * n1) / d1;
    lemma_fundamental_div_mod(t * n1, d1);
    lemma_mod_bound(t * n1, d1);
    assert(q * d1 <= t * n1) by {
        lemma_mul_is_commutative(d1, q);
    }
    assert(q * d2 <= t * n2) by (nonlinear_arith)
        requires
            q * d1 <= t * n1,
            n1 * d2 <= n2 * d1,
            d1 > 0,
            d2 > 0,
            t > 0,
    ;
    // q * d2 <= t * n2 gives q <= (t * n2) / d2
    lemma_div_is_ordered(q * d2, t * n2, d2);
    lemma_div_multiples_vanish(q, d2);
    lemma_mul_is_commutative(q, d2);
}

/// A proper fraction has at least zero ticks and fewer than a measure has.
pub proof fn lemma_fraction_ticks_proper(f: Fraction)
    requires
        is_proper(f),
    ensures
        0 <= fraction_ticks(f) < TICKS_PER_MEASURE,
{
    let t = TICKS_PER_MEASURE as int;
    let (n, d) = (f.numer(), f.denom());
    assert(0 <= t * n < t * d) by (nonlinear_arith)
        requires
            0 <= n < d,
            t > 0,
    ;
    lemma_div_pos_is_pos(t * n, d);
    lemma_div_by_multiple_is_strongly_ordered(t * n, t * d, t, d);
    lemma_div_multiples_vanish(t, d);
}

/// Ticks respect the order of positions whose fractions are proper.
pub proof fn lemma_position_ticks_monotone(m1: int, f1: Fraction, m2: int, f2: Fraction)
    requires
        is_proper(f1),
        is_proper(f2),
        position_le(m1, f1, m2, f2),
    ensures
        position_ticks(m1, f1) <= position_ticks(m2, f2),
{
    lemma_fraction_ticks_proper(f1);
    lemma_fraction_ticks_proper(f2);
    if m1 == m2 {
        lemma_fraction_ticks_monotone(f1, f2);
    }
}

/// A later position is never assigned an earlier segment.
pub proof fn lemma_segment_at_or_before_monotone(
    segs: Seq<TempoSegment>,
    m1: int,
    f1: Fraction,
    m2: int,
    f2: Fraction,
    n: int,
)
    requires
        segments_wf(segs),
        0 <= n <= segs.len(),
        f1.denom() > 0,
        f2.denom() > 0,
        position_le(m1, f1, m2, f2),
    ensures
        segment_at_or_before(segs, m1, f1, n) <= segment_at_or_before(segs, m2, f2, n),
        0 <= segment_at_or_before(segs, m1, f1, n),
        n > 0 ==> segment_at_or_before(segs, m2, f2, n) < n,
        n == 0 ==> segment_at_or_before(segs, m2, f2, n) == 0,
    decreases n,
{
    if n > 1 {
        lemma_segment_at_or_before_monotone(segs, m1, f1, m2, f2, n - 1);
        let s = segs[n - 1];
        if position_le(s.measure as int, s.fraction, m1, f1) {
            lemma_position_le_transitive(s.measure as int, s.fraction, m1, f1, m2, f2);
        }
    }
}

/// The order of positions is transitive.
pub proof fn lemma_position_le_transitive(
    m1: int,
    f1: Fraction,
    m2: int,
    f2: Fraction,
    m3: int,
    f3: Fraction,
)
    requires
        f1.denom() > 0,
        f2.denom() > 0,
        f3.denom() > 0,
        position_le(m1, f1, m2, f2),
        position_le(m2, f2, m3, f3),
    ensures
        position_le(m1, f1, m3, f3),
{
    if m1 == m2 && m2 == m3 {
        let (n1, d1, n2, d2, n3, d3) = (
            f1.numer(),
            f1.denom(),
            f2.numer(),
            f2.denom(),
            f3.numer(),
            f3.denom(),
        );
        assert(n1 * d3 <= n3 * d1) by (nonlinear_arith)
            requires
                n1 * d2 <= n2 * d1,
                n2 * d3 <= n3 * d2,
                d1 > 0,
                d2 > 0,
                d3 > 0,
        ;
    }
}

/// What makes a segment the active one: it is the first or begins at or
/// before the position, and the next one, if any, begins after it.
pub proof fn lemma_active_segment_characterized(
    segs: Seq<TempoSegment>,
    measure: int,
    f: Fraction,
    k: int,
)
    requires
        segments_wf(segs),
        f.denom() > 0,
        0 <= k < segs.len(),
        k == 0 || position_le(segs[k].measure as int, segs[k].fraction, measure, f),
        k + 1 < segs.len() ==> !position_le(
            segs[k + 1].measure as int,
            segs[k + 1].fraction,
            measure,
            f,
        ),
    ensures
        active_segment(segs, measure, f) == k,
{
    lemma_later_segments_after(segs, measure, f, k, segs.len() as int);
    lemma_segment_at_or_before_found(segs, measure, f, k);
}

/// When segment `k + 1` begins after a position, none of the segments up to
/// `n` that follow `k` begins at or before it.
proof fn lemma_later_segments_after(
    segs: Seq<TempoSegment>,
    measure: int,
    f: Fraction,
    k: int,
    n: int,
)
    requires
        segments_wf(segs),
        f.denom() > 0,
        0 <= k < n <= segs.len(),
        k + 1 < segs.len() ==> !position_le(
            segs[k + 1].measure as int,
            segs[k + 1].fraction,
            measure,
            f,
        ),
    ensures
        segment_at_or_before(segs, measure, f, n) == segment_at_or_before(segs, measure, f, k + 1),
    decreases n,
{
    if n > k + 1 {
        lemma_later_segments_after(segs, measure, f, k, n - 1);
        let s = segs[n - 1];
        if position_le(s.measure as int, s.fraction, measure, f) {
            lemma_segments_ordered(segs, k + 1, n - 1);
            lemma_position_le_transitive(
                segs[k + 1].measure as int,
                segs[k + 1].fraction,
                s.measure as int,
                s.fraction,
                measure,
                f,
            );
        }
    }
}

/// Among the first `k + 1` segments, segment `k` is the answer when it is the
/// first or begins at or before the position.
proof fn lemma_segment_at_or_before_found(
    segs: Seq<TempoSegment>,
    measure: int,
    f: Fraction,
    k: int,
)
    requires
        0 <= k < segs.len(),
        k == 0 || position_le(segs[k].measure as int, segs[k].fraction, measure, f),
    ensures
        segment_at_or_before(segs, measure, f, k + 1) == k,
{
}

/// Segments are in the order of their positions.
pub proof fn lemma_segments_ordered(segs: Seq<TempoSegment>, i: int, j: int)
    requires
        segments_wf(segs),
        0 <= i <= j < segs.len(),
    ensures
        position_le(segs[i].measure as int, segs[i].fraction, segs[j].measure as int, segs[j].fraction),
        position_ticks(segs[i].measure as int, segs[i].fraction) <= position_ticks(
            segs[j].measure as int,
            segs[j].fraction,
        ),
        segs[i].start <= segs[j].start,
    decreases j - i,
{
    if i < j {
        lemma_segments_ordered(segs, i, j - 1);
        let a = segs[j - 1];
        let b = segs[j];
        assert(segment_follows(segs[j - 1], segs[j]));
        assert(segment_valid(a) && segment_valid(b) && segment_valid(segs[i]));
        assert(position_le(a.measure as int, a.fraction, b.measure as int, b.fraction));
        lemma_position_le_transitive(
            segs[i].measure as int,
            segs[i].fraction,
            a.measure as int,
            a.fraction,
            b.measure as int,
            b.fraction,
        );
        lemma_position_ticks_monotone(a.measure as int, a.fraction, b.measure as int, b.fraction);
        lemma_div_pos_is_pos(
            position_ticks(b.measure as int, b.fraction) - position_ticks(
                a.measure as int,
                a.fraction,
            ),
            a.bpm as int,
        );
    }
}

/// The active segment begins at or before the position unless it is the
/// first, and the segment after it begins after the position.
pub proof fn lemma_active_segment_bounds(segs: Seq<TempoSegment>, measure: int, f: Fraction)
    requires
        segments_wf(segs),
        f.denom() > 0,
    ensures
        0 <= active_segment(segs, measure, f) < segs.len(),
        active_segment(segs, measure, f) > 0 ==> position_le(
            segs[active_segment(segs, measure, f)].measure as int,
            segs[active_segment(segs, measure, f)].fraction,
            measure,
            f,
        ),
        active_segment(segs, measure, f) + 1 < segs.len() ==> !position_le(
            segs[active_segment(segs, measure, f) + 1].measure as int,
            segs[active_segment(segs, measure, f) + 1].fraction,
            measure,
            f,
        ),
{
    lemma_segment_at_or_before_bounds(segs, measure, f, segs.len() as int);
}

proof fn lemma_segment_at_or_before_bounds(
    segs: Seq<TempoSegment>,
    measure: int,
    f: Fraction,
    n: int,
)
    requires
        segments_wf(segs),
        f.denom() > 0,
        0 < n <= segs.len(),
    ensures
        0 <= segment_at_or_before(segs, measure, f, n) < n,
        segment_at_or_before(segs, measure, f, n) > 0 ==> position_le(
            segs[segment_at_or_before(segs, measure, f, n)].measure as int,
            segs[segment_at_or_before(segs, measure, f, n)].fraction,
            measure,
            f,
        ),
        forall|j: int|
            segment_at_or_before(segs, measure, f, n) < j < n ==> !position_le(
                (#[trigger] segs[j]).measure as int,
                segs[j].fraction,
                measure,
                f,
            ),
    decreases n,
{
    if n > 1 {
        lemma_segment_at_or_before_bounds(segs, measure, f, n - 1);
    }
}

/// **Times follow positions.** Of two positions with proper fractions, the
/// one that is not later in the chart is not later in time.
pub proof fn lemma_time_monotone(
    segs: Seq<TempoSegment>,
    m1: int,
    f1: Fraction,
    m2: int,
    f2: Fraction,
)
    requires
        segments_wf(segs),
        is_proper(f1),
        is_proper(f2),
        position_le(m1, f1, m2, f2),
    ensures
        time_us(segs, m1, f1) <= time_us(segs, m2, f2),
{
    let k1 = active_segment(segs, m1, f1);
    let k2 = active_segment(segs, m2, f2);
    lemma_segment_at_or_before_monotone(segs, m1, f1, m2, f2, segs.len() as int);
    lemma_active_segment_bounds(segs, m1, f1);
    lemma_active_segment_bounds(segs, m2, f2);
    lemma_position_ticks_monotone(m1, f1, m2, f2);
    let t1 = position_ticks(m1, f1);
    let t2 = position_ticks(m2, f2);
    if k1 == k2 {
        assert(segment_valid(segs[k1]));
        let base = position_ticks(segs[k1].measure as int, segs[k1].fraction);
        lemma_div_is_ordered(t1 - base, t2 - base, segs[k1].bpm as int);
    } else {
        // the first position ends before segment k1 + 1 begins
        let a = segs[k1];
        let b = segs[k1 + 1];
        let base_a = position_ticks(a.measure as int, a.fraction);
        let base_b = position_ticks(b.measure as int, b.fraction);
        let next = k1 + 1;
        assert(segment_follows(segs[next - 1], segs[next]));
        assert(segment_valid(a) && segment_valid(b) && segment_valid(segs[k2]));
        assert(position_le(m1, f1, b.measure as int, b.fraction)) by {
            assert(!position_le(b.measure as int, b.fraction, m1, f1));
        }
        lemma_position_ticks_monotone(m1, f1, b.measure as int, b.fraction);
        lemma_div_is_ordered(t1 - base_a, base_b - base_a, a.bpm as int);
        assert(time_us(segs, m1, f1) <= b.start);
        lemma_segments_ordered(segs, k1 + 1, k2);
        // the second position begins after segment k2 does
        let c = segs[k2];
        let base_c = position_ticks(c.measure as int, c.fraction);
        lemma_position_ticks_monotone(c.measure as int, c.fraction, m2, f2);
        lemma_div_pos_is_pos(t2 - base_c, c.bpm as int);
    }
}

/// The fraction stands on a tick: it is a whole number of ticks from the start
/// of the measure. Every fraction whose denominator divides the ticks of a
/// measure does, and so every division of a measure into 2, 3, 4, 6, 8, 12,
/// 16, 24, 32, 48, 64, 96 or 192 rows.
pub open spec fn on_tick(f: Fraction) -> bool {
    (TICKS_PER_MEASURE as int * f.numer()) % f.denom() == 0
}

/// The time in microseconds that the chart takes from one position to
/// another at a tempo, rounded down: 240 000 milliseconds for every measure
/// at one beat per minute, the measures and fractions between the positions
/// taken exactly.
pub open spec fn exact_span_us(m1: int, f1: Fraction, m2: int, f2: Fraction, bpm: int) -> int {
    (TICKS_PER_MEASURE as int * ((m2 * f2.denom() + f2.numer()) * f1.denom() - (m1 * f1.denom()
        + f1.numer()) * f2.denom())) / (f1.denom() * f2.denom() * bpm)
}

/// **Ticks lose nothing on the grid.** Between two positions that stand on
/// ticks, the ticks divided by the tempo are the exact span of time, rounded
/// down once.
pub proof fn lemma_span_is_exact_on_ticks(m1: int, f1: Fraction, m2: int, f2: Fraction, bpm: int)
    requires
        f1.denom() > 0,
        f2.denom() > 0,
        bpm > 0,
        on_tick(f1),
        on_tick(f2),
    ensures
        (position_ticks(m2, f2) - position_ticks(m1, f1)) / bpm == exact_span_us(
            m1,
            f1,
            m2,
            f2,
            bpm,
        ),
{
    let t = TICKS_PER_MEASURE as int;
    let (n1, d1, n2, d2) = (f1.numer(), f1.denom(), f2.numer(), f2.denom());
    let q1 = (t * n1) / d1;
    let q2 = (t * n2) / d2;
    lemma_fundamental_div_mod(t * n1, d1);
    lemma_fundamental_div_mod(t * n2, d2);
    assert(t * n1 == d1 * q1);
    assert(t * n2 == d2 * q2);
    let ticks = position_ticks(m2, f2) - position_ticks(m1, f1);
    assert(ticks == t * m2 + q2 - (t * m1 + q1));
    let scale = d1 * d2;
    assert(scale > 0) by (nonlinear_arith)
        requires
            scale == d1 * d2,
            d1 > 0,
            d2 > 0,
    ;
    let (w1, w2) = (t * m1, t * m2);
    let later = (m2 * d2 + n2) * d1;
    let earlier = (m1 * d1 + n1) * d2;
    let exact = t * (later - earlier);
    assert(later == m2 * scale + n2 * d1) by (nonlinear_arith)
        requires
            later == (m2 * d2 + n2) * d1,
            scale == d1 * d2,
    ;
    assert(earlier == m1 * scale + n1 * d2) by (nonlinear_arith)
        requires
            earlier == (m1 * d1 + n1) * d2,
            scale == d1 * d2,
    ;
    assert(t * later == scale * w2 + (t * n2) * d1) by (nonlinear_arith)
        requires
            later == m2 * scale + n2 * d1,
            w2 == t * m2,
    ;
    assert(t * earlier == scale * w1 + (t * n1) * d2) by (nonlinear_arith)
        requires
            earlier == m1 * scale + n1 * d2,
            w1 == t * m1,
    ;
    assert(exact == t * later - t * earlier) by (nonlinear_arith)
        requires
            exact == t * (later - earlier),
    ;
    assert((t * n2) * d1 == scale * q2) by (nonlinear_arith)
        requires
            t * n2 == d2 * q2,
            scale == d1 * d2,
    ;
    assert((t * n1) * d2 == scale * q1) by (nonlinear_arith)
        requires
            t * n1 == d1 * q1,
            scale == d1 * d2,
    ;
    assert(scale * ticks == scale * w2 + scale * q2 - scale * w1 - scale * q1)
        by (nonlinear_arith)
        requires
            ticks == w2 + q2 - (w1 + q1),
    ;
    assert(exact == scale * ticks);
    assert(d1 * d2 * bpm == scale * bpm) by (nonlinear_arith)
        requires
            scale == d1 * d2,
    ;
    // multiplying dividend and divisor by the scale keeps the quotient
    let q = ticks / bpm;
    let r = ticks % bpm;
    lemma_fundamental_div_mod(ticks, bpm);
    lemma_mod_bound(ticks, bpm);
    assert(scale * ticks == (scale * bpm) * q + scale * r && 0 <= scale * r < scale * bpm)
        by (nonlinear_arith)
        requires
            ticks == bpm * q + r,
            0 <= r < bpm,
            scale > 0,
    ;
    lemma_fundamental_div_mod_converse(scale * ticks, scale * bpm, q, scale * r);
}

/// Rounding a quotient toward zero keeps the order of the dividends.
pub proof fn lemma_truncated_quotient_monotone(a: int, b: int, rate: int)
    requires
        rate > 0,
        a <= b,
    ensures
        truncated_quotient(a, rate) <= truncated_quotient(b, rate),
{
    if a >= 0 {
        lemma_div_is_ordered(a, b, rate);
    } else if b < 0 {
        lemma_div_is_ordered(-b, -a, rate);
    } else {
        lemma_div_pos_is_pos(-a, rate);
        lemma_div_pos_is_pos(b, rate);
    }
}

/// The quotient of `a` by a positive `b`, rounded down.
pub fn floor_div(a: i128, b: i128) -> (q: i128)
    requires
        b > 0,
        a > i128::MIN,
    ensures
        q == a as int / b as int,
        a >= 0 ==> 0 <= q <= a,
        a < 0 ==> a <= q < 0,
{
    if a >= 0 {
        proof {
            lemma_div_pos_is_pos(a as int, b as int);
            lemma_div_nonincreasing(a as int, b as int);
        }
        a / b
    } else {
        let size: i128 = -a;
        let q: i128 = size / b;
        let r: i128 = size % b;
        proof {
            lemma_fundamental_div_mod(size as int, b as int);
            lemma_div_pos_is_pos(size as int, b as int);
            lemma_div_nonincreasing(size as int, b as int);
            lemma_mod_bound(size as int, b as int);
            lemma_mul_is_commutative(b as int, q as int);
        }
        if r == 0 {
            proof {
                assert(a as int == (-q) * b + 0) by (nonlinear_arith)
                    requires
                        size as int == q * b + r,
                        r == 0,
                        a as int == -(size as int),
                ;
                lemma_fundamental_div_mod_converse(a as int, b as int, -(q as int), 0);
                assert(q > 0) by (nonlinear_arith)
                    requires
                        size as int == q * b + r,
                        r == 0,
                        size > 0,
                        b > 0,
                        q >= 0,
                ;
                assert(q <= size);
            }
            -q
        } else {
            proof {
                assert(a as int == (-q - 1) * b + (b - r)) by (nonlinear_arith)
                    requires
                        size as int == q * b + r,
                        a as int == -(size as int),
                ;
                lemma_fundamental_div_mod_converse(a as int, b as int, -(q as int) - 1, b - r);
                assert(q + 1 <= size) by (nonlinear_arith)
                    requires
                        size as int == q * b + r,
                        r > 0,
                        b > 0,
                        q >= 0,
                ;
            }
            -q - 1
        }
    }
}

/// A number of measures of up to 65 bits, counted in ticks, has at most 104.
proof fn lemma_scaled_by_ticks(x: int)
    requires
        -0x1_0000_0000_0000_0000 <= x <= 0x1_0000_0000_0000_0000,
    ensures
        -0x100_0000_0000_0000_0000_0000_0000 <= TICKS_PER_MEASURE as int * x
            <= 0x100_0000_0000_0000_0000_0000_0000,
{
    assert(-0x100_0000_0000_0000_0000_0000_0000 <= 240_000_000_000 * x
        <= 0x100_0000_0000_0000_0000_0000_0000) by (nonlinear_arith)
        requires
            -0x1_0000_0000_0000_0000 <= x <= 0x1_0000_0000_0000_0000,
    ;
}

/// The ticks of a position, computed.
pub fn ticks_of(measure: i128, fraction: &Fraction) -> (t: i128)
    requires
        -0x1_0000_0000_0000_0000 <= measure <= 0x1_0000_0000_0000_0000,
    ensures
        t == position_ticks(measure as int, *fraction),
        -0x200_0000_0000_0000_0000_0000_0000 <= t <= 0x200_0000_0000_0000_0000_0000_0000,
{
    let (n, d) = fraction.contents();
    proof {
        lemma_scaled_by_ticks(measure as int);
        lemma_scaled_by_ticks(n as int);
    }
    let whole: i128 = (TICKS_PER_MEASURE as i128) * measure;
    let scaled: i128 = (TICKS_PER_MEASURE as i128) * (n as i128);
    let part: i128 = floor_div(scaled, d as i128);
    whole + part
}

/// The tempo changes of a chart with the time at which each begins.
#[derive(Debug, PartialEq, Eq)]
pub struct TempoMap {
    segments: Vec<TempoSegment>,
}

impl TempoMap {
    /// The segments as a sequence, for contracts.
    pub closed spec fn view(&self) -> Seq<TempoSegment> {
        self.segments@
    }

    /// The segments are those of a well-formed tempo map.
    #[verifier::type_invariant]
    pub open spec fn wf(&self) -> bool {
        segments_wf(self@)
    }

    /// The segments that a tempo list and a start offset stand for.
    pub open spec fn segments_of(bpms: Seq<BeatPair<i64>>, offset: int) -> Seq<TempoSegment> {
        Seq::new(
            bpms.len(),
            |k: int|
                TempoSegment {
                    measure: bpms[k].beat,
                    fraction: bpms[k].sub_beat,
                    bpm: bpms[k].value,
                    start: segment_start(bpms, offset, k) as i64,
                },
        )
    }

    /// Builds the tempo map of a tempo list whose first change takes effect
    /// at `offset` microseconds.
    ///
    /// A list that is not valid is refused as malformed; a valid one is
    /// refused when a segment would begin outside the range of 64 bits.
    pub fn new(bpms: &Vec<BeatPair<i64>>, offset: i64) -> (r: Result<TempoMap, TimingError>)
        ensures
            !bpm_list_valid(bpms@) ==> r == Err::<TempoMap, TimingError>(
                TimingError::MalformedChart,
            ),
            bpm_list_valid(bpms@) && !starts_fit(bpms@, offset as int) ==> r == Err::<
                TempoMap,
                TimingError,
            >(TimingError::TimeOutOfRange),
            bpm_list_valid(bpms@) && starts_fit(bpms@, offset as int) ==> (r matches Ok(map)
                && map.wf() && map@ == Self::segments_of(bpms@, offset as int)),
    {
        if !Self::list_is_valid(bpms) {
            return Err(TimingError::MalformedChart);
        }
        let mut segments: Vec<TempoSegment> = Vec::new();
        let mut k: usize = 0;
        while k < bpms.len()
            invariant
                0 <= k <= bpms.len(),
                bpm_list_valid(bpms@),
                segments@.len() == k,
                forall|j: int|
                    0 <= j < k ==> fits_i64(#[trigger] segment_start(bpms@, offset as int, j)),
                segments@ == Self::segments_of(bpms@, offset as int).take(k as int),
            decreases bpms.len() - k,
        {
            let pair = &bpms[k];
            let start: i64 = if k == 0 {
                offset
            } else {
                let before = &bpms[k - 1];
                let here: i128 = ticks_of(pair.beat as i128, &pair.sub_beat);
                let there: i128 = ticks_of(before.beat as i128, &before.sub_beat);
                proof {
                    assert(bpm_valid(bpms@[k as int - 1]));
                }
                let span: i128 = floor_div(here - there, before.value as i128);
                let last: i64 = segments[k - 1].start;
                proof {
                    assert(segments@[k as int - 1] == Self::segments_of(bpms@, offset as int)[k as int
                        - 1]);
                    assert(last == segment_start(bpms@, offset as int, k as int - 1));
                }
                let sum: i128 = (last as i128) + span;
                assert(sum == segment_start(bpms@, offset as int, k as int));
                if sum < (i64::MIN as i128) || sum > (i64::MAX as i128) {
                    return Err(TimingError::TimeOutOfRange);
                }
                sum as i64
            };
            segments.push(
                TempoSegment { measure: pair.beat, fraction: pair.sub_beat, bpm: pair.value, start },
            );
            proof {
                assert(segments@ =~= Self::segments_of(bpms@, offset as int).take(k as int + 1));
            }
            k += 1;
        }
        proof {
            assert(segments@ =~= Self::segments_of(bpms@, offset as int));
            Self::lemma_segments_of_wf(bpms@, offset as int);
        }
        Ok(TempoMap { segments })
    }

    /// Whether a tempo map can be built from a tempo list.
    pub fn list_is_valid(bpms: &Vec<BeatPair<i64>>) -> (valid: bool)
        ensures
            valid == bpm_list_valid(bpms@),
    {
        if bpms.len() == 0 {
            return false;
        }
        let mut k: usize = 0;
        while k < bpms.len()
            invariant
                0 <= k <= bpms.len(),
                forall|j: int| 0 <= j < k ==> bpm_valid(#[trigger] bpms@[j]),
                forall|j: int| 0 < j < k ==> #[trigger] bpm_follows(bpms@[j - 1], bpms@[j]),
            decreases bpms.len() - k,
        {
            let pair = &bpms[k];
            if !(pair.value > 0 && pair.sub_beat.is_proper()) {
                proof {
                    if bpm_list_valid(bpms@) {
                        assert(bpm_valid(bpms@[k as int]));
                    }
                }
                return false;
            }
            if k > 0 {
                let before = &bpms[k - 1];
                let follows = before.beat < pair.beat || (before.beat == pair.beat
                    && before.sub_beat.lt(&pair.sub_beat));
                if !follows {
                    proof {
                        if bpm_list_valid(bpms@) {
                            assert(bpm_follows(bpms@[k as int - 1], bpms@[k as int]));
                        }
                    }
                    return false;
                }
            }
            k += 1;
        }
        true
    }

    /// The segments of a valid tempo list whose starts fit are well formed.
    pub proof fn lemma_segments_of_wf(bpms: Seq<BeatPair<i64>>, offset: int)
        requires
            bpm_list_valid(bpms),
            starts_fit(bpms, offset),
        ensures
            segments_wf(Self::segments_of(bpms, offset)),
    {
        let segs = Self::segments_of(bpms, offset);
        assert forall|k: int| 0 <= k < segs.len() implies segment_valid(#[trigger] segs[k]) by {
            assert(bpm_valid(bpms[k]));
        }
        assert forall|k: int| 0 < k < segs.len() implies #[trigger] segment_follows(
            segs[k - 1],
            segs[k],
        ) by {
            assert(bpm_follows(bpms[k - 1], bpms[k]));
            assert(fits_i64(segment_start(bpms, offset, k)));
            assert(fits_i64(segment_start(bpms, offset, k - 1)));
        }
    }

    /// The number of segments; at least one.
    pub fn len(&self) -> (n: usize)
        ensures
            n == self@.len(),
            n > 0,
            self.wf(),
    {
        proof {
            use_type_invariant(self);
        }
        self.segments.len()
    }

    /// The segment with the given index.
    pub fn segment(&self, k: usize) -> (s: &TempoSegment)
        requires
            k < self@.len(),
        ensures
            *s == self@[k as int],
    {
        &self.segments[k]
    }

    /// Moves a cursor that stands at or before the active segment of a
    /// position forward to that segment.
    pub(crate) fn advance(&self, cursor: usize, measure: usize, fraction: &Fraction) -> (k:
        usize)
        requires
            cursor < self@.len(),
            cursor <= active_segment(self@, measure as int, *fraction),
        ensures
            k == active_segment(self@, measure as int, *fraction),
            k < self@.len(),
            self.wf(),
    {
        proof {
            use_type_invariant(self);
            use_type_invariant(fraction);
            lemma_active_segment_bounds(self@, measure as int, *fraction);
        }
        let mut k: usize = cursor;
        while k + 1 < self.segments.len() && Self::begins_at_or_before(
            &self.segments[k + 1],
            measure,
            fraction,
        )
            invariant
                self.wf(),
                fraction.wf(),
                k < self.segments.len(),
                k <= active_segment(self@, measure as int, *fraction) < self@.len(),
                self@ == self.segments@,
            decreases self@.len() - k,
        {
            proof {
                let a = active_segment(self@, measure as int, *fraction);
                lemma_active_segment_bounds(self@, measure as int, *fraction);
                if a == k {
                    assert(!position_le(
                        self@[k + 1].measure as int,
                        self@[k + 1].fraction,
                        measure as int,
                        *fraction,
                    ));
                }
            }
            k += 1;
        }
        proof {
            let a = active_segment(self@, measure as int, *fraction);
            lemma_active_segment_bounds(self@, measure as int, *fraction);
            if k < a {
                // segment k + 1 begins after the position, yet a later one does not
                lemma_segments_ordered(self@, k as int + 1, a);
                lemma_position_le_transitive(
                    self@[k + 1].measure as int,
                    self@[k + 1].fraction,
                    self@[a].measure as int,
                    self@[a].fraction,
                    measure as int,
                    *fraction,
                );
            }
        }
        k
    }

    /// Whether a segment begins at or before a position.
    fn begins_at_or_before(segment: &TempoSegment, measure: usize, fraction: &Fraction) -> (r:
        bool)
        ensures
            r == position_le(segment.measure as int, segment.fraction, measure as int, *fraction),
    {
        let at: i128 = segment.measure as i128;
        let here: i128 = measure as i128;
        at < here || (at == here && segment.fraction.le(fraction))
    }

    /// The index of the segment whose tempo holds at a position: the last
    /// that begins at or before it, or the first when none does.
    pub fn lookup(&self, measure: usize, fraction: &Fraction) -> (k: usize)
        ensures
            k == active_segment(self@, measure as int, *fraction),
            k < self@.len(),
            self.wf(),
    {
        proof {
            use_type_invariant(self);
            use_type_invariant(fraction);
            lemma_active_segment_bounds(self@, measure as int, *fraction);
        }
        self.advance(0, measure, fraction)
    }

    /// The time in microseconds of a position in segment `k`, if it fits in
    /// 64 bits.
    pub fn time_in_segment(&self, k: usize, measure: usize, fraction: &Fraction) -> (t: Option<i64>)
        requires
            k < self@.len(),
        ensures
            t == Self::checked_time(
                self@[k as int].start + (position_ticks(measure as int, *fraction) - position_ticks(
                    self@[k as int].measure as int,
                    self@[k as int].fraction,
                )) / (self@[k as int].bpm as int),
            ),
    {
        proof {
            use_type_invariant(self);
        }
        let segment = &self.segments[k];
        let here: i128 = ticks_of(measure as i128, fraction);
        let there: i128 = ticks_of(segment.measure as i128, &segment.fraction);
        let span: i128 = floor_div(here - there, segment.bpm as i128);
        let sum: i128 = (segment.start as i128) + span;
        if sum < (i64::MIN as i128) || sum > (i64::MAX as i128) {
            None
        } else {
            Some(sum as i64)
        }
    }

    /// A time when it fits in 64 bits.
    pub open spec fn checked_time(t: int) -> Option<i64> {
        if fits_i64(t) {
            Some(t as i64)
        } else {
            None
        }
    }

    /// The time in microseconds of a position, if it fits in 64 bits.
    pub fn time_at(&self, measure: usize, fraction: &Fraction) -> (t: Option<i64>)
        ensures
            t == Self::checked_time(time_us(self@, measure as int, *fraction)),
    {
        let k = self.lookup(measure, fraction);
        self.time_in_segment(k, measure, fraction)
    }
}

/// The time in milliseconds that a time in microseconds becomes at a rate
/// given in thousandths.
pub fn scale_time(time: i64, rate: i64) -> (ms: i64)
    requires
        rate > 0,
    ensures
        ms == timestamp_ms(time as int, rate as int),
{
    proof {
        if time >= 0 {
            lemma_div_pos_is_pos(time as int, rate as int);
            lemma_div_nonincreasing(time as int, rate as int);
        } else {
            lemma_div_pos_is_pos(-(time as int), rate as int);
            lemma_div_nonincreasing(-(time as int), rate as int);
        }
    }
    time / rate
}

} // verus!
