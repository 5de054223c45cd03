use vstd::arithmetic::div_mod::{lemma_div_multiples_vanish, lemma_mod_multiples_basic};
use vstd::prelude::*;

use crate::factorization::{
    all_prime, factorize, lemma_value_pos, reconstruct, reconstructed, value, Factorization, FACTOR_LIMIT,
};
use crate::merge::{
    common, is_common_of, is_merge_of, lemma_merge_multiple, merge, views,
};

verus! {

/// Frames per time unit.
pub const FRAMES_PER_UNIT: u64 = 60;

/// Frames added to each side of a pairing.
pub const FRAMES_PADDING: u64 = 40;

/// Frames that a pairing of `a` and `b` lasts: `(a*60 + 40) + (b*60 + 40)`.
pub open spec fn duration_of(a: int, b: int) -> int {
    (a * 60 + 40) + (b * 60 + 40)
}

/// An ordered pairing of two timings, with its duration in frames and the
/// factorization of that duration.
pub struct CompositeS {
    pub time_a: u64,
    pub time_b: u64,
    pub duration_frames: u64,
    pub duration_frames_factors: Factorization,
}

impl CompositeS {
    /// The duration follows from the two timings and the factorization is that of
    /// the duration.
    pub open spec fn wf(&self) -> bool {
        &&& self.duration_frames == duration_of(self.time_a as int, self.time_b as int)
        &&& self.duration_frames_factors.wf()
        &&& all_prime(self.duration_frames_factors@)
        &&& value(self.duration_frames_factors@) == self.duration_frames
    }

    /// Pairs `a` with `b`, working out the duration and factorizing it.
    pub fn new(a: u64, b: u64) -> (r: CompositeS)
        requires
            duration_of(a as int, b as int) <= FACTOR_LIMIT,
        ensures
            r.wf(),
            r.time_a == a,
            r.time_b == b,
    {
        let df = (a * FRAMES_PER_UNIT) + FRAMES_PADDING + (b * FRAMES_PER_UNIT) + FRAMES_PADDING;
        CompositeS {
            time_a: a,
            time_b: b,
            duration_frames: df,
            duration_frames_factors: factorize(df),
        }
    }

    /// Frames of the first timing.
    pub fn frames_a(&self) -> (r: u64)
        requires
            self.wf(),
        ensures
            r == self.time_a * 60,
    {
        self.time_a * FRAMES_PER_UNIT
    }

    /// Frames of the second timing.
    pub fn frames_b(&self) -> (r: u64)
        requires
            self.wf(),
        ensures
            r == self.time_b * 60,
    {
        self.time_b * FRAMES_PER_UNIT
    }
}

impl Clone for CompositeS {
    fn clone(&self) -> (r: CompositeS)
        ensures
            r.time_a == self.time_a,
            r.time_b == self.time_b,
            r.duration_frames == self.duration_frames,
            r.duration_frames_factors@ == self.duration_frames_factors@,
    {
        CompositeS {
            time_a: self.time_a,
            time_b: self.time_b,
            duration_frames: self.duration_frames,
            duration_frames_factors: self.duration_frames_factors.clone(),
        }
    }
}

/// Every pairing of two timings of `t` lasts at most `FACTOR_LIMIT` frames.
pub open spec fn durations_fit(t: Seq<u64>) -> bool {
    forall|i: int, j: int|
        0 <= i < t.len() && 0 <= j < t.len() ==> duration_of(#[trigger] t[i] as int, #[trigger] t[j] as int)
            <= FACTOR_LIMIT
}

/// `cs` holds every ordered pair of timings of `t`, row by row: entry `k` pairs
/// `t[k / n]` with `t[k % n]`.
pub open spec fn is_combinations_of(cs: Seq<CompositeS>, t: Seq<u64>) -> bool {
    &&& cs.len() == t.len() * t.len()
    &&& forall|k: int| 0 <= k < cs.len() ==> (#[trigger] cs[k]).wf()
    &&& forall|k: int|
        0 <= k < cs.len() ==> (#[trigger] cs[k]).time_a == t[k / t.len() as int] && cs[k].time_b
            == t[k % t.len() as int]
}

/// All ordered pairs of timings, each timing also paired with itself, in row-major
/// order.
pub fn combinations(timings: &Vec<u64>) -> (r: Vec<CompositeS>)
    requires
        durations_fit(timings@),
        timings@.len() * timings@.len() <= usize::MAX,
    ensures
        is_combinations_of(r@, timings@),
{
    let n = timings.len();
    let total = n * n;
    let mut out: Vec<CompositeS> = Vec::new();
    let mut k: usize = 0;
    while k < total
        invariant
            n == timings@.len(),
            total == n * n,
            durations_fit(timings@),
            k <= total,
            out@.len() == k,
            forall|m: int| 0 <= m < k ==> (#[trigger] out@[m]).wf(),
            forall|m: int|
                0 <= m < k ==> (#[trigger] out@[m]).time_a == timings@[m / (n as int)]
                    && out@[m].time_b == timings@[m % (n as int)],
        decreases total - k,
    {
        assert(k / n < n) by (nonlinear_arith)
            requires
                k < total,
                total == n * n,
        ;
        let i = k / n;
        let j = k % n;
        out.push(CompositeS::new(timings[i], timings[j]));
        k = k + 1;
    }
    out
}

/// The view of a pairing: timings, duration, and factor entries.
pub open spec fn composite_view(c: CompositeS) -> (u64, u64, u64, Seq<(u64, u64)>) {
    (c.time_a, c.time_b, c.duration_frames, c.duration_frames_factors@)
}

/// Views of a sequence of pairings.
pub open spec fn composite_views(cs: Seq<CompositeS>) -> Seq<(u64, u64, u64, Seq<(u64, u64)>)> {
    cs.map_values(|c: CompositeS| composite_view(c))
}

/// Factor entries of a sequence of pairings.
pub open spec fn factor_views(cs: Seq<CompositeS>) -> Seq<Seq<(u64, u64)>> {
    cs.map_values(|c: CompositeS| c.duration_frames_factors@)
}

/// Some prime of the entries exceeds `n`.
pub open spec fn has_factor_above(s: Seq<(u64, u64)>, n: u64) -> bool {
    exists|k: int| 0 <= k < s.len() && #[trigger] s[k].0 > n
}

/// Whether some prime of `f` exceeds `n`.
fn factor_above(f: &Factorization, n: u64) -> (r: bool)
    ensures
        r == has_factor_above(f@, n),
{
    let mut i: usize = 0;
    while i < f.entries.len()
        invariant
            i <= f@.len(),
            forall|k: int| 0 <= k < i ==> #[trigger] f@[k].0 <= n,
        decreases f@.len() - i,
    {
        if f.entries[i].0 > n {
            return true;
        }
        i = i + 1;
    }
    false
}

/// The pairings, in their order, whose duration has a prime factor above `n`.
pub fn composite_gt_n(composite: &Vec<CompositeS>, n: u64) -> (r: Vec<CompositeS>)
    ensures
        composite_views(r@) == composite_views(composite@).filter(
            |v: (u64, u64, u64, Seq<(u64, u64)>)| has_factor_above(v.3, n),
        ),
{
    let ghost pred = |v: (u64, u64, u64, Seq<(u64, u64)>)| has_factor_above(v.3, n);
    let mut out: Vec<CompositeS> = Vec::new();
    let mut i: usize = 0;
    assert(composite_views(composite@.take(0)) == Seq::<(u64, u64, u64, Seq<(u64, u64)>)>::empty());
    while i < composite.len()
        invariant
            i <= composite@.len(),
            pred == (|v: (u64, u64, u64, Seq<(u64, u64)>)| has_factor_above(v.3, n)),
            composite_views(out@) == composite_views(composite@.take(i as int)).filter(pred),
        decreases composite@.len() - i,
    {
        let c = &composite[i];
        let ghost before = composite_views(composite@.take(i as int));
        assert(composite_views(composite@.take(i + 1)) == before.push(composite_view(*c)));
        proof {
            before.lemma_filter_push(composite_view(*c), pred);
        }
        assert(pred(composite_view(*c)) == has_factor_above(c.duration_frames_factors@, n));
        if factor_above(&c.duration_frames_factors, n) {
            let ghost old_out = out@;
            out.push(c.clone());
            assert(composite_views(out@) == composite_views(old_out).push(composite_view(*c)));
        }
        i = i + 1;
    }
    assert(composite@.take(i as int) == composite@);
    out
}

/// The factorizations of the pairings' durations, in order.
pub fn factorizations(composite: &Vec<CompositeS>) -> (r: Vec<Factorization>)
    requires
        forall|k: int| 0 <= k < composite@.len() ==> (#[trigger] composite@[k]).wf(),
    ensures
        views(r@) == factor_views(composite@),
        forall|k: int| 0 <= k < r@.len() ==> (#[trigger] r@[k]).wf(),
{
    let mut out: Vec<Factorization> = Vec::new();
    let mut i: usize = 0;
    while i < composite.len()
        invariant
            i <= composite@.len(),
            forall|k: int| 0 <= k < composite@.len() ==> (#[trigger] composite@[k]).wf(),
            views(out@) == factor_views(composite@.take(i as int)),
            forall|k: int| 0 <= k < out@.len() ==> (#[trigger] out@[k]).wf(),
        decreases composite@.len() - i,
    {
        let ghost old_out = out@;
        assert(composite@[i as int].wf());
        out.push(composite[i].duration_frames_factors.clone());
        assert(views(out@) == views(old_out).push(composite@[i as int].duration_frames_factors@));
        assert(factor_views(composite@.take(i + 1)) == factor_views(composite@.take(i as int)).push(
            composite@[i as int].duration_frames_factors@,
        ));
        i = i + 1;
    }
    assert(composite@.take(i as int) == composite@);
    out
}

/// How many times a pairing's duration goes into `number`, which it divides.
pub fn ratio(number: u128, c: &CompositeS) -> (r: u128)
    requires
        c.wf(),
        (number as int) % (c.duration_frames as int) == 0,
    ensures
        r * c.duration_frames == number,
{
    let d = c.duration_frames as u128;
    let q = number / d;
    assert(q * d == number) by (nonlinear_arith)
        requires
            d > 0,
            number % d == 0,
            q == number / d,
    ;
    q
}

/// The number that the merge of the pairings' factorizations stands for is a
/// multiple of every pairing's duration.
pub proof fn lemma_merged_multiple_of_durations(cs: Seq<CompositeS>, m: Seq<(u64, u64)>, i: int)
    requires
        forall|k: int| 0 <= k < cs.len() ==> (#[trigger] cs[k]).wf(),
        is_merge_of(factor_views(cs), m),
        0 <= i < cs.len(),
    ensures
        value(m) % (cs[i].duration_frames as int) == 0,
{
    let fs = factor_views(cs);
    assert forall|k: int| 0 <= k < fs.len() implies crate::factorization::entries_wf(#[trigger] fs[k]) by {
        assert(cs[k].wf());
    }
    assert(cs[i].wf());
    let q = lemma_merge_multiple(fs, m, i);
    let d = cs[i].duration_frames as int;
    assert(fs[i] == cs[i].duration_frames_factors@);
    assert(value(fs[i]) == d);
    assert(value(m) == q * d) by (nonlinear_arith)
        requires
            value(m) == value(fs[i]) * q,
            value(fs[i]) == d,
    ;
    lemma_mod_multiples_basic(q, d);
}

/// The quotient of the merged number by a pairing's duration times that duration
/// gives back the merged number exactly.
pub proof fn lemma_ratio_exact(cs: Seq<CompositeS>, m: Seq<(u64, u64)>, i: int)
    requires
        forall|k: int| 0 <= k < cs.len() ==> (#[trigger] cs[k]).wf(),
        is_merge_of(factor_views(cs), m),
        0 <= i < cs.len(),
    ensures
        (value(m) / (cs[i].duration_frames as int)) * cs[i].duration_frames == value(m),
{
    lemma_merged_multiple_of_durations(cs, m, i);
    let d = cs[i].duration_frames as int;
    let v = value(m);
    assert(d > 0);
    assert((v / d) * d == v) by (nonlinear_arith)
        requires
            d > 0,
            v % d == 0,
    ;
}

/// Everything worked out for one timing sequence: the pairings, the common and the
/// merged factorization, the merged number where it fits in `u128`, and for each
/// pairing how often its duration goes into that number.
pub struct Summary {
    pub composite: Vec<CompositeS>,
    pub common_factors: Factorization,
    pub merged_factors: Factorization,
    pub number: Option<u128>,
    pub loop_values: Vec<u128>,
}

/// Pairs the timings, merges the durations' factorizations into that of their least
/// common multiple, reconstructs that number and divides it by each duration. Where
/// the number exceeds `u128` it is `None` and no quotient is given.
pub fn summarize(timings: &Vec<u64>) -> (r: Summary)
    requires
        durations_fit(timings@),
        timings@.len() * timings@.len() <= usize::MAX,
    ensures
        is_combinations_of(r.composite@, timings@),
        is_common_of(factor_views(r.composite@), r.common_factors@),
        is_merge_of(factor_views(r.composite@), r.merged_factors@),
        r.number == reconstructed(r.merged_factors@),
        r.loop_values@.len() == if r.number is Some {
            r.composite@.len()
        } else {
            0
        },
        forall|k: int|
            0 <= k < r.loop_values@.len() ==> #[trigger] r.loop_values@[k]
                * r.composite@[k].duration_frames == value(r.merged_factors@),
{
    let composite = combinations(timings);
    let fs = factorizations(&composite);
    let common_factors = common(&fs);
    let merged_factors = merge(&fs);
    let number = reconstruct(&merged_factors);
    let mut loop_values: Vec<u128> = Vec::new();
    if let Some(num) = number {
        proof {
            lemma_value_pos(merged_factors@);
        }
        assert(num as int == value(merged_factors@));
        let mut i: usize = 0;
        while i < composite.len()
            invariant
                i <= composite@.len(),
                forall|k: int| 0 <= k < composite@.len() ==> (#[trigger] composite@[k]).wf(),
                is_merge_of(factor_views(composite@), merged_factors@),
                num as int == value(merged_factors@),
                loop_values@.len() == i,
                forall|k: int|
                    0 <= k < i ==> #[trigger] loop_values@[k] * composite@[k].duration_frames
                        == value(merged_factors@),
            decreases composite@.len() - i,
        {
            proof {
                lemma_merged_multiple_of_durations(composite@, merged_factors@, i as int);
            }
            loop_values.push(ratio(num, &composite[i]));
            i = i + 1;
        }
    }
    Summary { composite, common_factors, merged_factors, number, loop_values }
}

} // verus!
