use vstd::prelude::*;

use crate::factorization::{entries_wf, exp_of, lemma_power_add, power, value, Factorization};

verus! {

/// Largest exponent of `p` over a sequence of factorizations; zero for none.
pub open spec fn max_exp(fs: Seq<Seq<(u64, u64)>>, p: u64) -> nat
    decreases fs.len(),
{
    if fs.len() == 0 {
        0
    } else {
        let a = max_exp(fs.drop_last(), p);
        let b = exp_of(fs.last(), p);
        if a >= b {
            a
        } else {
            b
        }
    }
}

/// Smallest exponent of `p` over a non-empty sequence of factorizations (zero where
/// some factorization lacks `p`); zero for none.
pub open spec fn min_exp(fs: Seq<Seq<(u64, u64)>>, p: u64) -> nat
    decreases fs.len(),
{
    if fs.len() == 0 {
        0
    } else if fs.len() == 1 {
        exp_of(fs[0], p)
    } else {
        let a = min_exp(fs.drop_last(), p);
        let b = exp_of(fs.last(), p);
        if a <= b {
            a
        } else {
            b
        }
    }
}

/// The entry lists of a sequence of factorizations.
pub open spec fn views(fs: Seq<Factorization>) -> Seq<Seq<(u64, u64)>> {
    fs.map_values(|f: Factorization| f@)
}

/// `m` holds each prime with the largest exponent that `fs` give it.
pub open spec fn is_merge_of(fs: Seq<Seq<(u64, u64)>>, m: Seq<(u64, u64)>) -> bool {
    &&& entries_wf(m)
    &&& forall|p: u64| #[trigger] exp_of(m, p) == max_exp(fs, p)
}

/// `m` holds the primes common to all of `fs`, each with its smallest exponent.
pub open spec fn is_common_of(fs: Seq<Seq<(u64, u64)>>, m: Seq<(u64, u64)>) -> bool {
    &&& entries_wf(m)
    &&& forall|p: u64| #[trigger] exp_of(m, p) == min_exp(fs, p)
}

/// All keys of `s` differ from `p`.
pub open spec fn lacks(s: Seq<(u64, u64)>, p: u64) -> bool {
    forall|k: int| 0 <= k < s.len() ==> #[trigger] s[k].0 != p
}

/// A key that no entry carries has exponent zero.
pub proof fn lemma_exp_absent(s: Seq<(u64, u64)>, p: u64)
    requires
        lacks(s, p),
    ensures
        exp_of(s, p) == 0,
    decreases s.len(),
{
    if s.len() > 0 {
        lemma_exp_absent(s.drop_last(), p);
    }
}

/// In well-formed entries the exponent of a key is that of its entry.
pub proof fn lemma_exp_at(s: Seq<(u64, u64)>, k: int)
    requires
        entries_wf(s),
        0 <= k < s.len(),
    ensures
        exp_of(s, s[k].0) == s[k].1,
    decreases s.len(),
{
    if k < s.len() - 1 {
        assert(s[k].0 < s[s.len() - 1].0);
        assert(entries_wf(s.drop_last()));
        lemma_exp_at(s.drop_last(), k);
    }
}

/// A key with a positive exponent has an entry.
pub proof fn lemma_exp_present(s: Seq<(u64, u64)>, p: u64)
    requires
        exp_of(s, p) > 0,
    ensures
        exists|k: int| 0 <= k < s.len() && #[trigger] s[k].0 == p,
    decreases s.len(),
{
    if s.last().0 != p {
        lemma_exp_present(s.drop_last(), p);
        let k = choose|k: int| 0 <= k < s.len() - 1 && #[trigger] s.drop_last()[k].0 == p;
        assert(s[k].0 == p);
    } else {
        assert(s[s.len() - 1].0 == p);
    }
}

/// Well-formed entries in which no key has a positive exponent are empty.
pub proof fn lemma_all_zero_empty(s: Seq<(u64, u64)>)
    requires
        entries_wf(s),
        forall|p: u64| #[trigger] exp_of(s, p) == 0,
    ensures
        s.len() == 0,
{
    if s.len() > 0 {
        lemma_exp_at(s, 0);
        assert(exp_of(s, s[0].0) == 0);
    }
}

/// Order facts that a two-pointer walk over `a` and `b` keeps, with `out` built from
/// `a[..i]` and `b[..j]`.
pub open spec fn walk_ordered(
    a: Seq<(u64, u64)>,
    b: Seq<(u64, u64)>,
    out: Seq<(u64, u64)>,
    i: int,
    j: int,
) -> bool {
    &&& 0 <= i <= a.len()
    &&& 0 <= j <= b.len()
    &&& forall|k: int| 0 <= k < out.len() ==> (i < a.len() ==> #[trigger] out[k].0 < a[i].0)
    &&& forall|k: int| 0 <= k < out.len() ==> (j < b.len() ==> #[trigger] out[k].0 < b[j].0)
    &&& forall|k: int| 0 <= k < i ==> (j < b.len() ==> #[trigger] a[k].0 < b[j].0)
    &&& forall|k: int| 0 <= k < j ==> (i < a.len() ==> #[trigger] b[k].0 < a[i].0)
}

/// Exponents of `a` and `b` combined by the larger, or by the smaller.
pub open spec fn combine(x: nat, y: nat, larger: bool) -> nat {
    if larger == (x >= y) {
        x
    } else {
        y
    }
}

/// Two-pointer walk over two well-formed factorizations. With `larger` each prime of
/// either is kept with its larger exponent; without, only the primes of both are kept,
/// with the smaller exponent.
fn walk(a: &Factorization, b: &Factorization, larger: bool) -> (r: Factorization)
    requires
        a.wf(),
        b.wf(),
    ensures
        r.wf(),
        forall|p: u64| #[trigger]
            exp_of(r@, p) == combine(exp_of(a@, p), exp_of(b@, p), larger),
{
    let mut out: Vec<(u64, u64)> = Vec::new();
    let mut i: usize = 0;
    let mut j: usize = 0;
    let alen = a.entries.len();
    let blen = b.entries.len();
    assert(a@.take(0).len() == 0 && b@.take(0).len() == 0);
    while i < alen || j < blen
        invariant
            a.wf(),
            b.wf(),
            alen == a@.len(),
            blen == b@.len(),
            entries_wf(out@),
            walk_ordered(a@, b@, out@, i as int, j as int),
            forall|p: u64| #[trigger]
                exp_of(out@, p) == combine(
                    exp_of(a@.take(i as int), p),
                    exp_of(b@.take(j as int), p),
                    larger,
                ),
        decreases alen + blen - i - j,
    {
        let ghost old_out = out@;
        let ghost oi = i as int;
        let ghost oj = j as int;
        if j == blen || (i < alen && a.entries[i].0 < b.entries[j].0) {
            let x = a.entries[i];
            proof {
                assert(lacks(b@.take(oj), x.0));
                lemma_exp_absent(b@.take(oj), x.0);
                assert(lacks(old_out, x.0));
                lemma_exp_absent(old_out, x.0);
            }
            if larger {
                out.push(x);
            }
            i = i + 1;
            proof {
                if i < alen {
                    assert(a@[oi].0 < a@[i as int].0);
                }
            }
        } else if i == alen || b.entries[j].0 < a.entries[i].0 {
            let y = b.entries[j];
            proof {
                assert(lacks(a@.take(oi), y.0));
                lemma_exp_absent(a@.take(oi), y.0);
                assert(lacks(old_out, y.0));
                lemma_exp_absent(old_out, y.0);
            }
            if larger {
                out.push(y);
            }
            j = j + 1;
            proof {
                if j < blen {
                    assert(b@[oj].0 < b@[j as int].0);
                }
            }
        } else {
            let x = a.entries[i];
            let y = b.entries[j];
            proof {
                assert(lacks(b@.take(oj), x.0));
                lemma_exp_absent(b@.take(oj), x.0);
                assert(lacks(a@.take(oi), y.0));
                lemma_exp_absent(a@.take(oi), y.0);
            }
            let e = if larger == (x.1 >= y.1) {
                x.1
            } else {
                y.1
            };
            out.push((x.0, e));
            i = i + 1;
            j = j + 1;
            proof {
                if i < alen {
                    assert(a@[oi].0 < a@[i as int].0);
                }
                if j < blen {
                    assert(b@[oj].0 < b@[j as int].0);
                }
            }
        }
        proof {
            assert forall|p: u64|
                #[trigger] exp_of(out@, p) == combine(
                    exp_of(a@.take(i as int), p),
                    exp_of(b@.take(j as int), p),
                    larger,
                ) by {
                assert(exp_of(old_out, p) == combine(
                    exp_of(a@.take(oi), p),
                    exp_of(b@.take(oj), p),
                    larger,
                ));
                if out@.len() > old_out.len() {
                    assert(out@.drop_last() == old_out);
                }
                if i > oi {
                    assert(a@.take(i as int).drop_last() == a@.take(oi));
                }
                if j > oj {
                    assert(b@.take(j as int).drop_last() == b@.take(oj));
                }
            }
        }
    }
    assert(a@.take(i as int) == a@);
    assert(b@.take(j as int) == b@);
    Factorization { entries: out }
}

/// The factorization of the least common multiple of two factorized numbers: each
/// prime with the larger of its two exponents.
pub fn merge_pair(a: &Factorization, b: &Factorization) -> (r: Factorization)
    requires
        a.wf(),
        b.wf(),
    ensures
        r.wf(),
        forall|p: u64| #[trigger]
            exp_of(r@, p) == combine(exp_of(a@, p), exp_of(b@, p), true),
{
    walk(a, b, true)
}

/// The factorization of the greatest common divisor of two factorized numbers: the
/// primes of both, each with the smaller of its two exponents.
pub fn common_pair(a: &Factorization, b: &Factorization) -> (r: Factorization)
    requires
        a.wf(),
        b.wf(),
    ensures
        r.wf(),
        forall|p: u64| #[trigger]
            exp_of(r@, p) == combine(exp_of(a@, p), exp_of(b@, p), false),
{
    walk(a, b, false)
}


/// Merges any number of factorizations into that of the least common multiple of
/// their numbers: every prime that occurs, with the largest exponent it has.
pub fn merge(fs: &Vec<Factorization>) -> (r: Factorization)
    requires
        forall|i: int| 0 <= i < fs@.len() ==> #[trigger] fs@[i].wf(),
    ensures
        is_merge_of(views(fs@), r@),
{
    let mut acc = Factorization::empty();
    let mut k: usize = 0;
    assert(views(fs@).take(0).len() == 0);
    while k < fs.len()
        invariant
            k <= fs@.len(),
            forall|i: int| 0 <= i < fs@.len() ==> #[trigger] fs@[i].wf(),
            is_merge_of(views(fs@).take(k as int), acc@),
        decreases fs@.len() - k,
    {
        acc = merge_pair(&acc, &fs[k]);
        let ghost vs = views(fs@);
        assert(vs.take(k + 1).drop_last() == vs.take(k as int));
        assert(vs.take(k + 1).last() == fs@[k as int]@);
        k = k + 1;
    }
    assert(views(fs@).take(k as int) == views(fs@));
    acc
}

/// The factorization of the greatest common divisor of the numbers: the primes that
/// occur in every factorization, each with the smallest exponent it has. Empty for no
/// factorizations.
pub fn common(fs: &Vec<Factorization>) -> (r: Factorization)
    requires
        forall|i: int| 0 <= i < fs@.len() ==> #[trigger] fs@[i].wf(),
    ensures
        is_common_of(views(fs@), r@),
{
    if fs.len() == 0 {
        return Factorization::empty();
    }
    let mut acc = fs[0].clone();
    let mut k: usize = 1;
    assert(acc@ == fs@[0]@);
    assert(fs@[0].wf());
    assert(views(fs@).take(1) == seq![fs@[0]@]);
    assert forall|p: u64| #[trigger] exp_of(acc@, p) == min_exp(views(fs@).take(1), p) by {
        assert(seq![fs@[0]@][0] == fs@[0]@);
    }
    assert(is_common_of(views(fs@).take(1), acc@));
    while k < fs.len()
        invariant
            1 <= k <= fs@.len(),
            forall|i: int| 0 <= i < fs@.len() ==> #[trigger] fs@[i].wf(),
            is_common_of(views(fs@).take(k as int), acc@),
        decreases fs@.len() - k,
    {
        acc = common_pair(&acc, &fs[k]);
        let ghost vs = views(fs@);
        assert(vs.take(k + 1).drop_last() == vs.take(k as int));
        assert(vs.take(k + 1).last() == fs@[k as int]@);
        k = k + 1;
    }
    assert(views(fs@).take(k as int) == views(fs@));
    acc
}

/// Merging two factorizations gives each prime the larger of its two exponents
/// (zero standing for a prime that one of them lacks).
pub proof fn lemma_merge_two(f1: Seq<(u64, u64)>, f2: Seq<(u64, u64)>, m: Seq<(u64, u64)>)
    requires
        is_merge_of(seq![f1, f2], m),
    ensures
        forall|p: u64| #[trigger]
            exp_of(m, p) == if exp_of(f1, p) >= exp_of(f2, p) {
                exp_of(f1, p)
            } else {
                exp_of(f2, p)
            },
{
    let fs = seq![f1, f2];
    assert(fs.drop_last() == seq![f1]);
    assert(seq![f1].drop_last() == Seq::<Seq<(u64, u64)>>::empty());
    assert forall|p: u64| #[trigger] exp_of(m, p) == max_exp(fs, p) implies exp_of(m, p) == if exp_of(
        f1,
        p,
    ) >= exp_of(f2, p) {
        exp_of(f1, p)
    } else {
        exp_of(f2, p)
    } by {
        assert(seq![f1].last() == f1);
        assert(max_exp(Seq::<Seq<(u64, u64)>>::empty(), p) == 0);
        assert(max_exp(seq![f1], p) == exp_of(f1, p));
    }
}

/// Merging no factorizations gives the empty factorization.
pub proof fn lemma_merge_none(m: Seq<(u64, u64)>)
    requires
        is_merge_of(Seq::empty(), m),
    ensures
        m.len() == 0,
{
    assert forall|p: u64| #[trigger] exp_of(m, p) == 0 by {
        assert(max_exp(Seq::empty(), p) == 0);
    }
    lemma_all_zero_empty(m);
}

/// No factorization gives a prime more than the largest exponent over all of them.
pub proof fn lemma_max_exp_ge(fs: Seq<Seq<(u64, u64)>>, i: int, p: u64)
    requires
        0 <= i < fs.len(),
    ensures
        exp_of(fs[i], p) <= max_exp(fs, p),
    decreases fs.len(),
{
    if i < fs.len() - 1 {
        lemma_max_exp_ge(fs.drop_last(), i, p);
    }
}

/// Where every exponent of `f` is at most that of `g`, the number of `f` divides
/// that of `g`; the result is the quotient.
pub proof fn lemma_divides(f: Seq<(u64, u64)>, g: Seq<(u64, u64)>) -> (q: int)
    requires
        entries_wf(f),
        entries_wf(g),
        forall|p: u64| #[trigger] exp_of(f, p) <= exp_of(g, p),
    ensures
        value(g) == value(f) * q,
    decreases g.len(),
{
    if g.len() == 0 {
        assert forall|p: u64| #[trigger] exp_of(f, p) == 0 by {
            assert(exp_of(g, p) == 0);
        }
        lemma_all_zero_empty(f);
        1
    } else {
        let x = g.last().0;
        let eg = g.last().1;
        let g1 = g.drop_last();
        assert(entries_wf(g1));
        assert(lacks(g1, x)) by {
            assert forall|k: int| 0 <= k < g1.len() implies #[trigger] g1[k].0 != x by {
                assert(g[k].0 < g[g.len() - 1].0);
            }
        }
        lemma_exp_absent(g1, x);
        if f.len() > 0 && f.last().0 == x {
            let ef = f.last().1;
            let f1 = f.drop_last();
            assert(entries_wf(f1));
            assert(lacks(f1, x)) by {
                assert forall|k: int| 0 <= k < f1.len() implies #[trigger] f1[k].0 != x by {
                    assert(f[k].0 < f[f.len() - 1].0);
                }
            }
            lemma_exp_absent(f1, x);
            assert forall|p: u64| #[trigger] exp_of(f1, p) <= exp_of(g1, p) by {
                assert(exp_of(f, p) <= exp_of(g, p));
            }
            let q1 = lemma_divides(f1, g1);
            assert(exp_of(f, x) <= exp_of(g, x));
            lemma_power_add(x as int, ef as nat, (eg - ef) as nat);
            let a = power(x as int, ef as nat);
            let b = power(x as int, (eg - ef) as nat);
            let vf1 = value(f1);
            assert(value(g) == vf1 * q1 * (a * b));
            assert(value(f) == vf1 * a);
            assert(vf1 * q1 * (a * b) == (vf1 * a) * (q1 * b)) by (nonlinear_arith);
            q1 * b
        } else {
            assert forall|p: u64| #[trigger] exp_of(f, p) <= exp_of(g1, p) by {
                assert(exp_of(f, p) <= exp_of(g, p));
                if p == x && exp_of(f, p) > 0 {
                    lemma_exp_present(f, p);
                    let k = choose|k: int| 0 <= k < f.len() && #[trigger] f[k].0 == p;
                    let y = f.last().0;
                    assert(f[k].0 < y);
                    lemma_exp_at(f, f.len() - 1);
                    assert(exp_of(g, y) > 0);
                    lemma_exp_present(g, y);
                    let m = choose|m: int| 0 <= m < g.len() && #[trigger] g[m].0 == y;
                    assert(m != g.len() - 1);
                    assert(g[m].0 < g[g.len() - 1].0);
                }
            }
            let q1 = lemma_divides(f, g1);
            let c = power(x as int, eg as nat);
            assert(value(g) == value(f) * q1 * c);
            assert(value(f) * q1 * c == value(f) * (q1 * c)) by (nonlinear_arith);
            q1 * c
        }
    }
}

/// The merge of factorizations is a multiple of each of their numbers.
pub proof fn lemma_merge_multiple(fs: Seq<Seq<(u64, u64)>>, m: Seq<(u64, u64)>, i: int) -> (q: int)
    requires
        forall|k: int| 0 <= k < fs.len() ==> entries_wf(#[trigger] fs[k]),
        is_merge_of(fs, m),
        0 <= i < fs.len(),
    ensures
        value(m) == value(fs[i]) * q,
{
    assert forall|p: u64| #[trigger] exp_of(fs[i], p) <= exp_of(m, p) by {
        lemma_max_exp_ge(fs, i, p);
    }
    lemma_divides(fs[i], m)
}

} // verus!
