use vstd::arithmetic::mul::lemma_mul_inequality;
use vstd::prelude::*;

verus! {

/// Largest value whose factorization is computed: above `(2^32 - 1)^2` the trial
/// division of the factoring routine would square a divisor past `u64::MAX`.
pub const FACTOR_LIMIT: u64 = 18446744065119617024;

/// `p` is a prime number.
pub open spec fn is_prime(p: int) -> bool {
    p >= 2 && forall|d: int| 2 <= d < p ==> #[trigger] (p % d) != 0
}

/// `b` raised to the power `e`.
pub open spec fn power(b: int, e: nat) -> int
    decreases e,
{
    if e == 0 {
        1
    } else {
        power(b, (e - 1) as nat) * b
    }
}

/// Product of a sequence of integers.
pub open spec fn product(s: Seq<u64>) -> int
    decreases s.len(),
{
    if s.len() == 0 {
        1
    } else {
        product(s.drop_last()) * s.last()
    }
}

/// The number that a list of `(prime, exponent)` entries stands for.
pub open spec fn value(s: Seq<(u64, u64)>) -> int
    decreases s.len(),
{
    if s.len() == 0 {
        1
    } else {
        value(s.drop_last()) * power(s.last().0 as int, s.last().1 as nat)
    }
}

/// Exponent of `p` in a list of entries; zero where `p` has no entry.
pub open spec fn exp_of(s: Seq<(u64, u64)>, p: u64) -> nat
    decreases s.len(),
{
    if s.len() == 0 {
        0
    } else if s.last().0 == p {
        s.last().1 as nat
    } else {
        exp_of(s.drop_last(), p)
    }
}

/// Entries with strictly ascending keys of at least 2 and exponents of at least 1.
pub open spec fn entries_wf(s: Seq<(u64, u64)>) -> bool {
    &&& forall|i: int, j: int| 0 <= i < j < s.len() ==> s[i].0 < s[j].0
    &&& forall|i: int| 0 <= i < s.len() ==> #[trigger] s[i].0 >= 2 && s[i].1 >= 1
}

/// Every key of the entries is a prime.
pub open spec fn all_prime(s: Seq<(u64, u64)>) -> bool {
    forall|i: int| 0 <= i < s.len() ==> is_prime(#[trigger] s[i].0 as int)
}

/// A number written as a product of powers, one entry `(base, exponent)` per base,
/// bases in ascending order. Those that `factorize` builds have prime bases.
pub struct Factorization {
    pub entries: Vec<(u64, u64)>,
}

impl View for Factorization {
    type V = Seq<(u64, u64)>;

    open spec fn view(&self) -> Seq<(u64, u64)> {
        self.entries@
    }
}

impl Factorization {
    pub open spec fn wf(&self) -> bool {
        entries_wf(self@)
    }

    /// The factorization of 1: no entries.
    pub fn empty() -> (r: Factorization)
        ensures
            r@ == Seq::<(u64, u64)>::empty(),
            r.wf(),
    {
        Factorization { entries: Vec::new() }
    }

    /// Exponent of `p`; zero where `p` does not divide the number.
    pub fn exponent(&self, p: u64) -> (r: u64)
        ensures
            r == exp_of(self@, p),
    {
        let mut i: usize = self.entries.len();
        assert(self@.take(i as int) == self@);
        while i > 0
            invariant
                i <= self@.len(),
                exp_of(self@, p) == exp_of(self@.take(i as int), p),
            decreases i,
        {
            let e = self.entries[i - 1];
            assert(self@.take(i as int).drop_last() == self@.take(i - 1));
            if e.0 == p {
                return e.1;
            }
            i = i - 1;
        }
        0
    }
}

impl Clone for Factorization {
    fn clone(&self) -> (r: Factorization)
        ensures
            r@ == self@,
    {
        let mut entries: Vec<(u64, u64)> = Vec::new();
        let mut i: usize = 0;
        while i < self.entries.len()
            invariant
                i <= self@.len(),
                entries@ == self@.take(i as int),
            decreases self@.len() - i,
        {
            entries.push(self.entries[i]);
            i = i + 1;
            assert(entries@ == self@.take(i as int));
        }
        assert(self@.take(i as int) == self@);
        Factorization { entries }
    }
}


/// Sorted, prime, and multiplying up to `x`: what a prime factor list of `x` is.
pub open spec fn is_prime_factor_list(r: Seq<u64>, x: u64) -> bool {
    &&& product(r) == x
    &&& forall|i: int| 0 <= i < r.len() ==> is_prime(#[trigger] r[i] as int)
    &&& forall|i: int, j: int| 0 <= i <= j < r.len() ==> r[i] <= r[j]
}

/// Relies on primes::factors: for `x >= 2` the prime factors of `x` in ascending
/// order, each as often as it divides `x`; for `x <= 1` an empty list. Its trial
/// division squares each odd candidate, which stays in range up to `FACTOR_LIMIT`.
#[verifier::external_body]
fn prime_factors(x: u64) -> (r: Vec<u64>)
    requires
        x <= FACTOR_LIMIT,
    ensures
        x <= 1 ==> r@.len() == 0,
        x >= 1 ==> is_prime_factor_list(r@, x),
{
    primes::factors(x)
}

/// A power of a base of at least 1 is at least 1.
pub proof fn lemma_power_pos(b: int, e: nat)
    requires
        b >= 1,
    ensures
        power(b, e) >= 1,
    decreases e,
{
    if e > 0 {
        lemma_power_pos(b, (e - 1) as nat);
        let q = power(b, (e - 1) as nat);
        assert(q * b >= 1) by (nonlinear_arith)
            requires
                q >= 1,
                b >= 1,
        ;
    }
}

/// A power of a base of at least 1 grows with the exponent.
pub proof fn lemma_power_mono(b: int, k: nat, e: nat)
    requires
        b >= 1,
        k <= e,
    ensures
        1 <= power(b, k) <= power(b, e),
    decreases e,
{
    lemma_power_pos(b, k);
    if e > k {
        lemma_power_mono(b, k, (e - 1) as nat);
        let q = power(b, (e - 1) as nat);
        assert(q <= q * b) by (nonlinear_arith)
            requires
                q >= 1,
                b >= 1,
        ;
    }
}

/// Exponents add under multiplication of powers of one base.
pub proof fn lemma_power_add(b: int, m: nat, n: nat)
    ensures
        power(b, m + n) == power(b, m) * power(b, n),
    decreases n,
{
    if n > 0 {
        lemma_power_add(b, m, (n - 1) as nat);
        assert(power(b, m + n) == power(b, (m + n - 1) as nat) * b);
        let x = power(b, m);
        let y = power(b, (n - 1) as nat);
        assert(x * y * b == x * (y * b)) by (nonlinear_arith);
    }
}

/// The value of well-formed entries is at least 1.
pub proof fn lemma_value_pos(s: Seq<(u64, u64)>)
    requires
        entries_wf(s),
    ensures
        value(s) >= 1,
    decreases s.len(),
{
    if s.len() > 0 {
        let t = s.drop_last();
        assert(entries_wf(t));
        lemma_value_pos(t);
        lemma_power_pos(s.last().0 as int, s.last().1 as nat);
        let a = value(t);
        let b = power(s.last().0 as int, s.last().1 as nat);
        assert(a * b >= 1) by (nonlinear_arith)
            requires
                a >= 1,
                b >= 1,
        ;
    }
}

/// The value of a prefix of well-formed entries is at least 1 and at most the
/// value of a longer prefix.
pub proof fn lemma_value_prefix_mono(s: Seq<(u64, u64)>, i: int, j: int)
    requires
        entries_wf(s),
        0 <= i <= j <= s.len(),
    ensures
        1 <= value(s.take(i)) <= value(s.take(j)),
    decreases j,
{
    if j > i {
        lemma_value_prefix_mono(s, i, j - 1);
        assert(s.take(j).drop_last() == s.take(j - 1));
        let p = s[j - 1];
        assert(p.0 >= 2);
        lemma_power_pos(p.0 as int, p.1 as nat);
        let a = value(s.take(j - 1));
        let b = power(p.0 as int, p.1 as nat);
        assert(a <= a * b) by (nonlinear_arith)
            requires
                a >= 1,
                b >= 1,
        ;
    } else {
        assert(entries_wf(s.take(i)));
        lemma_value_pos(s.take(i));
    }
}

/// Factorization of a positive integer: `n` is the product of the entries' prime
/// powers, each key a prime.
pub fn factorize(n: u64) -> (r: Factorization)
    requires
        1 <= n <= FACTOR_LIMIT,
    ensures
        r.wf(),
        all_prime(r@),
        value(r@) == n,
{
    let list = prime_factors(n);
    let mut entries: Vec<(u64, u64)> = Vec::new();
    let mut i: usize = 0;
    while i < list.len()
        invariant
            is_prime_factor_list(list@, n),
            i <= list@.len(),
            entries_wf(entries@),
            all_prime(entries@),
            value(entries@) == product(list@.take(i as int)),
            i == 0 <==> entries@.len() == 0,
            i > 0 ==> entries@.last().0 == list@[i - 1],
            forall|k: int| 0 <= k < entries@.len() ==> #[trigger] entries@[k].1 <= i,
        decreases list@.len() - i,
    {
        let x = list[i];
        assert(list@.take(i + 1).drop_last() == list@.take(i as int));
        assert(is_prime(list@[i as int] as int));
        let len = entries.len();
        if len > 0 && entries[len - 1].0 == x {
            let e = entries[len - 1].1;
            let ghost rest = entries@.drop_last();
            let ghost old_value = value(entries@);
            entries.set(len - 1, (x, e + 1));
            assert(entries@.drop_last() == rest);
            assert(value(entries@) == value(rest) * (power(x as int, e as nat) * x));
            assert(value(entries@) == old_value * x) by (nonlinear_arith)
                requires
                    value(entries@) == value(rest) * (power(x as int, e as nat) * x),
                    old_value == value(rest) * power(x as int, e as nat),
            ;
        } else {
            proof {
                if len > 0 {
                    assert(list@[i - 1] <= x);
                    assert forall|k: int| 0 <= k < entries@.len() implies entries@[k].0 < x by {
                        if k < len - 1 {
                            assert(entries@[k].0 < entries@[len - 1].0);
                        }
                    }
                }
            }
            let ghost old_entries = entries@;
            entries.push((x, 1));
            assert(entries@.drop_last() == old_entries);
            assert(power(x as int, 0) == 1);
            assert(power(x as int, 1) == x);
        }
        i = i + 1;
    }
    assert(list@.take(i as int) == list@);
    Factorization { entries }
}

/// The number that entries stand for, where it fits in `u128`.
pub open spec fn reconstructed(s: Seq<(u64, u64)>) -> Option<u128> {
    if value(s) <= u128::MAX {
        Some(value(s) as u128)
    } else {
        None
    }
}

/// The number that a factorization stands for, or `None` where it exceeds `u128`.
pub fn reconstruct(f: &Factorization) -> (r: Option<u128>)
    requires
        f.wf(),
    ensures
        r == reconstructed(f@),
{
    let mut acc: u128 = 1;
    let mut i: usize = 0;
    assert(f@.take(0).len() == 0);
    while i < f.entries.len()
        invariant
            f.wf(),
            i <= f@.len(),
            acc == value(f@.take(i as int)),
        decreases f@.len() - i,
    {
        let (p, e) = f.entries[i];
        assert(p >= 2);
        assert(f@.take(i + 1).drop_last() == f@.take(i as int));
        let ghost base = value(f@.take(i as int));
        let mut k: u64 = 0;
        while k < e
            invariant
                f.wf(),
                i < f@.len(),
                p == f@[i as int].0,
                e == f@[i as int].1,
                p >= 2,
                base == value(f@.take(i as int)),
                value(f@.take(i + 1)) == base * power(p as int, e as nat),
                k <= e,
                acc == base * power(p as int, k as nat),
            decreases e - k,
        {
            match acc.checked_mul(p as u128) {
                Some(v) => {
                    acc = v;
                    assert(acc == base * power(p as int, (k + 1) as nat)) by (nonlinear_arith)
                        requires
                            acc == base * power(p as int, k as nat) * p,
                            power(p as int, (k + 1) as nat) == power(p as int, k as nat) * p,
                    ;
                },
                None => {
                    proof {
                        lemma_value_prefix_mono(f@, 0, i as int);
                        lemma_power_mono(p as int, (k + 1) as nat, e as nat);
                        let a = power(p as int, (k + 1) as nat);
                        let b = power(p as int, e as nat);
                        assert(base * a <= base * b) by (nonlinear_arith)
                            requires
                                a <= b,
                                base >= 1,
                        ;
                        assert(acc * p == base * a) by (nonlinear_arith)
                            requires
                                acc == base * power(p as int, k as nat),
                                a == power(p as int, k as nat) * p,
                        ;
                        lemma_value_prefix_mono(f@, i + 1, f@.len() as int);
                        assert(f@.take(f@.len() as int) == f@);
                        assert(value(f@) > u128::MAX);
                    }
                    return None;
                },
            }
            k = k + 1;
        }
        i = i + 1;
    }
    assert(f@.take(i as int) == f@);
    Some(acc)
}

/// Reconstructing the factorization of a positive integer gives the integer back.
pub proof fn lemma_reconstruct_factorization(n: u64, f: Seq<(u64, u64)>)
    requires
        n >= 1,
        entries_wf(f),
        all_prime(f),
        value(f) == n,
    ensures
        reconstructed(f) == Some(n as u128),
{
}

/// The only factorization of 1 is the empty one, and the empty factorization
/// reconstructs to 1.
pub proof fn lemma_factorization_of_one(f: Seq<(u64, u64)>)
    requires
        entries_wf(f),
    ensures
        value(f) == 1 <==> f.len() == 0,
        reconstructed(Seq::empty()) == Some(1u128),
{
    if f.len() > 0 {
        let t = f.drop_last();
        let (p, e) = f.last();
        assert(entries_wf(t));
        lemma_value_pos(t);
        lemma_power_mono(p as int, 1, e as nat);
        assert(power(p as int, 0) == 1);
        assert(power(p as int, 1) == p);
        let a = value(t);
        let b = power(p as int, e as nat);
        assert(a * b >= 2) by (nonlinear_arith)
            requires
                a >= 1,
                b >= 2,
        ;
    }
    assert(value(Seq::<(u64, u64)>::empty()) == 1);
}

} // verus!
