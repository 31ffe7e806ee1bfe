use vstd::prelude::*;
use vstd::arithmetic::div_mod::{lemma_add_mod_noop, lemma_mul_mod_noop_left, lemma_mul_mod_noop_right};
use vstd::arithmetic::mul::lemma_mul_is_distributive_add;

verus! {

/// The largest modulus the library works with; it keeps every intermediate
/// product of two residues, plus a residue, inside a `u64`.
pub const MAX_MODULUS: u64 = 0xffff_ffff;

/// `sum(n, f) = f(0) + f(1) + ... + f(n - 1)`.
pub open spec fn sum(n: nat, f: spec_fn(int) -> int) -> int
    decreases n,
{
    if n == 0 {
        0
    } else {
        sum((n - 1) as nat, f) + f(n - 1)
    }
}

/// The weighted sum `coeffs[0] * cells[0] + ... + coeffs[n-1] * cells[n-1]`
/// over the integers, with `n` the length of `cells`.
pub open spec fn lin_comb(cells: Seq<u64>, coeffs: Seq<u64>) -> int {
    sum(cells.len(), |i: int| coeffs[i] as int * cells[i] as int)
}

/// The value of an encrypted weighted sum in the clear: `lin_comb` reduced modulo `p`.
pub open spec fn lin_comb_mod(cells: Seq<u64>, coeffs: Seq<u64>, p: u64) -> u64 {
    (lin_comb(cells, coeffs) % (p as int)) as u64
}

/// Every value of `s` lies in `[0, p)`.
pub open spec fn all_below(s: Seq<u64>, p: u64) -> bool {
    forall|i: int| 0 <= i < s.len() ==> #[trigger] s[i] < p
}

/// The weighted-sum operation of the channel accepts every argument.
pub open spec fn channel_total<C, L: Fn(&Vec<C>, &Vec<u64>, u64) -> C>(lc: L) -> bool {
    forall|cells: &Vec<C>, coeffs: &Vec<u64>, p: u64| #[trigger] lc.requires((cells, coeffs, p))
}

/// `r` is a possible result of the channel's weighted sum of `cells` against
/// `coeffs` modulo `p`.
pub open spec fn lc_returns<C, L: Fn(&Vec<C>, &Vec<u64>, u64) -> C>(
    lc: L,
    cells: Seq<C>,
    coeffs: Seq<u64>,
    p: u64,
    r: C,
) -> bool {
    exists|cv: &Vec<C>, kv: &Vec<u64>|
        cv@ == cells && kv@ == coeffs && #[trigger] lc.ensures((cv, kv, p), r)
}

/// Pointwise-equal terms have equal sums.
pub proof fn lemma_sum_ext(n: nat, f: spec_fn(int) -> int, g: spec_fn(int) -> int)
    requires
        forall|i: int| 0 <= i < n ==> #[trigger] f(i) == g(i),
    ensures
        sum(n, f) == sum(n, g),
    decreases n,
{
    if n > 0 {
        lemma_sum_ext((n - 1) as nat, f, g);
    }
}

/// The sum of pointwise sums is the sum of the two sums.
pub proof fn lemma_sum_add(n: nat, f: spec_fn(int) -> int, g: spec_fn(int) -> int, h: spec_fn(int) -> int)
    requires
        forall|i: int| 0 <= i < n ==> #[trigger] h(i) == f(i) + g(i),
    ensures
        sum(n, h) == sum(n, f) + sum(n, g),
    decreases n,
{
    if n > 0 {
        lemma_sum_add((n - 1) as nat, f, g, h);
    }
}

/// A common factor comes out of a sum.
pub proof fn lemma_sum_scale(n: nat, f: spec_fn(int) -> int, g: spec_fn(int) -> int, k: int)
    requires
        forall|i: int| 0 <= i < n ==> #[trigger] g(i) == k * f(i),
    ensures
        sum(n, g) == k * sum(n, f),
    decreases n,
{
    if n > 0 {
        lemma_sum_scale((n - 1) as nat, f, g, k);
        lemma_mul_is_distributive_add(k, sum((n - 1) as nat, f), f(n - 1));
    }
}

/// Terms congruent modulo `p` have sums congruent modulo `p`.
pub proof fn lemma_sum_mod(n: nat, f: spec_fn(int) -> int, g: spec_fn(int) -> int, p: int)
    requires
        p > 0,
        forall|i: int| 0 <= i < n ==> #[trigger] f(i) % p == g(i) % p,
    ensures
        sum(n, f) % p == sum(n, g) % p,
    decreases n,
{
    if n > 0 {
        let m = (n - 1) as nat;
        lemma_sum_mod(m, f, g, p);
        lemma_add_mod_noop(sum(m, f), f(m as int), p);
        lemma_add_mod_noop(sum(m, g), g(m as int), p);
    }
}

/// Splitting off the first term: `sum(n, f) = f(0) + sum(n - 1, g)` when `g(i) = f(i + 1)`.
pub proof fn lemma_sum_first(n: nat, f: spec_fn(int) -> int, g: spec_fn(int) -> int)
    requires
        n >= 1,
        forall|i: int| 0 <= i < n - 1 ==> #[trigger] g(i) == f(i + 1),
    ensures
        sum(n, f) == f(0) + sum((n - 1) as nat, g),
    decreases n,
{
    assert(sum(n, f) == sum((n - 1) as nat, f) + f(n - 1));
    if n > 1 {
        lemma_sum_first((n - 1) as nat, f, g);
        assert(sum((n - 1) as nat, g) == sum((n - 2) as nat, g) + g(n - 2));
    } else {
        assert(sum(0, f) == 0 && sum(0, g) == 0);
    }
}

/// A sum whose terms vanish past the first is its first term.
pub proof fn lemma_sum_first_only(n: nat, f: spec_fn(int) -> int)
    requires
        n >= 1,
        forall|i: int| 1 <= i < n ==> #[trigger] f(i) == 0,
    ensures
        sum(n, f) == f(0),
    decreases n,
{
    assert(sum(n, f) == sum((n - 1) as nat, f) + f(n - 1));
    if n > 1 {
        lemma_sum_first_only((n - 1) as nat, f);
    } else {
        assert(sum(0, f) == 0);
    }
}

/// `(a + k * b) % p == (a + k * b2) % p` when `b` and `b2` agree modulo `p`.
pub proof fn lemma_mod_replace_factor(a: int, k: int, b: int, b2: int, p: int)
    requires
        p > 0,
        b % p == b2 % p,
    ensures
        (a + k * b) % p == (a + k * b2) % p,
{
    lemma_mul_mod_noop_right(k, b, p);
    lemma_mul_mod_noop_right(k, b2, p);
    lemma_add_mod_noop(a, k * b, p);
    lemma_add_mod_noop(a, k * b2, p);
}

/// `(x % p) * y` and `x * y` agree modulo `p`.
pub proof fn lemma_mod_factor(x: int, y: int, p: int)
    requires
        p > 0,
    ensures
        ((x % p) * y) % p == (x * y) % p,
{
    lemma_mul_mod_noop_left(x, y, p);
}

} // verus!
