use vstd::prelude::*;
use crate::error::ConfigError;
use crate::zp::{
    all_below, channel_total, lc_returns, lemma_mod_factor, lemma_mod_replace_factor, lemma_sum_add,
    lemma_sum_ext, lemma_sum_first, lemma_sum_first_only, lemma_sum_mod, lemma_sum_scale, lin_comb,
    lin_comb_mod, sum, MAX_MODULUS,
};

verus! {

/// Feedback polynomial of degree 32 over `Z_17`, highest degree first.
pub open spec fn taps_17_32() -> Seq<u64> {
    seq![3, 14, 6, 13, 15, 7, 1, 9, 13, 1, 16, 13, 3, 14, 15, 6, 13, 6, 5, 2, 5, 14, 14, 14, 10,
        12, 6, 1, 14, 14, 14, 8, 1]
}

/// Feedback polynomial of degree 64 over `Z_17`, highest degree first.
pub open spec fn taps_17_64() -> Seq<u64> {
    seq![3, 12, 9, 15, 12, 6, 3, 9, 16, 3, 16, 15, 14, 13, 3, 16, 8, 15, 4, 7, 10, 14, 11, 13, 10,
        1, 1, 10, 13, 14, 15, 10, 6, 14, 14, 16, 3, 6, 7, 6, 6, 4, 9, 8, 8, 1, 8, 4, 4, 11, 12, 8,
        12, 15, 9, 3, 16, 6, 6, 8, 4, 6, 4, 9, 1]
}

/// The tap vector registered for a `(modulus, size)` pair, if any.
pub open spec fn registered_taps(p: u64, size: usize) -> Option<Seq<u64>> {
    if p == 17 && size == 32 {
        Some(taps_17_32())
    } else if p == 17 && size == 64 {
        Some(taps_17_64())
    } else {
        None
    }
}

/// The error `LFSR::new(size, p)` reports, or `None` when it succeeds.
pub open spec fn lfsr_setup_error(size: usize, p: u64) -> Option<ConfigError> {
    match registered_taps(p, size) {
        None => Some(ConfigError::UnregisteredTaps),
        Some(t) => if t.len() != size + 1 {
            Some(ConfigError::TapCount)
        } else if !all_below(t, p) {
            Some(ConfigError::TapOutOfRange)
        } else {
            None
        },
    }
}

/// The coefficient vector `[1, 0, ..., 0]` of length `n`.
pub open spec fn one_hot(n: nat) -> Seq<u64> {
    Seq::new(n, |i: int| if i == 0 { 1u64 } else { 0u64 })
}

/// One silent step of the coefficient vector: rotate right by one, clear
/// position 0, then add `last * taps[i]` modulo `p` at every position `i`,
/// where `last` is the coefficient that was in the final slot.
pub open spec fn next_coefficients(c: Seq<u64>, taps: Seq<u64>, p: u64) -> Seq<u64> {
    Seq::new(
        c.len(),
        |i: int|
            (((if i == 0 { 0 } else { c[i - 1] as int }) + c[c.len() - 1] as int * taps[i] as int)
                % (p as int)) as u64,
    )
}

/// The coefficient vector after `t` silent steps from `c`.
pub open spec fn coefficients_after(c: Seq<u64>, taps: Seq<u64>, p: u64, t: nat) -> Seq<u64>
    decreases t,
{
    if t == 0 {
        c
    } else {
        next_coefficients(coefficients_after(c, taps, p, (t - 1) as nat), taps, p)
    }
}

/// A linear-feedback shift register over `Z_p` whose cells are ciphertexts of
/// type `C`.
///
/// The encrypted cells are never rotated by silent clocking: only the clear
/// coefficient vector moves, and an output is the encrypted weighted sum of
/// the seeded cells against it.
#[derive(Clone, Debug)]
pub struct LFSR<C> {
    length: usize,
    p: u64,
    pub state: Vec<C>,
    taps: Vec<u64>,
    current_coefficients: Vec<u64>,
}

impl<C> LFSR<C> {
    /// Number of cells.
    pub closed spec fn size(&self) -> nat {
        self.length as nat
    }

    /// The modulus `p`.
    pub closed spec fn modulus(&self) -> u64 {
        self.p
    }

    /// The `size + 1` feedback coefficients, highest degree first.
    pub closed spec fn taps(&self) -> Seq<u64> {
        self.taps@
    }

    /// The clear coefficient vector against which the next output is taken.
    pub closed spec fn coefficients(&self) -> Seq<u64> {
        self.current_coefficients@
    }

    /// The register's invariant: shapes agree and every clear value is a
    /// residue modulo `p`.
    pub closed spec fn wf(&self) -> bool {
        &&& 1 <= self.length
        &&& 2 <= self.p <= MAX_MODULUS
        &&& self.taps@.len() == self.length + 1
        &&& self.current_coefficients@.len() == self.length
        &&& all_below(self.taps@, self.p)
        &&& all_below(self.current_coefficients@, self.p)
    }

    /// The encrypted cells, index 0 first.
    pub closed spec fn cells(&self) -> Seq<C> {
        self.state@
    }

    /// The register is well formed and holds `size` encrypted cells.
    pub open spec fn seeded(&self) -> bool {
        self.wf() && self.cells().len() == self.size()
    }

    /// Facts about a well-formed register that callers rely on.
    pub proof fn lemma_wf(&self)
        requires
            self.wf(),
        ensures
            self.size() >= 1,
            2 <= self.modulus() <= MAX_MODULUS,
            self.taps().len() == self.size() + 1,
            self.coefficients().len() == self.size(),
            all_below(self.taps(), self.modulus()),
            all_below(self.coefficients(), self.modulus()),
    {
    }

    /// Builds an unseeded register of `size` cells over `Z_p` with the
    /// registered feedback polynomial and the coefficient vector `[1, 0, ..., 0]`.
    pub fn new(size: usize, p: u64) -> (r: Result<Self, ConfigError>)
        ensures
            match r {
                Ok(l) => {
                    &&& lfsr_setup_error(size, p) is None
                    &&& l.wf()
                    &&& registered_taps(p, size) == Some(l.taps())
                    &&& l.size() == size
                    &&& l.modulus() == p
                    &&& l.coefficients() == one_hot(size as nat)
                    &&& l.cells().len() == 0
                },
                Err(e) => lfsr_setup_error(size, p) == Some(e),
            },
    {
        let taps = match tap_table(p, size) {
            Some(t) => t,
            None => return Err(ConfigError::UnregisteredTaps),
        };
        if taps.len() - 1 != size {
            return Err(ConfigError::TapCount);
        }
        let mut i: usize = 0;
        while i < taps.len()
            invariant
                0 <= i <= taps.len(),
                taps@.len() == size + 1,
                registered_taps(p, size) == Some(taps@),
                forall|j: int| 0 <= j < i ==> taps@[j] < p,
            decreases taps.len() - i,
        {
            if taps[i] >= p {
                assert(!all_below(taps@, p));
                return Err(ConfigError::TapOutOfRange);
            }
            i += 1;
        }
        let mut coefficients: Vec<u64> = Vec::new();
        let mut j: usize = 0;
        while j < size
            invariant
                0 <= j <= size,
                coefficients@ == one_hot(j as nat),
            decreases size - j,
        {
            if j == 0 {
                coefficients.push(1);
            } else {
                coefficients.push(0);
            }
            assert(coefficients@ =~= one_hot((j + 1) as nat));
            j += 1;
        }
        Ok(LFSR { length: size, p, state: Vec::new(), taps, current_coefficients: coefficients })
    }
}

impl<C> LFSR<C> {
    /// `other` is `self` with, at most, another coefficient vector.
    pub open spec fn same_register(&self, other: &Self) -> bool {
        &&& other.size() == self.size()
        &&& other.modulus() == self.modulus()
        &&& other.taps() == self.taps()
        &&& other.cells() == self.cells()
    }

    /// The error seeding with `seed` reports, or `None` when it succeeds.
    pub open spec fn seed_error(&self, seed: Seq<u64>) -> Option<ConfigError> {
        if seed.len() != self.size() {
            Some(ConfigError::SeedLength)
        } else if !all_below(seed, self.modulus()) {
            Some(ConfigError::SeedOutOfRange)
        } else {
            None
        }
    }

    /// `self` is `before` with its cells replaced by the encryptions of
    /// `seed` in reverse order: cell `i` encrypts `seed[n - 1 - i]`.
    pub open spec fn seeded_from<E: Fn(u64, u64) -> C>(&self, before: &Self, seed: Seq<u64>, encrypt: E) -> bool {
        &&& self.seeded()
        &&& self.size() == before.size()
        &&& self.modulus() == before.modulus()
        &&& self.taps() == before.taps()
        &&& self.coefficients() == before.coefficients()
        &&& self.cells().len() == seed.len()
        &&& forall|i: int|
            0 <= i < seed.len() ==> encrypt.ensures(
                (seed[seed.len() - 1 - i], before.modulus()),
                #[trigger] self.cells()[i],
            )
    }

    /// Encrypts `seed` in reverse order into the cells, so that cell 0 holds
    /// the last seed value; `encrypt(v, p)` is the channel's encryption of `v`.
    pub fn encrypt_and_seed<E: Fn(u64, u64) -> C>(&mut self, seed: &Vec<u64>, encrypt: &E) -> (r:
        Result<(), ConfigError>)
        requires
            old(self).wf(),
            forall|v: u64, m: u64| #[trigger] encrypt.requires((v, m)),
        ensures
            final(self).wf(),
            final(self).size() == old(self).size(),
            final(self).modulus() == old(self).modulus(),
            final(self).taps() == old(self).taps(),
            final(self).coefficients() == old(self).coefficients(),
            r is Ok <==> old(self).seed_error(seed@) is None,
            r is Ok ==> final(self).seeded_from(old(self), seed@, *encrypt),
            r is Err ==> {
                &&& final(self).cells() == old(self).cells()
                &&& old(self).seed_error(seed@) == Some(r->Err_0)
            },
    {
        if seed.len() != self.length {
            return Err(ConfigError::SeedLength);
        }
        let mut i: usize = 0;
        while i < seed.len()
            invariant
                0 <= i <= seed.len(),
                seed@.len() == self.length,
                *self == *old(self),
                self.wf(),
                forall|j: int| 0 <= j < i ==> seed@[j] < self.p,
            decreases seed.len() - i,
        {
            if seed[i] >= self.p {
                assert(!all_below(seed@, self.p));
                return Err(ConfigError::SeedOutOfRange);
            }
            i += 1;
        }
        let n = seed.len();
        let mut cells: Vec<C> = Vec::new();
        let mut k: usize = 0;
        while k < n
            invariant
                0 <= k <= n,
                n == seed@.len(),
                cells@.len() == k,
                forall|v: u64, m: u64| #[trigger] encrypt.requires((v, m)),
                forall|j: int|
                    0 <= j < k ==> encrypt.ensures(
                        (seed@[n - 1 - j], self.p),
                        #[trigger] cells@[j],
                    ),
            decreases n - k,
        {
            let c = encrypt(seed[n - 1 - k], self.p);
            cells.push(c);
            k += 1;
        }
        self.state = cells;
        Ok(())
    }

    /// The encrypted weighted sum of the cells against the current
    /// coefficients: the register's content at its current virtual clock.
    pub fn silent_output<L: Fn(&Vec<C>, &Vec<u64>, u64) -> C>(&self, lc: &L) -> (r: C)
        requires
            self.seeded(),
            channel_total(*lc),
        ensures
            lc_returns(*lc, self.cells(), self.coefficients(), self.modulus(), r),
    {
        let r = lc(&self.state, &self.current_coefficients, self.p);
        assert(lc.ensures((&self.state, &self.current_coefficients, self.p), r));
        r
    }

    /// Advances the clear coefficient vector by one step.
    fn silent_clock_internal(&mut self)
        requires
            old(self).wf(),
        ensures
            final(self).wf(),
            old(self).same_register(final(self)),
            final(self).coefficients() == next_coefficients(
                old(self).coefficients(),
                old(self).taps(),
                old(self).modulus(),
            ),
    {
        let n = self.length;
        let p = self.p;
        let last = self.current_coefficients[n - 1];
        let mut next: Vec<u64> = Vec::new();
        let mut i: usize = 0;
        while i < n
            invariant
                0 <= i <= n,
                n == self.length,
                p == self.p,
                self.wf(),
                last == self.current_coefficients@[n - 1],
                next@.len() == i,
                forall|j: int|
                    0 <= j < i ==> #[trigger] next@[j] == next_coefficients(
                        self.current_coefficients@,
                        self.taps@,
                        p,
                    )[j],
                all_below(next@, p),
            decreases n - i,
        {
            let shifted: u64 = if i == 0 { 0 } else { self.current_coefficients[i - 1] };
            let t = self.taps[i];
            assert(shifted < p && t < p && last < p);
            assert(last as int * t as int <= (MAX_MODULUS - 1) as int * (MAX_MODULUS - 1) as int)
                by (nonlinear_arith)
                requires
                    last < MAX_MODULUS,
                    t < MAX_MODULUS,
            ;
            let v = (shifted + last * t) % p;
            next.push(v);
            i += 1;
        }
        assert(next@ =~= next_coefficients(self.current_coefficients@, self.taps@, p));
        self.current_coefficients = next;
    }

    /// Emits the output at the current virtual clock, then advances the
    /// coefficient vector: output first, as a Fibonacci register does.
    pub fn silent_clock<L: Fn(&Vec<C>, &Vec<u64>, u64) -> C>(&mut self, lc: &L) -> (r: C)
        requires
            old(self).seeded(),
            channel_total(*lc),
        ensures
            final(self).seeded(),
            old(self).same_register(final(self)),
            lc_returns(*lc, old(self).cells(), old(self).coefficients(), old(self).modulus(), r),
            final(self).coefficients() == next_coefficients(
                old(self).coefficients(),
                old(self).taps(),
                old(self).modulus(),
            ),
    {
        let output = self.silent_output(lc);
        self.silent_clock_internal();
        output
    }

    /// The textbook encrypted clock: the feedback is the weighted sum of the
    /// cells against the first `size` taps; the cells shift left by one, the
    /// feedback enters last, and the old cell 0 is returned.
    pub fn clock_fibonacci<L: Fn(&Vec<C>, &Vec<u64>, u64) -> C>(&mut self, lc: &L) -> (r: C)
        requires
            old(self).seeded(),
            channel_total(*lc),
        ensures
            final(self).seeded(),
            final(self).size() == old(self).size(),
            final(self).modulus() == old(self).modulus(),
            final(self).taps() == old(self).taps(),
            final(self).coefficients() == old(self).coefficients(),
            r == old(self).cells()[0],
            final(self).cells().drop_last() == old(self).cells().skip(1),
            lc_returns(
                *lc,
                old(self).cells(),
                old(self).taps().take(old(self).size() as int),
                old(self).modulus(),
                final(self).cells().last(),
            ),
    {
        let n = self.length;
        let mut feedback_taps: Vec<u64> = Vec::new();
        let mut i: usize = 0;
        while i < n
            invariant
                0 <= i <= n,
                n == self.length,
                self.wf(),
                feedback_taps@ == self.taps@.take(i as int),
            decreases n - i,
        {
            feedback_taps.push(self.taps[i]);
            assert(feedback_taps@ =~= self.taps@.take(i + 1));
            i += 1;
        }
        let feedback = lc(&self.state, &feedback_taps, self.p);
        assert(lc.ensures((&self.state, &feedback_taps, self.p), feedback));
        let output = self.state.remove(0);
        self.state.push(feedback);
        assert(self.state@.drop_last() =~= old(self).state@.skip(1));
        output
    }

    /// Decrypts every cell with `decrypt`; a diagnostic aid.
    pub fn decrypt_current_state<D: Fn(&C) -> u64>(&self, decrypt: &D) -> (r: Vec<u64>)
        requires
            forall|c: &C| #[trigger] decrypt.requires((c,)),
        ensures
            r@.len() == self.cells().len(),
            forall|i: int|
                0 <= i < r@.len() ==> decrypt.ensures((&self.cells()[i],), #[trigger] r@[i]),
    {
        let mut out: Vec<u64> = Vec::new();
        let mut i: usize = 0;
        while i < self.state.len()
            invariant
                0 <= i <= self.state@.len(),
                out@.len() == i,
                forall|c: &C| #[trigger] decrypt.requires((c,)),
                forall|j: int|
                    0 <= j < i ==> decrypt.ensures((&self.state@[j],), #[trigger] out@[j]),
            decreases self.state@.len() - i,
        {
            let v = decrypt(&self.state[i]);
            out.push(v);
            i += 1;
        }
        out
    }
}

/// The registered tap vector for `(p, size)`.
fn tap_table(p: u64, size: usize) -> (r: Option<Vec<u64>>)
    ensures
        match r {
            Some(t) => registered_taps(p, size) == Some(t@),
            None => registered_taps(p, size) is None,
        },
{
    if p == 17 && size == 32 {
        let t = vec![3, 14, 6, 13, 15, 7, 1, 9, 13, 1, 16, 13, 3, 14, 15, 6, 13, 6, 5, 2, 5, 14,
            14, 14, 10, 12, 6, 1, 14, 14, 14, 8, 1];
        assert(t@ =~= taps_17_32());
        Some(t)
    } else if p == 17 && size == 64 {
        let t = vec![3, 12, 9, 15, 12, 6, 3, 9, 16, 3, 16, 15, 14, 13, 3, 16, 8, 15, 4, 7, 10,
            14, 11, 13, 10, 1, 1, 10, 13, 14, 15, 10, 6, 14, 14, 16, 3, 6, 7, 6, 6, 4, 9, 8, 8, 1,
            8, 4, 4, 11, 12, 8, 12, 15, 9, 3, 16, 6, 6, 8, 4, 6, 4, 9, 1];
        assert(t@ =~= taps_17_64());
        Some(t)
    } else {
        None
    }
}

/// One clock of the clear Fibonacci register: cell 0 leaves, the cells
/// shift left, and the feedback `sum taps[i] * s[i] mod p` enters last.
pub open spec fn fibonacci_step(s: Seq<u64>, taps: Seq<u64>, p: u64) -> Seq<u64> {
    s.skip(1).push(lin_comb_mod(s, taps, p))
}

/// The clear register after `t` Fibonacci clocks from `s`.
pub open spec fn fibonacci_after(s: Seq<u64>, taps: Seq<u64>, p: u64, t: nat) -> Seq<u64>
    decreases t,
{
    if t == 0 {
        s
    } else {
        fibonacci_step(fibonacci_after(s, taps, p, (t - 1) as nat), taps, p)
    }
}

/// The `j`-th output of the clear Fibonacci register (its cell 0 after `j` clocks).
pub open spec fn fibonacci_output(s: Seq<u64>, taps: Seq<u64>, p: u64, j: nat) -> int {
    fibonacci_after(s, taps, p, j)[0] as int
}

proof fn lemma_coefficients_len(c: Seq<u64>, taps: Seq<u64>, p: u64, t: nat)
    ensures
        coefficients_after(c, taps, p, t).len() == c.len(),
    decreases t,
{
    if t > 0 {
        lemma_coefficients_len(c, taps, p, (t - 1) as nat);
    }
}

proof fn lemma_fibonacci_shape(s: Seq<u64>, taps: Seq<u64>, p: u64, t: nat)
    requires
        s.len() >= 1,
        p >= 2,
        all_below(s, p),
    ensures
        fibonacci_after(s, taps, p, t).len() == s.len(),
        all_below(fibonacci_after(s, taps, p, t), p),
    decreases t,
{
    if t > 0 {
        lemma_fibonacci_shape(s, taps, p, (t - 1) as nat);
        let prev = fibonacci_after(s, taps, p, (t - 1) as nat);
        let next = fibonacci_after(s, taps, p, t);
        assert forall|i: int| 0 <= i < next.len() implies #[trigger] next[i] < p by {
            if i < next.len() - 1 {
                assert(next[i] == prev[i + 1]);
            }
        }
    }
}

/// Cell `j` after `t + m` clocks is cell `j + m` after `t` clocks.
proof fn lemma_fibonacci_shift(s: Seq<u64>, taps: Seq<u64>, p: u64, t: nat, m: nat, j: nat)
    requires
        s.len() >= 1,
        p >= 2,
        all_below(s, p),
        j + m < s.len(),
    ensures
        fibonacci_after(s, taps, p, t + m)[j as int] == fibonacci_after(s, taps, p, t)[(j + m) as int],
    decreases m,
{
    if m > 0 {
        lemma_fibonacci_shift(s, taps, p, t, (m - 1) as nat, j + 1);
        lemma_fibonacci_shape(s, taps, p, (t + m - 1) as nat);
        assert(fibonacci_after(s, taps, p, t + m) == fibonacci_step(
            fibonacci_after(s, taps, p, (t + m - 1) as nat),
            taps,
            p,
        ));
    }
}

/// The output `n` clocks on is the feedback of the register now.
proof fn lemma_fibonacci_recurrence(s: Seq<u64>, taps: Seq<u64>, p: u64, m: nat)
    requires
        s.len() >= 1,
        p >= 2,
        all_below(s, p),
    ensures
        fibonacci_output(s, taps, p, m + s.len()) == lin_comb(fibonacci_after(s, taps, p, m), taps)
            % (p as int),
        lin_comb(fibonacci_after(s, taps, p, m), taps) == sum(
            s.len(),
            |i: int| taps[i] as int * fibonacci_output(s, taps, p, (i + m) as nat),
        ),
{
    let n = s.len();
    lemma_fibonacci_shape(s, taps, p, m);
    lemma_fibonacci_shape(s, taps, p, m + 1);
    lemma_fibonacci_shift(s, taps, p, m + 1, (n - 1) as nat, 0);
    assert(fibonacci_after(s, taps, p, m + 1) == fibonacci_step(fibonacci_after(s, taps, p, m), taps, p));
    let cells = fibonacci_after(s, taps, p, m);
    assert forall|i: int| 0 <= i < n implies #[trigger] cells[i] as int == fibonacci_output(
        s,
        taps,
        p,
        (i + m) as nat,
    ) by {
        lemma_fibonacci_shift(s, taps, p, m, i as nat, 0);
    }
    lemma_sum_ext(
        n,
        |i: int| taps[i] as int * cells[i] as int,
        |i: int| taps[i] as int * fibonacci_output(s, taps, p, (i + m) as nat),
    );
}

/// The silent coefficients after `t` steps, applied to the outputs
/// `m, m + 1, ...`, give output `t + m`, modulo `p`.
proof fn lemma_coefficients_combine(s: Seq<u64>, taps: Seq<u64>, p: u64, t: nat, m: nat)
    requires
        s.len() >= 1,
        taps.len() == s.len() + 1,
        p >= 2,
        all_below(s, p),
    ensures
        sum(
            s.len(),
            |i: int|
                coefficients_after(one_hot(s.len()), taps, p, t)[i] as int * fibonacci_output(
                    s,
                    taps,
                    p,
                    (i + m) as nat,
                ),
        ) % (p as int) == fibonacci_output(s, taps, p, t + m) % (p as int),
    decreases t,
{
    let n = s.len();
    let pi = p as int;
    let x = |j: int| fibonacci_output(s, taps, p, j as nat);
    if t == 0 {
        let f = |i: int|
            coefficients_after(one_hot(s.len()), taps, p, t)[i] as int * fibonacci_output(
                s,
                taps,
                p,
                (i + m) as nat,
            );
        assert(coefficients_after(one_hot(s.len()), taps, p, t) == one_hot(n));
        assert forall|i: int| 1 <= i < n implies #[trigger] f(i) == 0 by {
            assert(one_hot(n)[i] == 0);
        }
        assert(one_hot(n)[0] == 1);
        assert(f(0) == fibonacci_output(s, taps, p, m));
        lemma_sum_first_only(n, f);
        assert(sum(n, f) == fibonacci_output(s, taps, p, t + m));
    } else {
        let c = coefficients_after(one_hot(n), taps, p, (t - 1) as nat);
        let c2 = coefficients_after(one_hot(n), taps, p, t);
        lemma_coefficients_len(one_hot(n), taps, p, (t - 1) as nat);
        assert(c2 == next_coefficients(c, taps, p));
        let last = c[n - 1] as int;
        lemma_coefficients_combine(s, taps, p, (t - 1) as nat, m + 1);
        let f = |i: int|
            coefficients_after(one_hot(s.len()), taps, p, t)[i] as int * fibonacci_output(
                s,
                taps,
                p,
                (i + m) as nat,
            );
        let g = |i: int| ((if i == 0 { 0int } else { c[i - 1] as int }) + last * taps[i] as int) * x(i + m);
        let g1 = |i: int| (if i == 0 { 0int } else { c[i - 1] as int }) * fibonacci_output(s, taps, p, (i + m) as nat);
        let g2 = |i: int| taps[i] as int * x(i + m);
        let g2s = |i: int| last * g2(i);
        let h = |i: int| c[i] as int * x(i + 1 + m);
        let k = |i: int|
            coefficients_after(one_hot(s.len()), taps, p, (t - 1) as nat)[i] as int * fibonacci_output(
                s,
                taps,
                p,
                (i + (m + 1)) as nat,
            );
        assert(sum(n, k) % pi == fibonacci_output(s, taps, p, t + m) % pi);
        assert forall|i: int| 0 <= i < n implies #[trigger] f(i) % pi == g(i) % pi by {
            assert(c2[i] as int == ((if i == 0 { 0int } else { c[i - 1] as int }) + last * taps[i] as int) % pi);
            lemma_mod_factor((if i == 0 { 0int } else { c[i - 1] as int }) + last * taps[i] as int, x(i + m), pi);
        }
        lemma_sum_mod(n, f, g, pi);
        assert forall|i: int| 0 <= i < n implies #[trigger] g(i) == g1(i) + g2s(i) by {
            let a = if i == 0 { 0int } else { c[i - 1] as int };
            let b = taps[i] as int;
            let xx = x(i + m);
            assert((a + last * b) * xx == a * xx + last * (b * xx)) by (nonlinear_arith);
        }
        lemma_sum_add(n, g1, g2s, g);
        lemma_sum_scale(n, g2, g2s, last);
        lemma_sum_first(n, g1, h);
        lemma_fibonacci_recurrence(s, taps, p, m);
        lemma_fibonacci_shape(s, taps, p, m + n);
        lemma_sum_ext(
            n,
            |i: int| taps[i] as int * fibonacci_output(s, taps, p, (i + m) as nat),
            g2,
        );
        let xn = x((m + n) as int);
        assert(0 <= xn < pi);
        assert(xn % pi == sum(n, g2) % pi) by {
            vstd::arithmetic::div_mod::lemma_small_mod(xn as nat, pi as nat);
        }
        lemma_mod_replace_factor(sum((n - 1) as nat, h), last, sum(n, g2), xn, pi);
        assert(sum(n, k) == sum((n - 1) as nat, k) + k(n - 1));
        lemma_sum_ext((n - 1) as nat, k, h);
        assert(k(n - 1) == last * xn);
        assert(g1(0) == 0);
        assert(sum(n, g1) == sum((n - 1) as nat, h));
        assert(sum(n, g2s) == last * sum(n, g2));
        assert(sum(n, g) == sum(n, g1) + sum(n, g2s));
        assert(sum(n, g) % pi == (sum((n - 1) as nat, h) + last * sum(n, g2)) % pi);
        assert(sum(n, k) == sum((n - 1) as nat, h) + last * xn);
        assert(sum(n, f) % pi == sum(n, k) % pi);
    }
}

/// Silent clocking computes the Fibonacci register's outputs: the seeded
/// cells weighted by the coefficient vector after `t` silent steps, modulo
/// `p`, equal the clear register's output after `t` Fibonacci clocks. The
/// seeded cells `s` are the clear register's starting content.
pub proof fn lemma_silent_matches_fibonacci(s: Seq<u64>, taps: Seq<u64>, p: u64, t: nat)
    requires
        s.len() >= 1,
        taps.len() == s.len() + 1,
        2 <= p,
        all_below(s, p),
    ensures
        lin_comb_mod(s, coefficients_after(one_hot(s.len()), taps, p, t), p) == fibonacci_after(
            s,
            taps,
            p,
            t,
        )[0],
{
    let n = s.len();
    let pi = p as int;
    let c = coefficients_after(one_hot(n), taps, p, t);
    lemma_coefficients_combine(s, taps, p, t, 0);
    lemma_fibonacci_shape(s, taps, p, t);
    assert forall|i: int| 0 <= i < n implies #[trigger] s[i] as int == fibonacci_output(
        s,
        taps,
        p,
        (i + 0) as nat,
    ) by {
        lemma_fibonacci_shift(s, taps, p, 0, i as nat, 0);
    }
    lemma_sum_ext(
        n,
        |i: int| c[i] as int * s[i] as int,
        |i: int| c[i] as int * fibonacci_output(s, taps, p, (i + 0) as nat),
    );
    let xt = fibonacci_output(s, taps, p, t);
    assert(0 <= xt < pi);
    vstd::arithmetic::div_mod::lemma_small_mod(xt as nat, pi as nat);
}

/// `lc` is the weighted sum in the clear: it returns `lin_comb_mod` of its arguments.
pub open spec fn clear_channel<L: Fn(&Vec<u64>, &Vec<u64>, u64) -> u64>(lc: L) -> bool {
    forall|cv: &Vec<u64>, kv: &Vec<u64>, m: u64, r: u64|
        #[trigger] lc.ensures((cv, kv, m), r) ==> r == lin_comb_mod(cv@, kv@, m)
}

/// Over the clear channel, the output of a register whose coefficients have
/// taken `t` silent steps from `[1, 0, ..., 0]` is the clear recurrence's
/// output after `t` clocks from the register's cells.
pub proof fn lemma_silent_output_matches_recurrence<L: Fn(&Vec<u64>, &Vec<u64>, u64) -> u64>(
    l: LFSR<u64>,
    lc: L,
    t: nat,
    r: u64,
)
    requires
        l.seeded(),
        all_below(l.cells(), l.modulus()),
        clear_channel(lc),
        l.coefficients() == coefficients_after(one_hot(l.size()), l.taps(), l.modulus(), t),
        lc_returns(lc, l.cells(), l.coefficients(), l.modulus(), r),
    ensures
        r == fibonacci_after(l.cells(), l.taps(), l.modulus(), t)[0],
{
    l.lemma_wf();
    lemma_silent_matches_fibonacci(l.cells(), l.taps(), l.modulus(), t);
}

/// Over the clear channel, `clock_fibonacci` performs one clear Fibonacci
/// clock: its feedback only reads the first `size` taps.
pub proof fn lemma_fibonacci_clock_is_clear_step<L: Fn(&Vec<u64>, &Vec<u64>, u64) -> u64>(
    cells: Seq<u64>,
    taps: Seq<u64>,
    p: u64,
    lc: L,
    next: Seq<u64>,
)
    requires
        cells.len() >= 1,
        taps.len() == cells.len() + 1,
        clear_channel(lc),
        next.len() == cells.len(),
        next.drop_last() == cells.skip(1),
        lc_returns(lc, cells, taps.take(cells.len() as int), p, next.last()),
    ensures
        next == fibonacci_step(cells, taps, p),
{
    let n = cells.len();
    lemma_sum_ext(
        n,
        |i: int| taps.take(n as int)[i] as int * cells[i] as int,
        |i: int| taps[i] as int * cells[i] as int,
    );
    assert(next =~= fibonacci_step(cells, taps, p));
}

/// Every registered pair yields a register: `LFSR::new` succeeds on it.
pub proof fn lemma_registered_pairs_build(size: usize, p: u64)
    requires
        registered_taps(p, size) is Some,
    ensures
        lfsr_setup_error(size, p) is None,
{
    if size == 32 {
        let t = taps_17_32();
        assert(t.len() == 33);
        assert(all_below(t, 17));
    } else {
        let t = taps_17_64();
        assert(t.len() == 65);
        assert(all_below(t, 17));
    }
}

} // verus!
