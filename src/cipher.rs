use vstd::prelude::*;
use crate::error::ConfigError;
use crate::lfsr::{coefficients_after, lfsr_setup_error, LFSR};
use crate::zp::{all_below, channel_total, lc_returns};

verus! {

/// The fixed parameters of a cipher instance.
#[derive(Clone, Debug)]
pub struct TransistorParameters {
    /// The modulus of every cell.
    pub p: u64,
    /// Size of the whitening register.
    pub w: usize,
    /// Size of the round-key register.
    pub k: usize,
    /// Substitution table over `Z_p`.
    pub s_box: Vec<u64>,
    /// The `a x a` mixing matrix.
    pub matrix_mc: Vec<Vec<u64>>,
    /// The `a x a` mask of cells extracted as output.
    pub filter: Vec<Vec<bool>>,
    /// Side of the state grid.
    pub a: usize,
    /// Output symbols per round.
    pub r: usize,
}

/// `m` has `a` rows of `a` entries each.
pub open spec fn is_square<T>(m: Seq<Seq<T>>, a: nat) -> bool {
    m.len() == a && forall|i: int| 0 <= i < a ==> (#[trigger] m[i]).len() == a
}

/// The row views of a matrix held as nested vectors.
pub open spec fn rows<T>(m: Seq<Vec<T>>) -> Seq<Seq<T>> {
    m.map_values(|row: Vec<T>| row@)
}

/// Every entry of `m` lies in `[0, p)`.
pub open spec fn entries_below(m: Seq<Seq<u64>>, p: u64) -> bool {
    forall|i: int, j: int| 0 <= i < m.len() && 0 <= j < m[i].len() ==> #[trigger] m[i][j] < p
}

/// The cells of `row` among its first `n` whose mask entry is `true`, in order.
pub open spec fn select<C>(row: Seq<C>, mask: Seq<bool>, n: nat) -> Seq<C>
    decreases n,
{
    if n == 0 {
        seq![]
    } else if mask[n - 1] {
        select(row, mask, (n - 1) as nat).push(row[n - 1])
    } else {
        select(row, mask, (n - 1) as nat)
    }
}

/// The selected cells of the first `n` rows of `grid`, in row-major order;
/// each row holds `a` cells.
pub open spec fn filtered<C>(grid: Seq<Seq<C>>, mask: Seq<Seq<bool>>, a: nat, n: nat) -> Seq<C>
    decreases n,
{
    if n == 0 {
        seq![]
    } else {
        filtered(grid, mask, a, (n - 1) as nat) + select(grid[n - 1], mask[n - 1], a)
    }
}

/// Number of `true` entries among the first `n` of `mask`.
pub open spec fn count_row(mask: Seq<bool>, n: nat) -> nat
    decreases n,
{
    if n == 0 {
        0
    } else {
        count_row(mask, (n - 1) as nat) + if mask[n - 1] { 1nat } else { 0nat }
    }
}

/// Number of `true` entries in the first `n` rows of an `a`-column mask.
pub open spec fn count_mask(mask: Seq<Seq<bool>>, a: nat, n: nat) -> nat
    decreases n,
{
    if n == 0 {
        0
    } else {
        count_mask(mask, a, (n - 1) as nat) + count_row(mask[n - 1], a)
    }
}

/// The error `Transistor::instantiate(params)` reports, or `None` when it succeeds.
pub open spec fn params_error(params: TransistorParameters) -> Option<ConfigError> {
    let a = params.a as nat;
    let m = rows(params.matrix_mc@);
    let f = rows(params.filter@);
    if params.s_box@.len() != params.p {
        Some(ConfigError::SboxLength)
    } else if !is_square(m, a) {
        Some(ConfigError::MatrixShape)
    } else if !entries_below(m, params.p) {
        Some(ConfigError::MatrixEntryOutOfRange)
    } else if !is_square(f, a) {
        Some(ConfigError::FilterShape)
    } else if count_mask(f, a, a) != params.r {
        Some(ConfigError::FilterCount)
    } else if lfsr_setup_error(params.w, params.p) is Some {
        lfsr_setup_error(params.w, params.p)
    } else {
        lfsr_setup_error(params.k, params.p)
    }
}

/// The channel's table lookup of `cell` through `table` modulo `p` may return `r`.
pub open spec fn lut_returns<C, T: Fn(&C, &Vec<u64>, u64) -> C>(
    lut: T,
    cell: C,
    table: Seq<u64>,
    p: u64,
    r: C,
) -> bool {
    exists|tv: &Vec<u64>| tv@ == table && #[trigger] lut.ensures((&cell, tv, p), r)
}

/// `r` is the channel's sum of `x` with the `t`-th silent output of register
/// `l` (counting from 0).
pub open spec fn keyed<C, L: Fn(&Vec<C>, &Vec<u64>, u64) -> C, A: Fn(&C, &C) -> C>(
    lc: L,
    plus: A,
    l: LFSR<C>,
    t: nat,
    x: C,
    r: C,
) -> bool {
    exists|ks: C|
        lc_returns(
            lc,
            l.cells(),
            coefficients_after(l.coefficients(), l.taps(), l.modulus(), t),
            l.modulus(),
            ks,
        ) && #[trigger] plus.ensures((&x, &ks), r)
}

/// Add-round-key: cell `(i, j)` of `new` is cell `(i, j)` of `old` keyed with
/// the `(i * a + j)`-th silent output of `l`.
pub open spec fn round_key_added<C, L: Fn(&Vec<C>, &Vec<u64>, u64) -> C, A: Fn(&C, &C) -> C>(
    lc: L,
    plus: A,
    l: LFSR<C>,
    a: nat,
    old: Seq<Seq<C>>,
    new: Seq<Seq<C>>,
) -> bool {
    &&& is_square(new, a)
    &&& forall|i: int, j: int|
        0 <= i < a && 0 <= j < a ==> keyed(lc, plus, l, (i * a + j) as nat, old[i][j], #[trigger] new[i][j])
}

/// Substitution: every cell of `new` is the table lookup of the same cell of `old`.
pub open spec fn substituted<C, T: Fn(&C, &Vec<u64>, u64) -> C>(
    lut: T,
    s_box: Seq<u64>,
    p: u64,
    a: nat,
    old: Seq<Seq<C>>,
    new: Seq<Seq<C>>,
) -> bool {
    &&& is_square(new, a)
    &&& forall|i: int, j: int|
        0 <= i < a && 0 <= j < a ==> lut_returns(lut, old[i][j], s_box, p, #[trigger] new[i][j])
}

/// `out` is a cell-by-cell clone of `src`.
pub open spec fn clones<C: Clone>(src: Seq<C>, out: Seq<C>) -> bool {
    out.len() == src.len() && forall|k: int| 0 <= k < out.len() ==> cloned(src[k], #[trigger] out[k])
}

/// Whitening: `out[k]` is `input[k]` keyed with the `k`-th silent output of `l`.
pub open spec fn whitened<C, L: Fn(&Vec<C>, &Vec<u64>, u64) -> C, A: Fn(&C, &C) -> C>(
    lc: L,
    plus: A,
    l: LFSR<C>,
    input: Seq<C>,
    out: Seq<C>,
) -> bool {
    &&& out.len() == input.len()
    &&& forall|k: int| 0 <= k < out.len() ==> keyed(lc, plus, l, k as nat, input[k], #[trigger] out[k])
}

/// Shift-rows: row `i` of `new` is row `i` of `old` rotated left by `i`.
pub open spec fn rows_shifted<C: Clone>(a: nat, old: Seq<Seq<C>>, new: Seq<Seq<C>>) -> bool {
    &&& is_square(new, a)
    &&& forall|i: int, j: int|
        0 <= i < a && 0 <= j < a ==> cloned(old[i][(j + i) % (a as int)], #[trigger] new[i][j])
}

/// Cell `(i, j)` of the mix: the channel's weighted sum of column `j` of
/// `grid` against `row` modulo `p`.
pub open spec fn mixed_cell<C: Clone, L: Fn(&Vec<C>, &Vec<u64>, u64) -> C>(
    lc: L,
    grid: Seq<Seq<C>>,
    j: int,
    row: Seq<u64>,
    p: u64,
    r: C,
) -> bool {
    exists|cv: &Vec<C>, kv: &Vec<u64>|
        cv@.len() == grid.len() && (forall|k: int| 0 <= k < grid.len() ==> cloned(grid[k][j], #[trigger] cv@[k]))
            && kv@ == row && #[trigger] lc.ensures((cv, kv, p), r)
}

/// Mix-columns: cell `(i, j)` of `new` mixes column `j` of `old` with row `i` of `m`.
pub open spec fn columns_mixed<C: Clone, L: Fn(&Vec<C>, &Vec<u64>, u64) -> C>(
    lc: L,
    m: Seq<Seq<u64>>,
    p: u64,
    a: nat,
    old: Seq<Seq<C>>,
    new: Seq<Seq<C>>,
) -> bool {
    &&& is_square(new, a)
    &&& forall|i: int, j: int| 0 <= i < a && 0 <= j < a ==> mixed_cell(lc, old, j, m[i], p, #[trigger] new[i][j])
}

/// The channel's two-term sum accepts every pair of ciphertexts.
pub open spec fn sum_total<C, A: Fn(&C, &C) -> C>(plus: A) -> bool {
    forall|x: &C, y: &C| #[trigger] plus.requires((x, y))
}

/// The channel's table lookup accepts every argument.
pub open spec fn lut_total<C, T: Fn(&C, &Vec<u64>, u64) -> C>(lut: T) -> bool {
    forall|c: &C, t: &Vec<u64>, m: u64| #[trigger] lut.requires((c, t, m))
}

/// The encryption of the channel accepts every value and modulus.
pub open spec fn encrypt_total<C, E: Fn(u64, u64) -> C>(encrypt: E) -> bool {
    forall|v: u64, m: u64| #[trigger] encrypt.requires((v, m))
}

/// One full round took `before` to `after` and produced `out`: plus round key,
/// substitution, extraction and whitening of the output, then shift-rows and
/// mix-columns on the substituted grid, which carry over to the next round.
pub open spec fn round<
    C: Clone,
    L: Fn(&Vec<C>, &Vec<u64>, u64) -> C,
    A: Fn(&C, &C) -> C,
    T: Fn(&C, &Vec<u64>, u64) -> C,
>(lc: L, plus: A, lut: T, before: Transistor<C>, after: Transistor<C>, out: Seq<C>) -> bool {
    let a = before.side();
    exists|g1: Seq<Seq<C>>|
        #[trigger] round_key_added(lc, plus, before.pseudo_ks(), a, before.grid(), g1) && exists|
            g2: Seq<Seq<C>>,
        |
            #[trigger] substituted(lut, before.s_box(), before.modulus(), a, g1, g2) && (exists|
                f: Seq<C>,
            |
                #[trigger] clones(filtered(g2, before.filter(), a, a), f) && whitened(
                    lc,
                    plus,
                    before.whitening(),
                    f,
                    out,
                )) && (exists|g3: Seq<Seq<C>>|
                #[trigger] rows_shifted(a, g2, g3) && columns_mixed(
                    lc,
                    before.matrix(),
                    before.modulus(),
                    a,
                    g3,
                    after.grid(),
                ))
}

/// The cipher state machine: an `a x a` grid of ciphertexts, a round-key
/// register, a whitening register and the fixed round parameters.
#[derive(Clone, Debug)]
pub struct Transistor<C> {
    a: usize,
    r: usize,
    p: u64,
    whitening_lsfr: LFSR<C>,
    pseudo_ks_lsfr: LFSR<C>,
    state: Vec<Vec<C>>,
    s_box: Vec<u64>,
    matrix_mc: Vec<Vec<u64>>,
    filter: Vec<Vec<bool>>,
}

impl<C> Transistor<C> {
    /// Side of the grid.
    pub closed spec fn side(&self) -> nat {
        self.a as nat
    }

    /// Output symbols per round.
    pub closed spec fn outputs(&self) -> nat {
        self.r as nat
    }

    /// The modulus.
    pub closed spec fn modulus(&self) -> u64 {
        self.p
    }

    /// The whitening register.
    pub closed spec fn whitening(&self) -> LFSR<C> {
        self.whitening_lsfr
    }

    /// The round-key register.
    pub closed spec fn pseudo_ks(&self) -> LFSR<C> {
        self.pseudo_ks_lsfr
    }

    /// The encrypted grid, row by row.
    pub closed spec fn grid(&self) -> Seq<Seq<C>> {
        rows(self.state@)
    }

    /// The substitution table.
    pub closed spec fn s_box(&self) -> Seq<u64> {
        self.s_box@
    }

    /// The mixing matrix, row by row.
    pub closed spec fn matrix(&self) -> Seq<Seq<u64>> {
        rows(self.matrix_mc@)
    }

    /// The output mask, row by row.
    pub closed spec fn filter(&self) -> Seq<Seq<bool>> {
        rows(self.filter@)
    }

    /// The parameters are consistent and both registers are well formed.
    pub open spec fn wf(&self) -> bool {
        &&& self.whitening().wf()
        &&& self.pseudo_ks().wf()
        &&& self.whitening().modulus() == self.modulus()
        &&& self.pseudo_ks().modulus() == self.modulus()
        &&& self.s_box().len() == self.modulus()
        &&& is_square(self.matrix(), self.side())
        &&& entries_below(self.matrix(), self.modulus())
        &&& is_square(self.filter(), self.side())
        &&& count_mask(self.filter(), self.side(), self.side()) == self.outputs()
    }

    /// Ready to run rounds: well formed, both registers seeded, the grid `a x a`.
    pub open spec fn ready(&self) -> bool {
        &&& self.wf()
        &&& self.whitening().seeded()
        &&& self.pseudo_ks().seeded()
        &&& is_square(self.grid(), self.side())
    }

    /// `other` has the same fixed parameters as `self`.
    pub open spec fn same_parameters(&self, other: &Self) -> bool {
        &&& other.side() == self.side()
        &&& other.outputs() == self.outputs()
        &&& other.modulus() == self.modulus()
        &&& other.s_box() == self.s_box()
        &&& other.matrix() == self.matrix()
        &&& other.filter() == self.filter()
    }

    /// Validates `params` and builds both registers; the grid starts empty.
    pub fn instantiate(params: TransistorParameters) -> (res: Result<Self, ConfigError>)
        ensures
            match res {
                Ok(t) => {
                    &&& params_error(params) is None
                    &&& t.wf()
                    &&& t.side() == params.a
                    &&& t.outputs() == params.r
                    &&& t.modulus() == params.p
                    &&& t.s_box() == params.s_box@
                    &&& t.matrix() == rows(params.matrix_mc@)
                    &&& t.filter() == rows(params.filter@)
                    &&& t.whitening().size() == params.w
                    &&& t.pseudo_ks().size() == params.k
                    &&& t.grid().len() == 0
                },
                Err(e) => params_error(params) == Some(e),
            },
            count_mask(rows(params.filter@), params.a as nat, params.a as nat) != params.r ==> res is Err,
            !is_square(rows(params.matrix_mc@), params.a as nat) ==> res is Err,
            !entries_below(rows(params.matrix_mc@), params.p) ==> res is Err,
    {
        let a = params.a;
        let p = params.p;
        // Compared in both widths so that neither cast can hide a mismatch.
        if params.s_box.len() as u64 != p || params.s_box.len() != p as usize {
            return Err(ConfigError::SboxLength);
        }
        if !square_shape(&params.matrix_mc, a) {
            return Err(ConfigError::MatrixShape);
        }
        if !matrix_below(&params.matrix_mc, p) {
            return Err(ConfigError::MatrixEntryOutOfRange);
        }
        if !square_shape(&params.filter, a) {
            return Err(ConfigError::FilterShape);
        }
        if !mask_count_is(&params.filter, a, params.r) {
            return Err(ConfigError::FilterCount);
        }
        let whitening_lsfr = match LFSR::new(params.w, p) {
            Ok(l) => l,
            Err(e) => return Err(e),
        };
        let pseudo_ks_lsfr = match LFSR::new(params.k, p) {
            Ok(l) => l,
            Err(e) => return Err(e),
        };
        Ok(Transistor {
            a,
            r: params.r,
            p,
            whitening_lsfr,
            pseudo_ks_lsfr,
            state: Vec::new(),
            s_box: params.s_box,
            matrix_mc: params.matrix_mc,
            filter: params.filter,
        })
    }
}

/// Whether `m` has `a` rows of `a` entries.
fn square_shape<T>(m: &Vec<Vec<T>>, a: usize) -> (r: bool)
    ensures
        r == is_square(rows(m@), a as nat),
{
    if m.len() != a {
        return false;
    }
    let mut i: usize = 0;
    while i < a
        invariant
            0 <= i <= a,
            m@.len() == a,
            forall|k: int| 0 <= k < i ==> (#[trigger] rows(m@)[k]).len() == a,
        decreases a - i,
    {
        if m[i].len() != a {
            assert(rows(m@)[i as int].len() != a);
            return false;
        }
        i += 1;
    }
    true
}

/// Whether every entry of `m` lies below `p`.
fn matrix_below(m: &Vec<Vec<u64>>, p: u64) -> (r: bool)
    ensures
        r == entries_below(rows(m@), p),
{
    let mut i: usize = 0;
    while i < m.len()
        invariant
            0 <= i <= m@.len(),
            forall|x: int, y: int|
                0 <= x < i && 0 <= y < rows(m@)[x].len() ==> #[trigger] rows(m@)[x][y] < p,
        decreases m@.len() - i,
    {
        let mut j: usize = 0;
        while j < m[i].len()
            invariant
                0 <= i < m@.len(),
                0 <= j <= m@[i as int]@.len(),
                forall|x: int, y: int|
                    0 <= x < i && 0 <= y < rows(m@)[x].len() ==> #[trigger] rows(m@)[x][y] < p,
                forall|y: int| 0 <= y < j ==> #[trigger] rows(m@)[i as int][y] < p,
            decreases m@[i as int]@.len() - j,
        {
            if m[i][j] >= p {
                assert(rows(m@)[i as int][j as int] >= p);
                return false;
            }
            j += 1;
        }
        i += 1;
    }
    true
}

proof fn lemma_count_row_grows(mask: Seq<bool>, j: nat, n: nat)
    requires
        j <= n,
    ensures
        count_row(mask, j) <= count_row(mask, n),
    decreases n,
{
    if j < n {
        lemma_count_row_grows(mask, j, (n - 1) as nat);
    }
}

proof fn lemma_count_mask_grows(mask: Seq<Seq<bool>>, a: nat, i: nat, n: nat)
    requires
        i <= n,
    ensures
        count_mask(mask, a, i) <= count_mask(mask, a, n),
    decreases n,
{
    if i < n {
        lemma_count_mask_grows(mask, a, i, (n - 1) as nat);
    }
}

/// Whether an `a x a` mask holds exactly `r` entries `true`.
fn mask_count_is(mask: &Vec<Vec<bool>>, a: usize, r: usize) -> (res: bool)
    requires
        is_square(rows(mask@), a as nat),
    ensures
        res == (count_mask(rows(mask@), a as nat, a as nat) == r),
{
    let ghost m = rows(mask@);
    let mut total: usize = 0;
    let mut i: usize = 0;
    while i < a
        invariant
            0 <= i <= a,
            m == rows(mask@),
            is_square(m, a as nat),
            total == count_mask(m, a as nat, i as nat),
            total <= r,
        decreases a - i,
    {
        let mut j: usize = 0;
        let mut in_row: usize = 0;
        while j < a
            invariant
                0 <= i < a,
                0 <= j <= a,
                m == rows(mask@),
                is_square(m, a as nat),
                total == count_mask(m, a as nat, i as nat),
                in_row == count_row(m[i as int], j as nat),
                total + in_row <= r,
            decreases a - j,
        {
            assert(m[i as int].len() == a);
            if mask[i][j] {
                if total + in_row == r {
                    proof {
                        lemma_count_row_grows(m[i as int], (j + 1) as nat, a as nat);
                        lemma_count_mask_grows(m, a as nat, (i + 1) as nat, a as nat);
                    }
                    return false;
                }
                in_row += 1;
            }
            j += 1;
        }
        total += in_row;
        i += 1;
    }
    total == r
}

/// Keys every cell of the `a x a` grid, row-major, with one silent output of `l` each.
fn key_grid<C, L: Fn(&Vec<C>, &Vec<u64>, u64) -> C, A: Fn(&C, &C) -> C>(
    grid: &Vec<Vec<C>>,
    a: usize,
    l: &mut LFSR<C>,
    lc: &L,
    plus: &A,
) -> (r: Vec<Vec<C>>)
    requires
        old(l).seeded(),
        is_square(rows(grid@), a as nat),
        channel_total(*lc),
        sum_total(*plus),
    ensures
        final(l).seeded(),
        old(l).same_register(final(l)),
        final(l).coefficients() == coefficients_after(
            old(l).coefficients(),
            old(l).taps(),
            old(l).modulus(),
            (a * a) as nat,
        ),
        round_key_added(*lc, *plus, *old(l), a as nat, rows(grid@), rows(r@)),
{
    let ghost l0 = *l;
    let ghost g = rows(grid@);
    let mut out: Vec<Vec<C>> = Vec::new();
    let mut i: usize = 0;
    while i < a
        invariant
            0 <= i <= a,
            g == rows(grid@),
            is_square(g, a as nat),
            channel_total(*lc),
            sum_total(*plus),
            l.seeded(),
            l0.same_register(l),
            l.coefficients() == coefficients_after(
                l0.coefficients(),
                l0.taps(),
                l0.modulus(),
                (i * a) as nat,
            ),
            out@.len() == i,
            forall|x: int| 0 <= x < i ==> (#[trigger] rows(out@)[x]).len() == a,
            forall|x: int, y: int|
                0 <= x < i && 0 <= y < a ==> keyed(
                    *lc,
                    *plus,
                    l0,
                    (x * a + y) as nat,
                    g[x][y],
                    #[trigger] rows(out@)[x][y],
                ),
        decreases a - i,
    {
        let mut row: Vec<C> = Vec::new();
        let mut j: usize = 0;
        while j < a
            invariant
                0 <= i < a,
                0 <= j <= a,
                g == rows(grid@),
                is_square(g, a as nat),
                channel_total(*lc),
                sum_total(*plus),
                l.seeded(),
                l0.same_register(l),
                l.coefficients() == coefficients_after(
                    l0.coefficients(),
                    l0.taps(),
                    l0.modulus(),
                    (i * a + j) as nat,
                ),
                row@.len() == j,
                forall|y: int|
                    0 <= y < j ==> keyed(
                        *lc,
                        *plus,
                        l0,
                        (i * a + y) as nat,
                        g[i as int][y],
                        #[trigger] row@[y],
                    ),
            decreases a - j,
        {
            assert(g[i as int].len() == a);
            let ks = l.silent_clock(lc);
            let v = plus(&grid[i][j], &ks);
            assert(plus.ensures((&g[i as int][j as int], &ks), v));
            assert(keyed(*lc, *plus, l0, (i * a + j) as nat, g[i as int][j as int], v));
            row.push(v);
            j += 1;
        }
        assert((i + 1) * a == i * a + a) by (nonlinear_arith);
        let ghost prev = rows(out@);
        out.push(row);
        assert(rows(out@) =~= prev.push(row@));
        i += 1;
    }
    out
}

/// Looks every cell of the `a x a` grid up in `s_box`.
fn substitute_grid<C, T: Fn(&C, &Vec<u64>, u64) -> C>(
    grid: &Vec<Vec<C>>,
    a: usize,
    s_box: &Vec<u64>,
    p: u64,
    lut: &T,
) -> (r: Vec<Vec<C>>)
    requires
        is_square(rows(grid@), a as nat),
        lut_total(*lut),
    ensures
        substituted(*lut, s_box@, p, a as nat, rows(grid@), rows(r@)),
{
    let ghost g = rows(grid@);
    let mut out: Vec<Vec<C>> = Vec::new();
    let mut i: usize = 0;
    while i < a
        invariant
            0 <= i <= a,
            g == rows(grid@),
            is_square(g, a as nat),
            lut_total(*lut),
            out@.len() == i,
            forall|x: int| 0 <= x < i ==> (#[trigger] rows(out@)[x]).len() == a,
            forall|x: int, y: int|
                0 <= x < i && 0 <= y < a ==> lut_returns(
                    *lut,
                    g[x][y],
                    s_box@,
                    p,
                    #[trigger] rows(out@)[x][y],
                ),
        decreases a - i,
    {
        let mut row: Vec<C> = Vec::new();
        let mut j: usize = 0;
        while j < a
            invariant
                0 <= i < a,
                0 <= j <= a,
                g == rows(grid@),
                is_square(g, a as nat),
                lut_total(*lut),
                row@.len() == j,
                forall|y: int|
                    0 <= y < j ==> lut_returns(*lut, g[i as int][y], s_box@, p, #[trigger] row@[y]),
            decreases a - j,
        {
            assert(g[i as int].len() == a);
            let v = lut(&grid[i][j], s_box, p);
            assert(lut.ensures((&g[i as int][j as int], s_box, p), v));
            row.push(v);
            j += 1;
        }
        let ghost prev = rows(out@);
        out.push(row);
        assert(rows(out@) =~= prev.push(row@));
        i += 1;
    }
    out
}

/// Keys `input[k]` with the `k`-th silent output of `l`.
fn whiten_cells<C, L: Fn(&Vec<C>, &Vec<u64>, u64) -> C, A: Fn(&C, &C) -> C>(
    input: &Vec<C>,
    l: &mut LFSR<C>,
    lc: &L,
    plus: &A,
) -> (r: Vec<C>)
    requires
        old(l).seeded(),
        channel_total(*lc),
        sum_total(*plus),
    ensures
        final(l).seeded(),
        old(l).same_register(final(l)),
        final(l).coefficients() == coefficients_after(
            old(l).coefficients(),
            old(l).taps(),
            old(l).modulus(),
            input@.len(),
        ),
        whitened(*lc, *plus, *old(l), input@, r@),
{
    let ghost l0 = *l;
    let mut out: Vec<C> = Vec::new();
    let mut k: usize = 0;
    while k < input.len()
        invariant
            0 <= k <= input@.len(),
            channel_total(*lc),
            sum_total(*plus),
            l.seeded(),
            l0.same_register(l),
            l.coefficients() == coefficients_after(
                l0.coefficients(),
                l0.taps(),
                l0.modulus(),
                k as nat,
            ),
            out@.len() == k,
            forall|y: int|
                0 <= y < k ==> keyed(*lc, *plus, l0, y as nat, input@[y], #[trigger] out@[y]),
        decreases input@.len() - k,
    {
        let ks = l.silent_clock(lc);
        let v = plus(&input[k], &ks);
        assert(plus.ensures((&input@[k as int], &ks), v));
        assert(keyed(*lc, *plus, l0, k as nat, input@[k as int], v));
        out.push(v);
        k += 1;
    }
    out
}

proof fn lemma_select_len<C>(row: Seq<C>, mask: Seq<bool>, n: nat)
    ensures
        select(row, mask, n).len() == count_row(mask, n),
    decreases n,
{
    if n > 0 {
        lemma_select_len(row, mask, (n - 1) as nat);
    }
}

proof fn lemma_filtered_len<C>(grid: Seq<Seq<C>>, mask: Seq<Seq<bool>>, a: nat, n: nat)
    ensures
        filtered(grid, mask, a, n).len() == count_mask(mask, a, n),
    decreases n,
{
    if n > 0 {
        lemma_filtered_len(grid, mask, a, (n - 1) as nat);
        lemma_select_len(grid[n - 1], mask[n - 1], a);
    }
}

impl<C> Transistor<C> {
    /// Seeds both registers (whitening first) and fills the grid with
    /// encryptions of zero.
    pub fn initialize<E: Fn(u64, u64) -> C>(
        &mut self,
        seed_whitening: &Vec<u64>,
        seed_ks: &Vec<u64>,
        encrypt: &E,
    ) -> (res: Result<(), ConfigError>)
        requires
            old(self).wf(),
            encrypt_total(*encrypt),
        ensures
            final(self).wf(),
            old(self).same_parameters(final(self)),
            res is Ok <==> old(self).whitening().seed_error(seed_whitening@) is None
                && old(self).pseudo_ks().seed_error(seed_ks@) is None,
            res is Err ==> Some(res->Err_0) == if old(self).whitening().seed_error(
                seed_whitening@,
            ) is Some {
                old(self).whitening().seed_error(seed_whitening@)
            } else {
                old(self).pseudo_ks().seed_error(seed_ks@)
            },
            res is Ok ==> {
                &&& final(self).ready()
                &&& final(self).whitening().seeded_from(
                    &old(self).whitening(),
                    seed_whitening@,
                    *encrypt,
                )
                &&& final(self).pseudo_ks().seeded_from(&old(self).pseudo_ks(), seed_ks@, *encrypt)
                &&& forall|i: int, j: int|
                    0 <= i < old(self).side() && 0 <= j < old(self).side() ==> encrypt.ensures(
                        (0u64, old(self).modulus()),
                        #[trigger] final(self).grid()[i][j],
                    )
            },
    {
        match self.whitening_lsfr.encrypt_and_seed(seed_whitening, encrypt) {
            Ok(()) => {},
            Err(e) => return Err(e),
        }
        match self.pseudo_ks_lsfr.encrypt_and_seed(seed_ks, encrypt) {
            Ok(()) => {},
            Err(e) => return Err(e),
        }
        let a = self.a;
        let mut grid: Vec<Vec<C>> = Vec::new();
        let mut i: usize = 0;
        while i < a
            invariant
                0 <= i <= a,
                a == self.a,
                encrypt_total(*encrypt),
                grid@.len() == i,
                forall|x: int| 0 <= x < i ==> (#[trigger] rows(grid@)[x]).len() == a,
                forall|x: int, y: int|
                    0 <= x < i && 0 <= y < a ==> encrypt.ensures(
                        (0u64, self.p),
                        #[trigger] rows(grid@)[x][y],
                    ),
            decreases a - i,
        {
            let mut row: Vec<C> = Vec::new();
            let mut j: usize = 0;
            while j < a
                invariant
                    0 <= j <= a,
                    encrypt_total(*encrypt),
                    row@.len() == j,
                    forall|y: int| 0 <= y < j ==> encrypt.ensures((0u64, self.p), #[trigger] row@[y]),
                decreases a - j,
            {
                row.push(encrypt(0, self.p));
                j += 1;
            }
            let ghost prev = rows(grid@);
            grid.push(row);
            assert(rows(grid@) =~= prev.push(row@));
            i += 1;
        }
        self.state = grid;
        Ok(())
    }

    /// Decrypts every grid cell with `decrypt`; a diagnostic aid.
    pub fn decrypt_grid<D: Fn(&C) -> u64>(&self, decrypt: &D) -> (r: Vec<Vec<u64>>)
        requires
            forall|c: &C| #[trigger] decrypt.requires((c,)),
        ensures
            r@.len() == self.grid().len(),
            forall|i: int| 0 <= i < r@.len() ==> (#[trigger] r@[i])@.len() == self.grid()[i].len(),
            forall|i: int, j: int|
                0 <= i < r@.len() && 0 <= j < self.grid()[i].len() ==> decrypt.ensures(
                    (&self.grid()[i][j],),
                    #[trigger] r@[i]@[j],
                ),
    {
        let mut out: Vec<Vec<u64>> = Vec::new();
        let mut i: usize = 0;
        while i < self.state.len()
            invariant
                0 <= i <= self.state@.len(),
                forall|c: &C| #[trigger] decrypt.requires((c,)),
                out@.len() == i,
                forall|x: int| 0 <= x < i ==> (#[trigger] out@[x])@.len() == self.grid()[x].len(),
                forall|x: int, y: int|
                    0 <= x < i && 0 <= y < self.grid()[x].len() ==> decrypt.ensures(
                        (&self.grid()[x][y],),
                        #[trigger] out@[x]@[y],
                    ),
            decreases self.state@.len() - i,
        {
            let mut row: Vec<u64> = Vec::new();
            let mut j: usize = 0;
            while j < self.state[i].len()
                invariant
                    0 <= i < self.state@.len(),
                    0 <= j <= self.state@[i as int]@.len(),
                    forall|c: &C| #[trigger] decrypt.requires((c,)),
                    row@.len() == j,
                    forall|y: int|
                        0 <= y < j ==> decrypt.ensures((&self.grid()[i as int][y],), #[trigger] row@[y]),
                decreases self.state@[i as int]@.len() - j,
            {
                let v = decrypt(&self.state[i][j]);
                row.push(v);
                j += 1;
            }
            out.push(row);
            i += 1;
        }
        out
    }

    /// Keys every cell, row-major, with one silent output of the round-key
    /// register each (`a * a` silent clocks).
    pub fn add_round_key<L: Fn(&Vec<C>, &Vec<u64>, u64) -> C, A: Fn(&C, &C) -> C>(
        &mut self,
        lc: &L,
        plus: &A,
    )
        requires
            old(self).ready(),
            channel_total(*lc),
            sum_total(*plus),
        ensures
            final(self).ready(),
            old(self).same_parameters(final(self)),
            final(self).whitening() == old(self).whitening(),
            old(self).pseudo_ks().same_register(&final(self).pseudo_ks()),
            final(self).pseudo_ks().coefficients() == coefficients_after(
                old(self).pseudo_ks().coefficients(),
                old(self).pseudo_ks().taps(),
                old(self).modulus(),
                old(self).side() * old(self).side(),
            ),
            round_key_added(
                *lc,
                *plus,
                old(self).pseudo_ks(),
                old(self).side(),
                old(self).grid(),
                final(self).grid(),
            ),
    {
        let g = key_grid(&self.state, self.a, &mut self.pseudo_ks_lsfr, lc, plus);
        self.state = g;
    }

    /// Passes every cell through the S-box by the channel's table lookup.
    pub fn sub_bytes<T: Fn(&C, &Vec<u64>, u64) -> C>(&mut self, lut: &T)
        requires
            old(self).ready(),
            lut_total(*lut),
        ensures
            final(self).ready(),
            old(self).same_parameters(final(self)),
            final(self).whitening() == old(self).whitening(),
            final(self).pseudo_ks() == old(self).pseudo_ks(),
            substituted(
                *lut,
                old(self).s_box(),
                old(self).modulus(),
                old(self).side(),
                old(self).grid(),
                final(self).grid(),
            ),
    {
        let g = substitute_grid(&self.state, self.a, &self.s_box, self.p, lut);
        self.state = g;
    }

    /// Keys `input[k]` with the `k`-th next silent output of the whitening
    /// register; the result is the round's keystream.
    pub fn white_output<L: Fn(&Vec<C>, &Vec<u64>, u64) -> C, A: Fn(&C, &C) -> C>(
        &mut self,
        input: Vec<C>,
        lc: &L,
        plus: &A,
    ) -> (r: Vec<C>)
        requires
            old(self).ready(),
            channel_total(*lc),
            sum_total(*plus),
        ensures
            final(self).ready(),
            old(self).same_parameters(final(self)),
            final(self).grid() == old(self).grid(),
            final(self).pseudo_ks() == old(self).pseudo_ks(),
            old(self).whitening().same_register(&final(self).whitening()),
            final(self).whitening().coefficients() == coefficients_after(
                old(self).whitening().coefficients(),
                old(self).whitening().taps(),
                old(self).modulus(),
                input@.len(),
            ),
            whitened(*lc, *plus, old(self).whitening(), input@, r@),
    {
        let out = whiten_cells(&input, &mut self.whitening_lsfr, lc, plus);
        out
    }
}

impl<C: Clone> Transistor<C> {
    /// Clones of the cells the filter mask selects, in row-major order.
    pub fn filter_output(&self) -> (r: Vec<C>)
        requires
            self.ready(),
        ensures
            r@.len() == self.outputs(),
            clones(filtered(self.grid(), self.filter(), self.side(), self.side()), r@),
    {
        let a = self.a;
        let ghost g = self.grid();
        let ghost f = self.filter();
        let mut out: Vec<C> = Vec::new();
        let mut i: usize = 0;
        while i < a
            invariant
                0 <= i <= a,
                a == self.a,
                self.ready(),
                g == self.grid(),
                f == self.filter(),
                clones(filtered(g, f, a as nat, i as nat), out@),
            decreases a - i,
        {
            let mut j: usize = 0;
            while j < a
                invariant
                    0 <= i < a,
                    0 <= j <= a,
                    a == self.a,
                    self.ready(),
                    g == self.grid(),
                    f == self.filter(),
                    clones(filtered(g, f, a as nat, i as nat) + select(g[i as int], f[i as int], j as nat), out@),
                decreases a - j,
            {
                assert(g[i as int].len() == a && f[i as int].len() == a);
                let ghost before = filtered(g, f, a as nat, i as nat) + select(g[i as int], f[i as int], j as nat);
                if self.filter[i][j] {
                    let c = self.state[i][j].clone();
                    out.push(c);
                    assert(filtered(g, f, a as nat, i as nat) + select(g[i as int], f[i as int], (j + 1) as nat)
                        =~= before.push(g[i as int][j as int]));
                } else {
                    assert(filtered(g, f, a as nat, i as nat) + select(g[i as int], f[i as int], (j + 1) as nat)
                        =~= before);
                }
                j += 1;
            }
            i += 1;
        }
        proof {
            lemma_filtered_len(g, f, a as nat, a as nat);
        }
        out
    }

    /// Rotates row `i` of the grid left by `i` positions.
    pub fn shift_rows(&mut self)
        requires
            old(self).ready(),
        ensures
            final(self).ready(),
            old(self).same_parameters(final(self)),
            final(self).whitening() == old(self).whitening(),
            final(self).pseudo_ks() == old(self).pseudo_ks(),
            rows_shifted(old(self).side(), old(self).grid(), final(self).grid()),
    {
        let a = self.a;
        let ghost g = self.grid();
        let mut out: Vec<Vec<C>> = Vec::new();
        let mut i: usize = 0;
        while i < a
            invariant
                0 <= i <= a,
                a == self.a,
                g == self.grid(),
                is_square(g, a as nat),
                out@.len() == i,
                forall|x: int| 0 <= x < i ==> (#[trigger] rows(out@)[x]).len() == a,
                forall|x: int, y: int|
                    0 <= x < i && 0 <= y < a ==> cloned(g[x][(y + x) % (a as int)], #[trigger] rows(out@)[x][y]),
            decreases a - i,
        {
            let mut row: Vec<C> = Vec::new();
            let mut j: usize = 0;
            while j < a
                invariant
                    0 <= i < a,
                    0 <= j <= a,
                    a == self.a,
                    g == self.grid(),
                    is_square(g, a as nat),
                    row@.len() == j,
                    forall|y: int| 0 <= y < j ==> cloned(g[i as int][(y + i) % (a as int)], #[trigger] row@[y]),
                decreases a - j,
            {
                assert(g[i as int].len() == a);
                let idx: usize = if j < a - i { j + i } else { j - (a - i) };
                proof {
                    if j < a - i {
                        vstd::arithmetic::div_mod::lemma_fundamental_div_mod_converse(
                            (j + i) as int, a as int, 0, idx as int);
                    } else {
                        vstd::arithmetic::div_mod::lemma_fundamental_div_mod_converse(
                            (j + i) as int, a as int, 1, idx as int);
                    }
                }
                let c = self.state[i][idx].clone();
                row.push(c);
                j += 1;
            }
            let ghost prev = rows(out@);
            out.push(row);
            assert(rows(out@) =~= prev.push(row@));
            i += 1;
        }
        self.state = out;
    }

    /// Clones of column `j` of the grid, top to bottom.
    fn get_col(&self, j: usize) -> (r: Vec<C>)
        requires
            is_square(self.grid(), self.side()),
            j < self.side(),
        ensures
            r@.len() == self.grid().len(),
            forall|k: int| 0 <= k < self.grid().len() ==> cloned(self.grid()[k][j as int], #[trigger] r@[k]),
    {
        let mut out: Vec<C> = Vec::new();
        let mut k: usize = 0;
        while k < self.a
            invariant
                0 <= k <= self.a,
                is_square(self.grid(), self.side()),
                j < self.side(),
                out@.len() == k,
                forall|x: int| 0 <= x < k ==> cloned(self.grid()[x][j as int], #[trigger] out@[x]),
            decreases self.a - k,
        {
            assert(self.grid()[k as int].len() == self.a);
            let c = self.state[k][j].clone();
            out.push(c);
            k += 1;
        }
        out
    }

    /// Cell `(i, j)` becomes the channel's weighted sum of column `j`
    /// against row `i` of the mixing matrix, modulo `p`.
    pub fn mix_columns<L: Fn(&Vec<C>, &Vec<u64>, u64) -> C>(&mut self, lc: &L)
        requires
            old(self).ready(),
            channel_total(*lc),
        ensures
            final(self).ready(),
            old(self).same_parameters(final(self)),
            final(self).whitening() == old(self).whitening(),
            final(self).pseudo_ks() == old(self).pseudo_ks(),
            columns_mixed(
                *lc,
                old(self).matrix(),
                old(self).modulus(),
                old(self).side(),
                old(self).grid(),
                final(self).grid(),
            ),
    {
        let a = self.a;
        let ghost g = self.grid();
        let ghost m = self.matrix();
        let mut out: Vec<Vec<C>> = Vec::new();
        let mut i: usize = 0;
        while i < a
            invariant
                0 <= i <= a,
                a == self.a,
                self.ready(),
                g == self.grid(),
                m == self.matrix(),
                channel_total(*lc),
                out@.len() == i,
                forall|x: int| 0 <= x < i ==> (#[trigger] rows(out@)[x]).len() == a,
                forall|x: int, y: int|
                    0 <= x < i && 0 <= y < a ==> mixed_cell(*lc, g, y, m[x], self.p, #[trigger] rows(out@)[x][y]),
            decreases a - i,
        {
            let mut row: Vec<C> = Vec::new();
            let mut j: usize = 0;
            while j < a
                invariant
                    0 <= i < a,
                    0 <= j <= a,
                    a == self.a,
                    self.ready(),
                    g == self.grid(),
                    m == self.matrix(),
                    channel_total(*lc),
                    row@.len() == j,
                    forall|y: int| 0 <= y < j ==> mixed_cell(*lc, g, y, m[i as int], self.p, #[trigger] row@[y]),
                decreases a - j,
            {
                let col = self.get_col(j);
                let v = lc(&col, &self.matrix_mc[i], self.p);
                assert(lc.ensures((&col, &self.matrix_mc[i as int], self.p), v));
                assert(m[i as int] == self.matrix_mc@[i as int]@);
                assert(mixed_cell(*lc, g, j as int, m[i as int], self.p, v));
                row.push(v);
                j += 1;
            }
            let ghost prev = rows(out@);
            out.push(row);
            assert(rows(out@) =~= prev.push(row@));
            i += 1;
        }
        self.state = out;
    }

    /// One full round. The output is extracted and whitened from the
    /// substituted grid before shift-rows and mix-columns prepare the next
    /// round's grid.
    pub fn clock<
        L: Fn(&Vec<C>, &Vec<u64>, u64) -> C,
        A: Fn(&C, &C) -> C,
        T: Fn(&C, &Vec<u64>, u64) -> C,
    >(&mut self, lc: &L, plus: &A, lut: &T) -> (r: Vec<C>)
        requires
            old(self).ready(),
            channel_total(*lc),
            sum_total(*plus),
            lut_total(*lut),
        ensures
            final(self).ready(),
            old(self).same_parameters(final(self)),
            r@.len() == old(self).outputs(),
            old(self).pseudo_ks().same_register(&final(self).pseudo_ks()),
            final(self).pseudo_ks().coefficients() == coefficients_after(
                old(self).pseudo_ks().coefficients(),
                old(self).pseudo_ks().taps(),
                old(self).modulus(),
                old(self).side() * old(self).side(),
            ),
            old(self).whitening().same_register(&final(self).whitening()),
            final(self).whitening().coefficients() == coefficients_after(
                old(self).whitening().coefficients(),
                old(self).whitening().taps(),
                old(self).modulus(),
                old(self).outputs(),
            ),
            round(*lc, *plus, *lut, *old(self), *final(self), r@),
    {
        let ghost before = *self;
        self.add_round_key(lc, plus);
        let ghost g1 = self.grid();
        self.sub_bytes(lut);
        let ghost g2 = self.grid();
        let filtered_cells = self.filter_output();
        let ghost f = filtered_cells@;
        let output = self.white_output(filtered_cells, lc, plus);
        self.shift_rows();
        let ghost g3 = self.grid();
        self.mix_columns(lc);
        assert(clones(filtered(g2, before.filter(), before.side(), before.side()), f));
        assert(rows_shifted(before.side(), g2, g3));
        assert(substituted(*lut, before.s_box(), before.modulus(), before.side(), g1, g2));
        assert(round_key_added(*lc, *plus, before.pseudo_ks(), before.side(), before.grid(), g1));
        output
    }
}

/// The channel's weighted sum is a function of the views of its arguments.
pub open spec fn lc_deterministic<C, L: Fn(&Vec<C>, &Vec<u64>, u64) -> C>(lc: L) -> bool {
    forall|cv1: &Vec<C>, kv1: &Vec<u64>, cv2: &Vec<C>, kv2: &Vec<u64>, m: u64, r1: C, r2: C|
        cv1@ == cv2@ && kv1@ == kv2@ && #[trigger] lc.ensures((cv1, kv1, m), r1) && #[trigger] lc.ensures(
            (cv2, kv2, m),
            r2,
        ) ==> r1 == r2
}

/// The channel's two-term sum is a function of its arguments.
pub open spec fn sum_deterministic<C, A: Fn(&C, &C) -> C>(plus: A) -> bool {
    forall|x: &C, y: &C, r1: C, r2: C|
        #[trigger] plus.ensures((x, y), r1) && #[trigger] plus.ensures((x, y), r2) ==> r1 == r2
}

/// The channel's table lookup is a function of the cell and the table's view.
pub open spec fn lut_deterministic<C, T: Fn(&C, &Vec<u64>, u64) -> C>(lut: T) -> bool {
    forall|c: &C, t1: &Vec<u64>, t2: &Vec<u64>, m: u64, r1: C, r2: C|
        t1@ == t2@ && #[trigger] lut.ensures((c, t1, m), r1) && #[trigger] lut.ensures((c, t2, m), r2)
            ==> r1 == r2
}

/// Cloning a `C` gives back an equal value.
pub open spec fn clone_faithful<C: Clone>() -> bool {
    forall|a: C, b: C| #[trigger] cloned(a, b) ==> a == b
}

impl<C> Transistor<C> {
    /// `self` and `other` agree on everything a round reads.
    pub open spec fn same_view(&self, other: &Self) -> bool {
        &&& self.same_parameters(other)
        &&& self.grid() == other.grid()
        &&& self.whitening().same_register(&other.whitening())
        &&& self.whitening().coefficients() == other.whitening().coefficients()
        &&& self.pseudo_ks().same_register(&other.pseudo_ks())
        &&& self.pseudo_ks().coefficients() == other.pseudo_ks().coefficients()
    }
}

proof fn lemma_lc_unique<C, L: Fn(&Vec<C>, &Vec<u64>, u64) -> C>(
    lc: L,
    cells: Seq<C>,
    coeffs: Seq<u64>,
    p: u64,
    r1: C,
    r2: C,
)
    requires
        lc_deterministic(lc),
        lc_returns(lc, cells, coeffs, p, r1),
        lc_returns(lc, cells, coeffs, p, r2),
    ensures
        r1 == r2,
{
    let (cv1, kv1) = choose|cv: &Vec<C>, kv: &Vec<u64>|
        cv@ == cells && kv@ == coeffs && #[trigger] lc.ensures((cv, kv, p), r1);
    let (cv2, kv2) = choose|cv: &Vec<C>, kv: &Vec<u64>|
        cv@ == cells && kv@ == coeffs && #[trigger] lc.ensures((cv, kv, p), r2);
    assert(lc.ensures((cv1, kv1, p), r1) && lc.ensures((cv2, kv2, p), r2));
}

proof fn lemma_keyed_unique<C, L: Fn(&Vec<C>, &Vec<u64>, u64) -> C, A: Fn(&C, &C) -> C>(
    lc: L,
    plus: A,
    l1: LFSR<C>,
    l2: LFSR<C>,
    t: nat,
    x: C,
    r1: C,
    r2: C,
)
    requires
        lc_deterministic(lc),
        sum_deterministic(plus),
        l1.same_register(&l2),
        l1.coefficients() == l2.coefficients(),
        keyed(lc, plus, l1, t, x, r1),
        keyed(lc, plus, l2, t, x, r2),
    ensures
        r1 == r2,
{
    let ks1 = choose|ks: C|
        lc_returns(
            lc,
            l1.cells(),
            coefficients_after(l1.coefficients(), l1.taps(), l1.modulus(), t),
            l1.modulus(),
            ks,
        ) && #[trigger] plus.ensures((&x, &ks), r1);
    let ks2 = choose|ks: C|
        lc_returns(
            lc,
            l2.cells(),
            coefficients_after(l2.coefficients(), l2.taps(), l2.modulus(), t),
            l2.modulus(),
            ks,
        ) && #[trigger] plus.ensures((&x, &ks), r2);
    lemma_lc_unique(
        lc,
        l1.cells(),
        coefficients_after(l1.coefficients(), l1.taps(), l1.modulus(), t),
        l1.modulus(),
        ks1,
        ks2,
    );
    assert(plus.ensures((&x, &ks1), r1) && plus.ensures((&x, &ks1), r2));
}

proof fn lemma_grid_ext<C>(a: nat, g1: Seq<Seq<C>>, g2: Seq<Seq<C>>)
    requires
        is_square(g1, a),
        is_square(g2, a),
        forall|i: int, j: int| 0 <= i < a && 0 <= j < a ==> #[trigger] g1[i][j] == g2[i][j],
    ensures
        g1 == g2,
{
    assert forall|i: int| 0 <= i < a implies #[trigger] g1[i] == g2[i] by {
        assert(g1[i] =~= g2[i]);
    }
    assert(g1 =~= g2);
}

/// A round is deterministic: from two cipher states that agree on
/// everything a round reads, with a deterministic channel and faithful
/// clones, the round outputs and the next grids are equal. Repeated, this
/// makes any number of rounds from equal initial states agree.
pub proof fn lemma_round_deterministic<
    C: Clone,
    L: Fn(&Vec<C>, &Vec<u64>, u64) -> C,
    A: Fn(&C, &C) -> C,
    T: Fn(&C, &Vec<u64>, u64) -> C,
>(
    lc: L,
    plus: A,
    lut: T,
    b1: Transistor<C>,
    b2: Transistor<C>,
    a1: Transistor<C>,
    a2: Transistor<C>,
    o1: Seq<C>,
    o2: Seq<C>,
)
    requires
        b1.ready(),
        b1.same_view(&b2),
        lc_deterministic(lc),
        sum_deterministic(plus),
        lut_deterministic(lut),
        clone_faithful::<C>(),
        round(lc, plus, lut, b1, a1, o1),
        round(lc, plus, lut, b2, a2, o2),
    ensures
        o1 == o2,
        a1.grid() == a2.grid(),
{
    let a = b1.side();
    let p = b1.modulus();
    // add round key
    let g1 = choose|g1: Seq<Seq<C>>| #[trigger] round_key_added(lc, plus, b1.pseudo_ks(), a, b1.grid(), g1)
        && exists|g2: Seq<Seq<C>>|
            #[trigger] substituted(lut, b1.s_box(), p, a, g1, g2) && (exists|f: Seq<C>|
                #[trigger] clones(filtered(g2, b1.filter(), a, a), f) && whitened(lc, plus, b1.whitening(), f, o1))
                && (exists|g3: Seq<Seq<C>>|
                #[trigger] rows_shifted(a, g2, g3) && columns_mixed(lc, b1.matrix(), p, a, g3, a1.grid()));
    let h1 = choose|g1: Seq<Seq<C>>| #[trigger] round_key_added(lc, plus, b2.pseudo_ks(), a, b2.grid(), g1)
        && exists|g2: Seq<Seq<C>>|
            #[trigger] substituted(lut, b2.s_box(), p, a, g1, g2) && (exists|f: Seq<C>|
                #[trigger] clones(filtered(g2, b2.filter(), a, a), f) && whitened(lc, plus, b2.whitening(), f, o2))
                && (exists|g3: Seq<Seq<C>>|
                #[trigger] rows_shifted(a, g2, g3) && columns_mixed(lc, b2.matrix(), p, a, g3, a2.grid()));
    assert forall|i: int, j: int| 0 <= i < a && 0 <= j < a implies #[trigger] g1[i][j] == h1[i][j] by {
        lemma_keyed_unique(lc, plus, b1.pseudo_ks(), b2.pseudo_ks(), (i * a + j) as nat, b1.grid()[i][j], g1[i][j], h1[i][j]);
    }
    lemma_grid_ext(a, g1, h1);
    // substitution
    let g2 = choose|g2: Seq<Seq<C>>|
        #[trigger] substituted(lut, b1.s_box(), p, a, g1, g2) && (exists|f: Seq<C>|
            #[trigger] clones(filtered(g2, b1.filter(), a, a), f) && whitened(lc, plus, b1.whitening(), f, o1))
            && (exists|g3: Seq<Seq<C>>|
            #[trigger] rows_shifted(a, g2, g3) && columns_mixed(lc, b1.matrix(), p, a, g3, a1.grid()));
    let h2 = choose|g2: Seq<Seq<C>>|
        #[trigger] substituted(lut, b2.s_box(), p, a, g1, g2) && (exists|f: Seq<C>|
            #[trigger] clones(filtered(g2, b2.filter(), a, a), f) && whitened(lc, plus, b2.whitening(), f, o2))
            && (exists|g3: Seq<Seq<C>>|
            #[trigger] rows_shifted(a, g2, g3) && columns_mixed(lc, b2.matrix(), p, a, g3, a2.grid()));
    assert forall|i: int, j: int| 0 <= i < a && 0 <= j < a implies #[trigger] g2[i][j] == h2[i][j] by {
        let x = g1[i][j];
        let t1 = choose|tv: &Vec<u64>| tv@ == b1.s_box() && #[trigger] lut.ensures((&x, tv, p), g2[i][j]);
        let t2 = choose|tv: &Vec<u64>| tv@ == b1.s_box() && #[trigger] lut.ensures((&x, tv, p), h2[i][j]);
        assert(lut.ensures((&x, t1, p), g2[i][j]) && lut.ensures((&x, t2, p), h2[i][j]));
    }
    lemma_grid_ext(a, g2, h2);
    // extraction and whitening
    let f1 = choose|f: Seq<C>| #[trigger] clones(filtered(g2, b1.filter(), a, a), f) && whitened(lc, plus, b1.whitening(), f, o1);
    let f2 = choose|f: Seq<C>| #[trigger] clones(filtered(g2, b2.filter(), a, a), f) && whitened(lc, plus, b2.whitening(), f, o2);
    assert forall|k: int| 0 <= k < f1.len() implies #[trigger] f1[k] == f2[k] by {
        assert(cloned(filtered(g2, b1.filter(), a, a)[k], f1[k]));
        assert(cloned(filtered(g2, b1.filter(), a, a)[k], f2[k]));
    }
    assert(f1 =~= f2);
    assert forall|k: int| 0 <= k < o1.len() implies #[trigger] o1[k] == o2[k] by {
        lemma_keyed_unique(lc, plus, b1.whitening(), b2.whitening(), k as nat, f1[k], o1[k], o2[k]);
    }
    assert(o1 =~= o2);
    // shift rows
    let g3 = choose|g3: Seq<Seq<C>>| #[trigger] rows_shifted(a, g2, g3) && columns_mixed(lc, b1.matrix(), p, a, g3, a1.grid());
    let h3 = choose|g3: Seq<Seq<C>>| #[trigger] rows_shifted(a, g2, g3) && columns_mixed(lc, b2.matrix(), p, a, g3, a2.grid());
    assert forall|i: int, j: int| 0 <= i < a && 0 <= j < a implies #[trigger] g3[i][j] == h3[i][j] by {
        assert(cloned(g2[i][(j + i) % (a as int)], g3[i][j]));
        assert(cloned(g2[i][(j + i) % (a as int)], h3[i][j]));
    }
    lemma_grid_ext(a, g3, h3);
    // mix columns
    assert forall|i: int, j: int| 0 <= i < a && 0 <= j < a implies #[trigger] a1.grid()[i][j] == a2.grid()[i][j] by {
        let m = b1.matrix()[i];
        let r1 = a1.grid()[i][j];
        let r2 = a2.grid()[i][j];
        assert(mixed_cell(lc, g3, j, m, p, r1));
        assert(mixed_cell(lc, g3, j, m, p, r2));
        let (cv1, kv1) = choose|cv: &Vec<C>, kv: &Vec<u64>|
            cv@.len() == g3.len() && (forall|k: int| 0 <= k < g3.len() ==> cloned(g3[k][j], #[trigger] cv@[k]))
                && kv@ == m && #[trigger] lc.ensures((cv, kv, p), r1);
        let (cv2, kv2) = choose|cv: &Vec<C>, kv: &Vec<u64>|
            cv@.len() == g3.len() && (forall|k: int| 0 <= k < g3.len() ==> cloned(g3[k][j], #[trigger] cv@[k]))
                && kv@ == m && #[trigger] lc.ensures((cv, kv, p), r2);
        assert forall|k: int| 0 <= k < g3.len() implies #[trigger] cv1@[k] == cv2@[k] by {
            assert(cloned(g3[k][j], cv1@[k]));
            assert(cloned(g3[k][j], cv2@[k]));
        }
        assert(cv1@ =~= cv2@);
        assert(lc.ensures((cv1, kv1, p), r1) && lc.ensures((cv2, kv2, p), r2));
    }
    lemma_grid_ext(a, a1.grid(), a2.grid());
}

} // verus!
