//! The matmul-decomposition predicate `P_{n,R}`: a genome satisfies it iff it
//! is a rank-`R` decomposition of the target tensor. The graded residual
//! `‖reconstruct(g) − target‖²` is the discovery engine's fitness, and the
//! accept step is defined in terms of it.

use vstd::prelude::*;

use crate::flipgraph::{flat_index, lemma_flat_index, target_entry, target_int};
use crate::proposer::{Genome, genome_dims, genome_entry, genome_term};

verus! {

/// Why a genome cannot be compared with a target.
#[derive(Debug, Clone, Copy, PartialEq, Eq, Structural)]
pub enum SchemeError {
    /// A factor vector whose length differs from the genome's dimension
    /// (the length of its first vector).
    LengthMismatch { expected: usize, got: usize },
    /// The genome's dimension differs from the target's; `n` is the logical
    /// matmul size `⌊√expected⌋`.
    DimMismatch { n: usize, expected: usize, got: usize },
}

/// The dimension a genome claims: the length of its first factor vector
/// (`0` for the empty genome).
pub open spec fn genome_dim(g: Seq<Seq<Seq<i8>>>) -> int {
    if g.len() == 0 {
        0
    } else {
        g[0][0].len() as int
    }
}

/// Every factor vector of `g` has length `genome_dim(g)`.
pub open spec fn uniform(g: Seq<Seq<Seq<i8>>>) -> bool {
    genome_dims(g, genome_dim(g), g.len() as int)
}

/// Slot `(t, c)` comes strictly before slot `(t2, c2)` in triple-major order.
pub open spec fn slot_before(t2: int, c2: int, t: int, c: int) -> bool {
    t2 < t || (t2 == t && c2 < c)
}

/// Slot `(t, c)` is the first factor vector whose length is not `d`.
pub open spec fn first_bad_slot(g: Seq<Seq<Seq<i8>>>, d: int, t: int, c: int) -> bool {
    &&& 0 <= t < g.len()
    &&& 0 <= c < 3
    &&& g[t][c].len() != d
    &&& forall|t2: int, c2: int|
        0 <= t2 && 0 <= c2 < 3 && slot_before(t2, c2, t, c) ==> #[trigger] g[t2][c2].len() == d
}

proof fn lemma_view_triples(g: &Genome)
    ensures
        forall|t: int| 0 <= t < g@.len() ==> #[trigger] g@[t].len() == 3,
        g@.len() == g.triples@.len(),
{
}

/// Check that a genome is well formed and return its dimension: every
/// factor vector must have the length of the first one. The first offending
/// vector (triple-major, then `u`, `v`, `w`) is reported.
pub fn express(g: &Genome) -> (r: Result<usize, SchemeError>)
    ensures
        r is Ok <==> uniform(g@),
        r matches Ok(d) ==> d == genome_dim(g@),
        r matches Err(e) ==> exists|t: int, c: int|
            first_bad_slot(g@, genome_dim(g@), t, c) && e == (SchemeError::LengthMismatch {
                expected: genome_dim(g@) as usize,
                got: g@[t][c].len() as usize,
            }),
{
    proof {
        lemma_view_triples(g);
    }
    let n = g.triples.len();
    if n == 0 {
        return Ok(0);
    }
    let d = g.triples[0][0].len();
    assert(d == genome_dim(g@));
    let mut t: usize = 0;
    while t < n
        invariant
            n == g@.len(),
            t <= n,
            d == genome_dim(g@),
            forall|t: int| 0 <= t < g@.len() ==> #[trigger] g@[t].len() == 3,
            forall|t2: int, c2: int| 0 <= t2 < t && 0 <= c2 < 3 ==> #[trigger] g@[t2][c2].len() == d,
        decreases n - t,
    {
        let mut c: usize = 0;
        while c < 3
            invariant
                n == g@.len(),
                t < n,
                c <= 3,
                d == genome_dim(g@),
                forall|t: int| 0 <= t < g@.len() ==> #[trigger] g@[t].len() == 3,
                forall|t2: int, c2: int|
                    0 <= t2 && 0 <= c2 < 3 && slot_before(t2, c2, t as int, c as int) ==> #[trigger] g@[t2][c2].len()
                        == d,
            decreases 3 - c,
        {
            let len = g.triples[t][c].len();
            assert(len == g@[t as int][c as int].len());
            if len != d {
                assert(first_bad_slot(g@, d as int, t as int, c as int));
                proof {
                    assert(!uniform(g@));
                }
                return Err(SchemeError::LengthMismatch { expected: d, got: len });
            }
            c = c + 1;
        }
        t = t + 1;
    }
    Ok(d)
}

/// A tensor of dimension `dim`, its `dim³` entries in row-major `(p, q, r)`
/// order.
#[derive(Debug, Clone, PartialEq, Eq)]
pub struct Tensor {
    pub dim: usize,
    pub entries: Vec<i64>,
}

impl Tensor {
    /// The entry count matches the dimension.
    pub open spec fn wf(&self) -> bool {
        self.entries@.len() == self.dim * self.dim * self.dim
    }

    /// The `n×n` matmul tensor (`dim = n²`).
    pub fn matmul(n: usize) -> (t: Tensor)
        requires
            (n * n) * (n * n) * (n * n) <= usize::MAX,
        ensures
            t.wf(),
            t.dim == n * n,
            forall|p: int, q: int, r: int|
                0 <= p < n * n && 0 <= q < n * n && 0 <= r < n * n ==> #[trigger] t.entries@[flat_index(
                    (n * n) as int,
                    p,
                    q,
                    r,
                )] == target_entry(n as int, p, q, r),
    {
        assert(n * n <= usize::MAX) by (nonlinear_arith)
            requires
                (n * n) * (n * n) * (n * n) <= usize::MAX,
        ;
        let entries = target_int(n);
        Tensor { dim: n * n, entries }
    }
}

// ───────────────────────────── the residual ─────────────────────────────

/// `|x|`.
pub open spec fn iabs(x: int) -> int {
    if x < 0 { -x } else { x }
}

/// The largest `|t[k]|` over the first `m` entries.
pub open spec fn max_abs_upto(t: Seq<i64>, m: int) -> int
    decreases m,
{
    if m <= 0 {
        0
    } else {
        let prev = max_abs_upto(t, m - 1);
        let here = iabs(t[m - 1] as int);
        if here > prev { here } else { prev }
    }
}

/// The largest absolute entry of `t`.
pub open spec fn max_abs_entry(t: Seq<i64>) -> int {
    max_abs_upto(t, t.len() as int)
}

pub proof fn lemma_max_abs(t: Seq<i64>, m: int, k: int)
    requires
        0 <= k < m <= t.len(),
    ensures
        iabs(t[k] as int) <= max_abs_upto(t, m),
        0 <= max_abs_upto(t, m),
    decreases m,
{
    if k < m - 1 {
        lemma_max_abs(t, m - 1, k);
    } else if m > 1 {
        lemma_max_abs(t, m - 1, 0);
    }
}

/// The squared error at entry `(p, q, r)`.
pub open spec fn sq_err(g: Seq<Seq<Seq<i8>>>, t: Seq<i64>, d: int, p: int, q: int, r: int) -> int {
    let x = genome_entry(g, p, q, r) - t[flat_index(d, p, q, r)];
    x * x
}

/// `Σ_{r < m} sq_err(p, q, r)`.
pub open spec fn res_r(g: Seq<Seq<Seq<i8>>>, t: Seq<i64>, d: int, p: int, q: int, m: int) -> int
    decreases m,
{
    if m <= 0 {
        0
    } else {
        res_r(g, t, d, p, q, m - 1) + sq_err(g, t, d, p, q, m - 1)
    }
}

/// `Σ_{q < m} Σ_{r < d} sq_err(p, q, r)`.
pub open spec fn res_q(g: Seq<Seq<Seq<i8>>>, t: Seq<i64>, d: int, p: int, m: int) -> int
    decreases m,
{
    if m <= 0 {
        0
    } else {
        res_q(g, t, d, p, m - 1) + res_r(g, t, d, p, m - 1, d)
    }
}

/// `Σ_{p < m} Σ_{q < d} Σ_{r < d} sq_err(p, q, r)`.
pub open spec fn res_p(g: Seq<Seq<Seq<i8>>>, t: Seq<i64>, d: int, m: int) -> int
    decreases m,
{
    if m <= 0 {
        0
    } else {
        res_p(g, t, d, m - 1) + res_q(g, t, d, m - 1, d)
    }
}

/// The graded residual `‖reconstruct(g) − t‖²` over all `d³` entries.
pub open spec fn residual_of(g: Seq<Seq<Seq<i8>>>, t: Seq<i64>, d: int) -> int {
    res_p(g, t, d, d)
}

proof fn lemma_res_r_nonneg(g: Seq<Seq<Seq<i8>>>, t: Seq<i64>, d: int, p: int, q: int, m: int)
    ensures
        0 <= res_r(g, t, d, p, q, m),
    decreases m,
{
    if m > 0 {
        lemma_res_r_nonneg(g, t, d, p, q, m - 1);
        let x = genome_entry(g, p, q, m - 1) - t[flat_index(d, p, q, m - 1)];
        assert(x * x >= 0) by (nonlinear_arith);
    }
}

proof fn lemma_res_q_nonneg(g: Seq<Seq<Seq<i8>>>, t: Seq<i64>, d: int, p: int, m: int)
    ensures
        0 <= res_q(g, t, d, p, m),
    decreases m,
{
    if m > 0 {
        lemma_res_q_nonneg(g, t, d, p, m - 1);
        lemma_res_r_nonneg(g, t, d, p, m - 1, d);
    }
}

proof fn lemma_res_p_nonneg(g: Seq<Seq<Seq<i8>>>, t: Seq<i64>, d: int, m: int)
    ensures
        0 <= res_p(g, t, d, m),
    decreases m,
{
    if m > 0 {
        lemma_res_p_nonneg(g, t, d, m - 1);
        lemma_res_q_nonneg(g, t, d, m - 1, d);
    }
}

proof fn lemma_res_r_mono(g: Seq<Seq<Seq<i8>>>, t: Seq<i64>, d: int, p: int, q: int, a: int, b: int)
    requires
        0 <= a <= b,
    ensures
        0 <= res_r(g, t, d, p, q, a) <= res_r(g, t, d, p, q, b),
    decreases b,
{
    if b > a {
        lemma_res_r_mono(g, t, d, p, q, a, b - 1);
        let x = genome_entry(g, p, q, b - 1) - t[flat_index(d, p, q, b - 1)];
        assert(x * x >= 0) by (nonlinear_arith);
    } else {
        lemma_res_r_nonneg(g, t, d, p, q, a);
    }
}

proof fn lemma_res_q_mono(g: Seq<Seq<Seq<i8>>>, t: Seq<i64>, d: int, p: int, a: int, b: int)
    requires
        0 <= a <= b,
        0 <= d,
    ensures
        0 <= res_q(g, t, d, p, a) <= res_q(g, t, d, p, b),
    decreases b,
{
    if b > a {
        lemma_res_q_mono(g, t, d, p, a, b - 1);
        lemma_res_r_nonneg(g, t, d, p, b - 1, d);
    } else {
        lemma_res_q_nonneg(g, t, d, p, a);
    }
}

proof fn lemma_res_p_mono(g: Seq<Seq<Seq<i8>>>, t: Seq<i64>, d: int, a: int, b: int)
    requires
        0 <= a <= b,
        0 <= d,
    ensures
        0 <= res_p(g, t, d, a) <= res_p(g, t, d, b),
    decreases b,
{
    if b > a {
        lemma_res_p_mono(g, t, d, a, b - 1);
        lemma_res_q_nonneg(g, t, d, b - 1, d);
    } else {
        lemma_res_p_nonneg(g, t, d, a);
    }
}

/// The residual is a sum of squares.
pub proof fn lemma_residual_nonneg(g: Seq<Seq<Seq<i8>>>, t: Seq<i64>, d: int)
    requires
        0 <= d,
    ensures
        residual_of(g, t, d) >= 0,
{
    lemma_res_p_mono(g, t, d, 0, d);
}

proof fn lemma_term_bound(a: i8, b: i8, c: i8)
    ensures
        -0x200000 <= a * b * c <= 0x200000,
{
    assert(-0x4000 <= a * b <= 0x4000) by (nonlinear_arith)
        requires
            -128 <= a <= 127,
            -128 <= b <= 127,
    ;
    let ab = a * b;
    assert(-0x200000 <= ab * c <= 0x200000) by (nonlinear_arith)
        requires
            -0x4000 <= ab <= 0x4000,
            -128 <= c <= 127,
    ;
}

proof fn lemma_entry_take(g: Seq<Seq<Seq<i8>>>, k: int, p: int, q: int, r: int)
    requires
        0 <= k < g.len(),
    ensures
        genome_entry(g.take(k + 1), p, q, r) == genome_entry(g.take(k), p, q, r) + genome_term(g[k], p, q, r),
{
    assert(g.take(k + 1).drop_last() =~= g.take(k));
}

/// Entry `(p, q, r)` of the tensor a well-formed genome stands for.
fn genome_entry_at(g: &Genome, p: usize, q: usize, r: usize, Ghost(d): Ghost<int>) -> (e: i64)
    requires
        genome_dims(g@, d, g@.len() as int),
        p < d,
        q < d,
        r < d,
        g@.len() * 0x200000 <= i64::MAX,
    ensures
        e == genome_entry(g@, p as int, q as int, r as int),
        iabs(e as int) <= g@.len() * 0x200000,
{
    let n = g.triples.len();
    let mut acc: i64 = 0;
    let mut k: usize = 0;
    while k < n
        invariant
            n == g@.len(),
            k <= n,
            genome_dims(g@, d, g@.len() as int),
            p < d,
            q < d,
            r < d,
            g@.len() * 0x200000 <= i64::MAX,
            acc == genome_entry(g@.take(k as int), p as int, q as int, r as int),
            iabs(acc as int) <= k * 0x200000,
        decreases n - k,
    {
        let tri = &g.triples[k];
        assert(g@[k as int] == crate::proposer::triple_seqs(*tri));
        let a = tri[0][p];
        let b = tri[1][q];
        let c = tri[2][r];
        proof {
            lemma_term_bound(a, b, c);
            lemma_entry_take(g@, k as int, p as int, q as int, r as int);
            assert(a * b * c == genome_term(g@[k as int], p as int, q as int, r as int));
        }
        assert(-0x4000 <= (a as i64) * (b as i64) <= 0x4000) by (nonlinear_arith)
            requires
                -128 <= a <= 127,
                -128 <= b <= 127,
        ;
        let ab = (a as i64) * (b as i64);
        let term = ab * (c as i64);
        acc = acc + term;
        k = k + 1;
    }
    assert(g@.take(n as int) =~= g@);
    acc
}

/// The residual arithmetic stays inside `i64`: every factor-sum and target
/// entry is far from the limit, and so is the total.
pub open spec fn residual_fits(g: Seq<Seq<Seq<i8>>>, t: Seq<i64>, d: int) -> bool {
    &&& g.len() * 0x200000 + max_abs_entry(t) <= i64::MAX
    &&& residual_of(g, t, d) <= i64::MAX
}

/// `Σ (reconstruct(g) − t)²` for a genome of dimension `d` against a
/// `d³`-entry target.
fn residual_sum(g: &Genome, t: &Vec<i64>, d: usize) -> (s: i64)
    requires
        genome_dims(g@, d as int, g@.len() as int),
        t@.len() == d * d * d,
        residual_fits(g@, t@, d as int),
    ensures
        s == residual_of(g@, t@, d as int),
{
    let ghost gs = g@;
    let ghost ts = t@;
    let ghost di = d as int;
    let tl = t.len();
    let mut total: i64 = 0;
    let mut p: usize = 0;
    while p < d
        invariant
            tl == d * d * d,
            gs == g@,
            ts == t@,
            di == d,
            p <= d,
            genome_dims(gs, di, gs.len() as int),
            ts.len() == d * d * d,
            residual_fits(gs, ts, di),
            total == res_p(gs, ts, di, p as int),
        decreases d - p,
    {
        let mut q: usize = 0;
        while q < d
            invariant
                tl == d * d * d,
                gs == g@,
                ts == t@,
                di == d,
                p < d,
                q <= d,
                genome_dims(gs, di, gs.len() as int),
                ts.len() == d * d * d,
                residual_fits(gs, ts, di),
                total == res_p(gs, ts, di, p as int) + res_q(gs, ts, di, p as int, q as int),
            decreases d - q,
        {
            let mut r: usize = 0;
            while r < d
                invariant
                    tl == d * d * d,
                    gs == g@,
                    ts == t@,
                    di == d,
                    p < d,
                    q < d,
                    r <= d,
                    genome_dims(gs, di, gs.len() as int),
                    ts.len() == d * d * d,
                    residual_fits(gs, ts, di),
                    total == res_p(gs, ts, di, p as int) + res_q(gs, ts, di, p as int, q as int) + res_r(
                        gs,
                        ts,
                        di,
                        p as int,
                        q as int,
                        r as int,
                    ),
                decreases d - r,
            {
                let e = genome_entry_at(g, p, q, r, Ghost(di));
                proof {
                    lemma_flat_index(di, p as int, q as int, r as int);
                    assert(p * d + q < d * d) by (nonlinear_arith)
                        requires
                            p < d,
                            q < d,
                    ;
                    assert((p * d + q) * d + r < d * d * d) by (nonlinear_arith)
                        requires
                            p * d + q < d * d,
                            r < d,
                    ;
                    assert(d * d <= d * d * d) by (nonlinear_arith)
                        requires
                            0 < d,
                    ;
                }
                let idx = (p * d + q) * d + r;
                assert(idx == flat_index(di, p as int, q as int, r as int));
                let tk = t[idx];
                proof {
                    lemma_max_abs(ts, ts.len() as int, idx as int);
                }
                let diff = e - tk;
                proof {
                    // every partial sum is bounded by the full residual
                    lemma_res_r_mono(gs, ts, di, p as int, q as int, r as int + 1, di);
                    lemma_res_q_mono(gs, ts, di, p as int, q as int + 1, di);
                    lemma_res_p_mono(gs, ts, di, p as int + 1, di);
                    lemma_res_q_mono(gs, ts, di, p as int, 0, q as int);
                    lemma_res_r_mono(gs, ts, di, p as int, q as int, 0, r as int);
                    lemma_res_p_mono(gs, ts, di, 0, p as int);
                    assert(diff * diff == sq_err(gs, ts, di, p as int, q as int, r as int));
                }
                total = total + diff * diff;
                r = r + 1;
            }
            q = q + 1;
        }
        p = p + 1;
    }
    total
}

/// `n = ⌊√d⌋`.
pub open spec fn is_floor_sqrt(n: int, d: int) -> bool {
    n * n <= d < (n + 1) * (n + 1)
}

/// A floor square root is unique.
pub proof fn lemma_floor_sqrt_unique(n: int, m: int, d: int)
    requires
        n >= 0,
        m >= 0,
        is_floor_sqrt(n, d),
        is_floor_sqrt(m, d),
    ensures
        n == m,
{
    if n < m {
        assert((n + 1) * (n + 1) <= m * m) by (nonlinear_arith)
            requires
                0 <= n,
                n + 1 <= m,
        ;
    } else if m < n {
        assert((m + 1) * (m + 1) <= n * n) by (nonlinear_arith)
            requires
                0 <= m,
                m + 1 <= n,
        ;
    }
}

/// The error a genome that cannot be compared with a `d`-dimensional target
/// is answered with: the first malformed slot's `LengthMismatch`, else the
/// `DimMismatch`.
pub open spec fn shape_error(g: Seq<Seq<Seq<i8>>>, d: int, e: SchemeError) -> bool {
    if !uniform(g) {
        exists|t: int, c: int|
            first_bad_slot(g, genome_dim(g), t, c) && e == (SchemeError::LengthMismatch {
                expected: genome_dim(g) as usize,
                got: g[t][c].len() as usize,
            })
    } else {
        e matches SchemeError::DimMismatch { n, expected, got } && expected == d && got == genome_dim(g)
            && is_floor_sqrt(n as int, expected as int)
    }
}

/// What `residual` answers on `g` against the `d`-dimensional target `t`.
pub open spec fn residual_answer(g: Seq<Seq<Seq<i8>>>, t: Seq<i64>, d: int, r: Result<i64, SchemeError>) -> bool {
    if uniform(g) && genome_dim(g) == d {
        r == Ok::<i64, SchemeError>(residual_of(g, t, d) as i64)
    } else {
        r matches Err(e) && shape_error(g, d, e)
    }
}

/// What `discharge` answers on `g` against the `d`-dimensional target `t`
/// at rank `rank`.
pub open spec fn discharge_answer(
    g: Seq<Seq<Seq<i8>>>,
    t: Seq<i64>,
    d: int,
    rank: int,
    r: Result<bool, SchemeError>,
) -> bool {
    if uniform(g) && genome_dim(g) == d {
        r == Ok::<bool, SchemeError>(residual_of(g, t, d) == 0 && g.len() == rank)
    } else {
        r matches Err(e) && shape_error(g, d, e)
    }
}

proof fn lemma_first_bad_slot_unique(g: Seq<Seq<Seq<i8>>>, d: int, t1: int, c1: int, t2: int, c2: int)
    requires
        first_bad_slot(g, d, t1, c1),
        first_bad_slot(g, d, t2, c2),
    ensures
        t1 == t2 && c1 == c2,
{
    if slot_before(t1, c1, t2, c2) {
        assert(g[t1][c1].len() == d);
    } else if slot_before(t2, c2, t1, c1) {
        assert(g[t2][c2].len() == d);
    }
}

/// `discharge` is `residual` followed by the rank test: exact iff the
/// residual is `0` and the rank matches, and every residual error is the
/// same error, whatever the rank.
pub proof fn lemma_discharge_is_residual_then_rank(
    g: Seq<Seq<Seq<i8>>>,
    t: Seq<i64>,
    d: int,
    rank: int,
    r1: Result<i64, SchemeError>,
    r2: Result<bool, SchemeError>,
)
    requires
        uniform(g) && genome_dim(g) == d ==> 0 <= residual_of(g, t, d) <= i64::MAX,
        residual_answer(g, t, d, r1),
        discharge_answer(g, t, d, rank, r2),
    ensures
        r2 == (match r1 {
            Ok(x) => Ok::<bool, SchemeError>(x == 0 && g.len() == rank),
            Err(e) => Err::<bool, SchemeError>(e),
        }),
{
    if !(uniform(g) && genome_dim(g) == d) {
        match (r1, r2) {
            (Err(e1), Err(e2)) => {
                if !uniform(g) {
                    let (ta, ca) = choose|ta: int, ca: int|
                        first_bad_slot(g, genome_dim(g), ta, ca) && e1 == (SchemeError::LengthMismatch {
                            expected: genome_dim(g) as usize,
                            got: g[ta][ca].len() as usize,
                        });
                    let (tb, cb) = choose|tb: int, cb: int|
                        first_bad_slot(g, genome_dim(g), tb, cb) && e2 == (SchemeError::LengthMismatch {
                            expected: genome_dim(g) as usize,
                            got: g[tb][cb].len() as usize,
                        });
                    lemma_first_bad_slot_unique(g, genome_dim(g), ta, ca, tb, cb);
                } else {
                    match (e1, e2) {
                        (
                            SchemeError::DimMismatch { n: n1, expected: x1, got: y1 },
                            SchemeError::DimMismatch { n: n2, expected: x2, got: y2 },
                        ) => {
                            lemma_floor_sqrt_unique(n1 as int, n2 as int, d);
                        },
                        _ => {},
                    }
                }
            },
            _ => {},
        }
    }
}

/// The integer square root `⌊√d⌋`.
pub fn floor_sqrt(d: usize) -> (n: usize)
    ensures
        is_floor_sqrt(n as int, d as int),
{
    let mut n: usize = 0;
    loop
        invariant
            n * n <= d,
        decreases d - n,
    {
        assert(n <= d) by (nonlinear_arith)
            requires
                n * n <= d,
        ;
        assert(n < usize::MAX) by (nonlinear_arith)
            requires
                n * n <= d,
                d <= usize::MAX,
        ;
        let m = n + 1;
        match m.checked_mul(m) {
            Some(sq) => {
                if sq <= d {
                    assert(m <= d) by (nonlinear_arith)
                        requires
                            m * m <= d,
                            m >= 1,
                    ;
                    n = m;
                } else {
                    return n;
                }
            },
            None => {
                return n;
            },
        }
    }
}

/// The tensor a well-formed genome stands for.
pub fn reconstruct(g: &Genome) -> (r: Result<Tensor, SchemeError>)
    requires
        uniform(g@) ==> genome_dim(g@) * genome_dim(g@) * genome_dim(g@) <= usize::MAX && g@.len() * 0x200000
            <= i64::MAX,
    ensures
        r is Ok <==> uniform(g@),
        r matches Err(e) ==> exists|t: int, c: int|
            first_bad_slot(g@, genome_dim(g@), t, c) && e == (SchemeError::LengthMismatch {
                expected: genome_dim(g@) as usize,
                got: g@[t][c].len() as usize,
            }),
        r matches Ok(t) ==> {
            &&& t.wf()
            &&& t.dim == genome_dim(g@)
            &&& forall|p: int, q: int, rr: int|
                0 <= p < t.dim && 0 <= q < t.dim && 0 <= rr < t.dim ==> #[trigger] t.entries@[flat_index(
                    t.dim as int,
                    p,
                    q,
                    rr,
                )] == genome_entry(g@, p, q, rr)
        },
{
    let d = match express(g) {
        Ok(d) => d,
        Err(e) => {
            return Err(e);
        },
    };
    let ghost di = d as int;
    let mut entries: Vec<i64> = Vec::new();
    let mut p: usize = 0;
    while p < d
        invariant
            di == d,
            uniform(g@),
            d == genome_dim(g@),
            d * d * d <= usize::MAX,
            g@.len() * 0x200000 <= i64::MAX,
            p <= d,
            entries@.len() == p * d * d,
            forall|p2: int, q: int, rr: int|
                0 <= p2 < p && 0 <= q < d && 0 <= rr < d ==> #[trigger] entries@[flat_index(di, p2, q, rr)]
                    == genome_entry(g@, p2, q, rr),
        decreases d - p,
    {
        let mut q: usize = 0;
        while q < d
            invariant
                di == d,
                uniform(g@),
                d == genome_dim(g@),
                d * d * d <= usize::MAX,
                g@.len() * 0x200000 <= i64::MAX,
                p < d,
                q <= d,
                entries@.len() == (p * d + q) * d,
                forall|p2: int, q2: int, rr: int|
                    0 <= p2 && 0 <= q2 < d && 0 <= rr < d && (p2 < p || (p2 == p && q2 < q))
                        ==> #[trigger] entries@[flat_index(di, p2, q2, rr)] == genome_entry(g@, p2, q2, rr),
            decreases d - q,
        {
            let mut rr: usize = 0;
            while rr < d
                invariant
                    di == d,
                    uniform(g@),
                    d == genome_dim(g@),
                    d * d * d <= usize::MAX,
                    g@.len() * 0x200000 <= i64::MAX,
                    p < d,
                    q < d,
                    rr <= d,
                    entries@.len() == (p * d + q) * d + rr,
                    forall|p2: int, q2: int, r2: int|
                        0 <= p2 && 0 <= q2 < d && 0 <= r2 < d && (p2 < p || (p2 == p && (q2 < q || (q2 == q
                            && r2 < rr)))) ==> #[trigger] entries@[flat_index(di, p2, q2, r2)] == genome_entry(
                            g@,
                            p2,
                            q2,
                            r2,
                        ),
                decreases d - rr,
            {
                let e = genome_entry_at(g, p, q, rr, Ghost(di));
                proof {
                    lemma_flat_index(di, p as int, q as int, rr as int);
                    assert forall|p2: int, q2: int, r2: int|
                        0 <= p2 && 0 <= q2 < d && 0 <= r2 < d && (p2 < p || (p2 == p && (q2 < q || (q2 == q
                            && r2 < rr)))) implies flat_index(di, p2, q2, r2) < flat_index(
                        di,
                        p as int,
                        q as int,
                        rr as int,
                    ) by {
                        crate::flipgraph::lemma_flat_index_order(di, p2, q2, r2, p as int, q as int, rr as int);
                    }
                    assert(entries@.len() == flat_index(di, p as int, q as int, rr as int));
                }
                entries.push(e);
                proof {
                    assert forall|p2: int, q2: int, r2: int|
                        0 <= p2 && 0 <= q2 < d && 0 <= r2 < d && (p2 < p || (p2 == p && (q2 < q || (q2 == q
                            && r2 <= rr)))) implies #[trigger] entries@[flat_index(di, p2, q2, r2)] == genome_entry(
                        g@,
                        p2,
                        q2,
                        r2,
                    ) by {
                        if p2 == p && q2 == q && r2 == rr {
                        } else {
                            crate::flipgraph::lemma_flat_index_order(
                                di,
                                p2,
                                q2,
                                r2,
                                p as int,
                                q as int,
                                rr as int,
                            );
                        }
                    }
                }
                rr = rr + 1;
            }
            assert((p * d + q) * d + d == (p * d + q + 1) * d) by (nonlinear_arith);
            q = q + 1;
        }
        assert((p * d + d) * d == (p + 1) * d * d) by (nonlinear_arith);
        p = p + 1;
    }
    Ok(Tensor { dim: d, entries })
}

/// `P_{n,R}`: a genome satisfies it iff it is a rank-`R` decomposition of the
/// cached target tensor (the target is computed once, at construction).
pub struct RankDecomposition {
    rank: usize,
    target: Tensor,
}

impl RankDecomposition {
    /// The rank `R` this predicate accepts.
    pub closed spec fn required_rank(&self) -> nat {
        self.rank as nat
    }

    /// The cached target tensor.
    pub closed spec fn target_tensor(&self) -> Tensor {
        self.target
    }

    /// The cached target is well formed.
    pub open spec fn wf(&self) -> bool {
        self.target_tensor().wf()
    }

    /// The predicate for `n×n` matmul at rank `rank`.
    pub fn new(n: usize, rank: usize) -> (p: RankDecomposition)
        requires
            (n * n) * (n * n) * (n * n) <= usize::MAX,
        ensures
            p.wf(),
            p.required_rank() == rank,
            p.target_tensor().dim == n * n,
            forall|a: int, b: int, c: int|
                0 <= a < n * n && 0 <= b < n * n && 0 <= c < n * n ==> #[trigger] p.target_tensor().entries@[flat_index(
                    (n * n) as int,
                    a,
                    b,
                    c,
                )] == target_entry(n as int, a, b, c),
    {
        RankDecomposition { rank, target: Tensor::matmul(n) }
    }

    /// The predicate for an arbitrary target at rank `rank` (a planted
    /// instance): same residual and discharge contract.
    pub fn for_target(target: Tensor, rank: usize) -> (p: RankDecomposition)
        requires
            target.wf(),
        ensures
            p.wf(),
            p.required_rank() == rank,
            p.target_tensor() == target,
    {
        RankDecomposition { rank, target }
    }

    /// The target dimension `d` (the length of each genome vector).
    pub fn dim(&self) -> (d: usize)
        ensures
            d == self.target_tensor().dim,
    {
        self.target.dim
    }

    /// The rank `R` this predicate accepts.
    pub fn rank(&self) -> (r: usize)
        ensures
            r == self.required_rank(),
    {
        self.rank
    }

    /// The graded residual `‖reconstruct(g) − target‖²`. A malformed genome
    /// is its `LengthMismatch`; a dimension other than the target's is
    /// `DimMismatch`.
    pub fn residual(&self, g: &Genome) -> (r: Result<i64, SchemeError>)
        requires
            self.wf(),
            uniform(g@) && genome_dim(g@) == self.target_tensor().dim ==> residual_fits(
                g@,
                self.target_tensor().entries@,
                self.target_tensor().dim as int,
            ),
        ensures
            residual_answer(g@, self.target_tensor().entries@, self.target_tensor().dim as int, r),
    {
        let d = match express(g) {
            Ok(d) => d,
            Err(e) => {
                return Err(e);
            },
        };
        if d != self.target.dim {
            let n = floor_sqrt(self.target.dim);
            return Err(SchemeError::DimMismatch { n, expected: self.target.dim, got: d });
        }
        Ok(residual_sum(g, &self.target.entries, d))
    }

    /// Exact iff the residual is `0` and the rank matches; every residual
    /// error propagates, whatever the rank.
    pub fn discharge(&self, g: &Genome) -> (r: Result<bool, SchemeError>)
        requires
            self.wf(),
            uniform(g@) && genome_dim(g@) == self.target_tensor().dim ==> residual_fits(
                g@,
                self.target_tensor().entries@,
                self.target_tensor().dim as int,
            ),
        ensures
            discharge_answer(
                g@,
                self.target_tensor().entries@,
                self.target_tensor().dim as int,
                self.required_rank() as int,
                r,
            ),
    {
        let res = match self.residual(g) {
            Ok(x) => x,
            Err(e) => {
                return Err(e);
            },
        };
        proof {
            lemma_residual_nonneg(g@, self.target.entries@, self.target.dim as int);
        }
        Ok(res == 0 && g.triples.len() == self.rank)
    }
}

} // verus!
