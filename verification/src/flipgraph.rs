//! The Kauers–Moosbauer flip-graph over exact integer matrix-multiplication
//! schemes.
//!
//! A scheme is an ordered list of triples `(u, v, w)` of equal-length integer
//! vectors; it stands for the tensor `Σ_t u_t ⊗ v_t ⊗ w_t`. The moves here
//! (the flip, the reduction, the random perturbation) rewrite the list while
//! keeping that tensor unchanged, so a walk that starts at the naive scheme
//! for `n×n` matrix multiplication only ever visits exact decompositions of
//! it; the only quantity the walk changes is the rank (the list's length).

use vstd::prelude::*;
use vstd::arithmetic::div_mod::lemma_fundamental_div_mod_converse;

use crate::prng::{SplitMix64, below_spec, lemma_below_spec_range};
use crate::proposer::{Genome, genome_entry, genome_shape, triple_seqs};


verus! {

/// Flips are skipped when a rewritten coefficient would leave `|c| ≤ 2¹⁶`.
pub const ENVELOPE: i64 = 65536;

// ───────────────────────────── the model ─────────────────────────────

/// The mathematical content of one triple.
pub struct TripleView {
    pub u: Seq<i64>,
    pub v: Seq<i64>,
    pub w: Seq<i64>,
}

/// The mathematical content of a scheme: its triples in order and the shared
/// vector length.
pub struct SchemeView {
    pub triples: Seq<TripleView>,
    pub dim: nat,
}

/// One triple's contribution to tensor entry `(p, q, r)`.
pub open spec fn term(t: TripleView, p: int, q: int, r: int) -> int {
    t.u[p] * t.v[q] * t.w[r]
}

/// `Σ_t f(t)` over a list of triples, summed front to back.
pub open spec fn sum_over(ts: Seq<TripleView>, f: spec_fn(TripleView) -> int) -> int
    decreases ts.len(),
{
    if ts.len() == 0 {
        0
    } else {
        sum_over(ts.drop_last(), f) + f(ts.last())
    }
}

/// Tensor entry `(p, q, r)` of the scheme whose triples are `ts`:
/// `Σ_t u_t[p]·v_t[q]·w_t[r]`.
pub open spec fn entry(ts: Seq<TripleView>, p: int, q: int, r: int) -> int {
    sum_over(ts, |t: TripleView| term(t, p, q, r))
}

/// Two schemes stand for the same tensor over index range `d`.
pub open spec fn same_tensor(a: Seq<TripleView>, b: Seq<TripleView>, d: int) -> bool {
    forall|p: int, q: int, r: int|
        0 <= p < d && 0 <= q < d && 0 <= r < d ==> #[trigger] entry(a, p, q, r) == entry(b, p, q, r)
}

/// The `n×n` matrix-multiplication tensor over `d = n²` slots: entry
/// `(p, q, r)` is `1` exactly when `p = (i, j)`, `q = (j, k)`, `r = (i, k)` in
/// row-major pairs.
pub open spec fn target_entry(n: int, p: int, q: int, r: int) -> int {
    if p / n == r / n && p % n == q / n && q % n == r % n {
        1
    } else {
        0
    }
}

/// The unit vector `e_idx` of length `d`.
pub open spec fn unit(d: int, idx: int) -> Seq<i64> {
    Seq::new(d as nat, |x: int| if x == idx { 1i64 } else { 0i64 })
}

/// Triple number `t` of the naive scheme for `n×n` matmul: with
/// `t = (i·n + j)·n + k`, it is `(e_{i·n+j}, e_{j·n+k}, e_{i·n+k})`.
pub open spec fn naive_triple(n: int, t: int) -> TripleView {
    let ij = t / n;
    let k = t % n;
    let i = ij / n;
    let j = ij % n;
    TripleView { u: unit(n * n, i * n + j), v: unit(n * n, j * n + k), w: unit(n * n, i * n + k) }
}

/// The naive rank-`n³` scheme, one triple per `(i, j, k)` in lexicographic
/// order.
pub open spec fn naive_triples(n: int) -> Seq<TripleView> {
    Seq::new((n * n * n) as nat, |t: int| naive_triple(n, t))
}

pub open spec fn triple_wf(t: TripleView, d: int) -> bool {
    t.u.len() == d && t.v.len() == d && t.w.len() == d
}

/// Every triple's three vectors have the shared length `d`.
pub open spec fn triples_wf(ts: Seq<TripleView>, d: int) -> bool {
    forall|i: int| 0 <= i < ts.len() ==> triple_wf(#[trigger] ts[i], d)
}

pub open spec fn abs(x: int) -> int {
    if x < 0 { -x } else { x }
}

/// Every coefficient of every triple has magnitude at most `b`.
pub open spec fn bounded_by(ts: Seq<TripleView>, b: int) -> bool {
    forall|i: int, k: int|
        0 <= i < ts.len() ==> {
            &&& (0 <= k < ts[i].u.len() ==> abs(#[trigger] ts[i].u[k] as int) <= b)
            &&& (0 <= k < ts[i].v.len() ==> abs(ts[i].v[k] as int) <= b)
            &&& (0 <= k < ts[i].w.len() ==> abs(ts[i].w[k] as int) <= b)
        }
}

pub open spec fn vec_ternary(x: Seq<i64>) -> bool {
    forall|k: int| 0 <= k < x.len() ==> -1 <= #[trigger] x[k] <= 1
}

pub open spec fn triple_ternary(t: TripleView) -> bool {
    vec_ternary(t.u) && vec_ternary(t.v) && vec_ternary(t.w)
}

/// Every coefficient lies in `{−1, 0, +1}`.
pub open spec fn all_ternary(ts: Seq<TripleView>) -> bool {
    forall|i: int| 0 <= i < ts.len() ==> #[trigger] triple_ternary(ts[i])
}

// ─────────────────────────── sum lemmas ───────────────────────────

pub proof fn lemma_sum_push(ts: Seq<TripleView>, x: TripleView, f: spec_fn(TripleView) -> int)
    ensures
        sum_over(ts.push(x), f) == sum_over(ts, f) + f(x),
{
    assert(ts.push(x).drop_last() =~= ts);
}

/// Replacing one triple changes the sum by the difference of the two terms.
pub proof fn lemma_sum_update(
    ts: Seq<TripleView>,
    i: int,
    x: TripleView,
    f: spec_fn(TripleView) -> int,
)
    requires
        0 <= i < ts.len(),
    ensures
        sum_over(ts.update(i, x), f) == sum_over(ts, f) - f(ts[i]) + f(x),
    decreases ts.len(),
{
    if i == ts.len() - 1 {
        assert(ts.update(i, x).drop_last() =~= ts.drop_last());
    } else {
        lemma_sum_update(ts.drop_last(), i, x, f);
        assert(ts.update(i, x).drop_last() =~= ts.drop_last().update(i, x));
    }
}

/// Removing element `j` by moving the last element into its slot.
pub proof fn lemma_sum_swap_remove(ts: Seq<TripleView>, j: int, f: spec_fn(TripleView) -> int)
    requires
        0 <= j < ts.len(),
    ensures
        sum_over(ts.update(j, ts.last()).drop_last(), f) == sum_over(ts, f) - f(ts[j]),
{
    if j == ts.len() - 1 {
        assert(ts.update(j, ts.last()).drop_last() =~= ts.drop_last());
    } else {
        assert(ts.update(j, ts.last()).drop_last() =~= ts.drop_last().update(j, ts.last()));
        lemma_sum_update(ts.drop_last(), j, ts.last(), f);
    }
}

pub proof fn lemma_sum_take_step(ts: Seq<TripleView>, m: int, f: spec_fn(TripleView) -> int)
    requires
        0 <= m < ts.len(),
    ensures
        sum_over(ts.take(m + 1), f) == sum_over(ts.take(m), f) + f(ts[m]),
{
    assert(ts.take(m + 1).drop_last() =~= ts.take(m));
}

// ─────────────────────── naive and its tensor ───────────────────────

proof fn lemma_decompose(n: int, i: int, j: int, k: int)
    requires
        n > 0,
        0 <= i < n,
        0 <= j < n,
        0 <= k < n,
    ensures
        ((i * n + j) * n + k) / n == i * n + j,
        ((i * n + j) * n + k) % n == k,
        (i * n + j) / n == i,
        (i * n + j) % n == j,
        0 <= i * n + j < n * n,
        0 <= (i * n + j) * n + k < n * n * n,
{
    lemma_fundamental_div_mod_converse((i * n + j) * n + k, n, i * n + j, k);
    lemma_fundamental_div_mod_converse(i * n + j, n, i, j);
    assert(0 <= i * n + j < n * n) by (nonlinear_arith)
        requires
            0 <= i < n,
            0 <= j < n,
    ;
    assert(0 <= (i * n + j) * n + k < n * n * n) by (nonlinear_arith)
        requires
            0 <= i * n + j < n * n,
            0 <= k < n,
    ;
}

/// A slot `p < n²` splits as `p = (p / n)·n + p % n` with both parts `< n`.
proof fn lemma_split_slot(n: int, p: int)
    requires
        n > 0,
        0 <= p < n * n,
    ensures
        0 <= p / n < n,
        0 <= p % n < n,
        p == (p / n) * n + p % n,
{
    assert(p == n * (p / n) + p % n) by {
        vstd::arithmetic::div_mod::lemma_fundamental_div_mod(p, n);
    }
    vstd::arithmetic::div_mod::lemma_mod_pos_bound(p, n);
    assert(0 <= p / n) by {
        vstd::arithmetic::div_mod::lemma_div_pos_is_pos(p, n);
    }
    assert(p / n < n) by {
        vstd::arithmetic::div_mod::lemma_div_by_multiple_is_strongly_ordered(p, n * n, n, n);
        vstd::arithmetic::div_mod::lemma_div_by_multiple(n, n);
    }
    assert((p / n) * n == n * (p / n)) by (nonlinear_arith);
}

proof fn lemma_unit_term(n: int, t: int, p: int, q: int, r: int)
    requires
        n > 0,
        0 <= t < n * n * n,
        0 <= p < n * n,
        0 <= q < n * n,
        0 <= r < n * n,
    ensures
        term(naive_triple(n, t), p, q, r) == (if t == (p * n) + q % n && p / n == r / n
            && p % n == q / n && q % n == r % n {
            1int
        } else {
            0int
        }),
{
    let ij = t / n;
    let k = t % n;
    let i = ij / n;
    let j = ij % n;
    assert(t == ij * n + k) by {
        vstd::arithmetic::div_mod::lemma_fundamental_div_mod(t, n);
        assert(n * ij == ij * n) by (nonlinear_arith);
    }
    vstd::arithmetic::div_mod::lemma_mod_pos_bound(t, n);
    assert(0 <= ij) by {
        vstd::arithmetic::div_mod::lemma_div_pos_is_pos(t, n);
    }
    assert(ij < n * n) by (nonlinear_arith)
        requires
            t == ij * n + k,
            0 <= k,
            t < n * n * n,
            n > 0,
    ;
    lemma_split_slot(n, ij);
    assert(t == ij * n + k) by {
        vstd::arithmetic::div_mod::lemma_fundamental_div_mod(t, n);
        assert(n * ij == ij * n) by (nonlinear_arith);
    }
    vstd::arithmetic::div_mod::lemma_mod_pos_bound(t, n);
    lemma_split_slot(n, p);
    lemma_split_slot(n, q);
    lemma_split_slot(n, r);
    lemma_decompose(n, i, j, k);
    let tr = naive_triple(n, t);
    assert(tr.u[p] == (if p == i * n + j { 1i64 } else { 0i64 }));
    assert(tr.v[q] == (if q == j * n + k { 1i64 } else { 0i64 }));
    assert(tr.w[r] == (if r == i * n + k { 1i64 } else { 0i64 }));
    // p == i·n + j  ⇔  (p / n, p % n) == (i, j), and likewise for q and r.
    if p == i * n + j {
        lemma_fundamental_div_mod_converse(p, n, i, j);
    }
    if q == j * n + k {
        lemma_fundamental_div_mod_converse(q, n, j, k);
    }
    if r == i * n + k {
        lemma_fundamental_div_mod_converse(r, n, i, k);
    }
    if p / n == i && p % n == j {
        assert(p == i * n + j);
    }
    if q / n == j && q % n == k {
        assert(q == j * n + k);
    }
    if r / n == i && r % n == k {
        assert(r == i * n + k);
    }
    if t == p * n + q % n {
        lemma_fundamental_div_mod_converse(t, n, p, q % n);
    }
    if p / n == i && p % n == j && q % n == k {
        assert(t == p * n + q % n);
    }
    let a: int = if p == i * n + j { 1 } else { 0 };
    let b: int = if q == j * n + k { 1 } else { 0 };
    let c: int = if r == i * n + k { 1 } else { 0 };
    assert(term(tr, p, q, r) == a * b * c);
    assert(a * b * c == (if a == 1 && b == 1 && c == 1 { 1int } else { 0int })) by (nonlinear_arith)
        requires
            a == 0 || a == 1,
            b == 0 || b == 1,
            c == 0 || c == 1,
    ;
}

proof fn lemma_naive_prefix(n: int, p: int, q: int, r: int, m: int)
    requires
        n > 0,
        0 <= m <= n * n * n,
        0 <= p < n * n,
        0 <= q < n * n,
        0 <= r < n * n,
    ensures
        sum_over(naive_triples(n).take(m), |t: TripleView| term(t, p, q, r)) == (if p / n == r
            / n && p % n == q / n && q % n == r % n && p * n + q % n < m {
            1int
        } else {
            0int
        }),
    decreases m,
{
    let ts = naive_triples(n);
    let f = |t: TripleView| term(t, p, q, r);
    if m == 0 {
        assert(ts.take(0) =~= Seq::<TripleView>::empty());
    } else {
        lemma_naive_prefix(n, p, q, r, m - 1);
        lemma_sum_take_step(ts, m - 1, f);
        lemma_unit_term(n, m - 1, p, q, r);
    }
}

/// The naive scheme reconstructs the `n×n` matmul tensor entry by entry.
pub proof fn lemma_naive_is_target(n: int)
    requires
        n > 0,
    ensures
        forall|p: int, q: int, r: int|
            0 <= p < n * n && 0 <= q < n * n && 0 <= r < n * n ==> #[trigger] entry(
                naive_triples(n),
                p,
                q,
                r,
            ) == target_entry(n, p, q, r),
{
    let ts = naive_triples(n);
    assert forall|p: int, q: int, r: int|
        0 <= p < n * n && 0 <= q < n * n && 0 <= r < n * n implies #[trigger] entry(ts, p, q, r)
        == target_entry(n, p, q, r) by {
        lemma_split_slot(n, q);
        assert(0 <= p * n + q % n < n * n * n) by (nonlinear_arith)
            requires
                0 <= p < n * n,
                0 <= q % n < n,
        ;
        lemma_naive_prefix(n, p, q, r, n * n * n);
        assert(ts.take(n * n * n) =~= ts);
    }
}

// ───────────────────────────── exec types ─────────────────────────────

/// One workspace multiplication: equal-length `u` / `v` / `w` over
/// unrestricted `i64` (flip intermediates leave `{−1, 0, +1}`).
#[derive(Debug)]
pub struct IntTriple {
    u: Vec<i64>,
    v: Vec<i64>,
    w: Vec<i64>,
}

impl View for IntTriple {
    type V = TripleView;

    closed spec fn view(&self) -> TripleView {
        TripleView { u: self.u@, v: self.v@, w: self.w@ }
    }
}

impl IntTriple {
    /// The left factor vector.
    pub fn u(&self) -> (r: &[i64])
        ensures
            r@ == self@.u,
    {
        self.u.as_slice()
    }

    /// The right factor vector.
    pub fn v(&self) -> (r: &[i64])
        ensures
            r@ == self@.v,
    {
        self.v.as_slice()
    }

    /// The output vector.
    pub fn w(&self) -> (r: &[i64])
        ensures
            r@ == self@.w,
    {
        self.w.as_slice()
    }

    /// A deep copy.
    pub fn duplicate(&self) -> (r: IntTriple)
        ensures
            r@ == self@,
    {
        let r = IntTriple { u: self.u.clone(), v: self.v.clone(), w: self.w.clone() };
        assert(r.u@ =~= self.u@);
        assert(r.v@ =~= self.v@);
        assert(r.w@ =~= self.w@);
        r
    }
}

/// The proposer workspace: an ordered list of [`IntTriple`]s of one shared
/// length `dim`. States are built by [`naive`] and transformed by the move
/// primitives.
#[derive(Debug)]
pub struct IntScheme {
    triples: Vec<IntTriple>,
    dim: usize,
}

pub open spec fn triples_view(ts: Seq<IntTriple>) -> Seq<TripleView> {
    ts.map_values(|t: IntTriple| t@)
}

impl View for IntScheme {
    type V = SchemeView;

    closed spec fn view(&self) -> SchemeView {
        SchemeView { triples: triples_view(self.triples@), dim: self.dim as nat }
    }
}

impl IntScheme {
    /// All triples have vectors of the shared length `dim`.
    pub open spec fn wf(&self) -> bool {
        triples_wf(self@.triples, self@.dim as int)
    }

    /// The number of multiplications (the rank being minimized).
    pub fn rank(&self) -> (r: usize)
        ensures
            r == self@.triples.len(),
    {
        self.triples.len()
    }

    /// The shared vector length `d = n²`.
    pub fn dim(&self) -> (r: usize)
        ensures
            r == self@.dim,
    {
        self.dim
    }

    /// The workspace triples, read-only.
    pub fn triples(&self) -> (r: &[IntTriple])
        ensures
            triples_view(r@) == self@.triples,
    {
        self.triples.as_slice()
    }

    /// A deep copy.
    pub fn duplicate(&self) -> (r: IntScheme)
        ensures
            r@ == self@,
    {
        let mut out: Vec<IntTriple> = Vec::new();
        let mut i: usize = 0;
        while i < self.triples.len()
            invariant
                i <= self.triples@.len(),
                out@.len() == i,
                forall|k: int| 0 <= k < i ==> (#[trigger] out@[k])@ == self.triples@[k]@,
            decreases self.triples@.len() - i,
        {
            out.push(self.triples[i].duplicate());
            i = i + 1;
        }
        let r = IntScheme { triples: out, dim: self.dim };
        assert(triples_view(r.triples@) =~= triples_view(self.triples@));
        r
    }

    /// Is every coefficient in `{−1, 0, +1}`?
    pub fn is_ternary(&self) -> (r: bool)
        ensures
            r == all_ternary(self@.triples),
    {
        let ghost ts = self@.triples;
        let mut i: usize = 0;
        while i < self.triples.len()
            invariant
                i <= self.triples@.len(),
                ts == triples_view(self.triples@),
                forall|k: int| 0 <= k < i ==> #[trigger] triple_ternary(ts[k]),
            decreases self.triples@.len() - i,
        {
            let t = &self.triples[i];
            let a = slice_ternary(t.u.as_slice());
            let b = slice_ternary(t.v.as_slice());
            let c = slice_ternary(t.w.as_slice());
            assert(ts[i as int] == t@);
            assert(t@.u == t.u@);
            assert(a == vec_ternary(ts[i as int].u));
            assert(b == vec_ternary(ts[i as int].v));
            assert(c == vec_ternary(ts[i as int].w));
            if !a || !b || !c {
                assert(!triple_ternary(ts[i as int]));
                return false;
            }
            assert(triple_ternary(ts[i as int]));
            i = i + 1;
        }
        true
    }
}

fn slice_ternary(x: &[i64]) -> (r: bool)
    ensures
        r == vec_ternary(x@),
{
    let mut k: usize = 0;
    while k < x.len()
        invariant
            k <= x@.len(),
            forall|m: int| 0 <= m < k ==> -1 <= #[trigger] x@[m] <= 1,
        decreases x@.len() - k,
    {
        if x[k] < -1 || x[k] > 1 {
            return false;
        }
        k = k + 1;
    }
    true
}

fn unit_vec(d: usize, idx: usize) -> (r: Vec<i64>)
    requires
        idx < d,
    ensures
        r@ == unit(d as int, idx as int),
{
    let mut e: Vec<i64> = Vec::new();
    let mut x: usize = 0;
    while x < d
        invariant
            x <= d,
            e@.len() == x,
            forall|y: int| 0 <= y < x ==> #[trigger] e@[y] == (if y == idx { 1i64 } else { 0i64 }),
        decreases d - x,
    {
        if x == idx {
            e.push(1);
        } else {
            e.push(0);
        }
        x = x + 1;
    }
    assert(e@ =~= unit(d as int, idx as int));
    e
}

/// The naive rank-`n³` scheme: one `0/1` triple per `(i, j, k)` with
/// `u = e_{i·n+j}`, `v = e_{j·n+k}`, `w = e_{i·n+k}` — exactly the terms of the
/// `n×n` matmul tensor.
pub fn naive(n: usize) -> (s: IntScheme)
    requires
        n * n * n <= usize::MAX,
    ensures
        s.wf(),
        s@.dim == n * n,
        s@.triples == naive_triples(n as int),
{
    let ghost nn = n as int;
    assert(n * n <= usize::MAX) by (nonlinear_arith)
        requires
            n * n * n <= usize::MAX,
    ;
    let d = n * n;
    let mut triples: Vec<IntTriple> = Vec::new();
    let mut i: usize = 0;
    while i < n
        invariant
            n * n * n <= usize::MAX,
            nn == n as int,
            d == n * n,
            i <= n,
            triples@.len() == i * n * n,
            forall|t: int| 0 <= t < triples@.len() ==> (#[trigger] triples@[t])@ == naive_triple(nn, t),
        decreases n - i,
    {
        proof {
            assert(i * n * n == (i * n + 0) * n) by (nonlinear_arith);
        }
        let mut j: usize = 0;
        while j < n
            invariant
                n * n * n <= usize::MAX,
                nn == n as int,
                d == n * n,
                i < n,
                j <= n,
                triples@.len() == (i * n + j) * n,
                forall|t: int|
                    0 <= t < triples@.len() ==> (#[trigger] triples@[t])@ == naive_triple(nn, t),
            decreases n - j,
        {
            let mut k: usize = 0;
            while k < n
                invariant
                    n * n * n <= usize::MAX,
                    nn == n as int,
                    d == n * n,
                    i < n,
                    j < n,
                    k <= n,
                    triples@.len() == (i * n + j) * n + k,
                    forall|t: int|
                        0 <= t < triples@.len() ==> (#[trigger] triples@[t])@ == naive_triple(nn, t),
                decreases n - k,
            {
                proof {
                    lemma_decompose(nn, i as int, j as int, k as int);
                    lemma_decompose(nn, j as int, k as int, 0);
                    lemma_decompose(nn, i as int, k as int, 0);
                }
                let t = IntTriple {
                    u: unit_vec(d, i * n + j),
                    v: unit_vec(d, j * n + k),
                    w: unit_vec(d, i * n + k),
                };
                proof {
                    let tt = (i * n + j) * n + k;
                    assert(t@ == naive_triple(nn, tt as int));
                }
                triples.push(t);
                k = k + 1;
            }
            proof {
                assert((i * n + j) * n + n == (i * n + (j + 1)) * n) by (nonlinear_arith);
            }
            j = j + 1;
        }
        proof {
            assert((i * n + n) * n == (i + 1) * n * n) by (nonlinear_arith);
        }
        i = i + 1;
    }
    let s = IntScheme { triples, dim: d };
    proof {
        assert(n * n * n == n * n * n);
        assert(triples_view(s.triples@) =~= naive_triples(nn));
        assert forall|x: int| 0 <= x < s@.triples.len() implies triple_wf(
            #[trigger] s@.triples[x],
            s@.dim as int,
        ) by {
            assert(s@.triples[x] == naive_triple(nn, x));
        }
    }
    s
}


// ─────────────────────────── vector helpers ───────────────────────────

pub open spec fn fits(x: int) -> bool {
    i64::MIN <= x <= i64::MAX
}

/// Entry-wise sum, each entry in `i64` range.
pub open spec fn add_ok(x: Seq<i64>, y: Seq<i64>) -> bool {
    forall|k: int| 0 <= k < x.len() ==> fits(#[trigger] x[k] + y[k])
}

/// Entry-wise difference, each entry in `i64` range.
pub open spec fn sub_ok(x: Seq<i64>, y: Seq<i64>) -> bool {
    forall|k: int| 0 <= k < x.len() ==> fits(#[trigger] x[k] - y[k])
}

pub open spec fn seq_add(x: Seq<i64>, y: Seq<i64>) -> Seq<i64> {
    Seq::new(x.len(), |k: int| (x[k] + y[k]) as i64)
}

pub open spec fn seq_sub(x: Seq<i64>, y: Seq<i64>) -> Seq<i64> {
    Seq::new(x.len(), |k: int| (x[k] - y[k]) as i64)
}

pub open spec fn seq_zero(x: Seq<i64>) -> bool {
    forall|k: int| 0 <= k < x.len() ==> #[trigger] x[k] == 0
}

fn vec_add(x: &Vec<i64>, y: &Vec<i64>) -> (r: Vec<i64>)
    requires
        x@.len() == y@.len(),
        add_ok(x@, y@),
    ensures
        r@ == seq_add(x@, y@),
{
    let mut r: Vec<i64> = Vec::new();
    let mut k: usize = 0;
    while k < x.len()
        invariant
            k <= x@.len(),
            x@.len() == y@.len(),
            add_ok(x@, y@),
            r@.len() == k,
            forall|m: int| 0 <= m < k ==> #[trigger] r@[m] == (x@[m] + y@[m]) as i64,
        decreases x@.len() - k,
    {
        assert(fits(x@[k as int] + y@[k as int]));
        r.push(x[k] + y[k]);
        k = k + 1;
    }
    assert(r@ =~= seq_add(x@, y@));
    r
}

fn vec_sub(x: &Vec<i64>, y: &Vec<i64>) -> (r: Vec<i64>)
    requires
        x@.len() == y@.len(),
        sub_ok(x@, y@),
    ensures
        r@ == seq_sub(x@, y@),
{
    let mut r: Vec<i64> = Vec::new();
    let mut k: usize = 0;
    while k < x.len()
        invariant
            k <= x@.len(),
            x@.len() == y@.len(),
            sub_ok(x@, y@),
            r@.len() == k,
            forall|m: int| 0 <= m < k ==> #[trigger] r@[m] == (x@[m] - y@[m]) as i64,
        decreases x@.len() - k,
    {
        assert(fits(x@[k as int] - y@[k as int]));
        r.push(x[k] - y[k]);
        k = k + 1;
    }
    assert(r@ =~= seq_sub(x@, y@));
    r
}

fn vec_same(x: &Vec<i64>, y: &Vec<i64>) -> (r: bool)
    ensures
        r == (x@ == y@),
{
    if x.len() != y.len() {
        return false;
    }
    let mut k: usize = 0;
    while k < x.len()
        invariant
            k <= x@.len(),
            x@.len() == y@.len(),
            forall|m: int| 0 <= m < k ==> #[trigger] x@[m] == y@[m],
        decreases x@.len() - k,
    {
        if x[k] != y[k] {
            return false;
        }
        k = k + 1;
    }
    assert(x@ =~= y@);
    true
}

fn vec_is_zero(x: &Vec<i64>) -> (r: bool)
    ensures
        r == seq_zero(x@),
{
    let mut k: usize = 0;
    while k < x.len()
        invariant
            k <= x@.len(),
            forall|m: int| 0 <= m < k ==> #[trigger] x@[m] == 0,
        decreases x@.len() - k,
    {
        if x[k] != 0 {
            return false;
        }
        k = k + 1;
    }
    true
}

pub open spec fn within_envelope(x: Seq<i64>) -> bool {
    forall|k: int| 0 <= k < x.len() ==> -ENVELOPE <= #[trigger] x[k] <= ENVELOPE
}

pub open spec fn triple_within_envelope(t: TripleView) -> bool {
    within_envelope(t.u) && within_envelope(t.v) && within_envelope(t.w)
}

fn vec_within_envelope(x: &Vec<i64>) -> (r: bool)
    ensures
        r == within_envelope(x@),
{
    let mut k: usize = 0;
    while k < x.len()
        invariant
            k <= x@.len(),
            forall|m: int| 0 <= m < k ==> -ENVELOPE <= #[trigger] x@[m] <= ENVELOPE,
        decreases x@.len() - k,
    {
        if x[k] < -ENVELOPE || x[k] > ENVELOPE {
            return false;
        }
        k = k + 1;
    }
    true
}

// ───────────────────────────── the flip ─────────────────────────────

/// Which factor-vector two triples share — the flip's rewrite axis.
#[derive(Debug, Clone, Copy, PartialEq, Eq, Structural)]
pub enum Variant {
    /// Shared left factor `u`.
    U,
    /// Shared right factor `v`.
    V,
    /// Shared output vector `w`.
    W,
}

/// The slot two triples share, when they share exactly one.
pub open spec fn unique_shared(a: TripleView, b: TripleView) -> Option<Variant> {
    if a.u == b.u && a.v != b.v && a.w != b.w {
        Some(Variant::U)
    } else if a.u != b.u && a.v == b.v && a.w != b.w {
        Some(Variant::V)
    } else if a.u != b.u && a.v != b.v && a.w == b.w {
        Some(Variant::W)
    } else {
        None
    }
}

/// The ordered pair `(i, j)` is a flip on `variant`: distinct in-range
/// indices whose triples share exactly the `variant` slot.
pub open spec fn flip_applies(ts: Seq<TripleView>, i: int, j: int, variant: Variant) -> bool {
    &&& i != j
    &&& 0 <= i < ts.len()
    &&& 0 <= j < ts.len()
    &&& unique_shared(ts[i], ts[j]) == Some(variant)
}

/// The rewritten pair `(a′, b′)` of the flip on `variant`:
/// U: `(u,b,c),(u,b′,c′) → (u, b, c−c′), (u, b+b′, c′)`;
/// V: `(a,v,c),(a′,v,c′) → (a, v, c−c′), (a+a′, v, c′)`;
/// W: `(a,b,w),(a′,b′,w) → (a−a′, b, w), (a′, b+b′, w)`.
pub open spec fn flipped(a: TripleView, b: TripleView, variant: Variant) -> (TripleView, TripleView) {
    match variant {
        Variant::U => (
            TripleView { u: a.u, v: a.v, w: seq_sub(a.w, b.w) },
            TripleView { u: b.u, v: seq_add(a.v, b.v), w: b.w },
        ),
        Variant::V => (
            TripleView { u: a.u, v: a.v, w: seq_sub(a.w, b.w) },
            TripleView { u: seq_add(a.u, b.u), v: b.v, w: b.w },
        ),
        Variant::W => (
            TripleView { u: seq_sub(a.u, b.u), v: a.v, w: a.w },
            TripleView { u: b.u, v: seq_add(a.v, b.v), w: b.w },
        ),
    }
}

/// The flip's entry-wise sums and differences stay in `i64` range.
pub open spec fn flip_arith_ok(a: TripleView, b: TripleView, variant: Variant) -> bool {
    match variant {
        Variant::U => sub_ok(a.w, b.w) && add_ok(a.v, b.v),
        Variant::V => sub_ok(a.w, b.w) && add_ok(a.u, b.u),
        Variant::W => sub_ok(a.u, b.u) && add_ok(a.v, b.v),
    }
}

/// Whenever the flip applies, its arithmetic does not overflow.
pub open spec fn flip_safe(ts: Seq<TripleView>, i: int, j: int, variant: Variant) -> bool {
    flip_applies(ts, i, j, variant) ==> flip_arith_ok(ts[i], ts[j], variant)
}

/// The scheme after the flip: triples `i` and `j` rewritten in place.
pub open spec fn flip_result(ts: Seq<TripleView>, i: int, j: int, variant: Variant) -> Seq<TripleView> {
    let (x, y) = flipped(ts[i], ts[j], variant);
    ts.update(i, x).update(j, y)
}

proof fn lemma_flip_terms(a: TripleView, b: TripleView, variant: Variant, d: int, p: int, q: int, r: int)
    requires
        unique_shared(a, b) == Some(variant),
        triple_wf(a, d),
        triple_wf(b, d),
        flip_arith_ok(a, b, variant),
        0 <= p < d,
        0 <= q < d,
        0 <= r < d,
    ensures
        term(flipped(a, b, variant).0, p, q, r) + term(flipped(a, b, variant).1, p, q, r) == term(
            a,
            p,
            q,
            r,
        ) + term(b, p, q, r),
{
    match variant {
        Variant::U => {
            assert(a.u[p] == b.u[p]);
            assert(fits(a.w[r] - b.w[r]));
            assert(fits(a.v[q] + b.v[q]));
            let (au, av, aw, bv, bw) = (
                a.u[p] as int,
                a.v[q] as int,
                a.w[r] as int,
                b.v[q] as int,
                b.w[r] as int,
            );
            assert(au * av * (aw - bw) + au * (av + bv) * bw == au * av * aw + au * bv * bw)
                by (nonlinear_arith);
        },
        Variant::V => {
            assert(a.v[q] == b.v[q]);
            assert(fits(a.w[r] - b.w[r]));
            assert(fits(a.u[p] + b.u[p]));
            let (au, av, aw, bu, bw) = (
                a.u[p] as int,
                a.v[q] as int,
                a.w[r] as int,
                b.u[p] as int,
                b.w[r] as int,
            );
            assert(au * av * (aw - bw) + (au + bu) * av * bw == au * av * aw + bu * av * bw)
                by (nonlinear_arith);
        },
        Variant::W => {
            assert(a.w[r] == b.w[r]);
            assert(fits(a.u[p] - b.u[p]));
            assert(fits(a.v[q] + b.v[q]));
            let (au, av, aw, bu, bv) = (
                a.u[p] as int,
                a.v[q] as int,
                a.w[r] as int,
                b.u[p] as int,
                b.v[q] as int,
            );
            assert((au - bu) * av * aw + bu * (av + bv) * aw == au * av * aw + bu * bv * aw)
                by (nonlinear_arith);
        },
    }
}

/// A flip leaves the tensor unchanged: `(i, j)` rewritten by the
/// distributive law stand for the same sum of rank-one terms.
pub proof fn lemma_flip_preserves_tensor(ts: Seq<TripleView>, d: int, i: int, j: int, variant: Variant)
    requires
        triples_wf(ts, d),
        flip_applies(ts, i, j, variant),
        flip_arith_ok(ts[i], ts[j], variant),
    ensures
        same_tensor(flip_result(ts, i, j, variant), ts, d),
        triples_wf(flip_result(ts, i, j, variant), d),
        flip_result(ts, i, j, variant).len() == ts.len(),
{
    let (x, y) = flipped(ts[i], ts[j], variant);
    let mid = ts.update(i, x);
    let res = mid.update(j, y);
    assert forall|p: int, q: int, r: int|
        0 <= p < d && 0 <= q < d && 0 <= r < d implies #[trigger] entry(res, p, q, r) == entry(
        ts,
        p,
        q,
        r,
    ) by {
        let f = |t: TripleView| term(t, p, q, r);
        lemma_sum_update(ts, i, x, f);
        lemma_sum_update(mid, j, y, f);
        assert(mid[j] == ts[j]);
        lemma_flip_terms(ts[i], ts[j], variant, d, p, q, r);
    }
    assert(triple_wf(x, d) && triple_wf(y, d));
    assert forall|k: int| 0 <= k < res.len() implies triple_wf(#[trigger] res[k], d) by {
        if k != i && k != j {
            assert(res[k] == ts[k]);
        }
    }
}


fn triple_within_env(t: &IntTriple) -> (r: bool)
    ensures
        r == triple_within_envelope(t@),
{
    vec_within_envelope(&t.u) && vec_within_envelope(&t.v) && vec_within_envelope(&t.w)
}

/// Apply the sum-preserving Kauers–Moosbauer flip to the ordered pair `(i, j)`
/// on the shared `variant` slot. `None` when the move is inapplicable (equal
/// or out-of-range indices, `variant` not the one slot the two triples share)
/// or when a rewritten coefficient would leave the workspace envelope.
pub fn flip_at(s: &IntScheme, pair: (usize, usize), variant: Variant) -> (r: Option<IntScheme>)
    requires
        s.wf(),
        flip_safe(s@.triples, pair.0 as int, pair.1 as int, variant),
    ensures
        r is Some <==> flip_applies(s@.triples, pair.0 as int, pair.1 as int, variant)
            && triple_within_envelope(
            flipped(s@.triples[pair.0 as int], s@.triples[pair.1 as int], variant).0,
        ) && triple_within_envelope(
            flipped(s@.triples[pair.0 as int], s@.triples[pair.1 as int], variant).1,
        ),
        r matches Some(next) ==> {
            &&& next.wf()
            &&& next@.dim == s@.dim
            &&& next@.triples == flip_result(s@.triples, pair.0 as int, pair.1 as int, variant)
            &&& same_tensor(next@.triples, s@.triples, s@.dim as int)
        },
{
    let (i, j) = pair;
    if i == j || i >= s.triples.len() || j >= s.triples.len() {
        return None;
    }
    let ghost ts = s@.triples;
    let a = &s.triples[i];
    let b = &s.triples[j];
    assert(ts[i as int] == a@ && ts[j as int] == b@);
    let su = vec_same(&a.u, &b.u);
    let sv = vec_same(&a.v, &b.v);
    let sw = vec_same(&a.w, &b.w);
    let unique = if su && !sv && !sw {
        Variant::U
    } else if !su && sv && !sw {
        Variant::V
    } else if !su && !sv && sw {
        Variant::W
    } else {
        return None;
    };
    if unique != variant {
        return None;
    }
    assert(flip_applies(ts, i as int, j as int, variant));
    assert(triple_wf(a@, s@.dim as int) && triple_wf(b@, s@.dim as int));
    let (new_i, new_j) = match variant {
        Variant::U => (
            IntTriple { u: a.u.clone(), v: a.v.clone(), w: vec_sub(&a.w, &b.w) },
            IntTriple { u: b.u.clone(), v: vec_add(&a.v, &b.v), w: b.w.clone() },
        ),
        Variant::V => (
            IntTriple { u: a.u.clone(), v: a.v.clone(), w: vec_sub(&a.w, &b.w) },
            IntTriple { u: vec_add(&a.u, &b.u), v: b.v.clone(), w: b.w.clone() },
        ),
        Variant::W => (
            IntTriple { u: vec_sub(&a.u, &b.u), v: a.v.clone(), w: a.w.clone() },
            IntTriple { u: b.u.clone(), v: vec_add(&a.v, &b.v), w: b.w.clone() },
        ),
    };
    proof {
        assert(new_i.u@ =~= flipped(a@, b@, variant).0.u);
        assert(new_i.v@ =~= flipped(a@, b@, variant).0.v);
        assert(new_i.w@ =~= flipped(a@, b@, variant).0.w);
        assert(new_j.u@ =~= flipped(a@, b@, variant).1.u);
        assert(new_j.v@ =~= flipped(a@, b@, variant).1.v);
        assert(new_j.w@ =~= flipped(a@, b@, variant).1.w);
        assert(new_i@ == flipped(a@, b@, variant).0);
        assert(new_j@ == flipped(a@, b@, variant).1);
    }
    if !triple_within_env(&new_i) || !triple_within_env(&new_j) {
        return None;
    }
    let mut next = s.duplicate();
    next.triples.set(i, new_i);
    next.triples.set(j, new_j);
    proof {
        lemma_flip_preserves_tensor(ts, s@.dim as int, i as int, j as int, variant);
        assert(triples_view(next.triples@) =~= flip_result(ts, i as int, j as int, variant));
    }
    Some(next)
}

/// Triples `i` and `j` share exactly one factor-vector.
pub open spec fn pair_in_frontier(ts: Seq<TripleView>, i: int, j: int) -> bool {
    i != j && unique_shared(ts[i], ts[j]) is Some
}

/// The flip frontier over the first `m` ordered pairs `(i, j)`, enumerated
/// row-major (`(i, j)` is pair number `i·r + j` for rank `r`).
pub open spec fn frontier_prefix(ts: Seq<TripleView>, m: int) -> Seq<((usize, usize), Variant)>
    decreases m,
{
    if m <= 0 {
        Seq::empty()
    } else {
        let i = (m - 1) / (ts.len() as int);
        let j = (m - 1) % (ts.len() as int);
        let rest = frontier_prefix(ts, m - 1);
        if pair_in_frontier(ts, i, j) {
            rest.push(((i as usize, j as usize), unique_shared(ts[i], ts[j]).unwrap()))
        } else {
            rest
        }
    }
}

/// Every ordered pair of triples sharing exactly one factor-vector, tagged
/// with the shared slot, in row-major order of `(i, j)`.
pub open spec fn frontier(ts: Seq<TripleView>) -> Seq<((usize, usize), Variant)> {
    frontier_prefix(ts, (ts.len() * ts.len()) as int)
}

proof fn lemma_frontier_len(ts: Seq<TripleView>, m: int)
    requires
        m >= 0,
    ensures
        frontier_prefix(ts, m).len() <= m,
    decreases m,
{
    if m > 0 {
        lemma_frontier_len(ts, m - 1);
    }
}

proof fn lemma_frontier_entries(ts: Seq<TripleView>, m: int)
    requires
        0 <= m <= ts.len() * ts.len(),
        ts.len() <= usize::MAX,
    ensures
        forall|x: int|
            0 <= x < frontier_prefix(ts, m).len() ==> {
                let ((i, j), var) = #[trigger] frontier_prefix(ts, m)[x];
                &&& (i as int) < ts.len()
                &&& (j as int) < ts.len()
                &&& flip_applies(ts, i as int, j as int, var)
            },
    decreases m,
{
    if m > 0 {
        lemma_frontier_entries(ts, m - 1);
        let r = ts.len() as int;
        assert(r > 0) by (nonlinear_arith)
            requires
                0 < m <= r * r,
                r >= 0,
        ;
        let i = (m - 1) / r;
        let j = (m - 1) % r;
        assert(0 <= i < r && 0 <= j < r) by {
            lemma_split_slot(r, m - 1);
        }
    }
}

/// The flip frontier: every **ordered** pair of triples sharing **exactly one**
/// factor-vector, tagged with the shared slot (pairs sharing two or more
/// slots belong to [`reduce`]).
pub fn shared_factor_pairs(s: &IntScheme) -> (r: Vec<((usize, usize), Variant)>)
    ensures
        r@ == frontier(s@.triples),
        forall|x: int|
            0 <= x < r@.len() ==> {
                let ((i, j), var) = #[trigger] r@[x];
                flip_applies(s@.triples, i as int, j as int, var)
            },
{
    let ghost ts = s@.triples;
    let n = s.triples.len();
    let mut pairs: Vec<((usize, usize), Variant)> = Vec::new();
    let mut i: usize = 0;
    while i < n
        invariant
            n == ts.len(),
            ts == s@.triples,
            i <= n,
            pairs@ == frontier_prefix(ts, i * n),
        decreases n - i,
    {
        let mut j: usize = 0;
        while j < n
            invariant
                n == ts.len(),
                ts == s@.triples,
                i < n,
                j <= n,
                pairs@ == frontier_prefix(ts, i * n + j),
            decreases n - j,
        {
            proof {
                lemma_decompose(n as int, i as int, j as int, 0);
                assert((i * n + j) as int == i * n + j);
                lemma_fundamental_div_mod_converse(i * n + j, n as int, i as int, j as int);
            }
            if i != j {
                let a = &s.triples[i];
                let b = &s.triples[j];
                assert(ts[i as int] == a@ && ts[j as int] == b@);
                let su = vec_same(&a.u, &b.u);
                let sv = vec_same(&a.v, &b.v);
                let sw = vec_same(&a.w, &b.w);
                if su && !sv && !sw {
                    pairs.push(((i, j), Variant::U));
                } else if !su && sv && !sw {
                    pairs.push(((i, j), Variant::V));
                } else if !su && !sv && sw {
                    pairs.push(((i, j), Variant::W));
                }
            }
            j = j + 1;
        }
        proof {
            assert(i * n + n == (i + 1) * n) by (nonlinear_arith);
        }
        i = i + 1;
    }
    proof {
        lemma_frontier_entries(ts, (n * n) as int);
    }
    pairs
}


// ─────────────────────────── the reduction ───────────────────────────

/// `Σ_k |x[k]|`.
pub open spec fn vec_mass(x: Seq<i64>) -> int
    decreases x.len(),
{
    if x.len() == 0 {
        0
    } else {
        vec_mass(x.drop_last()) + abs(x.last() as int)
    }
}

pub open spec fn triple_mass(t: TripleView) -> int {
    vec_mass(t.u) + vec_mass(t.v) + vec_mass(t.w)
}

/// The total coefficient mass `Σ_t Σ_k (|u_t[k]| + |v_t[k]| + |w_t[k]|)`.
pub open spec fn mass(ts: Seq<TripleView>) -> int {
    sum_over(ts, |t: TripleView| triple_mass(t))
}

/// The triple contains an all-zero vector, so it contributes nothing.
pub open spec fn has_zero_vector(t: TripleView) -> bool {
    seq_zero(t.u) || seq_zero(t.v) || seq_zero(t.w)
}

/// The merge of two triples sharing two slots (the third slots add), in the
/// order the reduction tests them: shared `u, v`; then shared `u, w`; then
/// shared `v, w`.
pub open spec fn merge_of(a: TripleView, b: TripleView) -> Option<TripleView> {
    if a.u == b.u && a.v == b.v {
        Some(TripleView { u: a.u, v: a.v, w: seq_add(a.w, b.w) })
    } else if a.u == b.u && a.w == b.w {
        Some(TripleView { u: a.u, v: seq_add(a.v, b.v), w: a.w })
    } else if a.v == b.v && a.w == b.w {
        Some(TripleView { u: seq_add(a.u, b.u), v: a.v, w: a.w })
    } else {
        None
    }
}

/// A fixpoint of the reduction: no triple carries an all-zero vector and no
/// two triples share two factor-vectors.
pub open spec fn is_reduced(ts: Seq<TripleView>) -> bool {
    &&& forall|i: int| 0 <= i < ts.len() ==> !has_zero_vector(#[trigger] ts[i])
    &&& forall|i: int, j: int|
        0 <= i < j < ts.len() ==> #[trigger] merge_of(ts[i], ts[j]) is None
}

/// The triples that carry no all-zero vector, in their order.
pub open spec fn nonzero_triples(ts: Seq<TripleView>) -> Seq<TripleView>
    decreases ts.len(),
{
    if ts.len() == 0 {
        Seq::empty()
    } else {
        let rest = nonzero_triples(ts.drop_last());
        if has_zero_vector(ts.last()) {
            rest
        } else {
            rest.push(ts.last())
        }
    }
}

/// `(i, j)` is the first mergeable pair `i < j` in row-major order.
pub open spec fn first_merge(ts: Seq<TripleView>, i: int, j: int) -> bool {
    &&& 0 <= i < j < ts.len()
    &&& merge_of(ts[i], ts[j]) is Some
    &&& forall|a: int, b: int|
        0 <= a < b < ts.len() && (a < i || (a == i && b < j)) ==> #[trigger] merge_of(ts[a], ts[b])
            is None
}

/// One merge: triple `i` becomes the merge, triple `j` is replaced by the
/// last one, and the list shrinks by one.
pub open spec fn merge_at(ts: Seq<TripleView>, i: int, j: int) -> Seq<TripleView> {
    let mid = ts.update(i, merge_of(ts[i], ts[j]).unwrap());
    mid.update(j, mid.last()).drop_last()
}

/// What the reduction yields from `ts`: drop the triples carrying a zero
/// vector, merge the first mergeable pair, and repeat until neither applies.
pub open spec fn reduced_of(ts: Seq<TripleView>) -> Seq<TripleView>
    decreases ts.len(),
{
    let kv = nonzero_triples(ts);
    if exists|i: int, j: int| #[trigger] first_merge(kv, i, j) {
        let (i, j) = choose|i: int, j: int| #[trigger] first_merge(kv, i, j);
        proof {
            lemma_nonzero_len(ts);
        }
        reduced_of(merge_at(kv, i, j))
    } else {
        kv
    }
}

pub proof fn lemma_nonzero_len(ts: Seq<TripleView>)
    ensures
        nonzero_triples(ts).len() <= ts.len(),
    decreases ts.len(),
{
    if ts.len() > 0 {
        lemma_nonzero_len(ts.drop_last());
    }
}

proof fn lemma_nonzero_keeps_clean(ts: Seq<TripleView>)
    requires
        forall|i: int| 0 <= i < ts.len() ==> !has_zero_vector(#[trigger] ts[i]),
    ensures
        nonzero_triples(ts) == ts,
    decreases ts.len(),
{
    if ts.len() > 0 {
        let init = ts.drop_last();
        assert forall|i: int| 0 <= i < init.len() implies !has_zero_vector(#[trigger] init[i]) by {
            assert(init[i] == ts[i]);
        }
        lemma_nonzero_keeps_clean(init);
        assert(init.push(ts.last()) =~= ts);
    }
}

proof fn lemma_nonzero_is_clean(ts: Seq<TripleView>)
    ensures
        forall|i: int|
            0 <= i < nonzero_triples(ts).len() ==> !has_zero_vector(#[trigger] nonzero_triples(ts)[i]),
    decreases ts.len(),
{
    if ts.len() > 0 {
        let rest = nonzero_triples(ts.drop_last());
        lemma_nonzero_is_clean(ts.drop_last());
        if !has_zero_vector(ts.last()) {
            assert forall|i: int| 0 <= i < rest.len() + 1 implies !has_zero_vector(
                #[trigger] rest.push(ts.last())[i],
            ) by {
                if i < rest.len() {
                    assert(rest.push(ts.last())[i] == rest[i]);
                }
            }
        }
    }
}

/// A mergeable pair has a first one before or at it.
proof fn lemma_first_merge_exists(ts: Seq<TripleView>, i: int, j: int)
    requires
        0 <= i < j < ts.len(),
        merge_of(ts[i], ts[j]) is Some,
    ensures
        exists|a: int, b: int| #[trigger] first_merge(ts, a, b),
    decreases i * ts.len() + j,
{
    if !first_merge(ts, i, j) {
        let (a, b) = choose|a: int, b: int|
            0 <= a < b < ts.len() && (a < i || (a == i && b < j)) && #[trigger] merge_of(ts[a], ts[b])
                is Some;
        let n = ts.len() as int;
        if a < i {
            assert((a + 1) * n <= i * n) by (nonlinear_arith)
                requires
                    a + 1 <= i,
                    n >= 0,
            ;
            assert(a * n + b < (a + 1) * n) by (nonlinear_arith)
                requires
                    b < n,
            ;
        }
        assert(0 <= a * ts.len() + b) by (nonlinear_arith)
            requires
                0 <= a,
                0 <= b,
        ;
        lemma_first_merge_exists(ts, a, b);
    } else {
        assert(first_merge(ts, i, j));
    }
}

/// What the reduction yields is a fixpoint.
pub proof fn lemma_reduced_is_reduced(ts: Seq<TripleView>)
    ensures
        is_reduced(reduced_of(ts)),
    decreases ts.len(),
{
    let kv = nonzero_triples(ts);
    if exists|i: int, j: int| #[trigger] first_merge(kv, i, j) {
        let (i, j) = choose|i: int, j: int| #[trigger] first_merge(kv, i, j);
        lemma_nonzero_len(ts);
        lemma_reduced_is_reduced(merge_at(kv, i, j));
    } else {
        lemma_nonzero_is_clean(ts);
        assert forall|i: int, j: int| 0 <= i < j < kv.len() implies #[trigger] merge_of(kv[i], kv[j])
            is None by {
            if merge_of(kv[i], kv[j]) is Some {
                lemma_first_merge_exists(kv, i, j);
            }
        }
    }
}

/// A fixpoint is left as it is.
pub proof fn lemma_reduced_fixpoint(ts: Seq<TripleView>)
    requires
        is_reduced(ts),
    ensures
        reduced_of(ts) == ts,
{
    lemma_nonzero_keeps_clean(ts);
    assert(!exists|i: int, j: int| #[trigger] first_merge(ts, i, j));
}

/// The reduction is idempotent: reducing a reduced scheme changes nothing.
pub proof fn lemma_reduce_is_idempotent(ts: Seq<TripleView>)
    ensures
        reduced_of(reduced_of(ts)) == reduced_of(ts),
{
    lemma_reduced_is_reduced(ts);
    lemma_reduced_fixpoint(reduced_of(ts));
}

/// A triple's mass, counted as at least `c`.
pub open spec fn capped(t: TripleView, c: int) -> int {
    if triple_mass(t) >= c {
        triple_mass(t)
    } else {
        c
    }
}

pub open spec fn capped_fn(c: int) -> spec_fn(TripleView) -> int {
    |t: TripleView| capped(t, c)
}

/// `Σ_t max(mass(t), c)`: the potential that bounds the mass of every state
/// of the walk. A flip rewrites two triples into ones of mass at most `c`
/// (the envelope) and a merge replaces two triples by one of at most their
/// summed mass, so neither raises it.
pub open spec fn capped_mass(ts: Seq<TripleView>, c: int) -> int {
    sum_over(ts, capped_fn(c))
}

/// The most mass a triple of three length-`d` vectors inside the envelope
/// can carry.
pub open spec fn flip_cap(d: int) -> int {
    3 * d * ENVELOPE
}

proof fn lemma_capped_bounds(ts: Seq<TripleView>, c: int)
    requires
        c >= 0,
    ensures
        mass(ts) <= capped_mass(ts, c) <= mass(ts) + ts.len() * c,
        capped_mass(ts, c) >= 0,
    decreases ts.len(),
{
    if ts.len() > 0 {
        lemma_capped_bounds(ts.drop_last(), c);
        lemma_triple_mass_nonneg(ts.last());
        assert(capped_mass(ts, c) == capped_mass(ts.drop_last(), c) + capped(ts.last(), c));
        assert((ts.len() - 1) * c + c == ts.len() * c) by (nonlinear_arith);
    }
}

/// Dropping the triples with a zero vector keeps well-formedness and raises
/// neither the mass nor the capped mass.
proof fn lemma_nonzero_caps(ts: Seq<TripleView>, d: int, c: int)
    requires
        triples_wf(ts, d),
        c >= 0,
    ensures
        triples_wf(nonzero_triples(ts), d),
        mass(nonzero_triples(ts)) <= mass(ts),
        capped_mass(nonzero_triples(ts), c) <= capped_mass(ts, c),
    decreases ts.len(),
{
    if ts.len() > 0 {
        let init = ts.drop_last();
        let x = ts.last();
        let rest = nonzero_triples(init);
        assert(triples_wf(init, d)) by {
            assert forall|i: int| 0 <= i < init.len() implies triple_wf(#[trigger] init[i], d) by {
                assert(init[i] == ts[i]);
            }
        }
        lemma_nonzero_caps(init, d, c);
        lemma_triple_mass_nonneg(x);
        assert(mass(ts) == mass(init) + triple_mass(x));
        assert(capped_mass(ts, c) == capped_mass(init, c) + capped(x, c));
        if !has_zero_vector(x) {
            lemma_sum_push(rest, x, |t: TripleView| triple_mass(t));
            lemma_sum_push(rest, x, capped_fn(c));
            assert forall|i: int| 0 <= i < rest.len() + 1 implies triple_wf(
                #[trigger] rest.push(x)[i],
                d,
            ) by {
                if i < rest.len() {
                    assert(rest.push(x)[i] == rest[i]);
                }
            }
        }
    }
}

/// One merge keeps well-formedness and raises neither the mass nor the
/// capped mass.
proof fn lemma_merge_at_caps(kv: Seq<TripleView>, d: int, i: int, j: int, c: int)
    requires
        triples_wf(kv, d),
        mass(kv) <= i64::MAX,
        0 <= i < j < kv.len(),
        merge_of(kv[i], kv[j]) is Some,
        c >= 0,
    ensures
        triples_wf(merge_at(kv, i, j), d),
        mass(merge_at(kv, i, j)) <= mass(kv),
        capped_mass(merge_at(kv, i, j), c) <= capped_mass(kv, c),
{
    lemma_mass_pair(kv, i, j);
    lemma_merge_ok(kv[i], kv[j], d);
    lemma_merge_mass(kv[i], kv[j], d);
    let m = merge_of(kv[i], kv[j]).unwrap();
    let mid = kv.update(i, m);
    let after = merge_at(kv, i, j);
    assert(after == mid.update(j, mid.last()).drop_last());
    assert(mid[j] == kv[j]);
    let fm = |t: TripleView| triple_mass(t);
    lemma_sum_update(kv, i, m, fm);
    lemma_sum_swap_remove(mid, j, fm);
    lemma_sum_update(kv, i, m, capped_fn(c));
    lemma_sum_swap_remove(mid, j, capped_fn(c));
    lemma_triple_mass_nonneg(kv[i]);
    lemma_triple_mass_nonneg(kv[j]);
    lemma_triple_mass_nonneg(m);
    assert(capped(m, c) <= capped(kv[i], c) + capped(kv[j], c));
    assert forall|x: int| 0 <= x < after.len() implies triple_wf(#[trigger] after[x], d) by {
        assert(after[x] == mid[x] || after[x] == mid.last());
        if x != i {
            assert(mid[x] == kv[x]);
        }
        assert(mid.last() == kv.last() || mid.last() == m);
    }
}

/// The reduction raises neither the mass nor the capped mass.
pub proof fn lemma_reduce_caps_mass(ts: Seq<TripleView>, d: int, c: int)
    requires
        triples_wf(ts, d),
        mass(ts) <= i64::MAX,
        c >= 0,
    ensures
        triples_wf(reduced_of(ts), d),
        mass(reduced_of(ts)) <= mass(ts),
        capped_mass(reduced_of(ts), c) <= capped_mass(ts, c),
    decreases ts.len(),
{
    let kv = nonzero_triples(ts);
    lemma_nonzero_caps(ts, d, c);
    if exists|i: int, j: int| #[trigger] first_merge(kv, i, j) {
        let (i, j) = choose|i: int, j: int| #[trigger] first_merge(kv, i, j);
        lemma_nonzero_len(ts);
        lemma_merge_at_caps(kv, d, i, j, c);
        lemma_reduce_caps_mass(merge_at(kv, i, j), d, c);
    }
}

/// A flip whose rewritten triples stay inside the envelope does not raise
/// the capped mass.
proof fn lemma_flip_caps(ts: Seq<TripleView>, d: int, i: int, j: int, variant: Variant, c: int)
    requires
        triples_wf(ts, d),
        flip_applies(ts, i, j, variant),
        flip_arith_ok(ts[i], ts[j], variant),
        triple_within_envelope(flipped(ts[i], ts[j], variant).0),
        triple_within_envelope(flipped(ts[i], ts[j], variant).1),
        d >= 0,
        c >= flip_cap(d),
    ensures
        capped_mass(flip_result(ts, i, j, variant), c) <= capped_mass(ts, c),
{
    lemma_flip_preserves_tensor(ts, d, i, j, variant);
    let (x, y) = flipped(ts[i], ts[j], variant);
    let mid = ts.update(i, x);
    assert(flip_result(ts, i, j, variant) == mid.update(j, y));
    assert(triple_wf(x, d) && triple_wf(y, d)) by {
        assert(flip_result(ts, i, j, variant)[i] == x);
        assert(flip_result(ts, i, j, variant)[j] == y);
    }
    lemma_envelope_mass(x.u);
    lemma_envelope_mass(x.v);
    lemma_envelope_mass(x.w);
    lemma_envelope_mass(y.u);
    lemma_envelope_mass(y.v);
    lemma_envelope_mass(y.w);
    assert(d * ENVELOPE + d * ENVELOPE + d * ENVELOPE == flip_cap(d)) by (nonlinear_arith);
    assert(capped(x, c) == c && capped(y, c) == c);
    lemma_sum_update(ts, i, x, capped_fn(c));
    lemma_sum_update(mid, j, y, capped_fn(c));
    assert(mid[j] == ts[j]);
}

proof fn lemma_first_merge_unique(ts: Seq<TripleView>, i: int, j: int, a: int, b: int)
    requires
        first_merge(ts, i, j),
        first_merge(ts, a, b),
    ensures
        i == a && j == b,
{
    assert(merge_of(ts[i], ts[j]) is Some);
    assert(merge_of(ts[a], ts[b]) is Some);
}

proof fn lemma_vec_mass_nonneg(x: Seq<i64>)
    ensures
        vec_mass(x) >= 0,
    decreases x.len(),
{
    if x.len() > 0 {
        lemma_vec_mass_nonneg(x.drop_last());
    }
}

proof fn lemma_vec_mass_entry(x: Seq<i64>, k: int)
    requires
        0 <= k < x.len(),
    ensures
        abs(x[k] as int) <= vec_mass(x),
    decreases x.len(),
{
    lemma_vec_mass_nonneg(x.drop_last());
    if k < x.len() - 1 {
        lemma_vec_mass_entry(x.drop_last(), k);
    }
}

proof fn lemma_vec_mass_add(x: Seq<i64>, y: Seq<i64>)
    requires
        x.len() == y.len(),
        add_ok(x, y),
    ensures
        vec_mass(seq_add(x, y)) <= vec_mass(x) + vec_mass(y),
    decreases x.len(),
{
    if x.len() > 0 {
        let n = x.len() - 1;
        assert(seq_add(x, y).drop_last() =~= seq_add(x.drop_last(), y.drop_last()));
        assert(add_ok(x.drop_last(), y.drop_last())) by {
            assert forall|k: int| 0 <= k < x.drop_last().len() implies fits(
                #[trigger] x.drop_last()[k] + y.drop_last()[k],
            ) by {
                assert(fits(x[k] + y[k]));
            }
        }
        lemma_vec_mass_add(x.drop_last(), y.drop_last());
        assert(fits(x[n] + y[n]));
    }
}

proof fn lemma_triple_mass_nonneg(t: TripleView)
    ensures
        triple_mass(t) >= 0,
{
    lemma_vec_mass_nonneg(t.u);
    lemma_vec_mass_nonneg(t.v);
    lemma_vec_mass_nonneg(t.w);
}

proof fn lemma_mass_nonneg(ts: Seq<TripleView>)
    ensures
        mass(ts) >= 0,
    decreases ts.len(),
{
    if ts.len() > 0 {
        lemma_mass_nonneg(ts.drop_last());
        lemma_triple_mass_nonneg(ts.last());
    }
}

/// Two distinct triples' masses together are at most the scheme's mass.
proof fn lemma_mass_pair(ts: Seq<TripleView>, i: int, j: int)
    requires
        0 <= i < ts.len(),
        0 <= j < ts.len(),
        i != j,
    ensures
        triple_mass(ts[i]) + triple_mass(ts[j]) <= mass(ts),
{
    let f = |t: TripleView| triple_mass(t);
    let z = TripleView { u: Seq::empty(), v: Seq::empty(), w: Seq::empty() };
    assert(triple_mass(z) == 0);
    lemma_sum_update(ts, i, z, f);
    let t1 = ts.update(i, z);
    lemma_sum_update(t1, j, z, f);
    lemma_mass_nonneg(t1.update(j, z));
    assert(t1[j] == ts[j]);
}

/// A triple's mass is at most the scheme's mass.
proof fn lemma_mass_single(ts: Seq<TripleView>, i: int)
    requires
        0 <= i < ts.len(),
    ensures
        triple_mass(ts[i]) <= mass(ts),
{
    let f = |t: TripleView| triple_mass(t);
    let z = TripleView { u: Seq::empty(), v: Seq::empty(), w: Seq::empty() };
    assert(triple_mass(z) == 0);
    lemma_sum_update(ts, i, z, f);
    lemma_mass_nonneg(ts.update(i, z));
}

/// Two equal-length vectors whose masses sum to at most `i64::MAX` add
/// without overflow.
proof fn lemma_add_ok_from_mass(x: Seq<i64>, y: Seq<i64>)
    requires
        x.len() == y.len(),
        vec_mass(x) + vec_mass(y) <= i64::MAX,
    ensures
        add_ok(x, y),
        sub_ok(x, y),
{
    assert forall|k: int| 0 <= k < x.len() implies fits(#[trigger] x[k] + y[k]) by {
        lemma_vec_mass_entry(x, k);
        lemma_vec_mass_entry(y, k);
    }
    assert forall|k: int| 0 <= k < x.len() implies fits(#[trigger] x[k] - y[k]) by {
        lemma_vec_mass_entry(x, k);
        lemma_vec_mass_entry(y, k);
    }
}

proof fn lemma_merge_ok(a: TripleView, b: TripleView, d: int)
    requires
        triple_wf(a, d),
        triple_wf(b, d),
        triple_mass(a) + triple_mass(b) <= i64::MAX,
    ensures
        add_ok(a.u, b.u),
        add_ok(a.v, b.v),
        add_ok(a.w, b.w),
        sub_ok(a.u, b.u),
        sub_ok(a.v, b.v),
        sub_ok(a.w, b.w),
{
    lemma_triple_mass_nonneg(a);
    lemma_triple_mass_nonneg(b);
    lemma_vec_mass_nonneg(a.u);
    lemma_vec_mass_nonneg(a.v);
    lemma_vec_mass_nonneg(a.w);
    lemma_vec_mass_nonneg(b.u);
    lemma_vec_mass_nonneg(b.v);
    lemma_vec_mass_nonneg(b.w);
    lemma_add_ok_from_mass(a.u, b.u);
    lemma_add_ok_from_mass(a.v, b.v);
    lemma_add_ok_from_mass(a.w, b.w);
}

/// A merge is the distributive law read backwards: the merged triple's term
/// is the sum of the two terms, and its mass is at most theirs.
proof fn lemma_merge_terms(a: TripleView, b: TripleView, d: int, p: int, q: int, r: int)
    requires
        merge_of(a, b) is Some,
        triple_wf(a, d),
        triple_wf(b, d),
        add_ok(a.u, b.u),
        add_ok(a.v, b.v),
        add_ok(a.w, b.w),
        0 <= p < d,
        0 <= q < d,
        0 <= r < d,
    ensures
        term(merge_of(a, b).unwrap(), p, q, r) == term(a, p, q, r) + term(b, p, q, r),
{
    let m = merge_of(a, b).unwrap();
    let (au, av, aw, bu, bv, bw) = (
        a.u[p] as int,
        a.v[q] as int,
        a.w[r] as int,
        b.u[p] as int,
        b.v[q] as int,
        b.w[r] as int,
    );
    assert(fits(a.u[p] + b.u[p]) && fits(a.v[q] + b.v[q]) && fits(a.w[r] + b.w[r]));
    if a.u == b.u && a.v == b.v {
        assert(au == bu && av == bv);
        assert(au * av * (aw + bw) == au * av * aw + bu * bv * bw) by (nonlinear_arith)
            requires
                au == bu,
                av == bv,
        ;
    } else if a.u == b.u && a.w == b.w {
        assert(au == bu && aw == bw);
        assert(au * (av + bv) * aw == au * av * aw + bu * bv * bw) by (nonlinear_arith)
            requires
                au == bu,
                aw == bw,
        ;
    } else {
        assert(av == bv && aw == bw);
        assert((au + bu) * av * aw == au * av * aw + bu * bv * bw) by (nonlinear_arith)
            requires
                av == bv,
                aw == bw,
        ;
    }
}

proof fn lemma_merge_mass(a: TripleView, b: TripleView, d: int)
    requires
        merge_of(a, b) is Some,
        triple_wf(a, d),
        triple_wf(b, d),
        add_ok(a.u, b.u),
        add_ok(a.v, b.v),
        add_ok(a.w, b.w),
    ensures
        triple_mass(merge_of(a, b).unwrap()) <= triple_mass(a) + triple_mass(b),
        triple_wf(merge_of(a, b).unwrap(), d),
{
    lemma_triple_mass_nonneg(b);
    lemma_vec_mass_nonneg(b.u);
    lemma_vec_mass_nonneg(b.v);
    lemma_vec_mass_nonneg(b.w);
    lemma_vec_mass_add(a.u, b.u);
    lemma_vec_mass_add(a.v, b.v);
    lemma_vec_mass_add(a.w, b.w);
}

proof fn lemma_zero_vector_term(t: TripleView, d: int, p: int, q: int, r: int)
    requires
        has_zero_vector(t),
        triple_wf(t, d),
        0 <= p < d,
        0 <= q < d,
        0 <= r < d,
    ensures
        term(t, p, q, r) == 0,
{
    let (x, y, z) = (t.u[p] as int, t.v[q] as int, t.w[r] as int);
    assert(x == 0 || y == 0 || z == 0);
    assert(x * y * z == 0) by (nonlinear_arith)
        requires
            x == 0 || y == 0 || z == 0,
    ;
}

fn triple_has_zero(t: &IntTriple) -> (r: bool)
    ensures
        r == has_zero_vector(t@),
{
    vec_is_zero(&t.u) || vec_is_zero(&t.v) || vec_is_zero(&t.w)
}

/// Drop every triple carrying an all-zero vector, keeping the others in order.
fn drop_zero_triples(ts: &Vec<IntTriple>, Ghost(d): Ghost<int>) -> (r: Vec<IntTriple>)
    requires
        triples_wf(triples_view(ts@), d),
    ensures
        triples_wf(triples_view(r@), d),
        same_tensor(triples_view(r@), triples_view(ts@), d),
        mass(triples_view(r@)) <= mass(triples_view(ts@)),
        r@.len() <= ts@.len(),
        forall|i: int| 0 <= i < r@.len() ==> !has_zero_vector(#[trigger] triples_view(r@)[i]),
        triples_view(r@) == nonzero_triples(triples_view(ts@)),
{
    let ghost src = triples_view(ts@);
    let mut kept: Vec<IntTriple> = Vec::new();
    let n = ts.len();
    let mut k: usize = 0;
    while k < n
        invariant
            n == src.len(),
            src == triples_view(ts@),
            k <= n,
            triples_wf(src, d),
            triples_wf(triples_view(kept@), d),
            forall|p: int, q: int, r: int|
                0 <= p < d && 0 <= q < d && 0 <= r < d ==> #[trigger] entry(
                    triples_view(kept@),
                    p,
                    q,
                    r,
                ) == entry(src.take(k as int), p, q, r),
            mass(triples_view(kept@)) <= mass(src.take(k as int)),
            kept@.len() <= k,
            forall|i: int|
                0 <= i < kept@.len() ==> !has_zero_vector(#[trigger] triples_view(kept@)[i]),
            triples_view(kept@) == nonzero_triples(src.take(k as int)),
        decreases n - k,
    {
        let t = &ts[k];
        assert(t@ == src[k as int]);
        let ghost before = triples_view(kept@);
        proof {
            assert(src.take(k + 1).drop_last() =~= src.take(k as int));
            assert(src.take(k + 1).last() == src[k as int]);
            lemma_sum_take_step(src, k as int, |t: TripleView| triple_mass(t));
            lemma_triple_mass_nonneg(src[k as int]);
            assert forall|p: int, q: int, r: int|
                0 <= p < d && 0 <= q < d && 0 <= r < d implies #[trigger] entry(
                src.take(k + 1),
                p,
                q,
                r,
            ) == entry(src.take(k as int), p, q, r) + term(src[k as int], p, q, r) by {
                lemma_sum_take_step(src, k as int, |t: TripleView| term(t, p, q, r));
            }
        }
        if !triple_has_zero(t) {
            kept.push(t.duplicate());
            proof {
                assert(triples_view(kept@) =~= before.push(src[k as int]));
                lemma_sum_push(before, src[k as int], |t: TripleView| triple_mass(t));
                assert forall|p: int, q: int, r: int|
                    0 <= p < d && 0 <= q < d && 0 <= r < d implies #[trigger] entry(
                    triples_view(kept@),
                    p,
                    q,
                    r,
                ) == entry(src.take(k + 1), p, q, r) by {
                    lemma_sum_push(before, src[k as int], |t: TripleView| term(t, p, q, r));
                    assert(entry(before, p, q, r) == entry(src.take(k as int), p, q, r));
                    assert(entry(src.take(k + 1), p, q, r) == entry(src.take(k as int), p, q, r)
                        + term(src[k as int], p, q, r));
                }
            }
        } else {
            proof {
                assert(before == triples_view(kept@));
                assert forall|p: int, q: int, r: int|
                    0 <= p < d && 0 <= q < d && 0 <= r < d implies #[trigger] entry(
                    triples_view(kept@),
                    p,
                    q,
                    r,
                ) == entry(src.take(k + 1), p, q, r) by {
                    lemma_zero_vector_term(src[k as int], d, p, q, r);
                    assert(entry(before, p, q, r) == entry(src.take(k as int), p, q, r));
                    assert(entry(src.take(k + 1), p, q, r) == entry(src.take(k as int), p, q, r)
                        + term(src[k as int], p, q, r));
                }
            }
        }
        k = k + 1;
    }
    assert(src.take(n as int) =~= src);
    kept
}

/// The first pair `i < j` (row-major) whose triples share two slots.
fn find_merge(ts: &Vec<IntTriple>, Ghost(d): Ghost<int>) -> (r: Option<(usize, usize, IntTriple)>)
    requires
        triples_wf(triples_view(ts@), d),
        mass(triples_view(ts@)) <= i64::MAX,
    ensures
        r is None ==> forall|i: int, j: int|
            0 <= i < j < ts@.len() ==> #[trigger] merge_of(
                triples_view(ts@)[i],
                triples_view(ts@)[j],
            ) is None,
        r matches Some((i, j, m)) ==> {
            &&& first_merge(triples_view(ts@), i as int, j as int)
            &&& merge_of(triples_view(ts@)[i as int], triples_view(ts@)[j as int]) == Some(m@)
        },
{
    let ghost tv = triples_view(ts@);
    let n = ts.len();
    let mut i: usize = 0;
    while i < n
        invariant
            n == ts@.len(),
            tv == triples_view(ts@),
            triples_wf(tv, d),
            mass(tv) <= i64::MAX,
            i <= n,
            forall|a: int, b: int| 0 <= a < i && a < b < n ==> #[trigger] merge_of(tv[a], tv[b]) is None,
        decreases n - i,
    {
        let mut j: usize = i + 1;
        while j < n
            invariant
                n == ts@.len(),
                tv == triples_view(ts@),
                triples_wf(tv, d),
                mass(tv) <= i64::MAX,
                i < n,
                i + 1 <= j <= n,
                forall|a: int, b: int|
                    0 <= a < i && a < b < n ==> #[trigger] merge_of(tv[a], tv[b]) is None,
                forall|b: int| i < b < j ==> #[trigger] merge_of(tv[i as int], tv[b]) is None,
            decreases n - j,
        {
            let a = &ts[i];
            let b = &ts[j];
            assert(tv[i as int] == a@ && tv[j as int] == b@);
            proof {
                lemma_mass_pair(tv, i as int, j as int);
                lemma_merge_ok(a@, b@, d);
            }
            let su = vec_same(&a.u, &b.u);
            let sv = vec_same(&a.v, &b.v);
            let sw = vec_same(&a.w, &b.w);
            if su && sv {
                let m = IntTriple { u: a.u.clone(), v: a.v.clone(), w: vec_add(&a.w, &b.w) };
                assert(m.u@ =~= a.u@ && m.v@ =~= a.v@);
                assert(m@ == merge_of(a@, b@).unwrap());
                return Some((i, j, m));
            } else if su && sw {
                let m = IntTriple { u: a.u.clone(), v: vec_add(&a.v, &b.v), w: a.w.clone() };
                assert(m.u@ =~= a.u@ && m.w@ =~= a.w@);
                assert(m@ == merge_of(a@, b@).unwrap());
                return Some((i, j, m));
            } else if sv && sw {
                let m = IntTriple { u: vec_add(&a.u, &b.u), v: a.v.clone(), w: a.w.clone() };
                assert(m.v@ =~= a.v@ && m.w@ =~= a.w@);
                assert(m@ == merge_of(a@, b@).unwrap());
                return Some((i, j, m));
            }
            j = j + 1;
        }
        i = i + 1;
    }
    None
}

/// Reduce to fixpoint: drop every triple containing an all-zero vector (it
/// contributes `0`) and merge the first pair sharing **two** factor-vectors
/// (the third vectors add — rank −1), until neither applies. Never raises
/// rank; preserves the tensor.
pub fn reduce(s: &IntScheme) -> (r: IntScheme)
    requires
        s.wf(),
        mass(s@.triples) <= i64::MAX,
    ensures
        r.wf(),
        r@.dim == s@.dim,
        r@.triples.len() <= s@.triples.len(),
        same_tensor(r@.triples, s@.triples, s@.dim as int),
        mass(r@.triples) <= mass(s@.triples),
        is_reduced(r@.triples),
        r@.triples == reduced_of(s@.triples),
        forall|c: int| c >= 0 ==> #[trigger] capped_mass(r@.triples, c) <= capped_mass(s@.triples, c),
{
    let ghost d = s@.dim as int;
    let ghost src = s@.triples;
    let mut triples = s.duplicate().triples;
    assert(triples_view(triples@) == src);
    loop
        invariant_except_break
            reduced_of(triples_view(triples@)) == reduced_of(src),
        invariant
            triples_wf(triples_view(triples@), d),
            same_tensor(triples_view(triples@), src, d),
            mass(triples_view(triples@)) <= mass(src),
            mass(src) <= i64::MAX,
            triples@.len() <= src.len(),
        ensures
            triples_wf(triples_view(triples@), d),
            same_tensor(triples_view(triples@), src, d),
            mass(triples_view(triples@)) <= mass(src),
            triples@.len() <= src.len(),
            is_reduced(triples_view(triples@)),
            triples_view(triples@) == reduced_of(src),
        decreases triples@.len(),
    {
        let ghost before = triples_view(triples@);
        let kept = drop_zero_triples(&triples, Ghost(d));
        let ghost kv = triples_view(kept@);
        assert(kv == nonzero_triples(before));
        match find_merge(&kept, Ghost(d)) {
            Some((i, j, m)) => {
                proof {
                    let (a, b) = choose|a: int, b: int| #[trigger] first_merge(kv, a, b);
                    lemma_first_merge_unique(kv, i as int, j as int, a, b);
                    assert(reduced_of(before) == reduced_of(merge_at(kv, i as int, j as int)));
                }
                let mut next = kept;
                let ghost mv = m@;
                proof {
                    lemma_mass_pair(kv, i as int, j as int);
                    lemma_merge_ok(kv[i as int], kv[j as int], d);
                    lemma_merge_mass(kv[i as int], kv[j as int], d);
                }
                next.set(i, m);
                let ghost mid = triples_view(next@);
                assert(mid =~= kv.update(i as int, mv));
                next.swap_remove(j);
                let ghost after = triples_view(next@);
                proof {
                    assert(after =~= mid.update(j as int, mid.last()).drop_last());
                    let fm = |t: TripleView| triple_mass(t);
                    lemma_sum_update(kv, i as int, mv, fm);
                    lemma_sum_swap_remove(mid, j as int, fm);
                    assert(mid[j as int] == kv[j as int]);
                    assert forall|p: int, q: int, r: int|
                        0 <= p < d && 0 <= q < d && 0 <= r < d implies #[trigger] entry(
                        after,
                        p,
                        q,
                        r,
                    ) == entry(src, p, q, r) by {
                        let f = |t: TripleView| term(t, p, q, r);
                        lemma_sum_update(kv, i as int, mv, f);
                        lemma_sum_swap_remove(mid, j as int, f);
                        lemma_merge_terms(kv[i as int], kv[j as int], d, p, q, r);
                        assert(entry(kv, p, q, r) == entry(before, p, q, r));
                    }
                    assert forall|x: int| 0 <= x < after.len() implies triple_wf(
                        #[trigger] after[x],
                        d,
                    ) by {
                        assert(triple_wf(mv, d));
                        if x != i && x != j {
                            if x == j {
                            } else {
                                assert(after[x] == mid[x] || after[x] == mid.last());
                            }
                        }
                        assert(after[x] == mid[x] || after[x] == mid.last());
                    }
                }
                assert(after == merge_at(kv, i as int, j as int));
                triples = next;
            },
            None => {
                proof {
                    assert forall|a: int, b: int| !#[trigger] first_merge(kv, a, b) by {
                        if 0 <= a < b < kv.len() {
                            assert(merge_of(kv[a], kv[b]) is None);
                        }
                    }
                    assert(reduced_of(before) == kv);
                }
                triples = kept;
                break ;
            },
        }
    }
    proof {
        assert forall|c: int| c >= 0 implies #[trigger] capped_mass(triples_view(triples@), c)
            <= capped_mass(src, c) by {
            lemma_reduce_caps_mass(src, d, c);
        }
    }
    let r = IntScheme { triples, dim: s.dim };
    r
}


// ───────────────────────── flat tensor images ─────────────────────────

/// The position of entry `(p, q, r)` in a flat row-major `d³` vector.
pub open spec fn flat_index(d: int, p: int, q: int, r: int) -> int {
    (p * d + q) * d + r
}

pub proof fn lemma_flat_index(d: int, p: int, q: int, r: int)
    requires
        0 <= p < d,
        0 <= q < d,
        0 <= r < d,
    ensures
        0 <= flat_index(d, p, q, r) < d * d * d,
        flat_index(d, p, q, r) / d == p * d + q,
        flat_index(d, p, q, r) % d == r,
        (p * d + q) / d == p,
        (p * d + q) % d == q,
{
    lemma_decompose(d, p, q, r);
}

proof fn lemma_flat_index_injective(d: int, p: int, q: int, r: int, p2: int, q2: int, r2: int)
    requires
        0 <= p < d,
        0 <= q < d,
        0 <= r < d,
        0 <= p2 < d,
        0 <= q2 < d,
        0 <= r2 < d,
        flat_index(d, p, q, r) == flat_index(d, p2, q2, r2),
    ensures
        p == p2 && q == q2 && r == r2,
{
    lemma_flat_index(d, p, q, r);
    lemma_flat_index(d, p2, q2, r2);
}

/// `(p, q, r)` comes before `(pp, qq, rr)` in row-major order.
pub open spec fn before3(p: int, q: int, r: int, pp: int, qq: int, rr: int) -> bool {
    p < pp || (p == pp && (q < qq || (q == qq && r < rr)))
}

pub proof fn lemma_flat_index_order(d: int, p: int, q: int, r: int, pp: int, qq: int, rr: int)
    requires
        0 <= p < d,
        0 <= q < d,
        0 <= r < d,
        0 <= pp < d,
        0 <= qq < d,
        0 <= rr <= d,
    ensures
        flat_index(d, p, q, r) < flat_index(d, pp, qq, rr) <==> before3(p, q, r, pp, qq, rr),
{
    if p < pp {
        assert(flat_index(d, p, q, r) < flat_index(d, pp, qq, rr)) by (nonlinear_arith)
            requires
                0 <= p < pp,
                0 <= q < d,
                0 <= r < d,
                0 <= qq,
                0 <= rr,
        ;
    } else if p > pp {
        assert(flat_index(d, p, q, r) >= flat_index(d, pp, qq, rr)) by (nonlinear_arith)
            requires
                0 <= pp < p,
                0 <= q,
                0 <= r,
                0 <= qq < d,
                0 <= rr <= d,
        ;
    } else if q < qq {
        assert(flat_index(d, p, q, r) < flat_index(d, pp, qq, rr)) by (nonlinear_arith)
            requires
                p == pp,
                0 <= q < qq,
                0 <= r < d,
                0 <= rr,
        ;
    } else if q > qq {
        assert(flat_index(d, p, q, r) >= flat_index(d, pp, qq, rr)) by (nonlinear_arith)
            requires
                p == pp,
                0 <= qq < q,
                0 <= r,
                0 <= rr <= d,
        ;
    } else {
    }
}

/// The flat row-major `d³` image of the `n×n` matmul tensor (`d = n²`).
pub fn target_int(n: usize) -> (t: Vec<i64>)
    requires
        (n * n) * (n * n) * (n * n) <= usize::MAX,
    ensures
        t@.len() == (n * n) * (n * n) * (n * n),
        forall|p: int, q: int, r: int|
            0 <= p < n * n && 0 <= q < n * n && 0 <= r < n * n ==> #[trigger] t@[flat_index(
                (n * n) as int,
                p,
                q,
                r,
            )] == target_entry(n as int, p, q, r),
{
    assert(n * n <= usize::MAX) by (nonlinear_arith)
        requires
            (n * n) * (n * n) * (n * n) <= usize::MAX,
    ;
    let d = n * n;
    assert(d * d <= usize::MAX) by (nonlinear_arith)
        requires
            d * d * d <= usize::MAX,
    ;
    let ghost dd = d as int;
    let mut flat: Vec<i64> = Vec::new();
    let mut p: usize = 0;
    while p < d
        invariant
            d == n * n,
            dd == d,
            d * d * d <= usize::MAX,
            p <= d,
            flat@.len() == flat_index(dd, p as int, 0, 0),
            forall|a: int, b: int, c: int|
                0 <= a < d && 0 <= b < d && 0 <= c < d && flat_index(dd, a, b, c) < flat@.len()
                    ==> #[trigger] flat@[flat_index(dd, a, b, c)] == target_entry(n as int, a, b, c),
        decreases d - p,
    {
        let mut q: usize = 0;
        while q < d
            invariant
                d == n * n,
                dd == d,
                d * d * d <= usize::MAX,
                p < d,
                q <= d,
                flat@.len() == flat_index(dd, p as int, q as int, 0),
                forall|a: int, b: int, c: int|
                    0 <= a < d && 0 <= b < d && 0 <= c < d && flat_index(dd, a, b, c)
                        < flat@.len() ==> #[trigger] flat@[flat_index(dd, a, b, c)]
                        == target_entry(n as int, a, b, c),
            decreases d - q,
        {
            let mut r: usize = 0;
            while r < d
                invariant
                    d == n * n,
                    dd == d,
                    d * d * d <= usize::MAX,
                    p < d,
                    q < d,
                    r <= d,
                    flat@.len() == flat_index(dd, p as int, q as int, r as int),
                    forall|a: int, b: int, c: int|
                        0 <= a < d && 0 <= b < d && 0 <= c < d && flat_index(dd, a, b, c)
                            < flat@.len() ==> #[trigger] flat@[flat_index(dd, a, b, c)]
                            == target_entry(n as int, a, b, c),
                decreases d - r,
            {
                let val: i64 = if p / n == r / n && p % n == q / n && q % n == r % n {
                    1
                } else {
                    0
                };
                let ghost old_flat = flat@;
                flat.push(val);
                proof {
                    lemma_flat_index(dd, p as int, q as int, r as int);
                    assert forall|a: int, b: int, c: int|
                        0 <= a < d && 0 <= b < d && 0 <= c < d && flat_index(dd, a, b, c)
                            < flat@.len() implies #[trigger] flat@[flat_index(dd, a, b, c)]
                        == target_entry(n as int, a, b, c) by {
                        if flat_index(dd, a, b, c) == old_flat.len() {
                            lemma_flat_index_injective(
                                dd,
                                a,
                                b,
                                c,
                                p as int,
                                q as int,
                                r as int,
                            );
                        } else {
                            assert(flat@[flat_index(dd, a, b, c)] == old_flat[flat_index(
                                dd,
                                a,
                                b,
                                c,
                            )]);
                        }
                    }
                }
                r = r + 1;
            }
            proof {
                let (pi, qi) = (p as int, q as int);
                assert((pi * dd + qi) * dd + dd == (pi * dd + (qi + 1)) * dd + 0) by (nonlinear_arith);
            }
            q = q + 1;
        }
        proof {
            let pi = p as int;
            assert((pi * dd + dd) * dd + 0 == ((pi + 1) * dd + 0) * dd + 0) by (nonlinear_arith);
        }
        p = p + 1;
    }
    proof {
        assert((dd * dd + 0) * dd + 0 == dd * dd * dd) by (nonlinear_arith);
        assert forall|a: int, b: int, c: int|
            0 <= a < d && 0 <= b < d && 0 <= c < d implies #[trigger] flat@[flat_index(
            dd,
            a,
            b,
            c,
        )] == target_entry(n as int, a, b, c) by {
            lemma_flat_index(dd, a, b, c);
        }
    }
    flat
}


// ─────────────────────────── reconstruction ───────────────────────────

pub open spec fn max(a: int, b: int) -> int {
    if a < b { b } else { a }
}

/// `max_k |x[k]|` (`0` for the empty vector).
pub open spec fn vec_max_abs(x: Seq<i64>) -> int
    decreases x.len(),
{
    if x.len() == 0 {
        0
    } else {
        max(vec_max_abs(x.drop_last()), abs(x.last() as int))
    }
}

/// The largest coefficient magnitude in the scheme (`0` when it is empty).
pub open spec fn max_abs_coeff(ts: Seq<TripleView>) -> int
    decreases ts.len(),
{
    if ts.len() == 0 {
        0
    } else {
        max(
            max_abs_coeff(ts.drop_last()),
            max(vec_max_abs(ts.last().u), max(vec_max_abs(ts.last().v), vec_max_abs(ts.last().w))),
        )
    }
}

proof fn lemma_vec_max_abs(x: Seq<i64>, k: int)
    requires
        0 <= k < x.len(),
    ensures
        abs(x[k] as int) <= vec_max_abs(x),
    decreases x.len(),
{
    if k < x.len() - 1 {
        lemma_vec_max_abs(x.drop_last(), k);
    }
}

proof fn lemma_vec_max_abs_nonneg(x: Seq<i64>)
    ensures
        vec_max_abs(x) >= 0,
    decreases x.len(),
{
    if x.len() > 0 {
        lemma_vec_max_abs_nonneg(x.drop_last());
    }
}

/// The maximum is attained: some coefficient has exactly that magnitude
/// (or the vector has no nonzero magnitude at all).
proof fn lemma_vec_max_abs_attained(x: Seq<i64>)
    ensures
        vec_max_abs(x) == 0 || exists|k: int| 0 <= k < x.len() && abs(x[k] as int) == vec_max_abs(x),
    decreases x.len(),
{
    if x.len() > 0 {
        lemma_vec_max_abs_attained(x.drop_last());
        if vec_max_abs(x.drop_last()) != 0 && vec_max_abs(x) == vec_max_abs(x.drop_last()) {
            let k = choose|k: int|
                0 <= k < x.drop_last().len() && abs(x.drop_last()[k] as int) == vec_max_abs(
                    x.drop_last(),
                );
            assert(x[k] == x.drop_last()[k]);
        } else if vec_max_abs(x) != 0 {
            assert(abs(x[x.len() - 1] as int) == vec_max_abs(x));
        }
    }
}

proof fn lemma_max_abs_coeff(ts: Seq<TripleView>, i: int)
    requires
        0 <= i < ts.len(),
    ensures
        vec_max_abs(ts[i].u) <= max_abs_coeff(ts),
        vec_max_abs(ts[i].v) <= max_abs_coeff(ts),
        vec_max_abs(ts[i].w) <= max_abs_coeff(ts),
        max_abs_coeff(ts) >= 0,
    decreases ts.len(),
{
    lemma_max_abs_nonneg(ts);
    if i < ts.len() - 1 {
        lemma_max_abs_coeff(ts.drop_last(), i);
    }
}

proof fn lemma_max_abs_nonneg(ts: Seq<TripleView>)
    ensures
        max_abs_coeff(ts) >= 0,
    decreases ts.len(),
{
    if ts.len() > 0 {
        lemma_max_abs_nonneg(ts.drop_last());
    }
}

/// Every coefficient's magnitude is at most `max_abs_coeff`.
pub proof fn lemma_coeff_le_max(ts: Seq<TripleView>, i: int, k: int)
    requires
        0 <= i < ts.len(),
    ensures
        0 <= k < ts[i].u.len() ==> abs(ts[i].u[k] as int) <= max_abs_coeff(ts),
        0 <= k < ts[i].v.len() ==> abs(ts[i].v[k] as int) <= max_abs_coeff(ts),
        0 <= k < ts[i].w.len() ==> abs(ts[i].w[k] as int) <= max_abs_coeff(ts),
{
    lemma_max_abs_coeff(ts, i);
    if 0 <= k < ts[i].u.len() {
        lemma_vec_max_abs(ts[i].u, k);
    }
    if 0 <= k < ts[i].v.len() {
        lemma_vec_max_abs(ts[i].v, k);
    }
    if 0 <= k < ts[i].w.len() {
        lemma_vec_max_abs(ts[i].w, k);
    }
}

proof fn lemma_product_bound(a: int, b: int, c: int, m: int)
    requires
        abs(a) <= m,
        abs(b) <= m,
        abs(c) <= m,
    ensures
        abs(a * b) <= m * m,
        abs(a * b * c) <= m * m * m,
        m >= 0,
{
    assert(abs(a * b) == abs(a) * abs(b)) by (nonlinear_arith);
    assert(abs(a) * abs(b) <= m * m) by (nonlinear_arith)
        requires
            0 <= abs(a) <= m,
            0 <= abs(b) <= m,
    ;
    assert(abs(a * b * c) == abs(a * b) * abs(c)) by (nonlinear_arith);
    assert(abs(a * b) * abs(c) <= (m * m) * m) by (nonlinear_arith)
        requires
            0 <= abs(a * b) <= m * m,
            0 <= abs(c) <= m,
    ;
}

proof fn lemma_entry_bound(ts: Seq<TripleView>, d: int, m: int, p: int, q: int, r: int)
    requires
        triples_wf(ts, d),
        0 <= p < d,
        0 <= q < d,
        0 <= r < d,
    ensures
        abs(entry(ts, p, q, r)) <= ts.len() * (max_abs_coeff(ts) * max_abs_coeff(ts) * max_abs_coeff(
            ts,
        )),
    decreases ts.len(),
{
    let mm = max_abs_coeff(ts);
    lemma_max_abs_nonneg(ts);
    if ts.len() > 0 {
        let init = ts.drop_last();
        assert forall|i: int| 0 <= i < init.len() implies triple_wf(#[trigger] init[i], d) by {
            assert(init[i] == ts[i]);
        }
        lemma_entry_bound(init, d, m, p, q, r);
        let mi = max_abs_coeff(init);
        lemma_max_abs_nonneg(init);
        assert(mi <= mm);
        let last = ts.len() - 1;
        lemma_coeff_le_max(ts, last, p);
        lemma_coeff_le_max(ts, last, q);
        lemma_coeff_le_max(ts, last, r);
        lemma_product_bound(ts[last].u[p] as int, ts[last].v[q] as int, ts[last].w[r] as int, mm);
        assert(mi * mi * mi <= mm * mm * mm) by (nonlinear_arith)
            requires
                0 <= mi <= mm,
        ;
        let k = init.len();
        assert(k * (mi * mi * mi) <= k * (mm * mm * mm)) by (nonlinear_arith)
            requires
                mi * mi * mi <= mm * mm * mm,
                k >= 0,
        ;
        assert(k * (mm * mm * mm) + mm * mm * mm == ts.len() * (mm * mm * mm)) by (nonlinear_arith)
            requires
                k + 1 == ts.len(),
        ;
    }
}

/// The partial reconstruction state while the triple at position `t` is
/// being added in row-major order up to (excluding) `(pp, qq, rr)`.
pub open spec fn partial_entry(
    ts: Seq<TripleView>,
    t: int,
    p: int,
    q: int,
    r: int,
    pp: int,
    qq: int,
    rr: int,
) -> int {
    entry(ts.take(t), p, q, r) + if before3(p, q, r, pp, qq, rr) {
        term(ts[t], p, q, r)
    } else {
        0
    }
}

/// `Σ_t u_t[p]·v_t[q]·w_t[r]` as a flat row-major `d³` vector — the scheme's
/// tensor.
pub fn reconstruct_int(s: &IntScheme) -> (flat: Vec<i64>)
    requires
        s.wf(),
        s@.dim * s@.dim * s@.dim <= usize::MAX,
        s@.triples.len() * (max_abs_coeff(s@.triples) * max_abs_coeff(s@.triples) * max_abs_coeff(
            s@.triples,
        )) <= i64::MAX,
    ensures
        flat@.len() == s@.dim * s@.dim * s@.dim,
        forall|p: int, q: int, r: int|
            0 <= p < s@.dim && 0 <= q < s@.dim && 0 <= r < s@.dim ==> #[trigger] flat@[flat_index(
                s@.dim as int,
                p,
                q,
                r,
            )] == entry(s@.triples, p, q, r),
{
    let ghost ts = s@.triples;
    let ghost mm = max_abs_coeff(ts);
    let d = s.dim;
    let ghost dd = d as int;
    assert(d * d <= usize::MAX) by (nonlinear_arith)
        requires
            d * d * d <= usize::MAX,
    ;
    let total = d * d * d;
    let mut flat: Vec<i64> = Vec::new();
    let mut x: usize = 0;
    while x < total
        invariant
            x <= total,
            flat@.len() == x,
            forall|y: int| 0 <= y < x ==> #[trigger] flat@[y] == 0,
        decreases total - x,
    {
        flat.push(0);
        x = x + 1;
    }
    proof {
        lemma_max_abs_nonneg(ts);
        assert forall|p: int, q: int, r: int|
            0 <= p < d && 0 <= q < d && 0 <= r < d implies #[trigger] flat@[flat_index(
            dd,
            p,
            q,
            r,
        )] == entry(ts.take(0), p, q, r) by {
            lemma_flat_index(dd, p, q, r);
            assert(ts.take(0) =~= Seq::<TripleView>::empty());
        }
    }
    let n = s.triples.len();
    let mut t: usize = 0;
    while t < n
        invariant
            n == ts.len(),
            ts == s@.triples,
            triples_wf(ts, dd),
            dd == d,
            total == d * d * d,
            d * d * d <= usize::MAX,
            mm == max_abs_coeff(ts),
            mm >= 0,
            n * (mm * mm * mm) <= i64::MAX,
            t <= n,
            flat@.len() == total,
            forall|p: int, q: int, r: int|
                0 <= p < d && 0 <= q < d && 0 <= r < d ==> #[trigger] flat@[flat_index(
                    dd,
                    p,
                    q,
                    r,
                )] == entry(ts.take(t as int), p, q, r),
        decreases n - t,
    {
        let tr = &s.triples[t];
        assert(ts[t as int] == tr@);
        let ghost tv = tr@;
        proof {
            assert forall|p: int, q: int, r: int|
                0 <= p < d && 0 <= q < d && 0 <= r < d implies #[trigger] entry(
                ts.take(t + 1),
                p,
                q,
                r,
            ) == entry(ts.take(t as int), p, q, r) + term(ts[t as int], p, q, r) by {
                lemma_sum_take_step(ts, t as int, |x: TripleView| term(x, p, q, r));
            }
            assert forall|p: int, q: int, r: int|
                0 <= p < d && 0 <= q < d && 0 <= r < d implies #[trigger] flat@[flat_index(
                dd,
                p,
                q,
                r,
            )] == partial_entry(ts, t as int, p, q, r, 0, 0, 0) by {}
        }
        let mut p: usize = 0;
        while p < d
            invariant
                n == ts.len(),
                ts == s@.triples,
                triples_wf(ts, dd),
                dd == d,
                total == d * d * d,
                d * d * d <= usize::MAX,
                mm == max_abs_coeff(ts),
                mm >= 0,
                n * (mm * mm * mm) <= i64::MAX,
                t < n,
                tv == ts[t as int],
                tv == tr@,
                p <= d,
                flat@.len() == total,
                forall|a: int, b: int, c: int|
                    0 <= a < d && 0 <= b < d && 0 <= c < d ==> #[trigger] flat@[flat_index(
                        dd,
                        a,
                        b,
                        c,
                    )] == partial_entry(ts, t as int, a, b, c, p as int, 0, 0),
            decreases d - p,
        {
            let up = tr.u[p];
            if up != 0 {
                let mut q: usize = 0;
                while q < d
                    invariant
                        n == ts.len(),
                        ts == s@.triples,
                        triples_wf(ts, dd),
                        dd == d,
                        total == d * d * d,
                        d * d * d <= usize::MAX,
                        mm == max_abs_coeff(ts),
                        mm >= 0,
                        n * (mm * mm * mm) <= i64::MAX,
                        t < n,
                        tv == ts[t as int],
                        tv == tr@,
                        p < d,
                        up == tv.u[p as int],
                        q <= d,
                        flat@.len() == total,
                        forall|a: int, b: int, c: int|
                            0 <= a < d && 0 <= b < d && 0 <= c < d ==> #[trigger] flat@[flat_index(
                                dd,
                                a,
                                b,
                                c,
                            )] == partial_entry(ts, t as int, a, b, c, p as int, q as int, 0),
                    decreases d - q,
                {
                    let vq = tr.v[q];
                    if vq != 0 {
                        proof {
                            lemma_coeff_le_max(ts, t as int, p as int);
                            lemma_coeff_le_max(ts, t as int, q as int);
                            lemma_product_bound(up as int, vq as int, 0, mm);
                            assert(mm >= 1);
                            assert(mm * mm <= n * (mm * mm * mm)) by (nonlinear_arith)
                                requires
                                    mm >= 1,
                                    n >= 1,
                            ;
                        }
                        let uv = up * vq;
                        let mut r: usize = 0;
                        while r < d
                            invariant
                                n == ts.len(),
                                ts == s@.triples,
                                triples_wf(ts, dd),
                                dd == d,
                                total == d * d * d,
                                d * d * d <= usize::MAX,
                                mm == max_abs_coeff(ts),
                                mm >= 0,
                                n * (mm * mm * mm) <= i64::MAX,
                                t < n,
                                tv == ts[t as int],
                                tv == tr@,
                                p < d,
                                q < d,
                                up == tv.u[p as int],
                                vq == tv.v[q as int],
                                uv == up * vq,
                                r <= d,
                                flat@.len() == total,
                                forall|a: int, b: int, c: int|
                                    0 <= a < d && 0 <= b < d && 0 <= c < d ==> #[trigger] flat@[flat_index(
                                        dd,
                                        a,
                                        b,
                                        c,
                                    )] == partial_entry(
                                        ts,
                                        t as int,
                                        a,
                                        b,
                                        c,
                                        p as int,
                                        q as int,
                                        r as int,
                                    ),
                            decreases d - r,
                        {
                            let wr = tr.w[r];
                            let ghost old_flat = flat@;
                            if wr != 0 {
                                proof {
                                    lemma_flat_index(dd, p as int, q as int, r as int);
                                }
                                let idx = (p * d + q) * d + r;
                                proof {
                                    let (pi, qi, ri) = (p as int, q as int, r as int);
                                    lemma_coeff_le_max(ts, t as int, pi);
                                    lemma_coeff_le_max(ts, t as int, qi);
                                    lemma_coeff_le_max(ts, t as int, ri);
                                    lemma_product_bound(up as int, vq as int, wr as int, mm);
                                    assert forall|i: int|
                                        0 <= i < ts.take(t as int).len() implies triple_wf(
                                        #[trigger] ts.take(t as int)[i],
                                        dd,
                                    ) by {
                                        assert(ts.take(t as int)[i] == ts[i]);
                                    }
                                    lemma_entry_bound(ts.take(t as int), dd, mm, pi, qi, ri);
                                    lemma_max_prefix(ts, t as int);
                                    let mt = max_abs_coeff(ts.take(t as int));
                                    lemma_max_abs_nonneg(ts.take(t as int));
                                    assert(t * (mt * mt * mt) <= t * (mm * mm * mm))
                                        by (nonlinear_arith)
                                        requires
                                            0 <= mt <= mm,
                                            t >= 0,
                                    ;
                                    assert((t + 1) * (mm * mm * mm) <= n * (mm * mm * mm))
                                        by (nonlinear_arith)
                                        requires
                                            t + 1 <= n,
                                            mm >= 0,
                                    ;
                                    assert(t * (mm * mm * mm) + mm * mm * mm == (t + 1) * (mm
                                        * mm * mm)) by (nonlinear_arith);
                                    assert(flat@[idx as int] == entry(ts.take(t as int), pi, qi, ri));
                                    assert(uv * wr == up * vq * wr) by (nonlinear_arith)
                                        requires
                                            uv == up * vq,
                                    ;
                                }
                                let cur = flat[idx];
                                flat.set(idx, cur + uv * wr);
                                proof {
                                    assert forall|a: int, b: int, c: int|
                                        0 <= a < d && 0 <= b < d && 0 <= c < d implies #[trigger] flat@[flat_index(
                                        dd,
                                        a,
                                        b,
                                        c,
                                    )] == partial_entry(
                                        ts,
                                        t as int,
                                        a,
                                        b,
                                        c,
                                        p as int,
                                        q as int,
                                        r + 1,
                                    ) by {
                                        lemma_flat_index(dd, a, b, c);
                                        if flat_index(dd, a, b, c) == idx {
                                            lemma_flat_index_injective(
                                                dd,
                                                a,
                                                b,
                                                c,
                                                p as int,
                                                q as int,
                                                r as int,
                                            );
                                        } else {
                                            assert(flat@[flat_index(dd, a, b, c)] == old_flat[flat_index(
                                                dd,
                                                a,
                                                b,
                                                c,
                                            )]);
                                            assert(before3(a, b, c, p as int, q as int, r + 1)
                                                == before3(a, b, c, p as int, q as int, r as int));
                                        }
                                    }
                                }
                            } else {
                                proof {
                                    assert forall|a: int, b: int, c: int|
                                        0 <= a < d && 0 <= b < d && 0 <= c < d implies #[trigger] flat@[flat_index(
                                        dd,
                                        a,
                                        b,
                                        c,
                                    )] == partial_entry(
                                        ts,
                                        t as int,
                                        a,
                                        b,
                                        c,
                                        p as int,
                                        q as int,
                                        r + 1,
                                    ) by {
                                        if a == p && b == q && c == r {
                                            assert(term(tv, a, b, c) == 0) by {
                                                let (x, y) = (up as int, vq as int);
                                                assert(x * y * 0 == 0) by (nonlinear_arith);
                                            }
                                        }
                                    }
                                }
                            }
                            r = r + 1;
                        }
                        proof {
                            assert forall|a: int, b: int, c: int|
                                0 <= a < d && 0 <= b < d && 0 <= c < d implies #[trigger] flat@[flat_index(
                                dd,
                                a,
                                b,
                                c,
                            )] == partial_entry(ts, t as int, a, b, c, p as int, q + 1, 0) by {
                                assert(before3(a, b, c, p as int, q as int, d as int) == before3(
                                    a,
                                    b,
                                    c,
                                    p as int,
                                    q + 1,
                                    0,
                                ));
                            }
                        }
                    } else {
                        proof {
                            assert forall|a: int, b: int, c: int|
                                0 <= a < d && 0 <= b < d && 0 <= c < d implies #[trigger] flat@[flat_index(
                                dd,
                                a,
                                b,
                                c,
                            )] == partial_entry(ts, t as int, a, b, c, p as int, q + 1, 0) by {
                                if a == p && b == q {
                                    let (x, z) = (up as int, tv.w[c] as int);
                                    assert(x * 0 * z == 0) by (nonlinear_arith);
                                }
                            }
                        }
                    }
                    q = q + 1;
                }
                proof {
                    assert forall|a: int, b: int, c: int|
                        0 <= a < d && 0 <= b < d && 0 <= c < d implies #[trigger] flat@[flat_index(
                        dd,
                        a,
                        b,
                        c,
                    )] == partial_entry(ts, t as int, a, b, c, p + 1, 0, 0) by {
                        assert(before3(a, b, c, p as int, d as int, 0) == before3(a, b, c, p + 1, 0, 0));
                    }
                }
            } else {
                proof {
                    assert forall|a: int, b: int, c: int|
                        0 <= a < d && 0 <= b < d && 0 <= c < d implies #[trigger] flat@[flat_index(
                        dd,
                        a,
                        b,
                        c,
                    )] == partial_entry(ts, t as int, a, b, c, p + 1, 0, 0) by {
                        if a == p {
                            let (y, z) = (tv.v[b] as int, tv.w[c] as int);
                            assert(0 * y * z == 0) by (nonlinear_arith);
                        }
                    }
                }
            }
            p = p + 1;
        }
        proof {
            assert forall|a: int, b: int, c: int|
                0 <= a < d && 0 <= b < d && 0 <= c < d implies #[trigger] flat@[flat_index(
                dd,
                a,
                b,
                c,
            )] == entry(ts.take(t + 1), a, b, c) by {
                assert(before3(a, b, c, d as int, 0, 0));
            }
        }
        t = t + 1;
    }
    proof {
        assert(ts.take(n as int) =~= ts);
    }
    flat
}

proof fn lemma_max_prefix(ts: Seq<TripleView>, t: int)
    requires
        0 <= t <= ts.len(),
    ensures
        max_abs_coeff(ts.take(t)) <= max_abs_coeff(ts),
    decreases ts.len(),
{
    if t < ts.len() {
        lemma_max_prefix(ts.drop_last(), t);
        assert(ts.drop_last().take(t) =~= ts.take(t));
        lemma_max_abs_nonneg(ts.drop_last());
    } else {
        assert(ts.take(t) =~= ts);
    }
}


// ─────────────────────── conversion and errors ───────────────────────

/// A search failure — never a panic.
#[derive(Debug, PartialEq, Eq, Structural)]
pub enum FlipError {
    /// The budget ran out; the best exact rank reached is reported.
    NotFound {
        /// The lowest rank of any exact state visited.
        best_rank: usize,
    },
    /// A state was asked to become a ternary scheme while a coefficient was
    /// outside `{−1, 0, +1}`.
    NonTernary {
        /// The largest coefficient magnitude in the offending state.
        max_abs: i64,
    },
}

/// The entries of `x`, each narrowed to `i8`.
pub open spec fn narrow(x: Seq<i64>) -> Seq<i8> {
    Seq::new(x.len(), |k: int| x[k] as i8)
}

/// The ternary scheme as a genome: triple `t` becomes `[u_t, v_t, w_t]` over
/// `i8`.
pub open spec fn ternary_genome(ts: Seq<TripleView>) -> Seq<Seq<Seq<i8>>> {
    Seq::new(ts.len(), |t: int| seq![narrow(ts[t].u), narrow(ts[t].v), narrow(ts[t].w)])
}

pub open spec fn vec_no_min(x: Seq<i64>) -> bool {
    forall|k: int| 0 <= k < x.len() ==> #[trigger] x[k] != i64::MIN
}

pub open spec fn triple_no_min(t: TripleView) -> bool {
    vec_no_min(t.u) && vec_no_min(t.v) && vec_no_min(t.w)
}

/// No coefficient is `i64::MIN` (whose magnitude has no `i64`).
pub open spec fn no_min_coeff(ts: Seq<TripleView>) -> bool {
    forall|i: int| 0 <= i < ts.len() ==> #[trigger] triple_no_min(ts[i])
}

proof fn lemma_ternary_genome_entry(ts: Seq<TripleView>, d: int, p: int, q: int, r: int)
    requires
        triples_wf(ts, d),
        all_ternary(ts),
        0 <= p < d,
        0 <= q < d,
        0 <= r < d,
    ensures
        genome_entry(ternary_genome(ts), p, q, r) == entry(ts, p, q, r),
    decreases ts.len(),
{
    if ts.len() > 0 {
        let init = ts.drop_last();
        assert forall|i: int| 0 <= i < init.len() implies triple_wf(#[trigger] init[i], d) by {
            assert(init[i] == ts[i]);
        }
        assert forall|i: int| 0 <= i < init.len() implies #[trigger] triple_ternary(init[i]) by {
            assert(init[i] == ts[i]);
        }
        lemma_ternary_genome_entry(init, d, p, q, r);
        assert(ternary_genome(ts).drop_last() =~= ternary_genome(init));
        let last = ts.last();
        assert(triple_ternary(ts[ts.len() - 1]));
        assert(-1 <= last.u[p] <= 1 && -1 <= last.v[q] <= 1 && -1 <= last.w[r] <= 1);
    }
}

fn vec_max_abs_exec(x: &Vec<i64>) -> (r: i64)
    requires
        forall|k: int| 0 <= k < x@.len() ==> #[trigger] x@[k] != i64::MIN,
    ensures
        r == vec_max_abs(x@),
{
    let mut best: i64 = 0;
    let mut k: usize = 0;
    while k < x.len()
        invariant
            k <= x@.len(),
            forall|m: int| 0 <= m < x@.len() ==> #[trigger] x@[m] != i64::MIN,
            best == vec_max_abs(x@.take(k as int)),
        decreases x@.len() - k,
    {
        assert(x@.take(k + 1).drop_last() =~= x@.take(k as int));
        let c = x[k];
        let a = if c < 0 { -c } else { c };
        if a > best {
            best = a;
        }
        k = k + 1;
    }
    assert(x@.take(x@.len() as int) =~= x@);
    best
}

fn narrow_vec(x: &Vec<i64>) -> (r: Vec<i8>)
    requires
        vec_ternary(x@),
    ensures
        r@ == narrow(x@),
{
    let mut r: Vec<i8> = Vec::new();
    let mut k: usize = 0;
    while k < x.len()
        invariant
            k <= x@.len(),
            vec_ternary(x@),
            r@.len() == k,
            forall|m: int| 0 <= m < k ==> #[trigger] r@[m] == x@[m] as i8,
        decreases x@.len() - k,
    {
        let c = x[k];
        assert(-1 <= c <= 1);
        r.push(c as i8);
        k = k + 1;
    }
    assert(r@ =~= narrow(x@));
    r
}

impl IntScheme {
    /// The largest coefficient magnitude.
    fn max_abs(&self) -> (r: i64)
        requires
            no_min_coeff(self@.triples),
        ensures
            r == max_abs_coeff(self@.triples),
    {
        let ghost ts = self@.triples;
        let mut best: i64 = 0;
        let mut i: usize = 0;
        while i < self.triples.len()
            invariant
                i <= self.triples@.len(),
                ts == triples_view(self.triples@),
                no_min_coeff(ts),
                best == max_abs_coeff(ts.take(i as int)),
            decreases self.triples@.len() - i,
        {
            let t = &self.triples[i];
            assert(ts[i as int] == t@);
            assert(ts.take(i + 1).drop_last() =~= ts.take(i as int));
            assert(ts.take(i + 1).last() == t@);
            assert(triple_no_min(ts[i as int]));
            let a = vec_max_abs_exec(&t.u);
            let b = vec_max_abs_exec(&t.v);
            let c = vec_max_abs_exec(&t.w);
            let vw = if b < c { c } else { b };
            let m = if a < vw { vw } else { a };
            if best < m {
                best = m;
            }
            i = i + 1;
        }
        assert(ts.take(self.triples@.len() as int) =~= ts);
        best
    }

    /// Convert to a ternary scheme (as its genome of `i8` triples). A state
    /// with a coefficient outside `{−1, 0, +1}` is
    /// [`FlipError::NonTernary`] carrying the largest magnitude, never a
    /// truncation.
    pub fn to_scheme(&self) -> (r: Result<Genome, FlipError>)
        requires
            !all_ternary(self@.triples) ==> no_min_coeff(self@.triples),
        ensures
            all_ternary(self@.triples) ==> (r matches Ok(g) && g@ == ternary_genome(self@.triples)),
            !all_ternary(self@.triples) ==> r == Err::<Genome, FlipError>(
                FlipError::NonTernary { max_abs: max_abs_coeff(self@.triples) as i64 },
            ),
    {
        if !self.is_ternary() {
            let max_abs = self.max_abs();
            return Err(FlipError::NonTernary { max_abs });
        }
        let ghost ts = self@.triples;
        let mut out: Vec<[Vec<i8>; 3]> = Vec::new();
        let mut i: usize = 0;
        while i < self.triples.len()
            invariant
                i <= self.triples@.len(),
                ts == triples_view(self.triples@),
                all_ternary(ts),
                out@.len() == i,
                forall|k: int|
                    0 <= k < i ==> triple_seqs(#[trigger] out@[k]) == seq![
                        narrow(ts[k].u),
                        narrow(ts[k].v),
                        narrow(ts[k].w),
                    ],
            decreases self.triples@.len() - i,
        {
            let t = &self.triples[i];
            assert(ts[i as int] == t@);
            assert(triple_ternary(ts[i as int]));
            let tern = [narrow_vec(&t.u), narrow_vec(&t.v), narrow_vec(&t.w)];
            out.push(tern);
            i = i + 1;
        }
        let g = Genome { triples: out };
        assert(g@ =~= ternary_genome(ts));
        Ok(g)
    }
}

// ─────────────────────────── perturbation ───────────────────────────

proof fn lemma_envelope_mass(x: Seq<i64>)
    requires
        within_envelope(x),
    ensures
        vec_mass(x) <= x.len() * ENVELOPE,
    decreases x.len(),
{
    if x.len() > 0 {
        assert(within_envelope(x.drop_last()));
        lemma_envelope_mass(x.drop_last());
        assert(-ENVELOPE <= x[x.len() - 1] <= ENVELOPE);
    }
}

/// A flip rewrites only its two triples: the rest, the rank and the shape
/// are kept, and the tensor is unchanged.
pub proof fn lemma_flip_keeps_the_rest(ts: Seq<TripleView>, d: int, i: int, j: int, variant: Variant)
    requires
        triples_wf(ts, d),
        flip_applies(ts, i, j, variant),
        flip_arith_ok(ts[i], ts[j], variant),
    ensures
        flip_result(ts, i, j, variant).len() == ts.len(),
        triples_wf(flip_result(ts, i, j, variant), d),
        same_tensor(flip_result(ts, i, j, variant), ts, d),
        forall|k: int|
            0 <= k < ts.len() && k != i && k != j ==> #[trigger] flip_result(ts, i, j, variant)[k] == ts[k],
{
    lemma_flip_preserves_tensor(ts, d, i, j, variant);
}

/// Under a mass bound the flip's arithmetic is safe.
proof fn lemma_flip_mass(ts: Seq<TripleView>, d: int, i: int, j: int, variant: Variant)
    requires
        triples_wf(ts, d),
        flip_applies(ts, i, j, variant),
        mass(ts) <= i64::MAX,
    ensures
        flip_arith_ok(ts[i], ts[j], variant),
{
    lemma_mass_pair(ts, i, j);
    lemma_merge_ok(ts[i], ts[j], d);
}

/// The flip on `pair` and `variant`, when it applies and both rewritten
/// triples stay inside the envelope (what `flip_at` answers).
pub open spec fn flip_step(ts: Seq<TripleView>, pair: (usize, usize), variant: Variant) -> Option<
    Seq<TripleView>,
> {
    let (a, b) = flipped(ts[pair.0 as int], ts[pair.1 as int], variant);
    if flip_applies(ts, pair.0 as int, pair.1 as int, variant) && triple_within_envelope(a)
        && triple_within_envelope(b) {
        Some(flip_result(ts, pair.0 as int, pair.1 as int, variant))
    } else {
        None
    }
}

/// The frontier entry that one unbiased draw from generator state `st`
/// picks, with the state after the draw; `None` when the frontier is empty
/// (and nothing is drawn).
pub open spec fn drawn_move(ts: Seq<TripleView>, st: u64) -> Option<(((usize, usize), Variant), u64)> {
    let fr = frontier(ts);
    if fr.len() == 0 {
        None
    } else {
        let (x, s1) = below_spec(st, fr.len() as u64);
        Some((fr[x as int], s1))
    }
}

/// The kick from generator state `st`: up to `k` attempts, each drawing one
/// frontier entry and applying its flip when `flip_at` accepts it; it stops
/// at an empty frontier. The scheme and generator state after it.
pub open spec fn perturb_spec(ts: Seq<TripleView>, k: nat, st: u64) -> (Seq<TripleView>, u64)
    decreases k,
{
    if k == 0 {
        (ts, st)
    } else {
        match drawn_move(ts, st) {
            None => (ts, st),
            Some(((pair, variant), s1)) => {
                let next = match flip_step(ts, pair, variant) {
                    Some(f) => f,
                    None => ts,
                };
                perturb_spec(next, (k - 1) as nat, s1)
            },
        }
    }
}

/// One attempted flip of the kick or the walk keeps the shared vector
/// length and the tensor, and does not raise the capped mass.
proof fn lemma_drawn_flip_keeps(ts: Seq<TripleView>, d: int, pair: (usize, usize), variant: Variant)
    requires
        triples_wf(ts, d),
        d >= 0,
        capped_mass(ts, flip_cap(d)) <= i64::MAX,
        flip_applies(ts, pair.0 as int, pair.1 as int, variant),
    ensures
        flip_step(ts, pair, variant) matches Some(f) ==> {
            &&& triples_wf(f, d)
            &&& f.len() == ts.len()
            &&& same_tensor(f, ts, d)
            &&& capped_mass(f, flip_cap(d)) <= capped_mass(ts, flip_cap(d))
        },
{
    assert(flip_cap(d) >= 0) by (nonlinear_arith)
        requires
            d >= 0,
    ;
    lemma_capped_bounds(ts, flip_cap(d));
    lemma_flip_mass(ts, d, pair.0 as int, pair.1 as int, variant);
    if flip_step(ts, pair, variant) is Some {
        lemma_flip_preserves_tensor(ts, d, pair.0 as int, pair.1 as int, variant);
        lemma_flip_caps(ts, d, pair.0 as int, pair.1 as int, variant, flip_cap(d));
    }
}

/// Every move of the walk keeps one shared vector length: a kick of any
/// size (which also keeps the tensor and the rank) and a step (a drawn flip
/// followed by the reduction) turn a well-formed scheme of dimension `d`
/// into one of the same dimension, without raising the capped mass.
pub proof fn lemma_moves_keep_the_shape(ts: Seq<TripleView>, d: int, k: nat, st: u64)
    requires
        triples_wf(ts, d),
        ts.len() * ts.len() <= usize::MAX,
        d >= 0,
        capped_mass(ts, flip_cap(d)) <= i64::MAX,
    ensures
        triples_wf(perturb_spec(ts, k, st).0, d),
        perturb_spec(ts, k, st).0.len() == ts.len(),
        same_tensor(perturb_spec(ts, k, st).0, ts, d),
        capped_mass(perturb_spec(ts, k, st).0, flip_cap(d)) <= capped_mass(ts, flip_cap(d)),
        triples_wf(walk_move(ts, st).0, d),
        capped_mass(walk_move(ts, st).0, flip_cap(d)) <= capped_mass(ts, flip_cap(d)),
    decreases k,
{
    assert(flip_cap(d) >= 0) by (nonlinear_arith)
        requires
            d >= 0,
    ;
    lemma_capped_bounds(ts, flip_cap(d));
    assert(ts.len() <= usize::MAX) by (nonlinear_arith)
        requires
            ts.len() * ts.len() <= usize::MAX,
    ;
    lemma_frontier_entries(ts, (ts.len() * ts.len()) as int);
    match drawn_move(ts, st) {
        None => {},
        Some(((pair, variant), s1)) => {
            let fr = frontier(ts);
            lemma_frontier_len(ts, (ts.len() * ts.len()) as int);
            let x = below_spec(st, fr.len() as u64).0;
            assert(x < fr.len()) by {
                lemma_below_spec_range(st, fr.len() as u64);
            }
            assert(fr[x as int] == (pair, variant));
            assert(flip_applies(ts, pair.0 as int, pair.1 as int, variant));
            lemma_drawn_flip_keeps(ts, d, pair, variant);
            let next = match flip_step(ts, pair, variant) {
                Some(f) => f,
                None => ts,
            };
            if k > 0 {
                lemma_moves_keep_the_shape(next, d, (k - 1) as nat, s1);
                assert forall|p: int, q: int, r: int|
                    0 <= p < d && 0 <= q < d && 0 <= r < d implies #[trigger] entry(
                    perturb_spec(ts, k, st).0,
                    p,
                    q,
                    r,
                ) == entry(ts, p, q, r) by {
                    assert(entry(perturb_spec(next, (k - 1) as nat, s1).0, p, q, r) == entry(next, p, q, r));
                }
            }
            if let Some(f) = flip_step(ts, pair, variant) {
                lemma_capped_bounds(f, flip_cap(d));
                lemma_reduce_caps_mass(f, d, flip_cap(d));
            }
        },
    }
}

/// Up to `k` random flips with **no reduction** — the plateau-escape kick.
/// Each attempt draws one index over the current flip frontier; the walk
/// stops early when the frontier is empty. Every accepted flip stays inside
/// the envelope, so however large `k` is the capped mass does not grow.
pub fn perturb(s: &IntScheme, k: usize, rng: &mut SplitMix64) -> (out: IntScheme)
    requires
        s.wf(),
        capped_mass(s@.triples, flip_cap(s@.dim as int)) <= i64::MAX,
    ensures
        out.wf(),
        out@.dim == s@.dim,
        out@.triples.len() == s@.triples.len(),
        same_tensor(out@.triples, s@.triples, s@.dim as int),
        capped_mass(out@.triples, flip_cap(s@.dim as int)) <= capped_mass(
            s@.triples,
            flip_cap(s@.dim as int),
        ),
        (out@.triples, final(rng)@) == perturb_spec(s@.triples, k as nat, old(rng)@),
{
    let ghost d = s@.dim as int;
    let ghost c = flip_cap(d);
    let ghost seed = rng@;
    let mut out = s.duplicate();
    let mut it: usize = 0;
    while it < k
        invariant
            it <= k,
            out.wf(),
            out@.dim == s@.dim,
            d == s@.dim,
            d >= 0,
            c == flip_cap(d),
            out@.triples.len() == s@.triples.len(),
            same_tensor(out@.triples, s@.triples, d),
            capped_mass(out@.triples, c) <= capped_mass(s@.triples, c),
            capped_mass(s@.triples, c) <= i64::MAX,
            perturb_spec(out@.triples, (k - it) as nat, rng@) == perturb_spec(
                s@.triples,
                k as nat,
                seed,
            ),
        ensures
            perturb_spec(out@.triples, (k - it) as nat, rng@) == (out@.triples, rng@),
        decreases k - it,
    {
        let ghost cur = out@.triples;
        let ghost st = rng@;
        let pairs = shared_factor_pairs(&out);
        if pairs.len() == 0 {
            assert(drawn_move(cur, st) is None);
            break;
        }
        let x = rng.below(pairs.len() as u64) as usize;
        let (pair, variant) = pairs[x];
        proof {
            assert(c >= 0) by (nonlinear_arith)
                requires
                    c == 3 * d * ENVELOPE,
                    d >= 0,
            ;
            lemma_capped_bounds(cur, c);
            assert(flip_applies(cur, pair.0 as int, pair.1 as int, variant));
            lemma_flip_mass(cur, d, pair.0 as int, pair.1 as int, variant);
            assert(drawn_move(cur, st) == Some(((pair, variant), rng@)));
        }
        match flip_at(&out, pair, variant) {
            Some(next) => {
                proof {
                    assert(flip_step(cur, pair, variant) == Some(next@.triples));
                    lemma_flip_caps(cur, d, pair.0 as int, pair.1 as int, variant, c);
                    assert(forall|p: int, q: int, r: int|
                        0 <= p < d && 0 <= q < d && 0 <= r < d ==> #[trigger] entry(
                            next@.triples,
                            p,
                            q,
                            r,
                        ) == entry(cur, p, q, r));
                }
                out = next;
            },
            None => {
                assert(flip_step(cur, pair, variant) is None);
            },
        }
        it = it + 1;
    }
    out
}


// ───────────────────────────── the driver ─────────────────────────────

/// The plateau policy.
#[derive(Debug, Clone, Copy, PartialEq, Eq, Structural)]
pub struct FlipConfig {
    /// Steps without a strict best-rank improvement before a perturbation.
    pub stall_window: usize,
    /// Flips applied to the checkpoint on each perturbation.
    pub perturb_flips: usize,
}

impl FlipConfig {
    /// The pinned policy: perturb the best-so-far checkpoint after 400 steps
    /// without improvement, by 6 flips (never a restart from naive).
    pub fn pinned() -> (r: FlipConfig)
        ensures
            r.stall_window == 400,
            r.perturb_flips == 6,
    {
        FlipConfig { stall_window: 400, perturb_flips: 6 }
    }
}

proof fn lemma_unit_mass(d: int, idx: int)
    requires
        d >= 0,
    ensures
        vec_mass(unit(d, idx)) == (if 0 <= idx < d { 1int } else { 0int }),
    decreases d,
{
    if d > 0 {
        assert(unit(d, idx).drop_last() =~= unit(d - 1, idx));
        lemma_unit_mass(d - 1, idx);
    }
}

proof fn lemma_naive_mass(n: int, m: int)
    requires
        n > 0,
        0 <= m <= n * n * n,
    ensures
        sum_over(naive_triples(n).take(m), |t: TripleView| triple_mass(t)) == 3 * m,
    decreases m,
{
    let ts = naive_triples(n);
    if m == 0 {
        assert(ts.take(0) =~= Seq::<TripleView>::empty());
    } else {
        lemma_naive_mass(n, m - 1);
        lemma_sum_take_step(ts, m - 1, |t: TripleView| triple_mass(t));
        let t = m - 1;
        let ij = t / n;
        let k = t % n;
        assert(t == ij * n + k) by {
            vstd::arithmetic::div_mod::lemma_fundamental_div_mod(t, n);
            assert(n * ij == ij * n) by (nonlinear_arith);
        }
        vstd::arithmetic::div_mod::lemma_mod_pos_bound(t, n);
        assert(0 <= ij) by {
            vstd::arithmetic::div_mod::lemma_div_pos_is_pos(t, n);
        }
        assert(ij < n * n) by (nonlinear_arith)
            requires
                t == ij * n + k,
                0 <= k,
                t < n * n * n,
                n > 0,
        ;
        lemma_split_slot(n, ij);
        lemma_decompose(n, ij / n, ij % n, k);
        lemma_decompose(n, ij % n, k, 0);
        lemma_decompose(n, ij / n, k, 0);
        assert(n * n >= 0) by (nonlinear_arith);
        lemma_unit_mass(n * n, (ij / n) * n + ij % n);
        lemma_unit_mass(n * n, (ij % n) * n + k);
        lemma_unit_mass(n * n, (ij / n) * n + k);
    }
}

/// The naive scheme has total coefficient mass `3·n³`.
proof fn lemma_naive_total_mass(n: int)
    requires
        n >= 0,
    ensures
        mass(naive_triples(n)) == 3 * (n * n * n),
{
    if n > 0 {
        lemma_naive_mass(n, n * n * n);
        assert(naive_triples(n).take(n * n * n) =~= naive_triples(n));
    } else {
        assert(naive_triples(n) =~= Seq::<TripleView>::empty());
    }
}

/// Triple number `t < n³` of the naive scheme is the one for `(i, j, k)`
/// with `t = (i·n + j)·n + k`.
proof fn lemma_naive_index(n: int, t: int)
    requires
        n > 0,
        0 <= t < n * n * n,
    ensures
        0 <= (t / n) / n < n,
        0 <= (t / n) % n < n,
        0 <= t % n < n,
        t == (((t / n) / n) * n + (t / n) % n) * n + t % n,
{
    let ij = t / n;
    let k = t % n;
    assert(t == ij * n + k) by {
        vstd::arithmetic::div_mod::lemma_fundamental_div_mod(t, n);
        assert(n * ij == ij * n) by (nonlinear_arith);
    }
    vstd::arithmetic::div_mod::lemma_mod_pos_bound(t, n);
    assert(0 <= ij) by {
        vstd::arithmetic::div_mod::lemma_div_pos_is_pos(t, n);
    }
    assert(ij < n * n) by (nonlinear_arith)
        requires
            t == ij * n + k,
            0 <= k,
            t < n * n * n,
            n > 0,
    ;
    lemma_split_slot(n, ij);
}

proof fn lemma_unit_injective(d: int, a: int, b: int)
    requires
        0 <= a < d,
        0 <= b < d,
        unit(d, a) == unit(d, b),
    ensures
        a == b,
{
    assert(unit(d, a)[a] == 1i64);
    assert(unit(d, b)[a] == (if a == b { 1i64 } else { 0i64 }));
}

/// Two slots `x·n + y` with `x, y < n` are equal only for equal parts.
proof fn lemma_slot_injective(n: int, x: int, y: int, x2: int, y2: int)
    requires
        n > 0,
        0 <= x < n,
        0 <= y < n,
        0 <= x2 < n,
        0 <= y2 < n,
        x * n + y == x2 * n + y2,
    ensures
        x == x2,
        y == y2,
{
    lemma_decompose(n, x, y, 0);
    lemma_decompose(n, x2, y2, 0);
}

/// The naive scheme is already reduced and ternary: its triples are unit
/// vectors, none zero, and no two of them share two factor-vectors; so the
/// reduction leaves it as it is.
pub proof fn lemma_naive_is_reduced(n: int)
    requires
        n >= 0,
    ensures
        is_reduced(naive_triples(n)),
        all_ternary(naive_triples(n)),
        reduced_of(naive_triples(n)) == naive_triples(n),
        naive_triples(n).len() == n * n * n,
{
    let ts = naive_triples(n);
    let d = n * n;
    assert(n * n * n >= 0) by (nonlinear_arith)
        requires
            n >= 0,
    ;
    if n > 0 {
        assert forall|t: int| 0 <= t < ts.len() implies !has_zero_vector(#[trigger] ts[t]) && triple_ternary(ts[t]) by {
            lemma_naive_index(n, t);
            let (i, j, k) = ((t / n) / n, (t / n) % n, t % n);
            lemma_decompose(n, i, j, 0);
            lemma_decompose(n, j, k, 0);
            lemma_decompose(n, i, k, 0);
            assert(ts[t].u[i * n + j] == 1i64);
            assert(ts[t].v[j * n + k] == 1i64);
            assert(ts[t].w[i * n + k] == 1i64);
        }
        assert forall|a: int, b: int| 0 <= a < b < ts.len() implies #[trigger] merge_of(ts[a], ts[b]) is None by {
            lemma_naive_index(n, a);
            lemma_naive_index(n, b);
            let (i, j, k) = ((a / n) / n, (a / n) % n, a % n);
            let (i2, j2, k2) = ((b / n) / n, (b / n) % n, b % n);
            lemma_decompose(n, i, j, 0);
            lemma_decompose(n, j, k, 0);
            lemma_decompose(n, i, k, 0);
            lemma_decompose(n, i2, j2, 0);
            lemma_decompose(n, j2, k2, 0);
            lemma_decompose(n, i2, k2, 0);
            if ts[a].u == ts[b].u {
                lemma_unit_injective(d, i * n + j, i2 * n + j2);
                lemma_slot_injective(n, i, j, i2, j2);
            }
            if ts[a].v == ts[b].v {
                lemma_unit_injective(d, j * n + k, j2 * n + k2);
                lemma_slot_injective(n, j, k, j2, k2);
            }
            if ts[a].w == ts[b].w {
                lemma_unit_injective(d, i * n + k, i2 * n + k2);
                lemma_slot_injective(n, i, k, i2, k2);
            }
        }
    } else {
        assert(ts =~= Seq::<TripleView>::empty());
    }
    lemma_reduced_fixpoint(ts);
}

proof fn lemma_ternary_genome_shape(ts: Seq<TripleView>, d: int)
    requires
        triples_wf(ts, d),
        all_ternary(ts),
    ensures
        genome_shape(ternary_genome(ts), d, ts.len() as int),
{
    let g = ternary_genome(ts);
    assert forall|t: int, c: int, e: int|
        0 <= t < ts.len() && 0 <= c < 3 && 0 <= e < d implies -1 <= #[trigger] g[t][c][e] <= 1 by {
        assert(triple_wf(ts[t], d));
        assert(triple_ternary(ts[t]));
        if c == 0 {
            assert(-1 <= ts[t].u[e] <= 1);
        } else if c == 1 {
            assert(-1 <= ts[t].v[e] <= 1);
        } else {
            assert(-1 <= ts[t].w[e] <= 1);
        }
    }
    assert forall|t: int, c: int| 0 <= t < ts.len() && 0 <= c < 3 implies #[trigger] g[t][c].len()
        == d by {
        assert(triple_wf(ts[t], d));
    }
}

/// An exact state of the walk: well-formed over `d = n²` and standing for the
/// `n×n` matmul tensor.
pub open spec fn exact_state(ts: Seq<TripleView>, n: int) -> bool {
    &&& triples_wf(ts, n * n)
    &&& forall|p: int, q: int, r: int|
        0 <= p < n * n && 0 <= q < n * n && 0 <= r < n * n ==> #[trigger] entry(ts, p, q, r)
            == target_entry(n, p, q, r)
}

proof fn lemma_exact_from_naive(ts: Seq<TripleView>, n: int)
    requires
        n >= 0,
        triples_wf(ts, n * n),
        same_tensor(ts, naive_triples(n), n * n),
    ensures
        exact_state(ts, n),
{
    if n > 0 {
        lemma_naive_is_target(n);
    }
    assert forall|p: int, q: int, r: int|
        0 <= p < n * n && 0 <= q < n * n && 0 <= r < n * n implies #[trigger] entry(ts, p, q, r)
        == target_entry(n, p, q, r) by {
        assert(entry(ts, p, q, r) == entry(naive_triples(n), p, q, r));
    }
}

/// The exact answer a successful walk returns: a ternary genome of rank at
/// most `target_rank` standing for the `n×n` matmul tensor.
pub open spec fn certified_answer(g: Seq<Seq<Seq<i8>>>, n: int, target_rank: int) -> bool {
    &&& g.len() <= target_rank
    &&& genome_shape(g, n * n, g.len() as int)
    &&& forall|p: int, q: int, r: int|
        0 <= p < n * n && 0 <= q < n * n && 0 <= r < n * n ==> #[trigger] genome_entry(g, p, q, r)
            == target_entry(n, p, q, r)
}

proof fn lemma_certified(ts: Seq<TripleView>, n: int, target_rank: int)
    requires
        n >= 0,
        exact_state(ts, n),
        all_ternary(ts),
        ts.len() <= target_rank,
    ensures
        certified_answer(ternary_genome(ts), n, target_rank),
{
    lemma_ternary_genome_shape(ts, n * n);
    assert forall|p: int, q: int, r: int|
        0 <= p < n * n && 0 <= q < n * n && 0 <= r < n * n implies #[trigger] genome_entry(
        ternary_genome(ts),
        p,
        q,
        r,
    ) == target_entry(n, p, q, r) by {
        lemma_ternary_genome_entry(ts, n * n, p, q, r);
    }
}

/// A state the walk answers with: rank at most `target_rank`, every
/// coefficient ternary.
pub open spec fn is_answer(ts: Seq<TripleView>, target_rank: int) -> bool {
    ts.len() <= target_rank && all_ternary(ts)
}

/// The walk between two steps: the current state, the best-so-far
/// checkpoint, the steps since the last strict rank improvement, and the
/// generator state.
pub struct WalkState {
    pub cur: Seq<TripleView>,
    pub best: Seq<TripleView>,
    pub stall: nat,
    pub rng: u64,
}

/// One move from `cur` with generator state `st`: one draw over the flip
/// frontier (none when it is empty); an accepted flip is followed by the
/// reduction to fixpoint.
pub open spec fn walk_move(cur: Seq<TripleView>, st: u64) -> (Seq<TripleView>, u64) {
    match drawn_move(cur, st) {
        None => (cur, st),
        Some(((pair, variant), s1)) => match flip_step(cur, pair, variant) {
            Some(next) => (reduced_of(next), s1),
            None => (cur, s1),
        },
    }
}

/// The walk from `w` with `left` steps of budget: `Ok` with the first state
/// that answers, else `Err` with the rank of the best checkpoint. After each
/// move the checkpoint follows a strict rank improvement; once `stall_window`
/// moves pass without one, the checkpoint is kicked by `perturb_flips` flips
/// and the walk resumes from there.
pub open spec fn walk(w: WalkState, left: nat, target_rank: int, config: FlipConfig) -> Result<
    Seq<TripleView>,
    nat,
>
    decreases left,
{
    if left == 0 {
        Err(w.best.len())
    } else {
        let (cur, st) = walk_move(w.cur, w.rng);
        if is_answer(cur, target_rank) {
            Ok(cur)
        } else {
            let improved = cur.len() < w.best.len();
            let best = if improved {
                cur
            } else {
                w.best
            };
            let stall: nat = if improved {
                0
            } else {
                w.stall + 1
            };
            let next = if stall >= config.stall_window {
                let (kicked, st2) = perturb_spec(best, config.perturb_flips as nat, st);
                WalkState { cur: kicked, best, stall: 0, rng: st2 }
            } else {
                WalkState { cur, best, stall, rng: st }
            };
            walk(next, (left - 1) as nat, target_rank, config)
        }
    }
}

/// The whole walk for the `n×n` matmul tensor: from the reduced naive scheme
/// with a generator seeded by `seed`, for `budget` steps.
pub open spec fn walk_outcome(
    n: int,
    target_rank: int,
    seed: u64,
    budget: nat,
    config: FlipConfig,
) -> Result<Seq<TripleView>, nat> {
    let start = reduced_of(naive_triples(n));
    if is_answer(start, target_rank) {
        Ok(start)
    } else {
        walk(WalkState { cur: start, best: start, stall: 0, rng: seed }, budget, target_rank, config)
    }
}

/// The walk stops at the first move whose state has rank at most
/// `target_rank` with every coefficient ternary, and answers with it: a
/// rank strictly below the target is accepted as well as one equal to it.
pub proof fn lemma_walk_stops_at_any_rank_within_target(
    w: WalkState,
    left: nat,
    target_rank: int,
    config: FlipConfig,
)
    requires
        left > 0,
        walk_move(w.cur, w.rng).0.len() <= target_rank,
        all_ternary(walk_move(w.cur, w.rng).0),
    ensures
        walk(w, left, target_rank, config) == Ok::<Seq<TripleView>, nat>(walk_move(w.cur, w.rng).0),
{
}

/// A reduced naive scheme that already has rank at most `target_rank` and
/// ternary coefficients is the answer, before any move; since the naive
/// scheme is its own reduction, every `target_rank ≥ n³` is answered with
/// the naive scheme itself.
pub proof fn lemma_outcome_answers_at_the_start(
    n: int,
    target_rank: int,
    seed: u64,
    budget: nat,
    config: FlipConfig,
)
    requires
        n >= 0,
    ensures
        reduced_of(naive_triples(n)).len() <= target_rank && all_ternary(reduced_of(naive_triples(n)))
            ==> walk_outcome(n, target_rank, seed, budget, config) == Ok::<Seq<TripleView>, nat>(
            reduced_of(naive_triples(n)),
        ),
        n * n * n <= target_rank ==> walk_outcome(n, target_rank, seed, budget, config) == Ok::<
            Seq<TripleView>,
            nat,
        >(naive_triples(n)),
{
    lemma_naive_is_reduced(n);
}

/// The search's answer, as the functions return it.
pub open spec fn walk_answer(
    r: Result<Genome, FlipError>,
    n: int,
    target_rank: int,
    seed: u64,
    budget: nat,
    config: FlipConfig,
) -> bool {
    match walk_outcome(n, target_rank, seed, budget, config) {
        Ok(ts) => r matches Ok(g) && g@ == ternary_genome(ts),
        Err(b) => r == Err::<Genome, FlipError>(FlipError::NotFound { best_rank: b as usize }),
    }
}

/// Walk the flip-graph from the naive scheme down to `target_rank` for the
/// `n×n` matmul tensor, under the pinned plateau policy.
pub fn reduce_matmul(n: usize, target_rank: usize, seed: u64, budget: usize) -> (r: Result<
    Genome,
    FlipError,
>)
    requires
        n * n * n <= usize::MAX,
        walk_fits(n as int),
    ensures
        r matches Ok(g) ==> certified_answer(g@, n as int, target_rank as int),
        r matches Err(e) ==> e matches FlipError::NotFound { best_rank } && best_rank <= n * n * n
            && exists|ts: Seq<TripleView>| #[trigger] exact_state(ts, n as int) && ts.len() == best_rank,
        walk_answer(
            r,
            n as int,
            target_rank as int,
            seed,
            budget as nat,
            FlipConfig { stall_window: 400, perturb_flips: 6 },
        ),
        n * n * n <= target_rank ==> (r matches Ok(g) && g@ == ternary_genome(naive_triples(n as int))),
{
    reduce_matmul_with(n, target_rank, seed, budget, FlipConfig::pinned())
}

/// The walk's coefficients stay in `i64` for any budget and any kick size:
/// its capped mass never exceeds that of the naive scheme, `n³·(3 + c)` with
/// `c = 3·n²·ENVELOPE`.
pub open spec fn walk_fits(n: int) -> bool {
    (n * n * n) * (3 + flip_cap(n * n)) <= i64::MAX
}

/// Walk the flip-graph from the naive scheme down to `target_rank` with an
/// explicit plateau policy. Each step draws one index over the flip frontier,
/// flips and reduces; a state of rank `≤ target_rank` that is ternary is
/// returned as its genome. After `stall_window` steps without a strict
/// best-rank improvement the best-so-far checkpoint is perturbed. Every state
/// visited stands for the `n×n` matmul tensor, so an `Ok` answer is an exact
/// decomposition.
pub fn reduce_matmul_with(
    n: usize,
    target_rank: usize,
    seed: u64,
    budget: usize,
    config: FlipConfig,
) -> (r: Result<Genome, FlipError>)
    requires
        n * n * n <= usize::MAX,
        walk_fits(n as int),
    ensures
        r matches Ok(g) ==> certified_answer(g@, n as int, target_rank as int),
        r matches Err(e) ==> e matches FlipError::NotFound { best_rank } && best_rank <= n * n * n
            && exists|ts: Seq<TripleView>| #[trigger] exact_state(ts, n as int) && ts.len() == best_rank,
        walk_answer(r, n as int, target_rank as int, seed, budget as nat, config),
        n * n * n <= target_rank ==> (r matches Ok(g) && g@ == ternary_genome(naive_triples(n as int))),
{
    let ghost nn = n as int;
    let ghost tr = target_rank as int;
    let ghost outcome = walk_outcome(nn, tr, seed, budget as nat, config);
    let ghost d = nn * nn;
    let ghost c = flip_cap(d);
    let ghost r0 = nn * nn * nn;
    let ghost bound = r0 * (3 + c);
    let mut rng = SplitMix64::new(seed);
    let start = naive(n);
    proof {
        assert(d >= 0 && r0 >= 0) by (nonlinear_arith)
            requires
                nn >= 0,
                d == nn * nn,
                r0 == nn * nn * nn,
        ;
        assert(c >= 0) by (nonlinear_arith)
            requires
                c == 3 * d * ENVELOPE,
                d >= 0,
        ;
        lemma_naive_total_mass(nn);
        lemma_capped_bounds(start@.triples, c);
        assert(r0 * 3 + r0 * c == bound) by (nonlinear_arith)
            requires
                bound == r0 * (3 + c),
        ;
        lemma_capped_bounds(start@.triples, c);
    }
    let mut s = reduce(&start);
    proof {
        lemma_outcome_answers_at_the_start(nn, tr, seed, budget as nat, config);
        lemma_exact_from_naive(s@.triples, nn);
        assert(capped_mass(s@.triples, c) <= capped_mass(start@.triples, c));
    }
    if s.rank() <= target_rank && s.is_ternary() {
        proof {
            lemma_certified(s@.triples, nn, target_rank as int);
        }
        return s.to_scheme();
    }
    let mut best = s.duplicate();
    let mut stall: usize = 0;
    let mut it: usize = 0;
    while it < budget
        invariant
            nn == n,
            d == nn * nn,
            d >= 0,
            c == flip_cap(d),
            c >= 0,
            r0 == nn * nn * nn,
            bound <= i64::MAX,
            it <= budget,
            s.wf(),
            s@.dim == d,
            exact_state(s@.triples, nn),
            capped_mass(s@.triples, c) <= bound,
            s@.triples.len() <= r0,
            best.wf(),
            best@.dim == d,
            exact_state(best@.triples, nn),
            capped_mass(best@.triples, c) <= bound,
            best@.triples.len() <= r0,
            stall <= it,
            tr == target_rank,
            outcome == walk_outcome(nn, tr, seed, budget as nat, config),
            walk(
                WalkState { cur: s@.triples, best: best@.triples, stall: stall as nat, rng: rng@ },
                (budget - it) as nat,
                tr,
                config,
            ) == outcome,
        decreases budget - it,
    {
        let ghost w = WalkState {
            cur: s@.triples,
            best: best@.triples,
            stall: stall as nat,
            rng: rng@,
        };
        let ghost mv = walk_move(s@.triples, rng@);
        proof {
            lemma_capped_bounds(s@.triples, c);
        }
        let pairs = shared_factor_pairs(&s);
        if pairs.len() > 0 {
            let x = rng.below(pairs.len() as u64) as usize;
            let (pair, variant) = pairs[x];
            proof {
                assert(flip_applies(s@.triples, pair.0 as int, pair.1 as int, variant));
                lemma_flip_mass(s@.triples, d, pair.0 as int, pair.1 as int, variant);
                assert(drawn_move(w.cur, w.rng) == Some(((pair, variant), rng@)));
            }
            match flip_at(&s, pair, variant) {
                Some(next) => {
                    assert(flip_step(w.cur, pair, variant) == Some(next@.triples));
                    proof {
                        lemma_flip_caps(s@.triples, d, pair.0 as int, pair.1 as int, variant, c);
                        lemma_capped_bounds(next@.triples, c);
                    }
                    let reduced = reduce(&next);
                    proof {
                        assert forall|p: int, q: int, r: int|
                            0 <= p < d && 0 <= q < d && 0 <= r < d implies #[trigger] entry(
                            reduced@.triples,
                            p,
                            q,
                            r,
                        ) == target_entry(nn, p, q, r) by {
                            assert(entry(reduced@.triples, p, q, r) == entry(next@.triples, p, q, r));
                            assert(entry(next@.triples, p, q, r) == entry(s@.triples, p, q, r));
                        }
                        assert(capped_mass(reduced@.triples, c) <= capped_mass(next@.triples, c));
                    }
                    s = reduced;
                },
                None => {
                    assert(flip_step(w.cur, pair, variant) is None);
                },
            }
        } else {
            assert(drawn_move(w.cur, w.rng) is None);
        }
        assert(mv == (s@.triples, rng@));
        if s.rank() <= target_rank && s.is_ternary() {
            proof {
                lemma_certified(s@.triples, nn, target_rank as int);
                assert(outcome == Ok::<Seq<TripleView>, nat>(s@.triples));
                lemma_outcome_answers_at_the_start(nn, tr, seed, budget as nat, config);
            }
            return s.to_scheme();
        }
        if s.rank() < best.rank() {
            best = s.duplicate();
            stall = 0;
        } else {
            stall = stall + 1;
        }
        if stall >= config.stall_window {
            let kicked = perturb(&best, config.perturb_flips, &mut rng);
            proof {
                assert forall|p: int, q: int, r: int|
                    0 <= p < d && 0 <= q < d && 0 <= r < d implies #[trigger] entry(
                    kicked@.triples,
                    p,
                    q,
                    r,
                ) == target_entry(nn, p, q, r) by {
                    assert(entry(kicked@.triples, p, q, r) == entry(best@.triples, p, q, r));
                }
            }
            s = kicked;
            stall = 0;
        }
        it = it + 1;
    }
    assert(outcome == Err::<Seq<TripleView>, nat>(best@.triples.len()));
    Err(FlipError::NotFound { best_rank: best.rank() })
}

} // verus!
