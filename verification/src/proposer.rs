//! The blind genetic proposer over ternary matmul genomes: uniform-random
//! seeding, elitism, tournament selection, uniform triple-crossover and point
//! mutation, every draw taken from the shared SplitMix64 stream.

use vstd::prelude::*;

use crate::prng::{SplitMix64, next_value, state_after, step, ternary_of};

verus! {

/// A candidate genotype: `rank` triples, each `(u, v, w)` a ternary vector.
#[derive(Debug, Clone, PartialEq, Eq)]
pub struct Genome {
    pub triples: Vec<[Vec<i8>; 3]>,
}

/// The coefficients of one genome triple: `[u, v, w]` as sequences.
pub open spec fn triple_seqs(t: [Vec<i8>; 3]) -> Seq<Seq<i8>> {
    seq![t@[0]@, t@[1]@, t@[2]@]
}

impl View for Genome {
    type V = Seq<Seq<Seq<i8>>>;

    open spec fn view(&self) -> Seq<Seq<Seq<i8>>> {
        self.triples@.map_values(|t: [Vec<i8>; 3]| triple_seqs(t))
    }
}

/// `rank` triples, each of three length-`d` vectors over `{−1, 0, +1}`.
pub open spec fn genome_shape(g: Seq<Seq<Seq<i8>>>, d: int, rank: int) -> bool {
    &&& g.len() == rank
    &&& forall|t: int| 0 <= t < rank ==> #[trigger] g[t].len() == 3
    &&& forall|t: int, c: int| 0 <= t < rank && 0 <= c < 3 ==> #[trigger] g[t][c].len() == d
    &&& forall|t: int, c: int, e: int|
        0 <= t < rank && 0 <= c < 3 && 0 <= e < d ==> -1 <= #[trigger] g[t][c][e] <= 1
}

fn copy_i8s(x: &Vec<i8>) -> (r: Vec<i8>)
    ensures
        r@ == x@,
{
    let mut r: Vec<i8> = Vec::new();
    let mut k: usize = 0;
    while k < x.len()
        invariant
            k <= x@.len(),
            r@ == x@.take(k as int),
        decreases x@.len() - k,
    {
        r.push(x[k]);
        k = k + 1;
        assert(r@ =~= x@.take(k as int));
    }
    assert(x@.take(x@.len() as int) =~= x@);
    r
}

/// A deep copy of one genome triple.
pub fn copy_triple(t: &[Vec<i8>; 3]) -> (r: [Vec<i8>; 3])
    ensures
        triple_seqs(r) == triple_seqs(*t),
{
    let r = [copy_i8s(&t[0]), copy_i8s(&t[1]), copy_i8s(&t[2])];
    assert(triple_seqs(r) =~= triple_seqs(*t));
    r
}

impl Genome {
    /// A deep copy.
    pub fn duplicate(&self) -> (r: Genome)
        ensures
            r@ == self@,
    {
        let mut out: Vec<[Vec<i8>; 3]> = Vec::new();
        let mut i: usize = 0;
        while i < self.triples.len()
            invariant
                i <= self.triples@.len(),
                out@.len() == i,
                forall|k: int| 0 <= k < i ==> triple_seqs(#[trigger] out@[k]) == triple_seqs(
                    self.triples@[k],
                ),
            decreases self.triples@.len() - i,
        {
            out.push(copy_triple(&self.triples[i]));
            i = i + 1;
        }
        let r = Genome { triples: out };
        assert(r@ =~= self@);
        r
    }
}


/// One genome triple's contribution to tensor entry `(p, q, r)`.
pub open spec fn genome_term(t: Seq<Seq<i8>>, p: int, q: int, r: int) -> int {
    t[0][p] * t[1][q] * t[2][r]
}

/// Entry `(p, q, r)` of the tensor a genome stands for:
/// `Σ_t u_t[p]·v_t[q]·w_t[r]`.
pub open spec fn genome_entry(g: Seq<Seq<Seq<i8>>>, p: int, q: int, r: int) -> int
    decreases g.len(),
{
    if g.len() == 0 {
        0
    } else {
        genome_entry(g.drop_last(), p, q, r) + genome_term(g.last(), p, q, r)
    }
}


// ───────────────────────────── the stream ─────────────────────────────

/// Advancing `a` then `b` steps is advancing `a + b` steps.
pub proof fn lemma_state_after_add(seed: u64, a: nat, b: nat)
    ensures
        state_after(state_after(seed, a), b) == state_after(seed, a + b),
    decreases b,
{
    if b > 0 {
        lemma_state_after_add(seed, a, (b - 1) as nat);
    }
}

/// The value of the `k`-th draw `mod m` of a stream started at `seed`.
pub open spec fn draw(seed: u64, k: nat, m: int) -> int {
    (next_value(state_after(seed, k)) as int) % m
}

// ───────────────────────────── the config ─────────────────────────────

/// GA hyper-parameters (`elitism ≥ 1` and the other bounds are validated by
/// the engine's configuration check).
#[derive(Clone, Copy, Debug, PartialEq, Eq, Structural)]
pub struct GaConfig {
    pub population: usize,
    pub tournament_size: usize,
    pub mutation_count: usize,
    pub elitism: usize,
}

impl GaConfig {
    /// The single pinned configuration: population 300, tournament 5,
    /// 2 point mutations, 4 elites.
    pub fn pinned() -> (r: GaConfig)
        ensures
            r == (GaConfig { population: 300, tournament_size: 5, mutation_count: 2, elitism: 4 }),
    {
        GaConfig { population: 300, tournament_size: 5, mutation_count: 2, elitism: 4 }
    }
}

// ─────────────────────────── the operators ───────────────────────────

/// A uniform random genome drawn from `seed`: entry `e` of slot `c` of triple
/// `t` is the ternary coefficient of draw number `(3·t + c)·d + e`.
pub open spec fn random_genome_spec(seed: u64, d: int, rank: int) -> Seq<Seq<Seq<i8>>> {
    Seq::new(
        rank as nat,
        |t: int|
            Seq::new(
                3,
                |c: int| Seq::new(d as nat, |e: int| ternary_of(draw(seed, ((3 * t + c) * d + e) as nat, 3))),
            ),
    )
}

/// The winner of a tournament of `size` draws over `len` ranked entries: the
/// lowest index drawn (one draw even when `size` is 0).
pub open spec fn tournament_index(seed: u64, len: int, size: nat) -> int
    decreases size,
{
    if size <= 1 {
        draw(seed, 0, len)
    } else {
        let prev = tournament_index(seed, len, (size - 1) as nat);
        let x = draw(seed, (size - 1) as nat, len);
        if x < prev { x } else { prev }
    }
}

/// The number of draws a tournament of `size` makes.
pub open spec fn tournament_draws(size: nat) -> nat {
    if size == 0 { 1 } else { size }
}

/// Uniform crossover: triple `i` comes from `a` when draw `i` is even.
pub open spec fn crossover_spec(a: Seq<Seq<Seq<i8>>>, b: Seq<Seq<Seq<i8>>>, seed: u64, rank: int) -> Seq<
    Seq<Seq<i8>>,
> {
    Seq::new(rank as nat, |i: int| if draw(seed, i as nat, 2) == 0 { a[i] } else { b[i] })
}

/// One point mutation drawn from `seed`: triple `draw₀ mod rank`, slot
/// `draw₁ mod 3`, entry `draw₂ mod d` becomes the ternary coefficient of
/// `draw₃`.
pub open spec fn mutate_once(g: Seq<Seq<Seq<i8>>>, seed: u64, rank: int, d: int) -> Seq<Seq<Seq<i8>>> {
    let t = draw(seed, 0, rank);
    let c = draw(seed, 1, 3);
    let e = draw(seed, 2, d);
    let val = ternary_of(draw(seed, 3, 3));
    g.update(t, g[t].update(c, g[t][c].update(e, val)))
}

/// `count` point mutations in a row, four draws each.
pub open spec fn mutate_spec(g: Seq<Seq<Seq<i8>>>, seed: u64, count: nat, rank: int, d: int) -> Seq<
    Seq<Seq<i8>>,
>
    decreases count,
{
    if count == 0 {
        g
    } else {
        let prev = mutate_spec(g, seed, (count - 1) as nat, rank, d);
        mutate_once(prev, state_after(seed, (4 * (count - 1)) as nat), rank, d)
    }
}

/// `rank` triples of three length-`d` vectors (any coefficients).
pub open spec fn genome_dims(g: Seq<Seq<Seq<i8>>>, d: int, rank: int) -> bool {
    &&& g.len() == rank
    &&& forall|t: int| 0 <= t < rank ==> #[trigger] g[t].len() == 3
    &&& forall|t: int, c: int| 0 <= t < rank && 0 <= c < 3 ==> #[trigger] g[t][c].len() == d
}

/// The blind proposer: uniform-random seed plus tournament / crossover /
/// mutation.
pub struct GaProposer {
    d: usize,
    rank: usize,
    cfg: GaConfig,
}

impl GaProposer {
    /// The vector length `d` of every genome.
    pub closed spec fn dim(&self) -> nat {
        self.d as nat
    }

    /// The number of triples per genome.
    pub closed spec fn genome_rank(&self) -> nat {
        self.rank as nat
    }

    /// The hyper-parameters.
    pub closed spec fn config(&self) -> GaConfig {
        self.cfg
    }

    /// A proposer for `d`-length vectors and `rank` triples.
    pub fn new(d: usize, rank: usize, cfg: GaConfig) -> (r: GaProposer)
        ensures
            r.dim() == d,
            r.genome_rank() == rank,
            r.config() == cfg,
    {
        GaProposer { d, rank, cfg }
    }

    fn random_vector(&self, rng: &mut SplitMix64, Ghost(seed): Ghost<u64>, Ghost(base): Ghost<nat>) -> (r: Vec<i8>)
        requires
            old(rng)@ == state_after(seed, base),
        ensures
            final(rng)@ == state_after(seed, (base + self.d) as nat),
            r@ == Seq::new(self.d as nat, |e: int| ternary_of(draw(seed, (base + e) as nat, 3))),
    {
        let mut v: Vec<i8> = Vec::new();
        let mut e: usize = 0;
        while e < self.d
            invariant
                e <= self.d,
                rng@ == state_after(seed, (base + e) as nat),
                v@.len() == e,
                forall|x: int| 0 <= x < e ==> #[trigger] v@[x] == ternary_of(draw(seed, (base + x) as nat, 3)),
            decreases self.d - e,
        {
            let c = rng.ternary();
            v.push(c);
            e = e + 1;
        }
        assert(v@ =~= Seq::new(self.d as nat, |e: int| ternary_of(draw(seed, (base + e) as nat, 3))));
        v
    }

    /// A uniform random genome: every entry a fresh ternary draw, in the
    /// order `u`, `v`, `w` of each triple.
    pub fn random_genome(&self, rng: &mut SplitMix64) -> (g: Genome)
        ensures
            g@ == random_genome_spec(old(rng)@, self.dim() as int, self.genome_rank() as int),
            final(rng)@ == state_after(old(rng)@, (3 * self.genome_rank() * self.dim()) as nat),
            genome_shape(g@, self.dim() as int, self.genome_rank() as int),
    {
        let ghost seed = rng@;
        let ghost d = self.d as int;
        let mut triples: Vec<[Vec<i8>; 3]> = Vec::new();
        let mut t: usize = 0;
        while t < self.rank
            invariant
                t <= self.rank,
                d == self.d,
                rng@ == state_after(seed, (3 * t * d) as nat),
                triples@.len() == t,
                forall|k: int|
                    0 <= k < t ==> triple_seqs(#[trigger] triples@[k]) == random_genome_spec(
                        seed,
                        d,
                        self.rank as int,
                    )[k],
            decreases self.rank - t,
        {
            proof {
                assert(3 * t * d >= 0) by (nonlinear_arith)
                    requires
                        t >= 0,
                        d >= 0,
                ;
            }
            let u = self.random_vector(rng, Ghost(seed), Ghost((3 * t * d) as nat));
            let v = self.random_vector(rng, Ghost(seed), Ghost((3 * t * d + d) as nat));
            let w = self.random_vector(rng, Ghost(seed), Ghost((3 * t * d + 2 * d) as nat));
            let tri = [u, v, w];
            proof {
                let want = random_genome_spec(seed, d, self.rank as int)[t as int];
                assert((3 * t + 0) * d == 3 * t * d) by (nonlinear_arith);
                assert((3 * t + 1) * d == 3 * t * d + d) by (nonlinear_arith);
                assert((3 * t + 2) * d == 3 * t * d + 2 * d) by (nonlinear_arith);
                assert(3 * (t + 1) * d == 3 * t * d + 3 * d) by (nonlinear_arith);
                assert(triple_seqs(tri)[0] =~= want[0]);
                assert(triple_seqs(tri)[1] =~= want[1]);
                assert(triple_seqs(tri)[2] =~= want[2]);
                assert(triple_seqs(tri) =~= want);
            }
            triples.push(tri);
            t = t + 1;
        }
        let g = Genome { triples };
        proof {
            assert(g@ =~= random_genome_spec(seed, d, self.rank as int));
            let gs = g@;
            assert forall|x: int, c: int, e: int|
                0 <= x < self.rank && 0 <= c < 3 && 0 <= e < d implies -1 <= #[trigger] gs[x][c][e] <= 1 by {
                let i = draw(seed, ((3 * x + c) * d + e) as nat, 3);
            }
        }
        g
    }

    /// The initial population: `population` independent random genomes.
    pub fn seed(&self, rng: &mut SplitMix64) -> (pop: Vec<Genome>)
        ensures
            pop@.len() == self.config().population,
            forall|i: int|
                0 <= i < pop@.len() ==> (#[trigger] pop@[i])@ == random_genome_spec(
                    state_after(old(rng)@, (i * (3 * self.genome_rank() * self.dim())) as nat),
                    self.dim() as int,
                    self.genome_rank() as int,
                ),
            final(rng)@ == state_after(old(rng)@, (self.config().population * (3 * self.genome_rank() * self.dim())) as nat),
    {
        let ghost seed = rng@;
        let ghost per = (3 * self.rank * self.d) as nat;
        let mut pop: Vec<Genome> = Vec::new();
        let mut i: usize = 0;
        while i < self.cfg.population
            invariant
                i <= self.cfg.population,
                per == 3 * self.rank * self.d,
                rng@ == state_after(seed, (i * per) as nat),
                pop@.len() == i,
                forall|k: int|
                    0 <= k < i ==> (#[trigger] pop@[k])@ == random_genome_spec(
                        state_after(seed, (k * per) as nat),
                        self.d as int,
                        self.rank as int,
                    ),
            decreases self.cfg.population - i,
        {
            let g = self.random_genome(rng);
            proof {
                assert(i * per >= 0) by (nonlinear_arith)
                    requires
                        i >= 0,
                        per >= 0,
                ;
                lemma_state_after_add(seed, (i * per) as nat, per);
                assert((i + 1) * per == i * per + per) by (nonlinear_arith);
            }
            pop.push(g);
            i = i + 1;
        }
        pop
    }
}


/// The genomes of a ranked population, in rank order.
pub open spec fn ranked_genomes(scored: Seq<(Genome, i64)>) -> Seq<Seq<Seq<Seq<i8>>>> {
    scored.map_values(|x: (Genome, i64)| x.0@)
}

/// The child bred from stream position `seed`: two tournaments pick the
/// parents, crossover joins them, then `mc` point mutations.
pub open spec fn child_spec(
    parents: Seq<Seq<Seq<Seq<i8>>>>,
    seed: u64,
    size: nat,
    rank: int,
    d: int,
    mc: nat,
) -> Seq<Seq<Seq<i8>>> {
    let tdraws = tournament_draws(size);
    let ia = tournament_index(seed, parents.len() as int, size);
    let ib = tournament_index(state_after(seed, tdraws), parents.len() as int, size);
    let x = crossover_spec(parents[ia], parents[ib], state_after(seed, 2 * tdraws), rank);
    mutate_spec(x, state_after(seed, (2 * tdraws + rank) as nat), mc, rank, d)
}

/// The draws one child consumes.
pub open spec fn child_draws(size: nat, rank: int, mc: nat) -> nat {
    (2 * tournament_draws(size) + rank + 4 * mc) as nat
}

pub proof fn lemma_draw_range(seed: u64, k: nat, m: int)
    requires
        m > 0,
    ensures
        0 <= draw(seed, k, m) < m,
{
}

pub proof fn lemma_tournament_range(seed: u64, len: int, size: nat)
    requires
        len > 0,
    ensures
        0 <= tournament_index(seed, len, size) < len,
    decreases size,
{
    if size > 1 {
        lemma_tournament_range(seed, len, (size - 1) as nat);
    }
}

pub proof fn lemma_mutate_dims(g: Seq<Seq<Seq<i8>>>, seed: u64, count: nat, rank: int, d: int)
    requires
        genome_dims(g, d, rank),
        count > 0 ==> rank > 0 && d > 0,
    ensures
        genome_dims(mutate_spec(g, seed, count, rank, d), d, rank),
        genome_shape(g, d, rank) ==> genome_shape(mutate_spec(g, seed, count, rank, d), d, rank),
    decreases count,
{
    if count > 0 {
        lemma_mutate_dims(g, seed, (count - 1) as nat, rank, d);
        let prev = mutate_spec(g, seed, (count - 1) as nat, rank, d);
        let s1 = state_after(seed, (4 * (count - 1)) as nat);
        lemma_draw_range(s1, 0, rank);
        lemma_draw_range(s1, 1, 3);
        lemma_draw_range(s1, 2, d);
        let res = mutate_once(prev, s1, rank, d);
        let t = draw(s1, 0, rank);
        let c = draw(s1, 1, 3);
        assert forall|x: int| 0 <= x < rank implies #[trigger] res[x].len() == 3 by {
            if x == t {
            } else {
                assert(res[x] == prev[x]);
            }
        }
        assert forall|x: int, y: int| 0 <= x < rank && 0 <= y < 3 implies #[trigger] res[x][y].len() == d by {
            if x == t {
                if y == c {
                } else {
                    assert(res[x][y] == prev[x][y]);
                }
            } else {
                assert(res[x] == prev[x]);
            }
        }
        if genome_shape(g, d, rank) {
            assert forall|x: int, y: int, z: int|
                0 <= x < rank && 0 <= y < 3 && 0 <= z < d implies -1 <= #[trigger] res[x][y][z] <= 1 by {
                if x == t && y == c {
                    if z == draw(s1, 2, d) {
                    } else {
                        assert(res[x][y][z] == prev[x][y][z]);
                    }
                } else if x == t {
                    assert(res[x][y] == prev[x][y]);
                } else {
                    assert(res[x] == prev[x]);
                }
            }
        }
    }
}

/// A tournament of `size ≥ 1` draws over a ranking of `len` picks the
/// best-ranked entry it sees: the winner is at most every index drawn and
/// is one of them.
pub proof fn lemma_tournament_is_the_lowest_draw(seed: u64, len: int, size: nat)
    requires
        len > 0,
        size >= 1,
    ensures
        forall|k: nat| k < size ==> tournament_index(seed, len, size) <= #[trigger] draw(seed, k, len),
        exists|k: nat| k < size && tournament_index(seed, len, size) == #[trigger] draw(seed, k, len),
    decreases size,
{
    if size == 1 {
        assert(tournament_index(seed, len, size) == draw(seed, 0, len));
    } else {
        let m = (size - 1) as nat;
        lemma_tournament_is_the_lowest_draw(seed, len, m);
        let prev = tournament_index(seed, len, m);
        let x = draw(seed, m, len);
        if x < prev {
            assert(tournament_index(seed, len, size) == draw(seed, m, len));
        } else {
            let k = choose|k: nat| k < m && prev == #[trigger] draw(seed, k, len);
            assert(tournament_index(seed, len, size) == draw(seed, k, len));
        }
    }
}

/// Uniform crossover mixes both parents: the child has `rank` triples, and
/// triple `i` is `b`'s triple `i` when the `i`-th draw is odd and `a`'s
/// when it is even; each draw is one of the two.
pub proof fn lemma_crossover_takes_each_triple_from_a_parent(
    a: Seq<Seq<Seq<i8>>>,
    b: Seq<Seq<Seq<i8>>>,
    seed: u64,
    rank: int,
)
    requires
        0 <= rank,
        a.len() >= rank,
        b.len() >= rank,
    ensures
        crossover_spec(a, b, seed, rank).len() == rank,
        forall|i: int|
            0 <= i < rank ==> (#[trigger] draw(seed, i as nat, 2) == 0 || draw(seed, i as nat, 2) == 1),
        forall|i: int|
            0 <= i < rank && draw(seed, i as nat, 2) == 1 ==> #[trigger] crossover_spec(a, b, seed, rank)[i] == b[i],
        forall|i: int|
            0 <= i < rank && draw(seed, i as nat, 2) == 0 ==> #[trigger] crossover_spec(a, b, seed, rank)[i] == a[i],
{
    assert forall|i: int| 0 <= i < rank implies (#[trigger] draw(seed, i as nat, 2) == 0 || draw(seed, i as nat, 2) == 1) by {
        lemma_draw_range(seed, i as nat, 2);
    }
}

pub proof fn lemma_crossover_dims(a: Seq<Seq<Seq<i8>>>, b: Seq<Seq<Seq<i8>>>, seed: u64, rank: int, d: int)
    requires
        genome_dims(a, d, rank),
        genome_dims(b, d, rank),
    ensures
        genome_dims(crossover_spec(a, b, seed, rank), d, rank),
        genome_shape(a, d, rank) && genome_shape(b, d, rank) ==> genome_shape(
            crossover_spec(a, b, seed, rank),
            d,
            rank,
        ),
{
    let x = crossover_spec(a, b, seed, rank);
    assert forall|t: int| 0 <= t < rank implies #[trigger] x[t].len() == 3 by {}
    assert forall|t: int, c: int| 0 <= t < rank && 0 <= c < 3 implies #[trigger] x[t][c].len() == d by {}
    if genome_shape(a, d, rank) && genome_shape(b, d, rank) {
        assert forall|t: int, c: int, e: int|
            0 <= t < rank && 0 <= c < 3 && 0 <= e < d implies -1 <= #[trigger] x[t][c][e] <= 1 by {}
    }
}

impl GaProposer {
    /// Tournament selection over a population ranked ascending by residual:
    /// the lowest index among the draws wins (the deterministic lower-index
    /// tie-break).
    pub fn tournament<'a>(&self, scored: &'a [(Genome, i64)], rng: &mut SplitMix64) -> (r: &'a Genome)
        requires
            scored@.len() > 0,
        ensures
            0 <= tournament_index(old(rng)@, scored@.len() as int, self.config().tournament_size as nat)
                < scored@.len(),
            *r == scored@[tournament_index(
                old(rng)@,
                scored@.len() as int,
                self.config().tournament_size as nat,
            )].0,
            final(rng)@ == state_after(
                old(rng)@,
                tournament_draws(self.config().tournament_size as nat),
            ),
    {
        let ghost seed = rng@;
        let len = scored.len();
        let mut best = rng.below_usize(len);
        proof {
            lemma_draw_range(seed, 0, len as int);
            assert(best == tournament_index(seed, len as int, 1));
        }
        let mut k: usize = 1;
        while k < self.cfg.tournament_size
            invariant
                1 <= k,
                k <= self.cfg.tournament_size || k == 1,
                len == scored@.len(),
                len > 0,
                rng@ == state_after(seed, k as nat),
                best == tournament_index(seed, len as int, k as nat),
                best < len,
            decreases self.cfg.tournament_size - k,
        {
            let x = rng.below_usize(len);
            if x < best {
                best = x;
            }
            k = k + 1;
        }
        proof {
            lemma_tournament_range(seed, len as int, self.cfg.tournament_size as nat);
            if self.cfg.tournament_size == 0 {
                assert(tournament_index(seed, len as int, 0) == tournament_index(seed, len as int, 1));
            }
        }
        &scored[best].0
    }

    /// Uniform crossover over the `rank` triples: triple `i` comes from `a`
    /// when the `i`-th draw `mod 2` is `0`, else from `b`.
    pub fn crossover(&self, a: &Genome, b: &Genome, rng: &mut SplitMix64) -> (g: Genome)
        requires
            a@.len() >= self.genome_rank(),
            b@.len() >= self.genome_rank(),
        ensures
            g@ == crossover_spec(a@, b@, old(rng)@, self.genome_rank() as int),
            final(rng)@ == state_after(old(rng)@, self.genome_rank()),
    {
        let ghost seed = rng@;
        let mut triples: Vec<[Vec<i8>; 3]> = Vec::new();
        let mut i: usize = 0;
        while i < self.rank
            invariant
                i <= self.rank,
                a@.len() >= self.rank,
                b@.len() >= self.rank,
                rng@ == state_after(seed, i as nat),
                triples@.len() == i,
                forall|k: int|
                    0 <= k < i ==> triple_seqs(#[trigger] triples@[k]) == crossover_spec(
                        a@,
                        b@,
                        seed,
                        self.rank as int,
                    )[k],
            decreases self.rank - i,
        {
            let bit = rng.below_usize(2);
            if bit == 0 {
                triples.push(copy_triple(&a.triples[i]));
            } else {
                triples.push(copy_triple(&b.triples[i]));
            }
            i = i + 1;
        }
        let g = Genome { triples };
        assert(g@ =~= crossover_spec(a@, b@, seed, self.rank as int));
        g
    }

    /// Point mutation: `mutation_count` times, set a random entry (triple,
    /// slot, index — three draws) to a fresh ternary coefficient (a fourth).
    pub fn mutate(&self, g: Genome, rng: &mut SplitMix64) -> (r: Genome)
        requires
            genome_dims(g@, self.dim() as int, self.genome_rank() as int),
            self.config().mutation_count > 0 ==> self.genome_rank() > 0 && self.dim() > 0,
        ensures
            r@ == mutate_spec(
                g@,
                old(rng)@,
                self.config().mutation_count as nat,
                self.genome_rank() as int,
                self.dim() as int,
            ),
            final(rng)@ == state_after(old(rng)@, (4 * self.config().mutation_count) as nat),
    {
        let ghost seed = rng@;
        let ghost rank = self.rank as int;
        let ghost d = self.d as int;
        let mut g = g;
        let ghost g0 = g@;
        let mut m: usize = 0;
        while m < self.cfg.mutation_count
            invariant
                m <= self.cfg.mutation_count,
                rank == self.rank,
                d == self.d,
                self.cfg.mutation_count > 0 ==> self.rank > 0 && self.d > 0,
                genome_dims(g0, d, rank),
                rng@ == state_after(seed, (4 * m) as nat),
                g@ == mutate_spec(g0, seed, m as nat, rank, d),
                genome_dims(g@, d, rank),
            decreases self.cfg.mutation_count - m,
        {
            let ghost s1 = rng@;
            let ghost prev = g@;
            let t = rng.below_usize(self.rank);
            let c = rng.below_usize(3);
            let e = rng.below_usize(self.d);
            let val = rng.ternary();
            proof {
                assert(state_after(seed, (4 * m + 1) as nat) == step(state_after(seed, (4 * m) as nat)));
                lemma_state_after_add(seed, (4 * m) as nat, 0);
                lemma_state_after_add(seed, (4 * m) as nat, 1);
                lemma_state_after_add(seed, (4 * m) as nat, 2);
                lemma_state_after_add(seed, (4 * m) as nat, 3);
                lemma_state_after_add(seed, (4 * m) as nat, 4);
                assert(t == draw(s1, 0, rank));
                assert(c == draw(s1, 1, 3));
                assert(e == draw(s1, 2, d));
                assert(val == ternary_of(draw(s1, 3, 3)));
            }
            let tri = &g.triples[t];
            assert(triple_seqs(*tri) == prev[t as int]);
            let mut slot = copy_i8s(&tri[c]);
            slot.set(e, val);
            let newtri = if c == 0 {
                [slot, copy_i8s(&tri[1]), copy_i8s(&tri[2])]
            } else if c == 1 {
                [copy_i8s(&tri[0]), slot, copy_i8s(&tri[2])]
            } else {
                [copy_i8s(&tri[0]), copy_i8s(&tri[1]), slot]
            };
            proof {
                assert(triple_seqs(newtri) =~= prev[t as int].update(c as int, prev[t as int][c as int].update(e as int, val)));
            }
            g.triples.set(t, newtri);
            proof {
                assert(g@ =~= mutate_once(prev, s1, rank, d));
                lemma_mutate_dims(g0, seed, (m + 1) as nat, rank, d);
            }
            m = m + 1;
        }
        g
    }
}


/// The number of elites carried over: `min(elitism, population size)`.
pub open spec fn elite_count(elitism: int, len: int) -> int {
    if elitism < len { elitism } else { len }
}

impl GaProposer {
    /// The next generation from a population ranked ascending by residual:
    /// the best `elitism` genomes unchanged, then children (two tournaments,
    /// crossover, mutation) until the population size is reached.
    pub fn vary(&self, scored: &[(Genome, i64)], rng: &mut SplitMix64) -> (next: Vec<Genome>)
        requires
            ({
                let ec = elite_count(self.config().elitism as int, scored@.len() as int);
                ec < self.config().population ==> {
                    &&& scored@.len() > 0
                    &&& forall|i: int|
                        0 <= i < scored@.len() ==> genome_dims(
                            #[trigger] scored@[i].0@,
                            self.dim() as int,
                            self.genome_rank() as int,
                        )
                    &&& self.config().mutation_count > 0 ==> self.genome_rank() > 0 && self.dim() > 0
                }
            }),
        ensures
            ({
                let ec = elite_count(self.config().elitism as int, scored@.len() as int);
                let per = child_draws(
                    self.config().tournament_size as nat,
                    self.genome_rank() as int,
                    self.config().mutation_count as nat,
                );
                let total = if ec < self.config().population { self.config().population as int } else { ec };
                &&& next@.len() == total
                &&& forall|i: int| 0 <= i < ec ==> (#[trigger] next@[i])@ == scored@[i].0@
                &&& forall|i: int|
                    ec <= i < total ==> (#[trigger] next@[i])@ == child_spec(
                        ranked_genomes(scored@),
                        state_after(old(rng)@, ((i - ec) * per) as nat),
                        self.config().tournament_size as nat,
                        self.genome_rank() as int,
                        self.dim() as int,
                        self.config().mutation_count as nat,
                    )
                &&& final(rng)@ == state_after(old(rng)@, ((total - ec) * per) as nat)
            }),
    {
        let ghost seed = rng@;
        let ghost parents = ranked_genomes(scored@);
        let ghost per = child_draws(self.cfg.tournament_size as nat, self.rank as int, self.cfg.mutation_count as nat);
        let ghost tdraws = tournament_draws(self.cfg.tournament_size as nat);
        let ec = if self.cfg.elitism < scored.len() { self.cfg.elitism } else { scored.len() };
        let mut next: Vec<Genome> = Vec::new();
        let mut i: usize = 0;
        while i < ec
            invariant
                i <= ec,
                ec <= scored@.len(),
                next@.len() == i,
                forall|k: int| 0 <= k < i ==> (#[trigger] next@[k])@ == scored@[k].0@,
            decreases ec - i,
        {
            next.push(scored[i].0.duplicate());
            i = i + 1;
        }
        assert(rng@ == state_after(seed, 0));
        assert((next@.len() - ec) * per == 0) by (nonlinear_arith)
            requires
                next@.len() == ec,
        ;
        while next.len() < self.cfg.population
            invariant
                ec == elite_count(self.cfg.elitism as int, scored@.len() as int),
                ec <= next@.len(),
                next@.len() <= self.cfg.population || next@.len() == ec,
                parents == ranked_genomes(scored@),
                per == child_draws(self.cfg.tournament_size as nat, self.rank as int, self.cfg.mutation_count as nat),
                tdraws == tournament_draws(self.cfg.tournament_size as nat),
                ec < self.cfg.population ==> {
                    &&& scored@.len() > 0
                    &&& forall|i: int|
                        0 <= i < scored@.len() ==> genome_dims(
                            #[trigger] scored@[i].0@,
                            self.d as int,
                            self.rank as int,
                        )
                    &&& self.cfg.mutation_count > 0 ==> self.rank > 0 && self.d > 0
                },
                forall|k: int| 0 <= k < ec ==> (#[trigger] next@[k])@ == scored@[k].0@,
                forall|k: int|
                    ec <= k < next@.len() ==> (#[trigger] next@[k])@ == child_spec(
                        parents,
                        state_after(seed, ((k - ec) * per) as nat),
                        self.cfg.tournament_size as nat,
                        self.rank as int,
                        self.d as int,
                        self.cfg.mutation_count as nat,
                    ),
                rng@ == state_after(seed, ((next@.len() - ec) * per) as nat),
            decreases self.cfg.population - next@.len(),
        {
            let ghost sj = rng@;
            let ghost j = next@.len() - ec;
            let a = self.tournament(scored, rng);
            let b = self.tournament(scored, rng);
            proof {
                let len = scored@.len() as int;
                let ia = tournament_index(sj, len, self.cfg.tournament_size as nat);
                let ib = tournament_index(state_after(sj, tdraws), len, self.cfg.tournament_size as nat);
                assert(a@ == parents[ia]);
                assert(b@ == parents[ib]);
                assert(genome_dims(scored@[ia].0@, self.d as int, self.rank as int));
                assert(genome_dims(scored@[ib].0@, self.d as int, self.rank as int));
                lemma_state_after_add(sj, tdraws, tdraws);
            }
            let child = self.crossover(a, b, rng);
            proof {
                lemma_crossover_dims(a@, b@, state_after(sj, 2 * tdraws), self.rank as int, self.d as int);
                lemma_state_after_add(sj, 2 * tdraws, self.rank as nat);
            }
            let m = self.mutate(child, rng);
            proof {
                lemma_state_after_add(sj, (2 * tdraws + self.rank) as nat, (4 * self.cfg.mutation_count) as nat);
                lemma_state_after_add(seed, (j * per) as nat, per);
                assert(j * per >= 0) by (nonlinear_arith)
                    requires
                        j >= 0,
                        per >= 0,
                ;
                assert((j + 1) * per == j * per + per) by (nonlinear_arith);
            }
            next.push(m);
        }
        next
    }
}

} // verus!
