//! The discovery engine loop: a seeded genetic search whose candidates come
//! only from the blind proposer (`seed`, `vary`) and whose accept step is only
//! the predicate's residual — proposer-agnostic, verifier-exact.

use vstd::prelude::*;

use crate::flipgraph::flat_index;
use crate::predicate::{
    RankDecomposition, SchemeError, genome_dim, is_floor_sqrt, lemma_floor_sqrt_unique, lemma_max_abs, lemma_residual_nonneg,
    max_abs_entry, res_p, res_q, res_r, residual_fits, residual_of, sq_err, uniform, iabs,
};
use crate::prng::{SplitMix64, state_after};
use crate::proposer::{
    GaConfig, GaProposer, Genome, child_draws, child_spec, crossover_spec, draw, elite_count, genome_dims,
    genome_entry, genome_shape, genome_term, lemma_crossover_dims, lemma_mutate_dims,
    lemma_tournament_range, random_genome_spec, ranked_genomes, tournament_draws, tournament_index,
};
use crate::prng::ternary_of;

verus! {

/// A genome's coefficients: `rank` triples of three vectors.
pub type GenomeView = Seq<Seq<Seq<i8>>>;

// ─────────────────────────── ranking by residual ───────────────────────────

/// How many entries of `s` cost at most `key`.
pub open spec fn count_le(s: Seq<(GenomeView, int)>, key: int) -> nat
    decreases s.len(),
{
    if s.len() == 0 {
        0
    } else {
        count_le(s.drop_last(), key) + if s.last().1 <= key {
            1nat
        } else {
            0nat
        }
    }
}

/// Insert `x` after every entry that costs at most as much (stable).
pub open spec fn insert_by_cost(s: Seq<(GenomeView, int)>, x: (GenomeView, int)) -> Seq<(GenomeView, int)> {
    s.insert(count_le(s, x.1) as int, x)
}

/// The stable ascending sort of `s` by cost: insertion sort, so entries of
/// equal cost keep their original order.
pub open spec fn sort_by_cost(s: Seq<(GenomeView, int)>) -> Seq<(GenomeView, int)>
    decreases s.len(),
{
    if s.len() == 0 {
        s
    } else {
        insert_by_cost(sort_by_cost(s.drop_last()), s.last())
    }
}

proof fn lemma_count_le_bound(s: Seq<(GenomeView, int)>, key: int)
    ensures
        count_le(s, key) <= s.len(),
    decreases s.len(),
{
    if s.len() > 0 {
        lemma_count_le_bound(s.drop_last(), key);
    }
}

proof fn lemma_count_le_zero(s: Seq<(GenomeView, int)>, key: int)
    ensures
        count_le(s, key) == 0 <==> forall|i: int| 0 <= i < s.len() ==> #[trigger] s[i].1 > key,
    decreases s.len(),
{
    if s.len() > 0 {
        lemma_count_le_zero(s.drop_last(), key);
        assert forall|i: int| 0 <= i < s.len() - 1 implies #[trigger] s.drop_last()[i] == s[i] by {}
        if count_le(s, key) == 0 {
            assert forall|i: int| 0 <= i < s.len() implies #[trigger] s[i].1 > key by {
                if i < s.len() - 1 {
                    assert(s.drop_last()[i].1 > key);
                }
            }
        }
    }
}

/// Sorting keeps the length, keeps every entry, and puts a cheapest entry
/// first.
pub proof fn lemma_sort_by_cost(s: Seq<(GenomeView, int)>)
    ensures
        sort_by_cost(s).len() == s.len(),
        forall|i: int|
            0 <= i < s.len() ==> exists|j: int| 0 <= j < s.len() && #[trigger] sort_by_cost(s)[i] == s[j],
        s.len() > 0 ==> forall|j: int| 0 <= j < s.len() ==> sort_by_cost(s)[0].1 <= #[trigger] s[j].1,
    decreases s.len(),
{
    if s.len() > 0 {
        let prev = s.drop_last();
        let sp = sort_by_cost(prev);
        let x = s.last();
        lemma_sort_by_cost(prev);
        lemma_count_le_bound(sp, x.1);
        lemma_count_le_zero(sp, x.1);
        let pos = count_le(sp, x.1) as int;
        let out = sp.insert(pos, x);
        assert(out == sort_by_cost(s));
        assert forall|i: int| 0 <= i < s.len() implies exists|j: int|
            0 <= j < s.len() && #[trigger] sort_by_cost(s)[i] == s[j] by {
            if i < pos {
                assert(out[i] == sp[i]);
                let j = choose|j: int| 0 <= j < prev.len() && sp[i] == prev[j];
                assert(s[j] == prev[j]);
            } else if i == pos {
                assert(out[i] == s[s.len() - 1]);
            } else {
                assert(out[i] == sp[i - 1]);
                let j = choose|j: int| 0 <= j < prev.len() && sp[i - 1] == prev[j];
                assert(s[j] == prev[j]);
            }
        }
        assert forall|j: int| 0 <= j < s.len() implies sort_by_cost(s)[0].1 <= #[trigger] s[j].1 by {
            if pos == 0 {
                assert(out[0] == x);
                if j < s.len() - 1 {
                    assert(s[j] == prev[j]);
                    if prev.len() > 0 {
                        assert(sp[0].1 <= prev[j].1);
                        assert(sp[0].1 > x.1);
                    }
                }
            } else {
                assert(out[0] == sp[0]);
                assert(sp[0].1 <= x.1);
                if j < s.len() - 1 {
                    assert(s[j] == prev[j]);
                    assert(sp[0].1 <= prev[j].1);
                }
            }
        }
    }
}

/// The exec pairs `(genome, residual)` as coefficient views and integers.
pub open spec fn scored_view(s: Seq<(Genome, i64)>) -> Seq<(GenomeView, int)> {
    s.map_values(|x: (Genome, i64)| (x.0@, x.1 as int))
}

/// The coefficient views of a population.
pub open spec fn pop_view(pop: Seq<Genome>) -> Seq<GenomeView> {
    pop.map_values(|g: Genome| g@)
}

/// A population paired with each genome's residual against `t`.
pub open spec fn costs(pop: Seq<GenomeView>, t: Seq<i64>, d: int) -> Seq<(GenomeView, int)> {
    pop.map_values(|g: GenomeView| (g, residual_of(g, t, d)))
}

/// The population ranked ascending by residual (stable).
pub open spec fn ranked_pop(pop: Seq<GenomeView>, t: Seq<i64>, d: int) -> Seq<(GenomeView, int)> {
    sort_by_cost(costs(pop, t, d))
}

/// Insert `(g, cost)` into the ranked list after every entry that costs at
/// most `cost`.
fn insert_ranked(out: &mut Vec<(Genome, i64)>, g: Genome, cost: i64)
    ensures
        scored_view(final(out)@) == insert_by_cost(scored_view(old(out)@), (g@, cost as int)),
{
    let ghost sv = scored_view(out@);
    let mut pos: usize = 0;
    let mut j: usize = 0;
    while j < out.len()
        invariant
            sv == scored_view(out@),
            j <= out@.len(),
            pos == count_le(sv.take(j as int), cost as int),
            pos <= j,
        decreases out@.len() - j,
    {
        assert(sv.take(j as int + 1).drop_last() =~= sv.take(j as int));
        if out[j].1 <= cost {
            pos = pos + 1;
        }
        j = j + 1;
    }
    assert(sv.take(out@.len() as int) =~= sv);
    out.insert(pos, (g, cost));
    assert(scored_view(out@) =~= sv.insert(pos as int, (g@, cost as int)));
}

// ───────────────────────── the search's size bound ─────────────────────────

/// The residual of every ternary rank-`rank` genome against `t` fits `i64`:
/// each entry is at most `rank` in size, so each squared error is at most
/// `(rank + max|t|)²`, over `d³` entries.
pub open spec fn search_fits(t: Seq<i64>, d: int, rank: int) -> bool {
    &&& rank * 0x200000 + max_abs_entry(t) <= i64::MAX
    &&& d * d * d * ((rank + max_abs_entry(t)) * (rank + max_abs_entry(t))) <= i64::MAX
}

proof fn lemma_ternary_entry(g: GenomeView, d: int, rank: int, p: int, q: int, r: int)
    requires
        genome_shape(g, d, rank),
        0 <= p < d,
        0 <= q < d,
        0 <= r < d,
    ensures
        iabs(genome_entry(g, p, q, r)) <= rank,
    decreases g.len(),
{
    if g.len() > 0 {
        let prev = g.drop_last();
        assert(genome_shape(prev, d, rank - 1)) by {
            assert forall|t: int| 0 <= t < rank - 1 implies #[trigger] prev[t].len() == 3 by {
                assert(prev[t] == g[t]);
            }
            assert forall|t: int, c: int| 0 <= t < rank - 1 && 0 <= c < 3 implies #[trigger] prev[t][c].len() == d by {
                assert(prev[t] == g[t]);
            }
            assert forall|t: int, c: int, e: int|
                0 <= t < rank - 1 && 0 <= c < 3 && 0 <= e < d implies -1 <= #[trigger] prev[t][c][e] <= 1 by {
                assert(prev[t] == g[t]);
            }
        }
        lemma_ternary_entry(prev, d, rank - 1, p, q, r);
        let last = g.last();
        assert(last == g[rank - 1]);
        let a = last[0][p];
        let b = last[1][q];
        let c = last[2][r];
        assert(-1 <= a <= 1 && -1 <= b <= 1 && -1 <= c <= 1);
        assert(-1 <= a * b * c <= 1) by (nonlinear_arith)
            requires
                -1 <= a <= 1,
                -1 <= b <= 1,
                -1 <= c <= 1,
        ;
        assert(genome_term(last, p, q, r) == a * b * c);
    }
}

proof fn lemma_sq_err_bound(g: GenomeView, t: Seq<i64>, d: int, rank: int, p: int, q: int, r: int)
    requires
        genome_shape(g, d, rank),
        t.len() == d * d * d,
        0 <= p < d,
        0 <= q < d,
        0 <= r < d,
    ensures
        0 <= sq_err(g, t, d, p, q, r) <= (rank + max_abs_entry(t)) * (rank + max_abs_entry(t)),
{
    lemma_ternary_entry(g, d, rank, p, q, r);
    crate::flipgraph::lemma_flat_index(d, p, q, r);
    let k = flat_index(d, p, q, r);
    lemma_max_abs(t, t.len() as int, k);
    let m = max_abs_entry(t);
    let x = genome_entry(g, p, q, r) - t[k];
    assert(iabs(x) <= rank + m);
    assert(0 <= x * x <= (rank + m) * (rank + m)) by (nonlinear_arith)
        requires
            -(rank + m) <= x <= rank + m,
    ;
}

proof fn lemma_res_bounds(g: GenomeView, t: Seq<i64>, d: int, rank: int, b: int)
    requires
        genome_shape(g, d, rank),
        t.len() == d * d * d,
        d >= 0,
        b == (rank + max_abs_entry(t)) * (rank + max_abs_entry(t)),
    ensures
        forall|p: int, q: int, m: int|
            0 <= p < d && 0 <= q < d && 0 <= m <= d ==> #[trigger] res_r(g, t, d, p, q, m) <= m * b,
        forall|p: int, m: int| 0 <= p < d && 0 <= m <= d ==> #[trigger] res_q(g, t, d, p, m) <= m * (d * b),
        forall|m: int| 0 <= m <= d ==> #[trigger] res_p(g, t, d, m) <= m * (d * (d * b)),
{
    assert forall|p: int, q: int, m: int|
        0 <= p < d && 0 <= q < d && 0 <= m <= d implies #[trigger] res_r(g, t, d, p, q, m) <= m * b by {
        lemma_res_r_bound(g, t, d, rank, b, p, q, m);
    }
    assert forall|p: int, m: int| 0 <= p < d && 0 <= m <= d implies #[trigger] res_q(g, t, d, p, m) <= m * (d
        * b) by {
        lemma_res_q_bound(g, t, d, rank, b, p, m);
    }
    assert forall|m: int| 0 <= m <= d implies #[trigger] res_p(g, t, d, m) <= m * (d * (d * b)) by {
        lemma_res_p_bound(g, t, d, rank, b, m);
    }
}

proof fn lemma_res_r_bound(g: GenomeView, t: Seq<i64>, d: int, rank: int, b: int, p: int, q: int, m: int)
    requires
        genome_shape(g, d, rank),
        t.len() == d * d * d,
        b == (rank + max_abs_entry(t)) * (rank + max_abs_entry(t)),
        0 <= p < d,
        0 <= q < d,
        0 <= m <= d,
    ensures
        res_r(g, t, d, p, q, m) <= m * b,
    decreases m,
{
    if m > 0 {
        lemma_res_r_bound(g, t, d, rank, b, p, q, m - 1);
        lemma_sq_err_bound(g, t, d, rank, p, q, m - 1);
        assert((m - 1) * b + b == m * b) by (nonlinear_arith);
    }
}

proof fn lemma_res_q_bound(g: GenomeView, t: Seq<i64>, d: int, rank: int, b: int, p: int, m: int)
    requires
        genome_shape(g, d, rank),
        t.len() == d * d * d,
        b == (rank + max_abs_entry(t)) * (rank + max_abs_entry(t)),
        0 <= p < d,
        0 <= m <= d,
    ensures
        res_q(g, t, d, p, m) <= m * (d * b),
    decreases m,
{
    if m > 0 {
        lemma_res_q_bound(g, t, d, rank, b, p, m - 1);
        lemma_res_r_bound(g, t, d, rank, b, p, m - 1, d);
        assert((m - 1) * (d * b) + d * b == m * (d * b)) by (nonlinear_arith);
    }
}

proof fn lemma_res_p_bound(g: GenomeView, t: Seq<i64>, d: int, rank: int, b: int, m: int)
    requires
        genome_shape(g, d, rank),
        t.len() == d * d * d,
        b == (rank + max_abs_entry(t)) * (rank + max_abs_entry(t)),
        0 <= m <= d,
    ensures
        res_p(g, t, d, m) <= m * (d * (d * b)),
    decreases m,
{
    if m > 0 {
        lemma_res_p_bound(g, t, d, rank, b, m - 1);
        lemma_res_q_bound(g, t, d, rank, b, m - 1, d);
        assert((m - 1) * (d * (d * b)) + d * (d * b) == m * (d * (d * b))) by (nonlinear_arith);
    }
}

/// Under `search_fits`, every ternary genome of the search's shape has an
/// in-range residual.
pub proof fn lemma_search_fits(g: GenomeView, t: Seq<i64>, d: int, rank: int)
    requires
        genome_shape(g, d, rank),
        t.len() == d * d * d,
        d >= 0,
        rank >= 0,
        search_fits(t, d, rank),
    ensures
        residual_fits(g, t, d),
{
    let b = (rank + max_abs_entry(t)) * (rank + max_abs_entry(t));
    lemma_res_bounds(g, t, d, rank, b);
    assert(res_p(g, t, d, d) <= d * (d * (d * b)));
    assert(d * (d * (d * b)) == d * d * d * b) by (nonlinear_arith);
}

// ─────────────────────────────── the config ───────────────────────────────

/// A failure running the engine: a degenerate configuration, or the
/// scheme-level error of scoring a genome.
#[derive(Debug, Clone, Copy, PartialEq, Eq, Structural)]
pub enum EngineError {
    EmptyPopulation,
    ZeroGenerations,
    ZeroElitism,
    ZeroTournament,
    ElitismExceedsPopulation { elitism: usize, population: usize },
    Scheme(SchemeError),
}

/// A discovery run: the predicate to satisfy, the budget, the seed, the GA
/// configuration.
pub struct Config {
    pub predicate: RankDecomposition,
    pub generations: usize,
    pub seed: u64,
    pub ga: GaConfig,
}

/// The configuration check, in order: population, generations, elitism,
/// tournament size, then elitism against population.
pub open spec fn validate_spec(ga: GaConfig, generations: usize) -> Result<(), EngineError> {
    if ga.population == 0 {
        Err(EngineError::EmptyPopulation)
    } else if generations == 0 {
        Err(EngineError::ZeroGenerations)
    } else if ga.elitism == 0 {
        Err(EngineError::ZeroElitism)
    } else if ga.tournament_size == 0 {
        Err(EngineError::ZeroTournament)
    } else if ga.elitism > ga.population {
        Err(EngineError::ElitismExceedsPopulation { elitism: ga.elitism, population: ga.population })
    } else {
        Ok(())
    }
}

impl Config {
    /// Reject degenerate configurations so the engine's invariants hold by
    /// construction.
    pub fn validate(&self) -> (r: Result<(), EngineError>)
        ensures
            r == validate_spec(self.ga, self.generations),
    {
        if self.ga.population == 0 {
            return Err(EngineError::EmptyPopulation);
        }
        if self.generations == 0 {
            return Err(EngineError::ZeroGenerations);
        }
        if self.ga.elitism == 0 {
            return Err(EngineError::ZeroElitism);
        }
        if self.ga.tournament_size == 0 {
            return Err(EngineError::ZeroTournament);
        }
        if self.ga.elitism > self.ga.population {
            return Err(
                EngineError::ElitismExceedsPopulation {
                    elitism: self.ga.elitism,
                    population: self.ga.population,
                },
            );
        }
        Ok(())
    }
}

// ──────────────────────────────── scoring ────────────────────────────────

/// The empty genome is the only rank-0 genome; otherwise a shaped genome's
/// dimension is `d`.
proof fn lemma_shape_uniform(g: GenomeView, d: int, rank: int)
    requires
        genome_shape(g, d, rank),
        d >= 0,
    ensures
        uniform(g),
        genome_dim(g) == if rank == 0 { 0 } else { d },
{
    if rank > 0 {
        assert(g[0][0].len() == d);
    }
}

/// Score every genome by the predicate's residual and rank the population
/// ascending (stable: equal residuals keep population order). A genome that
/// cannot be compared with the target propagates its error.
fn score(pred: &RankDecomposition, pop: Vec<Genome>, Ghost(rank): Ghost<int>) -> (r: Result<
    Vec<(Genome, i64)>,
    EngineError,
>)
    requires
        pred.wf(),
        rank >= 0,
        pop@.len() > 0,
        forall|i: int|
            0 <= i < pop@.len() ==> genome_shape(#[trigger] pop@[i]@, pred.target_tensor().dim as int, rank),
        search_fits(pred.target_tensor().entries@, pred.target_tensor().dim as int, rank),
    ensures
        rank == 0 && pred.target_tensor().dim != 0 ==> (r matches Err(
            EngineError::Scheme(SchemeError::DimMismatch { n, expected, got }),
        ) && expected == pred.target_tensor().dim && got == 0 && is_floor_sqrt(n as int, expected as int)),
        !(rank == 0 && pred.target_tensor().dim != 0) ==> (r matches Ok(s) && scored_view(s@) == ranked_pop(
            pop_view(pop@),
            pred.target_tensor().entries@,
            pred.target_tensor().dim as int,
        )),
{
    let ghost pv = pop_view(pop@);
    let ghost t = pred.target_tensor().entries@;
    let ghost d = pred.target_tensor().dim as int;
    let n = pop.len();
    let mut rest = pop;
    let mut out: Vec<(Genome, i64)> = Vec::new();
    let mut i: usize = 0;
    assert(pv.take(0) =~= Seq::<GenomeView>::empty());
    assert(costs(pv.take(0), t, d) =~= Seq::<(GenomeView, int)>::empty());
    assert(pop_view(rest@) =~= pv.skip(0));
    while rest.len() > 0
        invariant
            pred.wf(),
            rank >= 0,
            n == pv.len(),
            n > 0,
            t == pred.target_tensor().entries@,
            d == pred.target_tensor().dim,
            forall|k: int| 0 <= k < pv.len() ==> genome_shape(#[trigger] pv[k], d, rank),
            search_fits(t, d, rank),
            i + rest@.len() == n,
            pop_view(rest@) == pv.skip(i as int),
            scored_view(out@) == sort_by_cost(costs(pv.take(i as int), t, d)),
            rank == 0 && d != 0 ==> i == 0,
        decreases rest@.len(),
    {
        let ghost before = rest@;
        let g = rest.remove(0);
        let ghost gv = g@;
        proof {
            assert(pop_view(before)[0] == pv.skip(i as int)[0]);
            assert(gv == pv[i as int]);
            assert(pop_view(rest@) =~= pv.skip(i as int + 1)) by {
                assert forall|k: int| 0 <= k < rest@.len() implies #[trigger] pop_view(rest@)[k] == pv.skip(
                    i as int + 1,
                )[k] by {
                    assert(rest@[k] == before[k + 1]);
                    assert(pop_view(before)[k + 1] == pv.skip(i as int)[k + 1]);
                }
            }
            lemma_shape_uniform(gv, d, rank);
            lemma_search_fits(gv, t, d, rank);
            lemma_residual_nonneg(gv, t, d);
        }
        let c = match pred.residual(&g) {
            Ok(c) => c,
            Err(e) => {
                return Err(EngineError::Scheme(e));
            },
        };
        proof {
            let cs = costs(pv.take(i as int + 1), t, d);
            assert(cs.drop_last() =~= costs(pv.take(i as int), t, d));
            assert(cs.last() == (gv, c as int));
        }
        insert_ranked(&mut out, g, c);
        i = i + 1;
    }
    assert(pv.take(n as int) =~= pv);
    Ok(out)
}

// ──────────────────────────── the whole search ────────────────────────────

/// What a run reads from its configuration.
pub struct SearchView {
    pub seed: u64,
    pub cfg: GaConfig,
    pub target: Seq<i64>,
    pub d: nat,
    pub rank: nat,
}

/// The search a configuration describes.
pub open spec fn search_view(config: &Config) -> SearchView {
    SearchView {
        seed: config.seed,
        cfg: config.ga,
        target: config.predicate.target_tensor().entries@,
        d: config.predicate.target_tensor().dim as nat,
        rank: config.predicate.required_rank(),
    }
}

/// The seed population: genome `i` is drawn from stream position
/// `i · 3·rank·d`.
pub open spec fn seed_pop(sv: SearchView) -> Seq<GenomeView> {
    Seq::new(
        sv.cfg.population as nat,
        |i: int| random_genome_spec(state_after(sv.seed, (i * (3 * sv.rank * sv.d)) as nat), sv.d as int, sv.rank as int),
    )
}

/// The stream state after seeding.
pub open spec fn seed_state(sv: SearchView) -> u64 {
    state_after(sv.seed, (sv.cfg.population * (3 * sv.rank * sv.d)) as nat)
}

/// The number of genomes `vary` keeps unchanged from a ranked list of `len`.
pub open spec fn vary_total(sv: SearchView, len: int) -> int {
    let ec = elite_count(sv.cfg.elitism as int, len);
    if ec < sv.cfg.population { sv.cfg.population as int } else { ec }
}

/// The draws one child takes.
pub open spec fn per_child(sv: SearchView) -> nat {
    child_draws(sv.cfg.tournament_size as nat, sv.rank as int, sv.cfg.mutation_count as nat)
}

/// The next generation bred from a ranked population at stream state `seed`:
/// the elites unchanged, then children.
pub open spec fn vary_spec(ranked: Seq<(GenomeView, int)>, seed: u64, sv: SearchView) -> Seq<GenomeView> {
    let ec = elite_count(sv.cfg.elitism as int, ranked.len() as int);
    let parents = ranked.map_values(|x: (GenomeView, int)| x.0);
    Seq::new(
        vary_total(sv, ranked.len() as int) as nat,
        |i: int|
            if i < ec {
                ranked[i].0
            } else {
                child_spec(
                    parents,
                    state_after(seed, ((i - ec) * per_child(sv)) as nat),
                    sv.cfg.tournament_size as nat,
                    sv.rank as int,
                    sv.d as int,
                    sv.cfg.mutation_count as nat,
                )
            },
    )
}

/// The stream state after breeding from a ranked list of `len`.
pub open spec fn vary_state(sv: SearchView, len: int, seed: u64) -> u64 {
    let ec = elite_count(sv.cfg.elitism as int, len);
    state_after(seed, ((vary_total(sv, len) - ec) * per_child(sv)) as nat)
}

/// The population (and stream state) at generation `k`: `0` is the seed
/// population, each later one is bred from the previous one ranked.
pub open spec fn generation(sv: SearchView, k: nat) -> (Seq<GenomeView>, u64)
    decreases k,
{
    if k == 0 {
        (seed_pop(sv), seed_state(sv))
    } else {
        let prev = generation(sv, (k - 1) as nat);
        let rk = ranked_pop(prev.0, sv.target, sv.d as int);
        (vary_spec(rk, prev.1, sv), vary_state(sv, rk.len() as int, prev.1))
    }
}

/// The best genome of generation `k` and its residual.
pub open spec fn best_at(sv: SearchView, k: nat) -> (GenomeView, int) {
    ranked_pop(generation(sv, k).0, sv.target, sv.d as int)[0]
}

/// Generation `k` holds an exact decomposition.
pub open spec fn solved_at(sv: SearchView, k: nat) -> bool {
    best_at(sv, k).1 == 0
}

/// The configuration passes its check.
pub open spec fn config_ok(sv: SearchView) -> bool {
    &&& sv.cfg.population > 0
    &&& sv.cfg.elitism > 0
    &&& sv.cfg.tournament_size > 0
    &&& sv.cfg.elitism <= sv.cfg.population
}

proof fn lemma_random_genome_shape(seed: u64, d: int, rank: int)
    requires
        d >= 0,
        rank >= 0,
    ensures
        genome_shape(random_genome_spec(seed, d, rank), d, rank),
{
    let g = random_genome_spec(seed, d, rank);
    assert forall|x: int, c: int, e: int|
        0 <= x < rank && 0 <= c < 3 && 0 <= e < d implies -1 <= #[trigger] g[x][c][e] <= 1 by {
        let i = draw(seed, ((3 * x + c) * d + e) as nat, 3);
        assert(g[x][c][e] == ternary_of(i));
    }
}

proof fn lemma_child_shape(
    parents: Seq<GenomeView>,
    seed: u64,
    size: nat,
    rank: int,
    d: int,
    mc: nat,
)
    requires
        parents.len() > 0,
        forall|i: int| 0 <= i < parents.len() ==> genome_shape(#[trigger] parents[i], d, rank),
        mc > 0 ==> rank > 0 && d > 0,
    ensures
        genome_shape(child_spec(parents, seed, size, rank, d, mc), d, rank),
{
    let tdraws = tournament_draws(size);
    let ia = tournament_index(seed, parents.len() as int, size);
    let ib = tournament_index(state_after(seed, tdraws), parents.len() as int, size);
    lemma_tournament_range(seed, parents.len() as int, size);
    lemma_tournament_range(state_after(seed, tdraws), parents.len() as int, size);
    assert(genome_shape(parents[ia], d, rank));
    assert(genome_shape(parents[ib], d, rank));
    let x = crossover_spec(parents[ia], parents[ib], state_after(seed, 2 * tdraws), rank);
    lemma_crossover_dims(parents[ia], parents[ib], state_after(seed, 2 * tdraws), rank, d);
    lemma_mutate_dims(x, state_after(seed, (2 * tdraws + rank) as nat), mc, rank, d);
}

/// Every ranked entry is some genome of the population with its residual.
proof fn lemma_ranked_members(pop: Seq<GenomeView>, t: Seq<i64>, d: int)
    ensures
        ranked_pop(pop, t, d).len() == pop.len(),
        forall|i: int|
            0 <= i < pop.len() ==> exists|j: int|
                0 <= j < pop.len() && #[trigger] ranked_pop(pop, t, d)[i] == (pop[j], residual_of(pop[j], t, d)),
        pop.len() > 0 ==> forall|j: int|
            0 <= j < pop.len() ==> ranked_pop(pop, t, d)[0].1 <= residual_of(#[trigger] pop[j], t, d),
{
    let cs = costs(pop, t, d);
    lemma_sort_by_cost(cs);
    assert forall|i: int| 0 <= i < pop.len() implies exists|j: int|
        0 <= j < pop.len() && #[trigger] ranked_pop(pop, t, d)[i] == (pop[j], residual_of(pop[j], t, d)) by {
        let j = choose|j: int| 0 <= j < cs.len() && sort_by_cost(cs)[i] == cs[j];
        assert(cs[j] == (pop[j], residual_of(pop[j], t, d)));
    }
    if pop.len() > 0 {
        assert forall|j: int| 0 <= j < pop.len() implies ranked_pop(pop, t, d)[0].1 <= residual_of(
            #[trigger] pop[j],
            t,
            d,
        ) by {
            assert(cs[j].1 == residual_of(pop[j], t, d));
        }
    }
}

/// Every generation has `population` genomes, all ternary of the search's
/// shape.
pub proof fn lemma_generation_shape(sv: SearchView, k: nat)
    requires
        config_ok(sv),
        k > 0 && sv.cfg.mutation_count > 0 ==> sv.rank > 0 && sv.d > 0,
    ensures
        generation(sv, k).0.len() == sv.cfg.population,
        forall|i: int|
            0 <= i < generation(sv, k).0.len() ==> genome_shape(
                #[trigger] generation(sv, k).0[i],
                sv.d as int,
                sv.rank as int,
            ),
    decreases k,
{
    if k == 0 {
        assert forall|i: int| 0 <= i < generation(sv, k).0.len() implies genome_shape(
            #[trigger] generation(sv, k).0[i],
            sv.d as int,
            sv.rank as int,
        ) by {
            lemma_random_genome_shape(
                state_after(sv.seed, (i * (3 * sv.rank * sv.d)) as nat),
                sv.d as int,
                sv.rank as int,
            );
        }
    } else {
        let prev = generation(sv, (k - 1) as nat);
        lemma_generation_shape(sv, (k - 1) as nat);
        let rk = ranked_pop(prev.0, sv.target, sv.d as int);
        lemma_ranked_members(prev.0, sv.target, sv.d as int);
        let parents = rk.map_values(|x: (GenomeView, int)| x.0);
        assert forall|i: int| 0 <= i < parents.len() implies genome_shape(
            #[trigger] parents[i],
            sv.d as int,
            sv.rank as int,
        ) by {
            let j = choose|j: int|
                0 <= j < prev.0.len() && rk[i] == (prev.0[j], residual_of(prev.0[j], sv.target, sv.d as int));
        }
        let next = vary_spec(rk, prev.1, sv);
        assert(next == generation(sv, k).0);
        assert forall|i: int| 0 <= i < next.len() implies genome_shape(
            #[trigger] next[i],
            sv.d as int,
            sv.rank as int,
        ) by {
            let ec = elite_count(sv.cfg.elitism as int, rk.len() as int);
            if i < ec {
                assert(next[i] == parents[i]);
            } else {
                lemma_child_shape(
                    parents,
                    state_after(prev.1, ((i - ec) * per_child(sv)) as nat),
                    sv.cfg.tournament_size as nat,
                    sv.rank as int,
                    sv.d as int,
                    sv.cfg.mutation_count as nat,
                );
            }
        }
    }
}

/// Elitism keeps the best genome, so the best residual never rises from one
/// generation to the next.
pub proof fn lemma_best_never_rises(sv: SearchView, k: nat)
    requires
        config_ok(sv),
        sv.cfg.mutation_count > 0 ==> sv.rank > 0 && sv.d > 0,
    ensures
        best_at(sv, k + 1).1 <= best_at(sv, k).1,
{
    let prev = generation(sv, k);
    lemma_generation_shape(sv, k);
    lemma_generation_shape(sv, k + 1);
    let rk = ranked_pop(prev.0, sv.target, sv.d as int);
    lemma_ranked_members(prev.0, sv.target, sv.d as int);
    let next = generation(sv, k + 1).0;
    assert(next == vary_spec(rk, prev.1, sv));
    assert(next[0] == rk[0].0);
    let j = choose|j: int|
        0 <= j < prev.0.len() && rk[0] == (prev.0[j], residual_of(prev.0[j], sv.target, sv.d as int));
    lemma_ranked_members(next, sv.target, sv.d as int);
    assert(best_at(sv, k + 1).1 <= residual_of(next[0], sv.target, sv.d as int));
}

/// The best residual never rises across any span of generations.
pub proof fn lemma_best_monotone(sv: SearchView, a: nat, b: nat)
    requires
        config_ok(sv),
        sv.cfg.mutation_count > 0 ==> sv.rank > 0 && sv.d > 0,
        a <= b,
    ensures
        best_at(sv, b).1 <= best_at(sv, a).1,
    decreases b - a,
{
    if a < b {
        lemma_best_monotone(sv, a, (b - 1) as nat);
        lemma_best_never_rises(sv, (b - 1) as nat);
    }
}

/// The best genome of every generation has the search's shape; when its
/// residual is zero it is an exact rank-`R` decomposition of the target.
pub proof fn lemma_best_is_shaped(sv: SearchView, k: nat)
    requires
        config_ok(sv),
        k > 0 && sv.cfg.mutation_count > 0 ==> sv.rank > 0 && sv.d > 0,
    ensures
        genome_shape(best_at(sv, k).0, sv.d as int, sv.rank as int),
        best_at(sv, k).1 == residual_of(best_at(sv, k).0, sv.target, sv.d as int),
        best_at(sv, k).1 >= 0,
{
    let pop = generation(sv, k).0;
    lemma_generation_shape(sv, k);
    lemma_ranked_members(pop, sv.target, sv.d as int);
    let j = choose|j: int|
        0 <= j < pop.len() && ranked_pop(pop, sv.target, sv.d as int)[0] == (pop[j], residual_of(
            pop[j],
            sv.target,
            sv.d as int,
        ));
    lemma_residual_nonneg(pop[j], sv.target, sv.d as int);
}

// ──────────────────────────────── the run ────────────────────────────────

/// The result of a run.
#[derive(Debug, PartialEq, Eq)]
pub enum Outcome {
    /// A discovery: the certificate genome, and the number of `vary`
    /// applications that preceded acceptance (`0`: the seed population
    /// solved it).
    Found { scheme: Genome, generation: usize },
    /// Budget exhausted: the best genome, its residual, and the best residual
    /// of every generation (`trajectory[0]` is the seed population;
    /// `generations + 1` entries).
    Exhausted { best: Genome, best_residual: i64, trajectory: Vec<i64> },
}

/// What a run of `sv` with `generations` rounds of variation returns: the
/// configuration error; the dimension error of a rank-0 search of a non-empty
/// target; else `Found` at the first generation whose best genome is exact,
/// or `Exhausted` with the last generation's best and every generation's best
/// residual.
pub open spec fn run_result(sv: SearchView, generations: usize, r: Result<Outcome, EngineError>) -> bool {
    match validate_spec(sv.cfg, generations) {
        Err(e) => r == Err::<Outcome, EngineError>(e),
        Ok(_) => if sv.rank == 0 && sv.d != 0 {
            r matches Err(EngineError::Scheme(SchemeError::DimMismatch { n, expected, got })) && expected == sv.d
                && got == 0 && is_floor_sqrt(n as int, expected as int)
        } else {
            match r {
                Ok(Outcome::Found { scheme, generation }) => {
                    &&& generation <= generations
                    &&& solved_at(sv, generation as nat)
                    &&& forall|k: nat| k < generation ==> !#[trigger] solved_at(sv, k)
                    &&& scheme@ == best_at(sv, generation as nat).0
                    &&& genome_shape(scheme@, sv.d as int, sv.rank as int)
                    &&& residual_of(scheme@, sv.target, sv.d as int) == 0
                },
                Ok(Outcome::Exhausted { best, best_residual, trajectory }) => {
                    &&& forall|k: nat| k <= generations ==> !#[trigger] solved_at(sv, k)
                    &&& best@ == best_at(sv, generations as nat).0
                    &&& best_residual == best_at(sv, generations as nat).1
                    &&& trajectory@ == Seq::new(
                        (generations + 1) as nat,
                        |k: int| best_at(sv, k as nat).1 as i64,
                    )
                    &&& forall|i: int| 0 <= i < trajectory@.len() ==> #[trigger] trajectory@[i] > 0
                    &&& forall|i: int, j: int|
                        0 <= i <= j < trajectory@.len() ==> #[trigger] trajectory@[j] <= #[trigger] trajectory@[i]
                },
                Err(_) => false,
            }
        },
    }
}

/// A run's answer by value: the genomes and the trajectory as sequences.
pub enum RunView {
    Found(GenomeView, usize),
    Exhausted(GenomeView, i64, Seq<i64>),
}

pub open spec fn run_view(r: Result<Outcome, EngineError>) -> Result<RunView, EngineError> {
    match r {
        Ok(Outcome::Found { scheme, generation }) => Ok(RunView::Found(scheme@, generation)),
        Ok(Outcome::Exhausted { best, best_residual, trajectory }) => Ok(
            RunView::Exhausted(best@, best_residual, trajectory@),
        ),
        Err(e) => Err(e),
    }
}

/// A run's answer is determined by its search: two answers that both meet
/// `run_result` are the same. So `run_matmul_generic`, which carries the
/// contract of `run`, answers exactly what `run` answers on every config.
pub proof fn lemma_run_result_is_unique(
    sv: SearchView,
    generations: usize,
    r1: Result<Outcome, EngineError>,
    r2: Result<Outcome, EngineError>,
)
    requires
        run_result(sv, generations, r1),
        run_result(sv, generations, r2),
    ensures
        run_view(r1) == run_view(r2),
{
    if validate_spec(sv.cfg, generations) is Ok && sv.rank == 0 && sv.d != 0 {
        match (r1, r2) {
            (
                Err(EngineError::Scheme(SchemeError::DimMismatch { n: n1, expected: e1, got: g1 })),
                Err(EngineError::Scheme(SchemeError::DimMismatch { n: n2, expected: e2, got: g2 })),
            ) => {
                lemma_floor_sqrt_unique(n1 as int, n2 as int, sv.d as int);
            },
            _ => {},
        }
    } else if validate_spec(sv.cfg, generations) is Ok {
        match (r1, r2) {
            (
                Ok(Outcome::Found { scheme: s1, generation: g1 }),
                Ok(Outcome::Found { scheme: s2, generation: g2 }),
            ) => {
                if g1 < g2 {
                    assert(!solved_at(sv, g1 as nat));
                } else if g2 < g1 {
                    assert(!solved_at(sv, g2 as nat));
                }
            },
            (Ok(Outcome::Found { scheme, generation }), Ok(Outcome::Exhausted { .. })) => {
                assert(!solved_at(sv, generation as nat));
            },
            (Ok(Outcome::Exhausted { .. }), Ok(Outcome::Found { scheme, generation })) => {
                assert(!solved_at(sv, generation as nat));
            },
            _ => {},
        }
    }
}

/// Run the seeded genetic search. Candidates come only from the proposer's
/// `seed` and `vary`; acceptance is only a zero residual.
pub fn run(config: &Config) -> (r: Result<Outcome, EngineError>)
    requires
        config.predicate.wf(),
        search_fits(
            config.predicate.target_tensor().entries@,
            config.predicate.target_tensor().dim as int,
            config.predicate.required_rank() as int,
        ),
    ensures
        run_result(search_view(config), config.generations, r),
{
    let ghost sv = search_view(config);
    match config.validate() {
        Ok(()) => {},
        Err(e) => {
            return Err(e);
        },
    }
    let proposer = GaProposer::new(config.predicate.dim(), config.predicate.rank(), config.ga);
    let mut rng = SplitMix64::new(config.seed);
    let mut pop = proposer.seed(&mut rng);
    assert(pop_view(pop@) =~= generation(sv, 0).0);
    let mut trajectory: Vec<i64> = Vec::new();
    let mut gen: usize = 0;
    assert(trajectory@ =~= Seq::new(0, |k: int| best_at(sv, k as nat).1 as i64));
    loop
        invariant
            sv == search_view(config),
            config_ok(sv),
            validate_spec(config.ga, config.generations) is Ok,
            config.predicate.wf(),
            search_fits(sv.target, sv.d as int, sv.rank as int),
            proposer.dim() == sv.d,
            proposer.genome_rank() == sv.rank,
            proposer.config() == sv.cfg,
            gen <= config.generations,
            pop_view(pop@) == generation(sv, gen as nat).0,
            rng@ == generation(sv, gen as nat).1,
            trajectory@ == Seq::new(gen as nat, |k: int| best_at(sv, k as nat).1 as i64),
            forall|k: nat| k < gen ==> !#[trigger] solved_at(sv, k),
            sv.rank == 0 && sv.d != 0 ==> gen == 0,
            gen > 0 ==> sv.d > 0 && sv.rank > 0,
        decreases config.generations - gen,
    {
        proof {
            lemma_generation_shape(sv, gen as nat);
            assert forall|i: int| 0 <= i < pop@.len() implies genome_shape(
                #[trigger] pop@[i]@,
                sv.d as int,
                sv.rank as int,
            ) by {
                assert(pop_view(pop@)[i] == pop@[i]@);
            }
        }
        let ghost gen_pop = generation(sv, gen as nat).0;
        let scored = match score(&config.predicate, pop, Ghost(sv.rank as int)) {
            Ok(s) => s,
            Err(e) => {
                return Err(e);
            },
        };
        let ghost rk = ranked_pop(gen_pop, sv.target, sv.d as int);
        proof {
            lemma_ranked_members(gen_pop, sv.target, sv.d as int);
            assert(scored_view(scored@) == rk);
            assert(scored_view(scored@)[0] == (scored@[0].0@, scored@[0].1 as int));
        }
        let best_residual = scored[0].1;
        assert(best_residual == best_at(sv, gen as nat).1);
        if best_residual == 0 {
            proof {
                lemma_best_is_shaped(sv, gen as nat);
            }
            let scheme = scored[0].0.duplicate();
            return Ok(Outcome::Found { scheme, generation: gen });
        }
        trajectory.push(best_residual);
        assert(trajectory@ =~= Seq::new((gen + 1) as nat, |k: int| best_at(sv, k as nat).1 as i64));
        if gen == config.generations {
            proof {
                assert forall|i: int| 0 <= i < trajectory@.len() implies #[trigger] trajectory@[i] > 0 by {
                    lemma_best_is_shaped(sv, i as nat);
                    lemma_search_fits(best_at(sv, i as nat).0, sv.target, sv.d as int, sv.rank as int);
                    assert(trajectory@[i] == best_at(sv, i as nat).1 as i64);
                    if i < gen {
                        assert(!solved_at(sv, i as nat));
                    }
                }
                assert forall|i: int, j: int|
                    0 <= i <= j < trajectory@.len() implies #[trigger] trajectory@[j] <= #[trigger] trajectory@[i] by {
                    lemma_best_is_shaped(sv, i as nat);
                    lemma_best_is_shaped(sv, j as nat);
                    lemma_search_fits(best_at(sv, i as nat).0, sv.target, sv.d as int, sv.rank as int);
                    lemma_search_fits(best_at(sv, j as nat).0, sv.target, sv.d as int, sv.rank as int);
                    lemma_best_monotone(sv, i as nat, j as nat);
                    assert(trajectory@[i] == best_at(sv, i as nat).1 as i64);
                    assert(trajectory@[j] == best_at(sv, j as nat).1 as i64);
                }
            }
            let best = scored[0].0.duplicate();
            return Ok(Outcome::Exhausted { best, best_residual, trajectory });
        }
        proof {
            // A positive residual needs a non-empty tensor, and a rank-0 search
            // of a non-empty tensor already failed in `score`.
            if sv.d == 0 {
                assert(residual_of(rk[0].0, sv.target, 0) == 0);
            }
            assert forall|i: int| 0 <= i < scored@.len() implies genome_dims(
                #[trigger] scored@[i].0@,
                sv.d as int,
                sv.rank as int,
            ) by {
                assert(scored_view(scored@)[i] == (scored@[i].0@, scored@[i].1 as int));
                let j = choose|j: int|
                    0 <= j < gen_pop.len() && rk[i] == (gen_pop[j], residual_of(gen_pop[j], sv.target, sv.d as int));
            }
        }
        let ghost old_rng = rng@;
        let next = proposer.vary(&scored, &mut rng);
        proof {
            let parents = rk.map_values(|x: (GenomeView, int)| x.0);
            assert(ranked_genomes(scored@) =~= parents) by {
                assert forall|i: int| 0 <= i < scored@.len() implies #[trigger] ranked_genomes(scored@)[i]
                    == parents[i] by {
                    assert(scored_view(scored@)[i] == (scored@[i].0@, scored@[i].1 as int));
                }
            }
            let want = vary_spec(rk, old_rng, sv);
            assert(pop_view(next@) =~= want) by {
                assert forall|i: int| 0 <= i < next@.len() implies #[trigger] pop_view(next@)[i] == want[i] by {
                    let ec = elite_count(sv.cfg.elitism as int, rk.len() as int);
                    if i < ec {
                        assert(scored_view(scored@)[i] == (scored@[i].0@, scored@[i].1 as int));
                    }
                }
            }
        }
        pop = next;
        gen = gen + 1;
    }
}

/// The matmul search under its generic-seam name: it runs `run` itself, so
/// the same configuration gives the same outcome (`lemma_run_result_is_unique`
/// states it of any two answers that meet this contract).
pub fn run_matmul_generic(config: &Config) -> (r: Result<Outcome, EngineError>)
    requires
        config.predicate.wf(),
        search_fits(
            config.predicate.target_tensor().entries@,
            config.predicate.target_tensor().dim as int,
            config.predicate.required_rank() as int,
        ),
    ensures
        run_result(search_view(config), config.generations, r),
{
    run(config)
}

} // verus!
