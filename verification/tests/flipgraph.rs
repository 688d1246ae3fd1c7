use ufl::flipgraph::{
    flip_at, naive, perturb, reconstruct_int, reduce, reduce_matmul, reduce_matmul_with,
    shared_factor_pairs, target_int, FlipConfig, FlipError, IntScheme, Variant,
};
use ufl::predicate::RankDecomposition;
use ufl::prng::SplitMix64;
use ufl::proposer::Genome;

/// The naive scheme *is* the target, term by term.
#[test]
fn naive_reconstructs_the_target_exactly() {
    for n in 1..=3 {
        assert_eq!(reconstruct_int(&naive(n)), target_int(n), "n = {n}");
    }
}

/// `flip_at` refuses a variant that is not the unique shared slot, a pair
/// with `i == j`, and an index out of range.
#[test]
fn flip_rejects_non_flip_pairs() {
    let s = naive(2);
    // Triples 0 and 1 of naive(2) share u (i=0,j=0) but differ in v and w.
    assert!(flip_at(&s, (0, 1), Variant::U).is_some());
    assert!(flip_at(&s, (0, 1), Variant::V).is_none());
    assert!(flip_at(&s, (0, 0), Variant::U).is_none(), "i == j");
    assert!(flip_at(&s, (0, 99), Variant::U).is_none(), "out of range");
}

/// A non-ternary state is a typed conversion error, never a truncation.
#[test]
fn to_scheme_guards_the_ternary_envelope() {
    let s = naive(2);
    let flipped = flip_at(&s, (0, 1), Variant::U).expect("applicable");
    let again = flip_at(&flipped, (0, 1), Variant::U).expect("applicable");
    if !again.is_ternary() {
        match again.to_scheme() {
            Err(FlipError::NonTernary { max_abs }) => assert!(max_abs > 1),
            other => panic!("expected NonTernary, got {other:?}"),
        }
    }
}

/// `T₁` is already rank 1 in its naive form: the driver answers at once
/// with a certified ternary genome.
#[test]
fn trivial_target_is_answered_from_the_start() {
    let g = reduce_matmul(1, 1, 0, 10).expect("rank 1 is the naive rank");
    assert_eq!(g.triples.len(), 1);
    assert_eq!(g.triples[0], [vec![1], vec![1], vec![1]]);
    assert_eq!(RankDecomposition::new(1, 1).discharge(&g), Ok(true));
}

/// Flip the sign of the first nonzero `w` coefficient of a certified scheme:
/// the verifier rejects it.
#[test]
fn a_corrupted_certificate_is_rejected() {
    let good = naive(2).to_scheme().expect("ternary");
    assert_eq!(RankDecomposition::new(2, 8).discharge(&good), Ok(true));
    let mut bad: Genome = good.clone();
    for t in bad.triples.iter_mut() {
        if let Some(x) = t[2].iter_mut().find(|x| **x != 0) {
            *x = -*x;
            break;
        }
    }
    assert_eq!(RankDecomposition::new(2, 8).discharge(&bad), Ok(false));
}

/// Every frontier pair flips to a scheme that still reconstructs `T₂`, and
/// a reduction never raises the rank.
#[test]
fn flips_and_reductions_preserve_the_tensor() {
    let s = naive(2);
    let want = target_int(2);
    let pairs = shared_factor_pairs(&s);
    assert!(!pairs.is_empty());
    for &(pair, variant) in &pairs {
        let f = flip_at(&s, pair, variant).expect("a frontier pair flips");
        assert_eq!(reconstruct_int(&f), want);
        let r = reduce(&f);
        assert!(r.rank() <= f.rank());
        assert_eq!(reconstruct_int(&r), want);
    }
}

#[test]
fn perturb_keeps_rank_and_tensor() {
    let s = naive(2);
    let mut rng = SplitMix64::new(7);
    let p = perturb(&s, 6, &mut rng);
    assert_eq!(p.rank(), s.rank());
    assert_eq!(p.dim(), 4);
    assert_eq!(reconstruct_int(&p), target_int(2));
}

#[test]
fn naive_shape_and_pinned_policy() {
    let s: IntScheme = naive(2);
    assert_eq!(s.rank(), 8);
    assert_eq!(s.dim(), 4);
    assert!(s.is_ternary());
    let g = s.to_scheme().expect("the naive scheme is ternary");
    assert_eq!(g.triples.len(), 8);
    let cfg = FlipConfig::pinned();
    assert_eq!(cfg.stall_window, 400);
    assert_eq!(cfg.perturb_flips, 6);
}

/// Asking for rank 0 of `T₁` cannot succeed: the report carries the best
/// exact rank reached.
#[test]
fn unreachable_rank_reports_the_best_reached() {
    assert_eq!(reduce_matmul(1, 0, 3, 50), Err(FlipError::NotFound { best_rank: 1 }));
}

/// The walk replayed through the public primitives: one draw over the
/// frontier per step, one draw per attempted flip in each kick.
fn replay(n: usize, target: usize, seed: u64, budget: usize, cfg: FlipConfig) -> Result<Genome, FlipError> {
    let mut rng = SplitMix64::new(seed);
    let mut s = reduce(&naive(n));
    if s.rank() <= target && s.is_ternary() {
        return s.to_scheme();
    }
    let mut best = s.duplicate();
    let mut stall = 0usize;
    for _ in 0..budget {
        let pairs = shared_factor_pairs(&s);
        if !pairs.is_empty() {
            let (pair, variant) = pairs[rng.below(pairs.len() as u64) as usize];
            if let Some(next) = flip_at(&s, pair, variant) {
                s = reduce(&next);
            }
        }
        if s.rank() <= target && s.is_ternary() {
            return s.to_scheme();
        }
        if s.rank() < best.rank() {
            best = s.duplicate();
            stall = 0;
        } else {
            stall += 1;
        }
        if stall >= cfg.stall_window {
            s = perturb(&best, cfg.perturb_flips, &mut rng);
            stall = 0;
        }
    }
    Err(FlipError::NotFound { best_rank: best.rank() })
}

#[test]
fn the_walk_replays_through_the_public_primitives() {
    let cfg = FlipConfig { stall_window: 25, perturb_flips: 3 };
    for seed in [0u64, 1, 7, 0xC0FFEE] {
        for budget in [0usize, 1, 40, 300] {
            let walked = reduce_matmul_with(2, 7, seed, budget, cfg);
            assert_eq!(walked, replay(2, 7, seed, budget, cfg), "seed {seed}, budget {budget}");
            if let Err(FlipError::NotFound { best_rank }) = walked {
                assert!(best_rank <= 8, "the best never exceeds the naive rank");
            }
        }
    }
}

#[test]
fn a_long_stall_free_walk_never_kicks() {
    // With a window beyond the budget no kick happens: the generator is
    // touched exactly once per step with a non-empty frontier.
    let cfg = FlipConfig { stall_window: 1000, perturb_flips: 9 };
    let walked = reduce_matmul_with(2, 7, 11, 60, cfg);
    assert_eq!(walked, replay(2, 7, 11, 60, cfg));
    assert_eq!(walked, replay(2, 7, 11, 60, FlipConfig { stall_window: 1000, perturb_flips: 0 }));
}

fn flat(s: &IntScheme) -> Vec<(Vec<i64>, Vec<i64>, Vec<i64>)> {
    s.triples().iter().map(|t| (t.u().to_vec(), t.v().to_vec(), t.w().to_vec())).collect()
}

#[test]
fn reducing_twice_is_reducing_once() {
    for seed in [1u64, 2, 3, 99] {
        let kicked = perturb(&naive(2), 12, &mut SplitMix64::new(seed));
        let once = reduce(&kicked);
        let twice = reduce(&once);
        assert_eq!(flat(&once), flat(&twice), "seed {seed}");
        assert!(once.rank() <= kicked.rank());
        assert_eq!(reconstruct_int(&once), target_int(2));
    }
}

/// Kicks of any size are accepted: every flip stays inside the envelope.
#[test]
fn large_kicks_are_accepted() {
    let cfg = FlipConfig { stall_window: 1, perturb_flips: 5_000 };
    match reduce_matmul_with(2, 7, 1, 40, cfg) {
        Err(FlipError::NotFound { best_rank }) => assert!(best_rank <= 8),
        Ok(g) => assert_eq!(RankDecomposition::new(2, 7).discharge(&g), Ok(true)),
        Err(other) => panic!("unexpected {other:?}"),
    }
    let kicked = perturb(&naive(2), 20_000, &mut SplitMix64::new(3));
    assert_eq!(kicked.rank(), 8);
    assert_eq!(reconstruct_int(&kicked), target_int(2));
}

// ── the headline: a certified rank-7 scheme for 2×2 matrix multiplication ──

/// A seed and budget at which the pinned walk reaches rank 7.
const RANK7_SEED: u64 = 2;
const RANK7_BUDGET: usize = 2_000_000;

#[test]
fn flip_graph_reaches_certified_rank7_t2() {
    let scheme = reduce_matmul(2, 7, RANK7_SEED, RANK7_BUDGET).expect("flip-graph reaches rank-7");
    assert_eq!(scheme.triples.len(), 7, "the prize is rank 7 (< the naive 8)");
    assert_eq!(
        RankDecomposition::new(2, 7).discharge(&scheme),
        Ok(true),
        "the exact verifier certifies an exact rank-7 decomposition",
    );
    assert_eq!(RankDecomposition::new(2, 7).discharge(&scheme), Ok(true));
    let mut rng = 0x1234_5678_9abc_def0u64;
    for _ in 0..20_000 {
        let a = rand_matrix(&mut rng);
        let b = rand_matrix(&mut rng);
        assert_eq!(
            apply_scheme(&scheme, &a, &b),
            matmul(&a, &b),
            "the scheme computes 2×2 matmul on A={a:?} B={b:?}",
        );
    }
}

#[test]
fn verifier_is_the_sole_judge() {
    let good = reduce_matmul(2, 7, RANK7_SEED, RANK7_BUDGET).expect("flip-graph reaches rank-7");
    let bad = corrupt_first_nonzero_w(&good);
    assert_ne!(
        RankDecomposition::new(2, 7).discharge(&bad),
        Ok(true),
        "a scheme with one flipped w-coefficient is never falsely certified",
    );
}

/// True 2×2 matmul, row-major flattened (`A[i][j]` at `i·2+j`).
fn matmul(a: &[i64; 4], b: &[i64; 4]) -> [i64; 4] {
    let m = |i: usize, k: usize| (0..2).map(|j| a[i * 2 + j] * b[j * 2 + k]).sum();
    [m(0, 0), m(0, 1), m(1, 0), m(1, 1)]
}

/// The decomposition as its bilinear algorithm:
/// `m_t = ⟨u_t, ā⟩ · ⟨v_t, b̄⟩`, then `C[r] = Σ_t w_t[r] · m_t`.
fn apply_scheme(s: &Genome, a: &[i64; 4], b: &[i64; 4]) -> [i64; 4] {
    let mut c = [0i64; 4];
    for [u, v, w] in &s.triples {
        let ua: i64 = u.iter().enumerate().map(|(p, &up)| up as i64 * a[p]).sum();
        let vb: i64 = v.iter().enumerate().map(|(q, &vq)| vq as i64 * b[q]).sum();
        let m = ua * vb;
        for (r, &wr) in w.iter().enumerate() {
            c[r] += wr as i64 * m;
        }
    }
    c
}

/// Flip the sign of the first nonzero `w` coefficient in the scheme.
fn corrupt_first_nonzero_w(s: &Genome) -> Genome {
    let mut out = s.clone();
    for t in out.triples.iter_mut() {
        if let Some(x) = t[2].iter_mut().find(|x| **x != 0) {
            *x = -*x;
            break;
        }
    }
    out
}

/// Random 2×2 integer matrix, entries in `[-3, 3]`, via inline splitmix64.
fn rand_matrix(rng: &mut u64) -> [i64; 4] {
    let mut m = [0i64; 4];
    for x in &mut m {
        *x = (next(rng) % 7) as i64 - 3;
    }
    m
}

fn next(rng: &mut u64) -> u64 {
    *rng = rng.wrapping_add(0x9E37_79B9_7F4A_7C15);
    let mut z = *rng;
    z = (z ^ (z >> 30)).wrapping_mul(0xBF58_476D_1CE4_E5B9);
    z = (z ^ (z >> 27)).wrapping_mul(0x94D0_49BB_1331_11EB);
    z ^ (z >> 31)
}
