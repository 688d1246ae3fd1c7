use ufl::engine::{run, run_matmul_generic, Config, EngineError, Outcome};
use ufl::predicate::{reconstruct, RankDecomposition, SchemeError, Tensor};
use ufl::prng::SplitMix64;
use ufl::proposer::{GaConfig, Genome};

const GENERATIONS: usize = 1500;

/// The planted triples, `d = 4`, true rank ≤ 4, searched at rank 5.
const PLANTED: [([i8; 4], [i8; 4], [i8; 4]); 5] = [
    ([0, 0, 1, 0], [1, 1, 0, 0], [1, 1, -1, 0]),
    ([-1, 1, 0, 0], [-1, -1, 1, 1], [1, -1, 0, -1]),
    ([0, 0, -1, 0], [-1, -1, 0, 1], [-1, 0, -1, 1]),
    ([0, 0, 1, 1], [-1, 0, 1, 1], [0, 0, 0, 1]),
    ([0, 0, 0, 0], [1, 0, 1, -1], [-1, 0, 1, 0]),
];

/// The 7-term Strassen 2×2 scheme (row-major `a11 a12 a21 a22`).
const STRASSEN: [([i8; 4], [i8; 4], [i8; 4]); 7] = [
    ([1, 0, 0, 1], [1, 0, 0, 1], [1, 0, 0, 1]),
    ([0, 0, 1, 1], [1, 0, 0, 0], [0, 0, 1, -1]),
    ([1, 0, 0, 0], [0, 1, 0, -1], [0, 1, 0, 1]),
    ([0, 0, 0, 1], [-1, 0, 1, 0], [1, 0, 1, 0]),
    ([1, 1, 0, 0], [0, 0, 0, 1], [-1, 1, 0, 0]),
    ([-1, 0, 1, 0], [1, 1, 0, 0], [0, 0, 0, 1]),
    ([0, 1, 0, -1], [0, 0, 1, 1], [1, 0, 0, 0]),
];

fn scheme_from(table: &[([i8; 4], [i8; 4], [i8; 4])]) -> Genome {
    Genome {
        triples: table
            .iter()
            .map(|(u, v, w)| [u.to_vec(), v.to_vec(), w.to_vec()])
            .collect(),
    }
}

fn planted_scheme() -> Genome {
    scheme_from(&PLANTED)
}

fn planted_predicate() -> RankDecomposition {
    RankDecomposition::for_target(reconstruct(&planted_scheme()).expect("well formed"), 5)
}

fn strassen_scheme() -> Genome {
    scheme_from(&STRASSEN)
}

fn pinned_config(predicate: RankDecomposition, seed: u64) -> Config {
    Config {
        predicate,
        generations: GENERATIONS,
        seed,
        ga: GaConfig::pinned(),
    }
}

const SMOKE_SEED: u64 = 3;

#[test]
fn ac_smoke_planted_recovery_found() {
    let outcome = run(&pinned_config(planted_predicate(), SMOKE_SEED))
        .expect("a valid config must run without error");
    match outcome {
        Outcome::Found { scheme, generation } => {
            assert!(generation <= GENERATIONS);
            assert_eq!(planted_predicate().discharge(&scheme), Ok(true));
        }
        Outcome::Exhausted { best_residual, .. } => panic!(
            "seed {SMOKE_SEED} must recover the planted target, got Exhausted (residual {best_residual})"
        ),
    }
}

#[test]
fn ac1_determinism_same_seed_identical_outcome() {
    let first = run(&pinned_config(planted_predicate(), 0)).expect("first run should succeed");
    let second = run(&pinned_config(planted_predicate(), 0)).expect("second run should succeed");
    assert_eq!(first, second);
}

fn assert_discharge_residual_equivalence(p: &RankDecomposition, s: &Genome, label: &str) {
    match p.residual(s) {
        Ok(r) => assert_eq!(
            p.discharge(s),
            Ok(r == 0 && s.triples.len() == p.rank()),
            "({label}): discharge must equal Ok(residual==0 && rank matches)"
        ),
        Err(e) => assert_eq!(
            p.discharge(s),
            Err(e),
            "({label}): a residual Err must surface as the same discharge Err"
        ),
    }
}

#[test]
fn ac2_discharge_residual_equivalence_exact_matmul() {
    let p = RankDecomposition::new(2, 7);
    let s = strassen_scheme();
    assert_eq!(p.residual(&s), Ok(0), "exact Strassen has residual 0");
    assert_discharge_residual_equivalence(&p, &s, "exact matmul");
}

#[test]
fn ac2_discharge_residual_equivalence_wrong_reconstruction() {
    let mut table = STRASSEN;
    table[0].0[0] = -1;
    let s = scheme_from(&table);
    let p = RankDecomposition::new(2, 7);
    assert!(p.residual(&s) != Ok(0));
    assert_discharge_residual_equivalence(&p, &s, "wrong reconstruction");
}

#[test]
fn ac2_discharge_residual_equivalence_wrong_rank() {
    let s = planted_scheme();
    let p = RankDecomposition::for_target(reconstruct(&s).expect("well formed"), 4);
    assert_eq!(p.residual(&s), Ok(0));
    assert_eq!(p.discharge(&s), Ok(false));
    assert_discharge_residual_equivalence(&p, &s, "wrong rank");
}

#[test]
fn ac2_discharge_residual_equivalence_dim_mismatch() {
    let mut e = vec![0i8; 9];
    e[0] = 1;
    let s = Genome {
        triples: vec![[e.clone(), e.clone(), e]],
    };
    let p = planted_predicate();
    assert!(p.residual(&s).is_err());
    assert!(p.discharge(&s).is_err());
    assert_discharge_residual_equivalence(&p, &s, "dim mismatch");
    assert_eq!(
        p.residual(&s),
        Err(SchemeError::DimMismatch {
            n: 2,
            expected: 4,
            got: 9
        })
    );
}

#[test]
fn a_ragged_genome_is_a_length_error() {
    let s = Genome {
        triples: vec![[vec![1, 0], vec![0, 1], vec![1, 0]], [vec![1, 0], vec![1], vec![0, 0]]],
    };
    let p = RankDecomposition::new(2, 2);
    assert_eq!(
        p.residual(&s),
        Err(SchemeError::LengthMismatch {
            expected: 2,
            got: 1
        })
    );
    assert_eq!(p.discharge(&s), p.residual(&s).map(|_| false));
}

fn config_with(ga: GaConfig, generations: usize) -> Config {
    Config {
        predicate: RankDecomposition::new(2, 7),
        generations,
        seed: 0,
        ga,
    }
}

#[test]
fn config_validate_accepts_pinned() {
    assert_eq!(config_with(GaConfig::pinned(), GENERATIONS).validate(), Ok(()));
}

#[test]
fn config_validate_rejects_zero_population() {
    let ga = GaConfig {
        population: 0,
        ..GaConfig::pinned()
    };
    assert_eq!(
        config_with(ga, GENERATIONS).validate(),
        Err(EngineError::EmptyPopulation)
    );
}

#[test]
fn config_validate_rejects_zero_generations() {
    assert_eq!(
        config_with(GaConfig::pinned(), 0).validate(),
        Err(EngineError::ZeroGenerations)
    );
}

#[test]
fn config_validate_rejects_zero_elitism() {
    let ga = GaConfig {
        elitism: 0,
        ..GaConfig::pinned()
    };
    assert_eq!(
        config_with(ga, GENERATIONS).validate(),
        Err(EngineError::ZeroElitism)
    );
}

#[test]
fn config_validate_rejects_zero_tournament() {
    let ga = GaConfig {
        tournament_size: 0,
        ..GaConfig::pinned()
    };
    assert_eq!(
        config_with(ga, GENERATIONS).validate(),
        Err(EngineError::ZeroTournament)
    );
}

#[test]
fn config_validate_rejects_elitism_exceeding_population() {
    let ga = GaConfig {
        population: 4,
        elitism: 5,
        ..GaConfig::pinned()
    };
    assert_eq!(
        config_with(ga, GENERATIONS).validate(),
        Err(EngineError::ElitismExceedsPopulation {
            elitism: 5,
            population: 4,
        })
    );
}

#[test]
fn run_propagates_scheme_error() {
    let config = Config {
        predicate: RankDecomposition::new(1, 0),
        generations: 1,
        seed: 0,
        ga: GaConfig::pinned(),
    };
    let result = run(&config);
    if let Err(EngineError::Scheme(SchemeError::DimMismatch { n, expected, got })) = result {
        assert_eq!(n, 1);
        assert_eq!(expected, 1);
        assert_eq!(got, 0);
    } else {
        panic!("Expected EngineError::Scheme(DimMismatch), got {:?}", result);
    }
}

fn stream(seed: u64, n: usize) -> Vec<u64> {
    let mut rng = SplitMix64::new(seed);
    (0..n).map(|_| rng.next_u64()).collect()
}

#[test]
fn splitmix64_same_seed_same_stream() {
    assert_eq!(stream(0, 16), stream(0, 16));
    assert_eq!(stream(42, 16), stream(42, 16));
}

#[test]
fn splitmix64_different_seeds_differ() {
    assert_ne!(stream(0, 16), stream(1, 16));
}

/// The first outputs of the seed-0 stream (the published SplitMix64 values).
#[test]
fn splitmix64_known_values() {
    assert_eq!(
        stream(0, 3),
        vec![0xE220_A839_7B1D_CDAF, 0x6E78_9E6A_A1B9_65F4, 0x06C4_5D18_8009_454F]
    );
}

#[test]
fn planted_fixture_shape() {
    let s = planted_scheme();
    assert_eq!(s.triples.len(), 5, "the planted fixture has 5 triples");
    assert!(
        s.triples.iter().all(|t| t.iter().all(|v| v.len() == 4)),
        "the planted fixture has dim 4"
    );
    assert_eq!(ufl::predicate::express(&s), Ok(4), "the planted fixture has dim 4");
    let p = planted_predicate();
    assert_eq!(p.dim(), 4);
    assert_eq!(p.rank(), 5);
    assert_eq!(p.residual(&s), Ok(0));
}

#[test]
fn matmul_fixture_shape() {
    assert_eq!(Tensor::matmul(2).dim, 4);
    let p7 = RankDecomposition::new(2, 7);
    assert_eq!(p7.dim(), 4);
    assert_eq!(p7.rank(), 7);
    assert_eq!(p7.residual(&strassen_scheme()), Ok(0));
}

fn config(n: usize, rank: usize, generations: usize, population: usize, seed: u64) -> Config {
    Config {
        predicate: RankDecomposition::new(n, rank),
        generations,
        seed,
        ga: GaConfig {
            population,
            tournament_size: 5,
            mutation_count: 2,
            elitism: 4,
        },
    }
}

#[test]
fn generic_seam_is_byte_identical_to_run() {
    let cases = [(1, 1, 5, 30), (1, 2, 8, 40), (2, 7, 12, 60), (2, 8, 6, 50)];
    for (n, rank, gens, pop) in cases {
        for seed in 0u64..6 {
            let cfg = config(n, rank, gens, pop, seed);
            let original = run(&cfg).expect("run");
            let rehosted = run_matmul_generic(&cfg).expect("run_matmul_generic");
            assert_eq!(
                original, rehosted,
                "outcome diverged at n={n} rank={rank} gens={gens} pop={pop} seed={seed}",
            );
        }
    }
}

#[test]
fn generic_seam_matches_run_on_a_solvable_run() {
    let cfg = config(1, 1, 3, 20, 123);
    assert_eq!(run(&cfg).unwrap(), run_matmul_generic(&cfg).unwrap());
}

/// An exhausted run reports one best residual per generation, never rising,
/// ending at the reported best.
#[test]
fn exhausted_trajectory_is_monotone_and_complete() {
    let cfg = config(2, 7, 12, 60, 0);
    match run(&cfg).expect("run") {
        Outcome::Exhausted {
            best,
            best_residual,
            trajectory,
        } => {
            assert_eq!(trajectory.len(), 13);
            for w in trajectory.windows(2) {
                assert!(w[1] <= w[0]);
            }
            assert!(trajectory.iter().all(|&r| r > 0));
            assert_eq!(*trajectory.last().unwrap(), best_residual);
            assert_eq!(best.triples.len(), 7);
            assert_eq!(RankDecomposition::new(2, 7).residual(&best), Ok(best_residual));
        }
        Outcome::Found { generation, .. } => panic!("unexpected Found at {generation}"),
    }
}

/// The `1×1` product is a single multiplication: a rank-1 search finds it.
#[test]
fn trivial_matmul_is_found() {
    match run(&config(1, 1, 5, 30, 0)).expect("run") {
        Outcome::Found { scheme, generation } => {
            assert!(generation <= 5);
            assert_eq!(RankDecomposition::new(1, 1).discharge(&scheme), Ok(true));
        }
        other => panic!("expected Found, got {other:?}"),
    }
}

// ── the tensor predicate over candidate batches ─────────────────────────────

/// Discharge `p` over every candidate, counting the satisfied ones; the
/// first typed error aborts the batch.
fn discharge_all(p: &RankDecomposition, candidates: &[Genome]) -> Result<usize, SchemeError> {
    let mut satisfied = 0;
    for c in candidates {
        if p.discharge(c)? {
            satisfied += 1;
        }
    }
    Ok(satisfied)
}

/// Strassen with one sign flipped: well-formed, wrong reconstruction.
fn broken_strassen_scheme() -> Genome {
    let mut table = STRASSEN;
    table[0].0[0] = -1;
    scheme_from(&table)
}

/// A single `e₀⊗e₀⊗e₀` triple of length `d`.
fn unit_triple_scheme(d: usize) -> Genome {
    let mut e = vec![0i8; d];
    e[0] = 1;
    Genome { triples: vec![[e.clone(), e.clone(), e]] }
}

/// Every single-entry mutation of the Strassen table: 168 variants.
fn mutated_strassen_variants() -> Vec<Genome> {
    let mut variants = Vec::new();
    for (t, (u, v, w)) in STRASSEN.iter().enumerate() {
        for (vec_sel, vector) in [u, v, w].into_iter().enumerate() {
            for (pos, &current) in vector.iter().enumerate() {
                for alt in [-1i8, 0, 1] {
                    if alt == current {
                        continue;
                    }
                    let mut table = STRASSEN;
                    let slot = match vec_sel {
                        0 => &mut table[t].0,
                        1 => &mut table[t].1,
                        _ => &mut table[t].2,
                    };
                    slot[pos] = alt;
                    variants.push(scheme_from(&table));
                }
            }
        }
    }
    variants
}

#[test]
fn ac1_generic_consumer_counts_tensor_batch() {
    let p27 = RankDecomposition::new(2, 7);
    let candidates = vec![strassen_scheme(), broken_strassen_scheme()];
    assert_eq!(discharge_all(&p27, &candidates), Ok(1), "only the exact Strassen scheme counts");
}

#[test]
fn ac4_strassen_fixture_shape() {
    let exact = strassen_scheme();
    assert_eq!(exact.triples.len(), 7, "the Strassen fixture has 7 triples");
    assert_eq!(ufl::predicate::express(&exact), Ok(4), "the Strassen fixture has dim 4");
    let broken = broken_strassen_scheme();
    assert_eq!(broken.triples.len(), 7, "the broken variant keeps rank 7");
    assert_eq!(ufl::predicate::express(&broken), Ok(4), "the broken variant keeps dim 4");
    assert_ne!(exact, broken, "the sign flip must actually change the scheme");
}

#[test]
fn ac4_strassen_discharges_true() {
    assert_eq!(RankDecomposition::new(2, 7).discharge(&strassen_scheme()), Ok(true));
}

#[test]
fn ac4_broken_strassen_discharges_false() {
    assert_eq!(RankDecomposition::new(2, 7).discharge(&broken_strassen_scheme()), Ok(false));
}

#[test]
fn ac5_dim_mismatch_is_err_regardless_of_rank_field() {
    let s = unit_triple_scheme(9);
    let expected_err = SchemeError::DimMismatch { n: 2, expected: 4, got: 9 };
    for rank in [7usize, 3, 1] {
        assert_eq!(
            RankDecomposition::new(2, rank).discharge(&s),
            Err(expected_err.clone()),
            "dim-9 vs n=2 must be Err(DimMismatch) at rank field {rank}"
        );
    }
}

#[test]
fn ac5_empty_scheme_is_err_regardless_of_rank_field() {
    let expected_err = SchemeError::DimMismatch { n: 2, expected: 4, got: 0 };
    for rank in [7usize, 3] {
        assert_eq!(
            RankDecomposition::new(2, rank).discharge(&Genome { triples: vec![] }),
            Err(expected_err.clone()),
            "the empty scheme vs n=2 must be Err(DimMismatch) at rank field {rank}"
        );
    }
}

#[test]
fn ac5_n0_vacuous_empty_scheme_discharges_true() {
    assert_eq!(RankDecomposition::new(0, 0).discharge(&Genome { triples: vec![] }), Ok(true));
}

#[test]
fn ac6_mutation_fixture_covers_every_entry() {
    for (u, v, w) in &STRASSEN {
        for vector in [u, v, w] {
            assert!(vector.iter().any(|&c| c != 0), "no Strassen fixture vector is all-zero");
        }
    }
    let variants = mutated_strassen_variants();
    assert_eq!(variants.len(), 168, "single-entry mutation must cover 7·3·4·2 = 168 variants");
    let exact = strassen_scheme();
    for variant in &variants {
        assert_eq!(variant.triples.len(), 7, "every variant keeps rank 7");
        assert_eq!(ufl::predicate::express(variant), Ok(4), "every variant keeps dim 4");
        assert_ne!(*variant, exact, "every variant differs from the exact scheme");
    }
}

#[test]
fn ac6_generic_batch_counts_only_exact_schemes() {
    let p27 = RankDecomposition::new(2, 7);
    let mut batch = mutated_strassen_variants();
    batch.extend(std::iter::repeat_with(strassen_scheme).take(32));
    assert_eq!(batch.len(), 200, "the batch is 200 candidates");
    assert_eq!(discharge_all(&p27, &batch), Ok(32), "only the exact Strassen copies satisfy P_{{2,7}}");
}

/// The unbiased draw redraws an output above the largest multiple of `n`
/// that fits, and otherwise reduces it `mod n`.
#[test]
fn unbiased_below_redraws_the_short_top_interval() {
    let n: u64 = (1u64 << 63) + 1;
    let zone = u64::MAX - u64::MAX % n;
    let mut redrawn = 0;
    for seed in 0u64..64 {
        let mut rng = SplitMix64::new(seed);
        let mut reference = SplitMix64::new(seed);
        let expected = loop {
            let x = reference.next_u64();
            if x < zone {
                break x % n;
            }
            redrawn += 1;
        };
        assert_eq!(rng.below(n), expected, "seed {seed}");
        assert_eq!(rng.state(), reference.state(), "seed {seed}");
    }
    assert!(redrawn > 0, "some seed draws in the rejected interval first");
    let mut rng = SplitMix64::new(5);
    for m in 1u64..50 {
        assert!(rng.below(m) < m);
    }
}
