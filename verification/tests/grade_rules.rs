use std::f64::consts::TAU;

use ufl::geo::{param_bits, with_params, GeoExpr};
use ufl::grade::{GradeCtx, GradeSet, N};
use ufl::prng::SplitMix64;
use ufl::typing::{grade, typecheck, CatalogOp, GradeError};

/// The structural output grades of the `Cl(3,0,1)` catalog forms over grades
/// `0..=4`: the geometric product spans `|a−b| ..= min(a+b, 2N−a−b)` in steps
/// of two, the wedge adds, the Hestenes inner subtracts (and vanishes on a
/// scalar), reverse keeps its grades, and a projection keeps grade `k`.
fn kernel(op: CatalogOp, a: GradeSet, b: GradeSet) -> GradeSet {
    let n = N;
    let mut out = GradeSet::empty();
    match op {
        CatalogOp::Geometric => {
            for x in a.grades() {
                for y in b.grades() {
                    let lo = x.abs_diff(y);
                    let hi = (x + y).min((2 * n).saturating_sub(x + y));
                    let mut g = lo;
                    while g <= hi {
                        out = out.with(g);
                        g += 2;
                    }
                }
            }
        }
        CatalogOp::Wedge => {
            for x in a.grades() {
                for y in b.grades() {
                    if x + y <= n {
                        out = out.with(x + y);
                    }
                }
            }
        }
        CatalogOp::Inner => {
            for x in a.grades() {
                for y in b.grades() {
                    if x > 0 && y > 0 {
                        out = out.with(x.abs_diff(y));
                    }
                }
            }
        }
        CatalogOp::Reverse => out = a,
        CatalogOp::GradeProject(k) => {
            if a.contains(k as usize) {
                out = out.with(k as usize);
            }
        }
    }
    out
}

fn grade_of(e: &GeoExpr, ctx: &GradeCtx) -> GradeSet {
    grade(e, ctx, &kernel)
}

fn check(e: &GeoExpr, ctx: &GradeCtx) -> Result<GradeSet, GradeError> {
    typecheck(e, ctx, &kernel)
}

fn bx(e: GeoExpr) -> Box<GeoExpr> {
    Box::new(e)
}

fn param(x: f64) -> GeoExpr {
    GeoExpr::Param(x.to_bits())
}

/// e12 — the grade-2 bivector blade.
const E12: u8 = 3;

/// `Sandwich(Exp(GeoProduct(Param(−τ/8), Basis(e12))), Basis(e1))`.
fn keystone() -> GeoExpr {
    let rotor = GeoExpr::Exp(bx(GeoExpr::GeoProduct(bx(param(-TAU / 8.0)), bx(GeoExpr::Basis(E12)))));
    GeoExpr::Sandwich(bx(rotor), bx(GeoExpr::Basis(1)))
}

// ── the reference rules, written out directly ──────────────────────────────

fn old_subset_of(g: GradeSet, allowed: &[usize]) -> bool {
    g.grades().iter().all(|k| allowed.contains(k))
}

fn old_is_versor(r: &GeoExpr, ctx: &GradeCtx) -> bool {
    match r {
        GeoExpr::Exp(b) => old_subset_of(old_grade(b, ctx), &[2]),
        GeoExpr::GeoProduct(a, b) => old_is_versor(a, ctx) && old_is_versor(b, ctx),
        GeoExpr::Basis(i) => *i < 16 && i.count_ones() == 1,
        GeoExpr::Reverse(a) => old_is_versor(a, ctx),
        _ => false,
    }
}

fn old_grade(e: &GeoExpr, ctx: &GradeCtx) -> GradeSet {
    let two = |op: CatalogOp, a: &GeoExpr, b: &GeoExpr| kernel(op, old_grade(a, ctx), old_grade(b, ctx));
    match e {
        GeoExpr::Param(_) => GradeSet::singleton(0),
        GeoExpr::Basis(i) => {
            if *i >= 16 {
                GradeSet::full(N)
            } else {
                GradeSet::singleton(i.count_ones() as usize)
            }
        }
        GeoExpr::Var(_) => grade_of(e, ctx),
        GeoExpr::GradeLift(k, _) => {
            if *k > 4 {
                GradeSet::full(N)
            } else {
                GradeSet::singleton(*k as usize)
            }
        }
        GeoExpr::GeoProduct(a, b) => two(CatalogOp::Geometric, a, b),
        GeoExpr::Wedge(a, b) => two(CatalogOp::Wedge, a, b),
        GeoExpr::Inner(a, b) => two(CatalogOp::Inner, a, b),
        GeoExpr::Reverse(a) => kernel(CatalogOp::Reverse, old_grade(a, ctx), GradeSet::empty()),
        GeoExpr::GradeProject(k, a) => {
            if *k > 4 {
                GradeSet::empty()
            } else {
                kernel(CatalogOp::GradeProject(*k), old_grade(a, ctx), GradeSet::empty())
            }
        }
        GeoExpr::Sandwich(r, x) => {
            if old_is_versor(r, ctx) {
                old_grade(x, ctx)
            } else {
                let rg = old_grade(r, ctx);
                let rx = kernel(CatalogOp::Geometric, rg, old_grade(x, ctx));
                kernel(CatalogOp::Geometric, rx, rg)
            }
        }
        GeoExpr::Exp(a) => {
            let g = old_grade(a, ctx);
            if old_subset_of(g, &[0]) {
                GradeSet::singleton(0)
            } else if old_subset_of(g, &[0, 2]) {
                GradeSet::empty().with(0).with(2).with(4)
            } else {
                GradeSet::full(N)
            }
        }
    }
}

fn old_typecheck(e: &GeoExpr, ctx: &GradeCtx) -> Result<GradeSet, GradeError> {
    match e {
        GeoExpr::Param(_) | GeoExpr::Var(_) => {}
        GeoExpr::Basis(i) => {
            if *i >= 16 {
                return Err(GradeError::BadBlade(*i));
            }
        }
        GeoExpr::GradeLift(k, a) | GeoExpr::GradeProject(k, a) => {
            if *k > 4 {
                return Err(GradeError::BadGrade(*k));
            }
            old_typecheck(a, ctx)?;
        }
        GeoExpr::Reverse(a) | GeoExpr::Exp(a) => {
            old_typecheck(a, ctx)?;
        }
        GeoExpr::GeoProduct(a, b) | GeoExpr::Wedge(a, b) | GeoExpr::Inner(a, b) | GeoExpr::Sandwich(a, b) => {
            old_typecheck(a, ctx)?;
            old_typecheck(b, ctx)?;
        }
    }
    let g = old_grade(e, ctx);
    if g.is_empty() {
        Err(GradeError::Incoherent(e.clone()))
    } else {
        Ok(g)
    }
}

/// `v: {1}`, `w: {0, 2}`, `z: ∅`; `u` undeclared (⊤).
fn ctx_all() -> GradeCtx {
    let mut ctx = GradeCtx::new();
    ctx.declare("v", GradeSet::singleton(1));
    ctx.declare("w", GradeSet::empty().with(0).with(2));
    ctx.declare("z", GradeSet::empty());
    ctx
}

/// `bₖ₊₁ = Sandwich(Exp(bₖ), Basis(1))`, `b₀ = Basis(1)`.
fn shape_c(k: usize) -> GeoExpr {
    let mut b = GeoExpr::Basis(1);
    for _ in 0..k {
        b = GeoExpr::Sandwich(bx(GeoExpr::Exp(bx(b))), bx(GeoExpr::Basis(1)));
    }
    b
}

/// A random `GeoExpr` over all 11 variants: `Basis` 0..=255 (half the leaf
/// draws in range), `k ∈ {0..=5, 31, 32, 255}`, `Var`s over `v`/`w`/`z`/`u`.
fn rand_tree(rng: &mut SplitMix64, depth: usize) -> GeoExpr {
    const KS: [u8; 9] = [0, 1, 2, 3, 4, 5, 31, 32, 255];
    const PARAMS: [f64; 4] = [-1.0, -0.5, 0.5, 1.0];
    const VARS: [&str; 4] = ["v", "w", "z", "u"];
    if depth == 0 || rng.below(4) == 0 {
        return match rng.below(4) {
            0 => param(PARAMS[rng.below(4) as usize]),
            1 => GeoExpr::Basis(rng.below(256) as u8),
            2 => GeoExpr::Var(VARS[rng.below(4) as usize].into()),
            _ => GeoExpr::Basis(rng.below(16) as u8),
        };
    }
    let k = KS[rng.below(9) as usize];
    let kind = rng.below(8);
    let a = bx(rand_tree(rng, depth - 1));
    match kind {
        0 => GeoExpr::GradeLift(k, a),
        1 => GeoExpr::GeoProduct(a, bx(rand_tree(rng, depth - 1))),
        2 => GeoExpr::Wedge(a, bx(rand_tree(rng, depth - 1))),
        3 => GeoExpr::Inner(a, bx(rand_tree(rng, depth - 1))),
        4 => GeoExpr::Reverse(a),
        5 => GeoExpr::GradeProject(k, a),
        6 => GeoExpr::Sandwich(a, bx(rand_tree(rng, depth - 1))),
        _ => GeoExpr::Exp(a),
    }
}

fn children_of(e: &GeoExpr) -> Vec<&GeoExpr> {
    match e {
        GeoExpr::Param(_) | GeoExpr::Basis(_) | GeoExpr::Var(_) => vec![],
        GeoExpr::GradeLift(_, a) | GeoExpr::Reverse(a) | GeoExpr::GradeProject(_, a) | GeoExpr::Exp(a) => vec![a],
        GeoExpr::GeoProduct(a, b) | GeoExpr::Wedge(a, b) | GeoExpr::Inner(a, b) | GeoExpr::Sandwich(a, b) => {
            vec![a, b]
        }
    }
}

fn variant_index(e: &GeoExpr) -> usize {
    match e {
        GeoExpr::Param(_) => 0,
        GeoExpr::Basis(_) => 1,
        GeoExpr::Var(_) => 2,
        GeoExpr::GradeLift(..) => 3,
        GeoExpr::GeoProduct(..) => 4,
        GeoExpr::Wedge(..) => 5,
        GeoExpr::Inner(..) => 6,
        GeoExpr::Reverse(_) => 7,
        GeoExpr::GradeProject(..) => 8,
        GeoExpr::Sandwich(..) => 9,
        GeoExpr::Exp(_) => 10,
    }
}

fn mark_variants(e: &GeoExpr, seen: &mut [bool; 11]) {
    seen[variant_index(e)] = true;
    for c in children_of(e) {
        mark_variants(c, seen);
    }
}

fn verdict_index(r: &Result<GradeSet, GradeError>) -> usize {
    match r {
        Ok(_) => 0,
        Err(GradeError::Incoherent(_)) => 1,
        Err(GradeError::BadBlade(_)) => 2,
        Err(GradeError::BadGrade(_)) => 3,
    }
}

// ── the AST ─────────────────────────────────────────────────────────────────

#[test]
fn ac1_geoexpr_is_clone_debug_partialeq() {
    let form = keystone();
    let cloned = form.clone();
    assert_eq!(form, cloned, "a cloned GeoExpr must equal its original");
    assert!(!format!("{form:?}").is_empty(), "GeoExpr must be Debug-inspectable");
    let other = param(1.0);
    assert_ne!(form, other, "structurally different forms must compare unequal");
    assert_ne!(param(1.0), param(2.0), "Param(1.0) and Param(2.0) must compare unequal");
    assert_ne!(GeoExpr::Basis(1), GeoExpr::Basis(2), "Basis(1) and Basis(2) must compare unequal");
}

#[test]
fn ac5_homoiconic_ast_reader_deferred() {
    let form = keystone();
    assert_eq!(form, form.clone(), "GeoExpr is the constructor-built homoiconic AST");
}

// ── grade inference ────────────────────────────────────────────────────────

#[test]
fn ac3_leaf_grades() {
    let ctx = GradeCtx::new();
    assert_eq!(grade_of(&param(1.0), &ctx), GradeSet::singleton(0));
    assert_eq!(grade_of(&GeoExpr::Basis(E12), &ctx), GradeSet::singleton(2));
}

#[test]
fn ac3_product_grade_rules() {
    let ctx = GradeCtx::new();
    assert_eq!(
        grade_of(&GeoExpr::Wedge(bx(GeoExpr::Basis(1)), bx(GeoExpr::Basis(2))), &ctx),
        GradeSet::singleton(2),
        "wedge adds grades: e1∧e2 ∈ {{2}}",
    );
    assert_eq!(
        grade_of(&GeoExpr::Inner(bx(GeoExpr::Basis(1)), bx(GeoExpr::Basis(2))), &ctx),
        GradeSet::singleton(0),
        "Hestenes inner subtracts grades: e1·e2 ∈ {{0}}",
    );
    assert_eq!(
        grade_of(&GeoExpr::GeoProduct(bx(GeoExpr::Basis(1)), bx(GeoExpr::Basis(1))), &ctx),
        GradeSet::empty().with(0).with(2),
        "geo product of two grade-1s spans {{0, 2}}",
    );
}

#[test]
fn ac3_reverse_project_lift_grades() {
    let ctx = GradeCtx::new();
    assert_eq!(
        grade_of(&GeoExpr::Reverse(bx(GeoExpr::Basis(E12))), &ctx),
        GradeSet::singleton(2),
        "reverse preserves grade",
    );
    assert_eq!(
        grade_of(
            &GeoExpr::GradeProject(2, bx(GeoExpr::Wedge(bx(GeoExpr::Basis(1)), bx(GeoExpr::Basis(2))))),
            &ctx,
        ),
        GradeSet::singleton(2),
        "grade-project to a present grade keeps it",
    );
    assert_eq!(
        grade_of(&GeoExpr::GradeLift(2, bx(param(3.0))), &ctx),
        GradeSet::singleton(2),
        "grade-lift k produces {{k}}",
    );
}

#[test]
fn ac3_out_of_range_leaves_are_top_not_panic() {
    let ctx = GradeCtx::new();
    assert_eq!(grade_of(&GeoExpr::Basis(16), &ctx), GradeSet::full(4), "Basis(16) must be ⊤");
    assert_eq!(
        grade_of(&GeoExpr::GradeLift(5, bx(param(1.0))), &ctx),
        GradeSet::full(4),
        "GradeLift(5, ..) must be ⊤",
    );
}

#[test]
fn ac4_keystone_grade_is_vector() {
    let g = grade_of(&keystone(), &GradeCtx::new());
    assert_eq!(g, GradeSet::singleton(1), "a rotated vector is still a vector");
}

#[test]
fn ac4_nonversor_fallback_is_strict_superset_of_vector() {
    let mut ctx = GradeCtx::new();
    ctx.declare("m", GradeSet::empty().with(0).with(1));
    let nonversor = GeoExpr::Sandwich(bx(GeoExpr::Var("m".into())), bx(GeoExpr::Basis(1)));
    let g = grade_of(&nonversor, &ctx);
    assert!(g.contains(1), "soundness: the fallback bound must still contain grade 1, got {g:?}");
    assert!(g.len() > 1, "the non-versor fallback over-approximates, got {g:?}");
}

// ── coherence ──────────────────────────────────────────────────────────────

#[test]
fn ac6_coherent_form_typechecks_to_its_grade() {
    assert_eq!(check(&keystone(), &GradeCtx::new()), Ok(GradeSet::singleton(1)));
}

#[test]
fn ac6_incoherent_grade_project_is_rejected() {
    let incoherent = GeoExpr::GradeProject(3, bx(GeoExpr::Wedge(bx(GeoExpr::Basis(1)), bx(GeoExpr::Basis(2)))));
    match check(&incoherent, &GradeCtx::new()) {
        Err(GradeError::Incoherent(_)) => {}
        other => panic!("projecting a grade-2 bivector to grade 3 must be Incoherent, got {other:?}"),
    }
}

#[test]
fn ac6_out_of_range_leaves_are_typed_errors() {
    let ctx = GradeCtx::new();
    assert_eq!(check(&GeoExpr::Basis(16), &ctx), Err(GradeError::BadBlade(16)));
    assert_eq!(check(&GeoExpr::GradeProject(5, bx(param(1.0))), &ctx), Err(GradeError::BadGrade(5)));
}

#[test]
fn gradeproject_grade_is_total_no_overflow_panic() {
    let ctx = GradeCtx::new();
    let child = bx(param(1.0));
    for k in [5u8, 6, 31, 32, 64, 99, 255] {
        let e = GeoExpr::GradeProject(k, child.clone());
        let g = grade_of(&e, &ctx);
        assert!(g.is_empty(), "GradeProject({k}, scalar) projects onto an absent grade → ∅, got {g:?}");
        assert_eq!(check(&e, &ctx), Err(GradeError::BadGrade(k)));
    }
}

// ── agreement with the reference rules ──────────────────────────────────────

#[test]
fn ac3_differential_on_random_trees() {
    let ctx = ctx_all();
    let mut rng = SplitMix64::new(0x0020_D1FF);
    let mut seen = [false; 11];
    let mut verdicts = [0usize; 4];
    for _ in 0..30_000 {
        let t = rand_tree(&mut rng, 7);
        mark_variants(&t, &mut seen);
        assert_eq!(grade_of(&t, &ctx), old_grade(&t, &ctx), "`grade` diverges on {t:?}");
        let want = old_typecheck(&t, &ctx);
        assert_eq!(check(&t, &ctx), want, "`typecheck` diverges on {t:?}");
        verdicts[verdict_index(&want)] += 1;
    }
    assert!(seen.iter().all(|&s| s), "every variant appears: {seen:?}");
    assert!(
        verdicts.iter().all(|&n| n >= 100),
        "every verdict appears [ok, incoherent, badblade, badgrade]: {verdicts:?}",
    );
}

#[test]
fn ac3_differential_shape_c_pinned() {
    let ctx = ctx_all();
    for k in 0..=16 {
        let t = shape_c(k);
        assert_eq!(grade_of(&t, &ctx), old_grade(&t, &ctx), "`grade` diverges on shape (C) k={k}");
        assert_eq!(check(&t, &ctx), old_typecheck(&t, &ctx), "`typecheck` diverges on shape (C) k={k}");
    }
}

#[test]
fn ac3_var_leaf_reads_the_declaration() {
    let ctx = ctx_all();
    let var = |n: &str| GeoExpr::Var(n.into());
    assert_eq!(grade_of(&var("v"), &ctx), GradeSet::singleton(1));
    assert_eq!(grade_of(&var("w"), &ctx), GradeSet::empty().with(0).with(2));
    assert_eq!(grade_of(&var("z"), &ctx), GradeSet::empty());
    assert_eq!(grade_of(&var("u"), &ctx), GradeSet::full(4));
    assert_eq!(check(&var("u"), &ctx), Ok(GradeSet::full(4)));
    assert_eq!(check(&var("z"), &ctx), Err(GradeError::Incoherent(var("z"))));
}

#[test]
fn ac3_error_precedence_four_named_cases() {
    let ctx = ctx_all();
    let p = || bx(param(1.0));
    let z = || GeoExpr::Var("z".into());
    let cases = [
        (
            "own BadBlade before the child's BadGrade",
            GeoExpr::Sandwich(bx(GeoExpr::Basis(20)), bx(GeoExpr::GradeProject(9, p()))),
            GradeError::BadBlade(20),
        ),
        (
            "own BadGrade before descent into a BadBlade",
            GeoExpr::GradeProject(9, bx(GeoExpr::Basis(20))),
            GradeError::BadGrade(9),
        ),
        (
            "Incoherent carries the INNER projection",
            GeoExpr::GradeProject(2, bx(GeoExpr::GradeProject(3, p()))),
            GradeError::Incoherent(GeoExpr::GradeProject(3, p())),
        ),
        (
            "left child's post-order Incoherent beats right child's BadBlade",
            GeoExpr::GeoProduct(bx(z()), bx(GeoExpr::Basis(20))),
            GradeError::Incoherent(z()),
        ),
    ];
    for (label, e, want) in cases {
        assert_eq!(old_typecheck(&e, &ctx), Err(want.clone()), "oracle: {label}");
        assert_eq!(check(&e, &ctx), Err(want), "precedence: {label}");
    }
}

// ── parameter slots ─────────────────────────────────────────────────────────

fn ctx_v1() -> GradeCtx {
    let mut ctx = GradeCtx::new();
    ctx.declare("v", GradeSet::singleton(1));
    ctx
}

/// A mixed tree with three `Param` leaves at known pre-order positions.
fn mixed_tree() -> GeoExpr {
    GeoExpr::Sandwich(
        bx(GeoExpr::Exp(bx(GeoExpr::GeoProduct(bx(param(-0.5)), bx(GeoExpr::Basis(3)))))),
        bx(GeoExpr::GeoProduct(
            bx(GeoExpr::GradeLift(2, bx(param(1.5)))),
            bx(GeoExpr::GeoProduct(bx(GeoExpr::Var("v".into())), bx(param(2.5)))),
        )),
    )
}

fn values(e: &GeoExpr) -> Vec<f64> {
    param_bits(e).into_iter().map(f64::from_bits).collect()
}

#[test]
fn slots_enumerate_the_same_preorder() {
    let e = mixed_tree();
    assert_eq!(values(&e), vec![-0.5, 1.5, 2.5], "pre-order snapshot");
    let slots = param_bits(&e);
    assert_eq!(slots.len(), 3, "three Param leaves");
    let written: Vec<u64> = (0..slots.len()).map(|i| (i as f64).to_bits()).collect();
    let e = with_params(&e, &written);
    assert_eq!(values(&e), vec![0.0, 1.0, 2.0], "writes land in order");
}

#[test]
fn param_writes_never_change_the_typecheck_verdict() {
    let ctx = ctx_v1();
    let coherent = mixed_tree();
    let incoherent = GeoExpr::Sandwich(
        bx(GeoExpr::GradeLift(2, bx(param(0.0)))),
        bx(GeoExpr::Var("v".into())),
    );
    let poison = [f64::NAN, f64::INFINITY, f64::NEG_INFINITY, 0.0, 1e300, -1.0];
    for tree in [coherent, incoherent] {
        let before = check(&tree, &ctx);
        for p in poison {
            let slots = param_bits(&tree).len();
            let t = with_params(&tree, &vec![p.to_bits(); slots]);
            let after = check(&t, &ctx);
            assert_eq!(before.is_ok(), after.is_ok(), "is_ok() must be invariant under Param poison {p}");
            if let (Ok(g0), Ok(g1)) = (&before, &after) {
                assert_eq!(g0, g1, "Ok(GradeSet) must be invariant under {p}");
            }
        }
    }
}

#[test]
fn writing_back_the_read_values_changes_nothing() {
    let e = mixed_tree();
    assert_eq!(with_params(&e, &param_bits(&e)), e);
    assert_eq!(with_params(&GeoExpr::Basis(1), &[]), GeoExpr::Basis(1));
}
