use ufl::geo::GeoExpr;
use ufl::grade::{GradeCtx, GradeSet};
use ufl::typing::{grade, is_versor, typecheck, CatalogOp, GradeError, GradeScreen};

/// A stand-in structural signature for exercising the hand-ruled forms: the
/// products take the union of their inputs, reverse keeps its input, and a
/// grade projection keeps grade `k` if present.
fn toy(op: CatalogOp, a: GradeSet, b: GradeSet) -> GradeSet {
    match op {
        CatalogOp::Geometric | CatalogOp::Wedge | CatalogOp::Inner => GradeSet { bits: a.bits | b.bits },
        CatalogOp::Reverse => a,
        CatalogOp::GradeProject(k) => GradeSet {
            bits: a.bits & (1u32 << k),
        },
    }
}

fn bx(e: GeoExpr) -> Box<GeoExpr> {
    Box::new(e)
}

fn ctx_v() -> GradeCtx {
    let mut ctx = GradeCtx::new();
    ctx.declare("v", GradeSet::singleton(1));
    ctx.declare("z", GradeSet::empty());
    ctx
}

#[test]
fn leaf_grades() {
    let ctx = ctx_v();
    assert_eq!(grade(&GeoExpr::Param(0.5f64.to_bits()), &ctx, &toy), GradeSet::singleton(0));
    assert_eq!(grade(&GeoExpr::Basis(0), &ctx, &toy), GradeSet::singleton(0));
    assert_eq!(grade(&GeoExpr::Basis(3), &ctx, &toy), GradeSet::singleton(2));
    assert_eq!(grade(&GeoExpr::Basis(15), &ctx, &toy), GradeSet::singleton(4));
    assert_eq!(grade(&GeoExpr::Basis(16), &ctx, &toy), GradeSet::full(4));
    assert_eq!(grade(&GeoExpr::Var("v".into()), &ctx, &toy), GradeSet::singleton(1));
    assert_eq!(grade(&GeoExpr::Var("u".into()), &ctx, &toy), GradeSet::full(4));
    let lift = GeoExpr::GradeLift(2, bx(GeoExpr::Var("v".into())));
    assert_eq!(grade(&lift, &ctx, &toy), GradeSet::singleton(2));
    let bad_lift = GeoExpr::GradeLift(5, bx(GeoExpr::Basis(1)));
    assert_eq!(grade(&bad_lift, &ctx, &toy), GradeSet::full(4));
}

#[test]
fn out_of_range_projection_is_empty() {
    let ctx = ctx_v();
    for k in [5u8, 31, 32, 255] {
        let e = GeoExpr::GradeProject(k, bx(GeoExpr::Basis(1)));
        assert!(grade(&e, &ctx, &toy).is_empty(), "k = {k}");
    }
}

#[test]
fn exp_rules() {
    let ctx = ctx_v();
    let scalar = GeoExpr::Exp(bx(GeoExpr::Param(1.0f64.to_bits())));
    assert_eq!(grade(&scalar, &ctx, &toy), GradeSet::singleton(0));
    let rotor = GeoExpr::Exp(bx(GeoExpr::Basis(3)));
    assert_eq!(
        grade(&rotor, &ctx, &toy),
        GradeSet::empty().with(0).with(2).with(4)
    );
    let odd = GeoExpr::Exp(bx(GeoExpr::Basis(1)));
    assert_eq!(grade(&odd, &ctx, &toy), GradeSet::full(4));
}

#[test]
fn versor_witnesses() {
    let ctx = ctx_v();
    assert!(is_versor(&GeoExpr::Basis(1), &ctx, &toy));
    assert!(is_versor(&GeoExpr::Basis(8), &ctx, &toy));
    assert!(!is_versor(&GeoExpr::Basis(3), &ctx, &toy));
    assert!(!is_versor(&GeoExpr::Basis(0), &ctx, &toy));
    assert!(!is_versor(&GeoExpr::Basis(16), &ctx, &toy));
    assert!(is_versor(&GeoExpr::Exp(bx(GeoExpr::Basis(3))), &ctx, &toy));
    assert!(!is_versor(&GeoExpr::Exp(bx(GeoExpr::Param(0))), &ctx, &toy));
    // `Exp` of an ∅-graded operand: the vacuous witness
    assert!(is_versor(&GeoExpr::Exp(bx(GeoExpr::Var("z".into()))), &ctx, &toy));
    assert!(is_versor(
        &GeoExpr::GeoProduct(bx(GeoExpr::Basis(1)), bx(GeoExpr::Basis(2))),
        &ctx,
        &toy
    ));
    assert!(is_versor(&GeoExpr::Reverse(bx(GeoExpr::Basis(1))), &ctx, &toy));
    assert!(!is_versor(&GeoExpr::Var("v".into()), &ctx, &toy));
    assert!(!is_versor(
        &GeoExpr::Wedge(bx(GeoExpr::Basis(1)), bx(GeoExpr::Basis(2))),
        &ctx,
        &toy
    ));
}

#[test]
fn sandwich_rules() {
    let ctx = ctx_v();
    // a versor sandwich keeps the operand's grade
    let s = GeoExpr::Sandwich(bx(GeoExpr::Basis(1)), bx(GeoExpr::Var("v".into())));
    assert_eq!(grade(&s, &ctx, &toy), GradeSet::singleton(1));
    // otherwise the product bound (r ∗ x) ∗ r
    let n = GeoExpr::Sandwich(bx(GeoExpr::Basis(3)), bx(GeoExpr::Var("v".into())));
    assert_eq!(grade(&n, &ctx, &toy), GradeSet::singleton(1).with(2));
}

#[test]
fn typecheck_error_precedence() {
    let ctx = ctx_v();
    assert!(matches!(
        typecheck(&GeoExpr::Basis(16), &ctx, &toy),
        Err(GradeError::BadBlade(16))
    ));
    assert!(matches!(
        typecheck(&GeoExpr::GradeLift(9, bx(GeoExpr::Basis(16))), &ctx, &toy),
        Err(GradeError::BadGrade(9))
    ));
    // the left child's error wins over the right child's
    let both = GeoExpr::Wedge(
        bx(GeoExpr::GradeProject(7, bx(GeoExpr::Basis(1)))),
        bx(GeoExpr::Basis(200)),
    );
    assert!(matches!(typecheck(&both, &ctx, &toy), Err(GradeError::BadGrade(7))));
    // an incoherent projection reports the offending form
    let incoherent = GeoExpr::GradeProject(3, bx(GeoExpr::Basis(1)));
    match typecheck(&incoherent, &ctx, &toy) {
        Err(GradeError::Incoherent(GeoExpr::GradeProject(3, inner))) => {
            assert!(matches!(*inner, GeoExpr::Basis(1)))
        }
        other => panic!("expected Incoherent, got {other:?}"),
    }
    // a declared-empty variable is incoherent on its own
    assert!(matches!(
        typecheck(&GeoExpr::Var("z".into()), &ctx, &toy),
        Err(GradeError::Incoherent(_))
    ));
    let ok = GeoExpr::Exp(bx(GeoExpr::Basis(3)));
    assert_eq!(
        typecheck(&ok, &ctx, &toy).ok(),
        Some(GradeSet::empty().with(0).with(2).with(4))
    );
}

#[test]
fn param_values_never_change_the_verdict() {
    let ctx = ctx_v();
    for x in [0.0f64, -1.5, 1e300, f64::NAN] {
        let e = GeoExpr::Sandwich(
            bx(GeoExpr::Exp(bx(GeoExpr::GeoProduct(
                bx(GeoExpr::Param(x.to_bits())),
                bx(GeoExpr::Basis(3)),
            )))),
            bx(GeoExpr::Var("v".into())),
        );
        // not a provable versor under this signature: the product bound
        assert_eq!(
            typecheck(&e, &ctx, &toy).ok(),
            Some(GradeSet::empty().with(0).with(1).with(2).with(4))
        );
    }
}

#[test]
fn screen_admits_exactly_the_typechecking_forms() {
    let screen = GradeScreen::new(ctx_v());
    assert!(screen.admissible(&GeoExpr::Basis(1), &toy));
    assert!(!screen.admissible(&GeoExpr::Basis(99), &toy));
    assert!(!screen.admissible(&GeoExpr::GradeProject(3, bx(GeoExpr::Basis(1))), &toy));
}
