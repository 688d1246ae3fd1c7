use ufl::geo::{children, lowest_blade, node_count, nth_subtree, param_count, replace_nth, GeoExpr};
use ufl::grade::{even_grades, subset_of, witness_ctx, GradeCtx, GradeSet};
use ufl::typing::GradeScreen;

#[test]
fn even_grades_is_exactly_zero_two_four() {
    let even = even_grades();
    for k in [0usize, 2, 4] {
        assert!(even.contains(k), "grade {k} must be in the even set");
    }
    for k in [1usize, 3] {
        assert!(!even.contains(k), "grade {k} must not be");
    }
}

fn bx(e: GeoExpr) -> Box<GeoExpr> {
    Box::new(e)
}

fn param(x: f64) -> GeoExpr {
    GeoExpr::Param(x.to_bits())
}

fn product(a: GeoExpr, b: GeoExpr) -> GeoExpr {
    GeoExpr::GeoProduct(bx(a), bx(b))
}

/// `Exp((−½·t)·e₁₂)`: 6 nodes, 1 parameter.
fn rotor(joint: &str) -> GeoExpr {
    GeoExpr::Exp(bx(product(
        product(param(-0.5), GeoExpr::Var(joint.to_owned())),
        GeoExpr::Basis(3),
    )))
}

/// `Exp((L/2)·e₁e₀)`: 4 nodes, 1 parameter.
fn translator(link: f64) -> GeoExpr {
    GeoExpr::Exp(bx(product(param(0.5 * link), GeoExpr::Basis(9))))
}

/// The planar-arm witness `Sandwich(R·T·R·T, e₁₂₃)`.
fn witness(l1: f64, l2: f64) -> GeoExpr {
    let limb = |joint: &str, link: f64| product(rotor(joint), translator(link));
    GeoExpr::Sandwich(
        bx(product(limb("t1", l1), limb("t2", l2))),
        bx(GeoExpr::Basis(7)),
    )
}

#[test]
fn node_and_param_counts_are_the_headline_numbers() {
    // Leaves.
    assert_eq!(node_count(&GeoExpr::Param(0)), 1);
    assert_eq!(node_count(&GeoExpr::Basis(3)), 1);
    assert_eq!(node_count(&GeoExpr::Var("t1".to_owned())), 1);
    // Unary and binary arities, so `children` is exercised on both shapes.
    assert_eq!(node_count(&GeoExpr::Exp(Box::new(param(1.0)))), 2);
    assert_eq!(node_count(&product(param(1.0), param(2.0))), 3);
    // The witness and its motor.
    let w = witness(1.0, 0.7);
    assert_eq!(node_count(&w), 25);
    assert_eq!(param_count(&w), 4);
    match &w {
        GeoExpr::Sandwich(motor, _) => {
            assert_eq!(node_count(motor), 23);
            assert_eq!(param_count(motor), 4);
        }
        other => panic!("expected a sandwich, got {other:?}"),
    }
}

#[test]
fn children_follow_the_arity() {
    let leaf = GeoExpr::Basis(1);
    assert!(matches!(children(&leaf), [None, None]));
    let unary = GeoExpr::Reverse(bx(GeoExpr::Basis(2)));
    assert!(matches!(children(&unary), [Some(GeoExpr::Basis(2)), None]));
    let binary = GeoExpr::Wedge(bx(GeoExpr::Basis(1)), bx(GeoExpr::Basis(4)));
    assert!(matches!(
        children(&binary),
        [Some(GeoExpr::Basis(1)), Some(GeoExpr::Basis(4))]
    ));
}

#[test]
fn preorder_selection_and_replacement() {
    // GeoProduct(Reverse(e1), Wedge(e2, v)): pre-order 0..6
    let e = product(
        GeoExpr::Reverse(bx(GeoExpr::Basis(1))),
        GeoExpr::Wedge(bx(GeoExpr::Basis(2)), bx(GeoExpr::Var("v".into()))),
    );
    assert_eq!(node_count(&e), 6);
    assert!(matches!(nth_subtree(&e, 0), GeoExpr::GeoProduct(..)));
    assert!(matches!(nth_subtree(&e, 1), GeoExpr::Reverse(_)));
    assert!(matches!(nth_subtree(&e, 2), GeoExpr::Basis(1)));
    assert!(matches!(nth_subtree(&e, 3), GeoExpr::Wedge(..)));
    assert!(matches!(nth_subtree(&e, 4), GeoExpr::Basis(2)));
    assert!(matches!(nth_subtree(&e, 5), GeoExpr::Var(_)));
    // past the end: the whole tree
    assert!(matches!(nth_subtree(&e, 6), GeoExpr::GeoProduct(..)));

    let r = replace_nth(&e, 3, &GeoExpr::Basis(8));
    assert_eq!(node_count(&r), 4);
    assert!(matches!(nth_subtree(&r, 3), GeoExpr::Basis(8)));
    assert!(matches!(nth_subtree(&r, 2), GeoExpr::Basis(1)));
    let unchanged = replace_nth(&e, 99, &GeoExpr::Basis(8));
    assert_eq!(node_count(&unchanged), 6);
    assert!(matches!(nth_subtree(&unchanged, 5), GeoExpr::Var(_)));
    let root = replace_nth(&e, 0, &GeoExpr::Basis(0));
    assert!(matches!(root, GeoExpr::Basis(0)));
}

#[test]
fn replacement_keeps_parameter_bits() {
    let e = product(param(0.25), param(-3.0));
    let r = replace_nth(&e, 2, &param(1.5));
    match r {
        GeoExpr::GeoProduct(a, b) => {
            assert!(matches!(*a, GeoExpr::Param(x) if f64::from_bits(x) == 0.25));
            assert!(matches!(*b, GeoExpr::Param(x) if f64::from_bits(x) == 1.5));
        }
        other => panic!("expected a product, got {other:?}"),
    }
}

#[test]
fn lowest_blades_per_grade() {
    assert_eq!(lowest_blade(0), Some(0));
    assert_eq!(lowest_blade(1), Some(1));
    assert_eq!(lowest_blade(2), Some(3));
    assert_eq!(lowest_blade(3), Some(7));
    assert_eq!(lowest_blade(4), Some(15));
    assert_eq!(lowest_blade(5), None);
    assert_eq!(lowest_blade(255), None);
}

#[test]
fn grade_set_operations() {
    let s = GradeSet::singleton(1).with(3);
    assert!(s.contains(1) && s.contains(3) && !s.contains(2));
    assert_eq!(s.grades(), vec![1, 3]);
    assert!(GradeSet::empty().is_empty());
    assert!(!s.is_empty());
    let top = GradeSet::full(4);
    assert_eq!(top.grades(), vec![0, 1, 2, 3, 4]);
    assert!(!top.contains(5));
    assert!(subset_of(s, &[1, 2, 3]));
    assert!(!subset_of(s, &[1, 2]));
    assert!(subset_of(GradeSet::empty(), &[]));
}

#[test]
fn context_declarations_and_default_top() {
    let mut ctx = GradeCtx::new();
    ctx.declare("v", GradeSet::singleton(1));
    assert_eq!(ctx.get(&"v".to_string()), GradeSet::singleton(1));
    assert_eq!(ctx.get(&"u".to_string()), GradeSet::full(4));
    ctx.declare("v", GradeSet::singleton(2));
    assert_eq!(ctx.get(&"v".to_string()), GradeSet::singleton(2));
    let w = witness_ctx();
    assert_eq!(w.get(&"t1".to_string()), GradeSet::singleton(0));
    assert_eq!(w.get(&"t2".to_string()), GradeSet::singleton(0));
    assert_eq!(w.get(&"t3".to_string()), GradeSet::full(4));
    let _screen = GradeScreen::new(w);
}
