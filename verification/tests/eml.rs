use ufl::eml::{first_unbound_var, Eml};

/// `Eml::one()` is the literal `1` leaf and only the literal `1` leaf.
#[test]
fn ac1_one_constructor() {
    assert_eq!(Eml::one(), Eml::One);
}

/// `Eml::var(name)` constructs a named-variable leaf, no other variant.
#[test]
fn ac1_var_constructor() {
    assert_eq!(Eml::var("z"), Eml::Var("z".into()));
}

/// `Eml::node(a, b)` constructs the binary `eml` node with the
/// `exp_arg` / `log_arg` asymmetry preserved.
#[test]
fn ac1_node_constructor() {
    let n = Eml::node(Eml::one(), Eml::var("x"));
    match n {
        Eml::Node {
            ref exp_arg,
            ref log_arg,
        } => {
            assert_eq!(**exp_arg, Eml::One);
            assert_eq!(**log_arg, Eml::Var("x".into()));
        }
        ref other => panic!("expected Eml::Node, got {other:?}"),
    }
}

#[test]
fn ac1_constructors_produce_only_grammar_variants() {
    assert!(matches!(Eml::one(), Eml::One));

    match Eml::var("x") {
        Eml::Var(name) => assert_eq!(name, "x"),
        other => panic!("Eml::var should produce Eml::Var, got {other:?}"),
    }

    match Eml::node(Eml::one(), Eml::var("y")) {
        Eml::Node { exp_arg, log_arg } => {
            assert_eq!(*exp_arg, Eml::One);
            assert_eq!(*log_arg, Eml::Var("y".into()));
        }
        other => panic!("Eml::node should produce Eml::Node, got {other:?}"),
    }
}

fn classify(e: &Eml) -> &'static str {
    match e {
        Eml::One => "one",
        Eml::Var(_) => "var",
        Eml::Node { .. } => "node",
    }
}

#[test]
fn ac1_grammar_is_exhaustive_three_variants() {
    assert_eq!(classify(&Eml::one()), "one");
    assert_eq!(classify(&Eml::var("x")), "var");
    assert_eq!(classify(&Eml::node(Eml::one(), Eml::one())), "node");
}

/// The floating-point self-correction of the complex logarithm relies on
/// `sin(τ/2) ≠ 0` in `f64`.
#[test]
fn ac6_sin_tau_over_two_is_non_zero() {
    let s = std::f64::consts::PI.sin();
    assert_ne!(s, 0.0, "sin(τ/2) is exactly zero");
}

#[test]
fn ac6_sin_tau_over_two_is_non_zero_in_f64() {
    let s = std::f64::consts::PI.sin();
    assert_ne!(s, 0.0, "sin(τ/2) is exactly zero");
    assert!(
        s.abs() < 1e-10,
        "sin(τ/2) should be a small non-zero residue, got {s}"
    );
}

/// `eml(eml(1, x), eml(y, 1))`.
fn sample_tree() -> Eml {
    Eml::node(
        Eml::node(Eml::one(), Eml::var("x")),
        Eml::node(Eml::var("y"), Eml::one()),
    )
}

#[test]
fn clone_is_structurally_equal() {
    let t = sample_tree();
    let c = t.clone();
    assert_eq!(t, c);
    match c {
        Eml::Node { exp_arg, log_arg } => {
            assert_eq!(*exp_arg, Eml::node(Eml::one(), Eml::var("x")));
            assert_eq!(*log_arg, Eml::node(Eml::var("y"), Eml::one()));
        }
        other => panic!("clone changed the root, got {other:?}"),
    }
}

#[test]
fn equality_sees_every_difference() {
    let t = sample_tree();
    // a different name deep in the tree
    let renamed = Eml::node(
        Eml::node(Eml::one(), Eml::var("z")),
        Eml::node(Eml::var("y"), Eml::one()),
    );
    assert_ne!(t, renamed);
    // swapped arguments: the exp/log asymmetry matters
    let swapped = Eml::node(
        Eml::node(Eml::var("y"), Eml::one()),
        Eml::node(Eml::one(), Eml::var("x")),
    );
    assert_ne!(t, swapped);
    // a leaf against a node
    assert_ne!(Eml::one(), Eml::node(Eml::one(), Eml::one()));
    assert_ne!(Eml::var("x"), Eml::one());
    assert_eq!(Eml::var("x"), Eml::var("x"));
}

#[test]
fn long_chains_clone_and_compare() {
    let mut t = Eml::var("x");
    for _ in 0..2_000 {
        t = Eml::node(t, Eml::one());
    }
    let c = t.clone();
    assert!(t == c);
    let mut u = Eml::var("w");
    for _ in 0..2_000 {
        u = Eml::node(u, Eml::one());
    }
    assert!(t != u);
}

// ── the literal primitive-tree builders over `one` and `node` ───────────────

/// `exp(z) = eml(z, 1)`.
fn exp_t(z: Eml) -> Eml {
    Eml::node(z, Eml::one())
}

/// `e = eml(1, 1)`.
fn e_t() -> Eml {
    Eml::node(Eml::one(), Eml::one())
}

/// `0 = eml(1, exp(e))`.
fn zero_t() -> Eml {
    Eml::node(Eml::one(), exp_t(e_t()))
}

/// `ln(y) = eml(1, eml(eml(1, y), 1))`.
fn ln_t(y: Eml) -> Eml {
    Eml::node(Eml::one(), Eml::node(Eml::node(Eml::one(), y), Eml::one()))
}

/// `a − b = eml(ln a, exp b)`.
fn sub_t(a: Eml, b: Eml) -> Eml {
    Eml::node(ln_t(a), exp_t(b))
}

/// `−b = 0 − b`.
fn neg_t(b: Eml) -> Eml {
    sub_t(zero_t(), b)
}

/// `a + b = a − (−b)`.
fn add_t(a: Eml, b: Eml) -> Eml {
    sub_t(a, neg_t(b))
}

/// `a × b = exp(ln a + ln b)`.
fn mul_t(a: Eml, b: Eml) -> Eml {
    exp_t(add_t(ln_t(a), ln_t(b)))
}

/// `NAND(a, b) = 1 − (a × b)`.
fn nand_t(a: Eml, b: Eml) -> Eml {
    sub_t(Eml::one(), mul_t(a, b))
}

fn not_t(a: Eml) -> Eml {
    nand_t(a.clone(), a)
}

fn and_t(a: Eml, b: Eml) -> Eml {
    not_t(nand_t(a, b))
}

fn or_t(a: Eml, b: Eml) -> Eml {
    nand_t(not_t(a), not_t(b))
}

fn nodes(e: &Eml) -> usize {
    match e {
        Eml::One | Eml::Var(_) => 1,
        Eml::Node { exp_arg, log_arg } => 1 + nodes(exp_arg) + nodes(log_arg),
    }
}

fn depth(e: &Eml) -> usize {
    match e {
        Eml::One | Eml::Var(_) => 1,
        Eml::Node { exp_arg, log_arg } => 1 + depth(exp_arg).max(depth(log_arg)),
    }
}

#[test]
fn size_laws() {
    assert_eq!(nodes(&nand_t(Eml::one(), Eml::one())), 51, "NAND = 50·1 + 1");
    assert_eq!(nodes(&and_t(Eml::one(), Eml::one())), 151, "AND = 50·3 + 1");
    assert_eq!(nodes(&or_t(Eml::one(), Eml::one())), 151, "OR = 50·3 + 1");
    assert_eq!(depth(&nand_t(Eml::one(), Eml::one())), 13, "eml-depth = 10·g + 3");
    let mut t = Eml::one();
    for g in 1..=6usize {
        t = not_t(t);
        assert_eq!(nodes(&t), 50 * (1 << g) - 49, "NOT^{g} nodes");
        assert_eq!(depth(&t), 10 * g + 3, "NOT^{g} depth");
    }
}

#[test]
fn the_first_unbound_variable_is_found_in_evaluation_order() {
    let e = Eml::node(
        Eml::node(Eml::var("x"), Eml::var("y")),
        Eml::node(Eml::one(), Eml::var("z")),
    );
    let bound = |names: &[&str]| names.iter().map(|n| n.to_string()).collect::<Vec<String>>();
    assert_eq!(first_unbound_var(&e, &bound(&[])), Some("x".to_string()));
    assert_eq!(first_unbound_var(&e, &bound(&["x"])), Some("y".to_string()));
    assert_eq!(first_unbound_var(&e, &bound(&["x", "y"])), Some("z".to_string()));
    assert_eq!(first_unbound_var(&e, &bound(&["z", "y", "x"])), None);
    assert_eq!(first_unbound_var(&Eml::one(), &bound(&[])), None);
    let mut deep = Eml::var("w");
    for _ in 0..2_000 {
        deep = Eml::node(Eml::one(), deep);
    }
    assert_eq!(first_unbound_var(&deep, &bound(&["v"])), Some("w".to_string()));
}
