use std::f64::consts::TAU;

use ufl::geo::GeoExpr;
use ufl::render::{blade_name, decimal_string, render, Ctx};

/// A parameter to 3 significant figures (trailing zeros trimmed).
fn fmt_param(bits: u64) -> String {
    let x = f64::from_bits(bits);
    if x == 0.0 {
        return "0".to_string();
    }
    let magnitude = x.abs().log10().floor() as i32;
    let decimals = (2 - magnitude).clamp(0, 12) as usize;
    let s = format!("{x:.decimals$}");
    if s.contains('.') {
        s.trim_end_matches('0').trim_end_matches('.').to_string()
    } else {
        s
    }
}

fn text(e: &GeoExpr) -> String {
    render(e, &fmt_param)
}

fn param(x: f64) -> GeoExpr {
    GeoExpr::Param(x.to_bits())
}

/// The keystone form renders as a `let`-bound rotor sandwich `R v ~R`.
#[test]
fn keystone_renders_as_let_bound_sandwich() {
    let form = GeoExpr::Sandwich(
        Box::new(GeoExpr::Exp(Box::new(GeoExpr::GeoProduct(
            Box::new(param(-TAU / 8.0)),
            Box::new(GeoExpr::Basis(3)),
        )))),
        Box::new(GeoExpr::Var("v".into())),
    );
    let s = text(&form);
    assert!(s.contains("let R = exp("), "expected a let-bound rotor, got:\n{s}");
    assert!(s.contains("e₁₂"), "expected the e₁₂ plane, got:\n{s}");
    assert!(s.contains("R v ~R"), "expected the sandwich body `R v ~R`, got:\n{s}");
    assert_eq!(s, "let R = exp(-0.785 e₁₂)\nR v ~R");
}

/// Blade names are correct across grades (`e₀` is the null generator;
/// subscripts in ascending generator order).
#[test]
fn blade_names_across_grades() {
    let cases = [
        (0u8, "1"),
        (1, "e₁"),
        (2, "e₂"),
        (4, "e₃"),
        (8, "e₀"),
        (3, "e₁₂"),
        (9, "e₀₁"),
        (7, "e₁₂₃"),
        (15, "e₀₁₂₃"),
    ];
    for (i, want) in cases {
        assert_eq!(text(&GeoExpr::Basis(i)), want, "blade {i}");
    }
}

/// A deeply-nested versor sandwich renders in bounded length.
#[test]
fn nested_sandwich_stays_bounded() {
    let mut e = GeoExpr::Var("v".into());
    for _ in 0..12 {
        e = GeoExpr::Sandwich(Box::new(e), Box::new(GeoExpr::Var("v".into())));
    }
    let s = text(&e);
    assert!(
        s.len() < 4000,
        "12-deep nested sandwich must stay bounded, got {} chars",
        s.len(),
    );
}

/// Product chains are parenthesised: a wedge inside a geometric product is
/// wrapped.
#[test]
fn product_chains_are_parenthesised() {
    let form = GeoExpr::GeoProduct(
        Box::new(GeoExpr::Wedge(
            Box::new(GeoExpr::Basis(1)),
            Box::new(GeoExpr::Basis(2)),
        )),
        Box::new(GeoExpr::Basis(3)),
    );
    let s = text(&form);
    assert!(s.contains("(e₁∧e₂)"), "wedge inside a product must be parenthesised, got: {s}");
    assert_eq!(s, "(e₁∧e₂) e₁₂");
}

#[test]
fn functional_forms_and_out_of_range_blades() {
    let e = GeoExpr::Inner(
        Box::new(GeoExpr::GradeProject(2, Box::new(GeoExpr::Var("w".into())))),
        Box::new(GeoExpr::Reverse(Box::new(GeoExpr::GradeLift(1, Box::new(param(1.5)))))),
    );
    assert_eq!(text(&e), "⟨w⟩_2·(~𝒢_1(1.5))");
    assert_eq!(blade_name(16), "e?16");
    assert_eq!(blade_name(255), "e?255");
    assert_eq!(text(&param(0.0)), "0");
}

#[test]
fn fresh_names_run_past_the_alphabet() {
    let mut ctx = Ctx::new();
    let names: Vec<String> = (0..9).map(|_| ctx.fresh()).collect();
    assert_eq!(names, ["R", "S", "T", "U", "V", "W", "R7", "R8", "R9"]);
    assert_eq!(ctx.next, 9);
    assert_eq!(decimal_string(0), "0");
    assert_eq!(decimal_string(1234567), "1234567");
}

/// Two non-atom rotors get successive names, in dependency order.
#[test]
fn nested_rotors_bind_in_order() {
    let inner = GeoExpr::Sandwich(
        Box::new(GeoExpr::Exp(Box::new(GeoExpr::Basis(3)))),
        Box::new(GeoExpr::Basis(1)),
    );
    let outer = GeoExpr::Sandwich(Box::new(GeoExpr::Exp(Box::new(inner))), Box::new(GeoExpr::Var("v".into())));
    assert_eq!(
        text(&outer),
        "let R = exp(e₁₂)\nlet S = exp(R e₁ ~R)\nS v ~S"
    );
}
