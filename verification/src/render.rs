//! Translate a `GeoExpr` back into geometric-algebra notation: `R v ~R` for
//! the versor sandwich, `exp(…)`, `e₁₂`, `⟨·⟩_k`, `𝒢_k(·)`. A sandwich whose
//! rotor is not an atom binds the rotor to a fresh name (`let R = …`), so a
//! nested versor is rendered once, not twice per level. Blade names (`e₀` is the null generator, bit 3; subscripts ascend
//! `0 < 1 < 2 < 3`, so blade 9 is `e₀₁`) and the fresh names that `let`-bound
//! rotors receive (`R, S, T, U, V, W`, then `R7, R8, …`).

use vstd::prelude::*;
use vstd::string::*;

use crate::geo::{GeoExpr, GeoTree, tree_size};

verus! {

/// The character of a decimal digit.
pub open spec fn digit_char(d: int) -> char {
    if d == 0 {
        '0'
    } else if d == 1 {
        '1'
    } else if d == 2 {
        '2'
    } else if d == 3 {
        '3'
    } else if d == 4 {
        '4'
    } else if d == 5 {
        '5'
    } else if d == 6 {
        '6'
    } else if d == 7 {
        '7'
    } else if d == 8 {
        '8'
    } else {
        '9'
    }
}

/// The decimal numeral of `n`, without leading zeros.
pub open spec fn decimal(n: nat) -> Seq<char>
    decreases n,
{
    if n < 10 {
        seq![digit_char(n as int)]
    } else {
        decimal(n / 10).push(digit_char((n % 10) as int))
    }
}

fn digit_str(d: usize) -> (s: &'static str)
    requires
        d < 10,
    ensures
        s@ == seq![digit_char(d as int)],
{
    proof {
        reveal_strlit("0");
        reveal_strlit("1");
        reveal_strlit("2");
        reveal_strlit("3");
        reveal_strlit("4");
        reveal_strlit("5");
        reveal_strlit("6");
        reveal_strlit("7");
        reveal_strlit("8");
        reveal_strlit("9");
    }
    if d == 0 {
        "0"
    } else if d == 1 {
        "1"
    } else if d == 2 {
        "2"
    } else if d == 3 {
        "3"
    } else if d == 4 {
        "4"
    } else if d == 5 {
        "5"
    } else if d == 6 {
        "6"
    } else if d == 7 {
        "7"
    } else if d == 8 {
        "8"
    } else {
        "9"
    }
}

/// The decimal numeral of `n`.
pub fn decimal_string(n: usize) -> (s: String)
    ensures
        s@ == decimal(n as nat),
    decreases n,
{
    if n < 10 {
        digit_str(n).to_owned()
    } else {
        let mut s = decimal_string(n / 10);
        let d = digit_str(n % 10);
        s.append(d);
        proof {
            assert(s@ =~= decimal((n / 10) as nat).push(digit_char((n % 10) as int)));
        }
        s
    }
}

/// The name of blade `i`: `1` for the scalar, `e?i` out of range, else `e`
/// followed by the subscripts of its generators in the order `0, 1, 2, 3`
/// (`e₀` is bit 3, `e₁` bit 0, `e₂` bit 1, `e₃` bit 2).
pub open spec fn blade_name_of(i: u8) -> Seq<char> {
    if i == 0 {
        seq!['1']
    } else if i >= 16 {
        seq!['e', '?'] + decimal(i as nat)
    } else {
        seq!['e'] + (if (i / 8) % 2 == 1 { seq!['₀'] } else { Seq::empty() }) + (if i % 2 == 1 {
            seq!['₁']
        } else {
            Seq::empty()
        }) + (if (i / 2) % 2 == 1 { seq!['₂'] } else { Seq::empty() }) + (if (i / 4) % 2 == 1 {
            seq!['₃']
        } else {
            Seq::empty()
        })
    }
}

/// The blade's name in the `Cl(3,0,1)` convention.
pub fn blade_name(i: u8) -> (s: String)
    ensures
        s@ == blade_name_of(i),
{
    proof {
        reveal_strlit("1");
        reveal_strlit("e?");
        reveal_strlit("e");
        reveal_strlit("₀");
        reveal_strlit("₁");
        reveal_strlit("₂");
        reveal_strlit("₃");
    }
    if i == 0 {
        return "1".to_owned();
    }
    if i >= 16 {
        let mut s = "e?".to_owned();
        let n = decimal_string(i as usize);
        s.append(n.as_str());
        return s;
    }
    let mut name = "e".to_owned();
    let ghost start = name@;
    if (i / 8) % 2 == 1 {
        name.append("₀");
    }
    let ghost s0 = name@;
    if i % 2 == 1 {
        name.append("₁");
    }
    let ghost s1 = name@;
    if (i / 2) % 2 == 1 {
        name.append("₂");
    }
    let ghost s2 = name@;
    if (i / 4) % 2 == 1 {
        name.append("₃");
    }
    proof {
        let z = if (i / 8) % 2 == 1 { seq!['₀'] } else { Seq::<char>::empty() };
        let a = if i % 2 == 1 { seq!['₁'] } else { Seq::<char>::empty() };
        let b = if (i / 2) % 2 == 1 { seq!['₂'] } else { Seq::<char>::empty() };
        let c = if (i / 4) % 2 == 1 { seq!['₃'] } else { Seq::<char>::empty() };
        assert(s0 =~= seq!['e'] + z);
        assert(s1 =~= seq!['e'] + z + a);
        assert(s2 =~= seq!['e'] + z + a + b);
        assert(name@ =~= seq!['e'] + z + a + b + c);
    }
    name
}

/// The name handed out as the `next`-th fresh rotor name.
pub open spec fn fresh_name(next: nat) -> Seq<char> {
    if next == 0 {
        seq!['R']
    } else if next == 1 {
        seq!['S']
    } else if next == 2 {
        seq!['T']
    } else if next == 3 {
        seq!['U']
    } else if next == 4 {
        seq!['V']
    } else if next == 5 {
        seq!['W']
    } else {
        seq!['R'] + decimal(next + 1)
    }
}

/// The rendering context: `let`-bound rotor definitions in dependency order,
/// and the count of names handed out.
pub struct Ctx {
    pub lets: Vec<(String, String)>,
    pub next: usize,
}

impl Ctx {
    /// No definitions, no names handed out.
    pub fn new() -> (r: Ctx)
        ensures
            r.lets@.len() == 0,
            r.next == 0,
    {
        Ctx { lets: Vec::new(), next: 0 }
    }

    /// A fresh name: `R, S, T, U, V, W`, then `R7, R8, …`.
    pub fn fresh(&mut self) -> (name: String)
        requires
            old(self).next < usize::MAX,
        ensures
            name@ == fresh_name(old(self).next as nat),
            final(self).next == old(self).next + 1,
            final(self).lets@ == old(self).lets@,
    {
        proof {
            reveal_strlit("R");
            reveal_strlit("S");
            reveal_strlit("T");
            reveal_strlit("U");
            reveal_strlit("V");
            reveal_strlit("W");
        }
        let name = if self.next == 0 {
            "R".to_owned()
        } else if self.next == 1 {
            "S".to_owned()
        } else if self.next == 2 {
            "T".to_owned()
        } else if self.next == 3 {
            "U".to_owned()
        } else if self.next == 4 {
            "V".to_owned()
        } else if self.next == 5 {
            "W".to_owned()
        } else {
            let mut s = "R".to_owned();
            let n = decimal_string(self.next + 1);
            s.append(n.as_str());
            s
        };
        self.next = self.next + 1;
        name
    }
}

// ─────────────────────────────── rendering ───────────────────────────────

/// The text of a rendering context: the `let` definitions and the count of
/// names handed out.
pub struct RenderState {
    pub lets: Seq<(Seq<char>, Seq<char>)>,
    pub next: nat,
}

/// The definitions and count of an exec context.
pub open spec fn state_of(ctx: &Ctx) -> RenderState {
    RenderState { lets: ctx.lets@.map_values(|p: (String, String)| (p.0@, p.1@)), next: ctx.next as nat }
}

/// `fmt` may be called on every parameter and gives one text per parameter.
pub open spec fn formatter_ok<F: Fn(u64) -> String>(fmt: F) -> bool {
    &&& forall|x: u64| #[trigger] call_requires(fmt, (x,))
    &&& forall|x: u64, r1: String, r2: String|
        #[trigger] call_ensures(fmt, (x,), r1) && #[trigger] call_ensures(fmt, (x,), r2) ==> r1@ == r2@
}

/// The text `fmt` gives for parameter bits `x`.
pub open spec fn param_text<F: Fn(u64) -> String>(fmt: F, x: u64) -> Seq<char> {
    (choose|r: String| call_ensures(fmt, (x,), r))@
}

/// A leaf — never needs parentheses as a factor.
pub open spec fn atom(t: GeoTree) -> bool {
    t is Param || t is Basis || t is Var
}

/// A functional form that delimits itself (`exp`, `⟨⟩`, `𝒢`).
pub open spec fn self_delimiting(t: GeoTree) -> bool {
    t is Exp || t is GradeProject || t is GradeLift
}

/// `t` rendered as a factor of a product or reverse: parenthesised unless an
/// atom or self-delimiting.
pub open spec fn factor_of<F: Fn(u64) -> String>(t: GeoTree, st: RenderState, fmt: F) -> (Seq<char>, RenderState)
    decreases t, 2nat,
{
    let (s, st2) = node_of(t, st, fmt);
    if atom(t) || self_delimiting(t) {
        (s, st2)
    } else {
        (seq!['('] + s + seq![')'], st2)
    }
}

/// `t` rendered, threading the context of `let`-bound rotors.
pub open spec fn node_of<F: Fn(u64) -> String>(t: GeoTree, st: RenderState, fmt: F) -> (Seq<char>, RenderState)
    decreases t, 1nat,
{
    match t {
        GeoTree::Param(x) => (param_text(fmt, x), st),
        GeoTree::Var(name) => (name, st),
        GeoTree::Basis(i) => (blade_name_of(i), st),
        GeoTree::GeoProduct(a, b) => {
            let (fa, s1) = factor_of(*a, st, fmt);
            let (fb, s2) = factor_of(*b, s1, fmt);
            (fa + seq![' '] + fb, s2)
        },
        GeoTree::Wedge(a, b) => {
            let (fa, s1) = factor_of(*a, st, fmt);
            let (fb, s2) = factor_of(*b, s1, fmt);
            (fa + seq!['∧'] + fb, s2)
        },
        GeoTree::Inner(a, b) => {
            let (fa, s1) = factor_of(*a, st, fmt);
            let (fb, s2) = factor_of(*b, s1, fmt);
            (fa + seq!['·'] + fb, s2)
        },
        GeoTree::Reverse(a) => {
            let (fa, s1) = factor_of(*a, st, fmt);
            (seq!['~'] + fa, s1)
        },
        GeoTree::Exp(a) => {
            let (na, s1) = node_of(*a, st, fmt);
            (seq!['e', 'x', 'p', '('] + na + seq![')'], s1)
        },
        GeoTree::GradeProject(k, a) => {
            let (na, s1) = node_of(*a, st, fmt);
            (seq!['⟨'] + na + seq!['⟩', '_'] + decimal(k as nat), s1)
        },
        GeoTree::GradeLift(k, a) => {
            let (na, s1) = node_of(*a, st, fmt);
            (seq!['𝒢', '_'] + decimal(k as nat) + seq!['('] + na + seq![')'], s1)
        },
        GeoTree::Sandwich(rotor, x) => {
            let (rs, s1) = if atom(*rotor) {
                node_of(*rotor, st, fmt)
            } else {
                let (def, s0) = node_of(*rotor, st, fmt);
                let name = fresh_name(s0.next);
                (name, RenderState { lets: s0.lets.push((name, def)), next: s0.next + 1 })
            };
            let (fx, s2) = factor_of(*x, s1, fmt);
            (rs + seq![' '] + fx + seq![' ', '~'] + rs, s2)
        },
    }
}

/// The `let` lines of a context's definitions, in order.
pub open spec fn let_lines(lets: Seq<(Seq<char>, Seq<char>)>) -> Seq<char>
    decreases lets.len(),
{
    if lets.len() == 0 {
        Seq::empty()
    } else {
        let_lines(lets.drop_last()) + seq!['l', 'e', 't', ' '] + lets.last().0 + seq![' ', '=', ' '] + lets.last().1
            + seq!['\n']
    }
}

/// The full rendering: the `let` lines, then the body.
pub open spec fn render_of<F: Fn(u64) -> String>(t: GeoTree, fmt: F) -> Seq<char> {
    let (body, st) = node_of(t, RenderState { lets: Seq::empty(), next: 0 }, fmt);
    let_lines(st.lets) + body
}

/// A sandwich reads `R x ~R`: its text starts with the rotor's text (the
/// rotor itself when it is an atom, else its fresh `let` name) and ends
/// with a tilde followed by that same text, whatever the rotor is.
pub proof fn lemma_sandwich_reads_r_x_reverse_r<F: Fn(u64) -> String>(
    rotor: GeoTree,
    x: GeoTree,
    st: RenderState,
    fmt: F,
)
    ensures
        ({
            let text = node_of(GeoTree::Sandwich(Box::new(rotor), Box::new(x)), st, fmt).0;
            let rs = if atom(rotor) {
                node_of(rotor, st, fmt).0
            } else {
                fresh_name(node_of(rotor, st, fmt).1.next)
            };
            &&& text.len() >= 2 * rs.len() + 3
            &&& text.subrange(0, rs.len() as int) == rs
            &&& text[rs.len() as int] == ' '
            &&& text.subrange(text.len() - rs.len() - 2, text.len() as int) == seq![' ', '~'] + rs
        }),
{
    let t = GeoTree::Sandwich(Box::new(rotor), Box::new(x));
    let rs = if atom(rotor) {
        node_of(rotor, st, fmt).0
    } else {
        fresh_name(node_of(rotor, st, fmt).1.next)
    };
    let s1 = if atom(rotor) {
        node_of(rotor, st, fmt).1
    } else {
        let (def, s0) = node_of(rotor, st, fmt);
        RenderState { lets: s0.lets.push((fresh_name(s0.next), def)), next: s0.next + 1 }
    };
    let fx = factor_of(x, s1, fmt).0;
    let text = node_of(t, st, fmt).0;
    assert(text == rs + seq![' '] + fx + seq![' ', '~'] + rs);
    assert(text.subrange(0, rs.len() as int) =~= rs);
    assert(text.subrange(text.len() - rs.len() - 2, text.len() as int) =~= seq![' ', '~'] + rs);
}

proof fn lemma_node_next<F: Fn(u64) -> String>(t: GeoTree, st: RenderState, fmt: F)
    ensures
        st.next <= node_of(t, st, fmt).1.next <= st.next + tree_size(t),
        st.next <= factor_of(t, st, fmt).1.next <= st.next + tree_size(t),
    decreases t,
{
    match t {
        GeoTree::GeoProduct(a, b) | GeoTree::Wedge(a, b) | GeoTree::Inner(a, b) => {
            lemma_node_next(*a, st, fmt);
            lemma_node_next(*b, factor_of(*a, st, fmt).1, fmt);
        },
        GeoTree::Reverse(a) | GeoTree::Exp(a) | GeoTree::GradeProject(_, a) | GeoTree::GradeLift(_, a) => {
            lemma_node_next(*a, st, fmt);
        },
        GeoTree::Sandwich(rotor, x) => {
            lemma_node_next(*rotor, st, fmt);
            let s1 = if atom(*rotor) {
                node_of(*rotor, st, fmt).1
            } else {
                let s0 = node_of(*rotor, st, fmt).1;
                RenderState { lets: s0.lets.push((fresh_name(s0.next), node_of(*rotor, st, fmt).0)), next: s0.next + 1 }
            };
            lemma_node_next(*x, s1, fmt);
        },
        _ => {},
    }
}

fn decimal_u8(k: u8) -> (s: String)
    ensures
        s@ == decimal(k as nat),
{
    decimal_string(k as usize)
}

fn render_factor<F: Fn(u64) -> String>(e: &GeoExpr, ctx: &mut Ctx, fmt: &F) -> (s: String)
    requires
        formatter_ok(*fmt),
        old(ctx).next + tree_size(e@) < usize::MAX,
    ensures
        (s@, state_of(final(ctx))) == factor_of(e@, state_of(old(ctx)), *fmt),
    decreases e@, 2nat,
{
    let s = render_node(e, ctx, fmt);
    let delimited = match e {
        GeoExpr::Param(_) | GeoExpr::Basis(_) | GeoExpr::Var(_) => true,
        GeoExpr::Exp(_) | GeoExpr::GradeProject(..) | GeoExpr::GradeLift(..) => true,
        _ => false,
    };
    if delimited {
        s
    } else {
        let mut out = "(".to_owned();
        out.append(s.as_str());
        out.append(")");
        proof {
            reveal_strlit("(");
            reveal_strlit(")");
            assert(out@ =~= seq!['('] + s@ + seq![')']);
        }
        out
    }
}

fn render_node<F: Fn(u64) -> String>(e: &GeoExpr, ctx: &mut Ctx, fmt: &F) -> (s: String)
    requires
        formatter_ok(*fmt),
        old(ctx).next + tree_size(e@) < usize::MAX,
    ensures
        (s@, state_of(final(ctx))) == node_of(e@, state_of(old(ctx)), *fmt),
    decreases e@, 1nat,
{
    let ghost st = state_of(ctx);
    proof {
        lemma_node_next(e@, st, *fmt);
    }
    match e {
        GeoExpr::Param(x) => {
            let r = fmt(*x);
            assert(call_ensures(*fmt, (*x,), r));
            r
        },
        GeoExpr::Var(name) => name.clone(),
        GeoExpr::Basis(i) => blade_name(*i),
        GeoExpr::GeoProduct(a, b) | GeoExpr::Wedge(a, b) | GeoExpr::Inner(a, b) => {
            let ghost s0 = state_of(ctx);
            let fa = render_factor(a, ctx, fmt);
            proof {
                lemma_node_next(a@, s0, *fmt);
            }
            let fb = render_factor(b, ctx, fmt);
            let mut out = fa;
            let sep = match e {
                GeoExpr::GeoProduct(..) => " ",
                GeoExpr::Wedge(..) => "∧",
                _ => "·",
            };
            proof {
                reveal_strlit(" ");
                reveal_strlit("∧");
                reveal_strlit("·");
            }
            out.append(sep);
            out.append(fb.as_str());
            proof {
                match e@ {
                    GeoTree::GeoProduct(_, _) => assert(out@ =~= fa@ + seq![' '] + fb@),
                    GeoTree::Wedge(_, _) => assert(out@ =~= fa@ + seq!['∧'] + fb@),
                    _ => assert(out@ =~= fa@ + seq!['·'] + fb@),
                }
            }
            out
        },
        GeoExpr::Reverse(a) => {
            let fa = render_factor(a, ctx, fmt);
            let mut out = "~".to_owned();
            out.append(fa.as_str());
            proof {
                reveal_strlit("~");
                assert(out@ =~= seq!['~'] + fa@);
            }
            out
        },
        GeoExpr::Exp(a) => {
            let na = render_node(a, ctx, fmt);
            let mut out = "exp(".to_owned();
            out.append(na.as_str());
            out.append(")");
            proof {
                reveal_strlit("exp(");
                reveal_strlit(")");
                assert(out@ =~= seq!['e', 'x', 'p', '('] + na@ + seq![')']);
            }
            out
        },
        GeoExpr::GradeProject(k, a) => {
            let na = render_node(a, ctx, fmt);
            let mut out = "⟨".to_owned();
            out.append(na.as_str());
            out.append("⟩_");
            let ks = decimal_u8(*k);
            out.append(ks.as_str());
            proof {
                reveal_strlit("⟨");
                reveal_strlit("⟩_");
                assert(out@ =~= seq!['⟨'] + na@ + seq!['⟩', '_'] + decimal(*k as nat));
            }
            out
        },
        GeoExpr::GradeLift(k, a) => {
            let na = render_node(a, ctx, fmt);
            let mut out = "𝒢_".to_owned();
            let ks = decimal_u8(*k);
            out.append(ks.as_str());
            out.append("(");
            out.append(na.as_str());
            out.append(")");
            proof {
                reveal_strlit("𝒢_");
                reveal_strlit("(");
                reveal_strlit(")");
                assert(out@ =~= seq!['𝒢', '_'] + decimal(*k as nat) + seq!['('] + na@ + seq![')']);
            }
            out
        },
        GeoExpr::Sandwich(rotor, x) => {
            // bind a non-atom rotor to a name so nesting stays bounded
            let is_atom = match &**rotor {
                GeoExpr::Param(_) | GeoExpr::Basis(_) | GeoExpr::Var(_) => true,
                _ => false,
            };
            let ghost s0 = state_of(ctx);
            let rotor_str = if is_atom {
                render_node(rotor, ctx, fmt)
            } else {
                let def = render_node(rotor, ctx, fmt);
                proof {
                    lemma_node_next(rotor@, s0, *fmt);
                }
                let ghost s0p = state_of(ctx);
                let name = ctx.fresh();
                let ghost before = ctx.lets@;
                let bound = name.clone();
                ctx.lets.push((bound, def));
                proof {
                    assert(ctx.lets@.drop_last() =~= before);
                    assert(state_of(ctx).lets =~= s0p.lets.push((fresh_name(s0p.next), def@)));
                    assert(state_of(ctx) == RenderState {
                        lets: s0p.lets.push((fresh_name(s0p.next), def@)),
                        next: s0p.next + 1,
                    });
                }
                name
            };
            let ghost s1 = state_of(ctx);
            proof {
                lemma_node_next(rotor@, s0, *fmt);
            }
            let fx = render_factor(x, ctx, fmt);
            let mut out = rotor_str.clone();
            out.append(" ");
            out.append(fx.as_str());
            out.append(" ~");
            out.append(rotor_str.as_str());
            proof {
                reveal_strlit(" ");
                reveal_strlit(" ~");
                assert(out@ =~= rotor_str@ + seq![' '] + fx@ + seq![' ', '~'] + rotor_str@);
            }
            out
        },
    }
}

/// Render a `GeoExpr` in conventional geometric-algebra notation; each
/// parameter (by its bits) is written by `fmt`.
pub fn render<F: Fn(u64) -> String>(e: &GeoExpr, fmt: &F) -> (s: String)
    requires
        formatter_ok(*fmt),
        tree_size(e@) < usize::MAX,
    ensures
        s@ == render_of(e@, *fmt),
{
    let mut ctx = Ctx::new();
    assert(state_of(&ctx).lets =~= Seq::<(Seq<char>, Seq<char>)>::empty());
    let body = render_node(e, &mut ctx, fmt);
    let ghost lets = state_of(&ctx).lets;
    let mut out = String::new();
    let mut i: usize = 0;
    while i < ctx.lets.len()
        invariant
            i <= ctx.lets@.len(),
            lets == state_of(&ctx).lets,
            out@ == let_lines(lets.take(i as int)),
        decreases ctx.lets@.len() - i,
    {
        let (name, def) = &ctx.lets[i];
        out.append("let ");
        out.append(name.as_str());
        out.append(" = ");
        out.append(def.as_str());
        out.append("\n");
        proof {
            reveal_strlit("let ");
            reveal_strlit(" = ");
            reveal_strlit("\n");
            assert(lets.take(i as int + 1).drop_last() =~= lets.take(i as int));
            assert(lets[i as int] == (name@, def@));
            assert(out@ =~= let_lines(lets.take(i as int + 1)));
        }
        i = i + 1;
    }
    assert(lets.take(ctx.lets@.len() as int) =~= lets);
    out.append(body.as_str());
    out
}

} // verus!
