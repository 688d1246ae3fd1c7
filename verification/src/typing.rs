//! The decidable grade-type system: a sound over-approximation of the grades
//! a form's value can carry (`grade`), a conservative static versor predicate
//! (`is_versor`), and the type checker that rejects out-of-range leaves and
//! grade-incoherent sub-forms (`typecheck`).
//!
//! The catalog forms (geometric, wedge and inner products, reverse, grade
//! projection) take their output grades from the geometric-algebra kernel's
//! structural signature; that signature is handed in as `out`, a
//! deterministic function of the operation and the input grade sets. Only
//! `Sandwich`, `Exp` and `GradeLift` (and the leaves) have their own rules.

use vstd::prelude::*;

use crate::geo::{
    GeoExpr, GeoTree, arity, first_child, second_child, lemma_params_write_then_read, same_shape, tree_params, with_param_list,
};
use crate::grade::{
    GradeCtx, GradeSet, N, ctx_grade, empty_set, full_set, singleton_set, subset_of, with_grade,
};

verus! {

/// A catalog form whose output grades the kernel decides. For the unary
/// forms the second input set is empty.
#[derive(Clone, Copy, Debug, PartialEq, Eq, Structural)]
pub enum CatalogOp {
    Geometric,
    Wedge,
    Inner,
    Reverse,
    GradeProject(u8),
}

/// `out` may be called on every input and gives one answer per input.
pub open spec fn signature_ok<F: Fn(CatalogOp, GradeSet, GradeSet) -> GradeSet>(out: F) -> bool {
    &&& forall|op: CatalogOp, a: GradeSet, b: GradeSet| #[trigger] call_requires(out, (op, a, b))
    &&& forall|op: CatalogOp, a: GradeSet, b: GradeSet, r1: GradeSet, r2: GradeSet|
        #[trigger] call_ensures(out, (op, a, b), r1) && #[trigger] call_ensures(out, (op, a, b), r2) ==> r1
            == r2
}

/// The output grades `out` gives for `op` on `(a, b)`.
pub open spec fn out_grades<F: Fn(CatalogOp, GradeSet, GradeSet) -> GradeSet>(
    out: F,
    op: CatalogOp,
    a: GradeSet,
    b: GradeSet,
) -> GradeSet {
    choose|r: GradeSet| call_ensures(out, (op, a, b), r)
}

/// Every grade of `g` is `x` or `y` (`g ⊆ {x, y}`).
pub open spec fn only_grades(g: GradeSet, x: int, y: int) -> bool {
    forall|j: int| #[trigger] g.has(j) ==> j == x || j == y
}

/// The number of set bits of a blade index below `16`: the blade's grade.
pub open spec fn blade_grade(i: u8) -> int {
    (i % 2) as int + ((i / 2) % 2) as int + ((i / 4) % 2) as int + ((i / 8) % 2) as int
}

/// The inferred grades of a form (a sound over-approximation): leaves by
/// their own rule, the catalog forms by `out`, a provable-versor sandwich
/// keeps its operand's grades, any other sandwich takes the product bound,
/// and `exp` of a scalar is scalar, of an even element even, else anything.
pub open spec fn grade_of<F: Fn(CatalogOp, GradeSet, GradeSet) -> GradeSet>(
    t: GeoTree,
    ctx: Map<Seq<char>, GradeSet>,
    out: F,
) -> GradeSet
    decreases t,
{
    match t {
        GeoTree::Param(_) => singleton_set(0),
        GeoTree::Basis(i) => if i >= 16 {
            full_set(4)
        } else {
            singleton_set(blade_grade(i))
        },
        GeoTree::Var(name) => ctx_grade(ctx, name, full_set(4)),
        GeoTree::GradeLift(k, _) => if k > 4 {
            full_set(4)
        } else {
            singleton_set(k as int)
        },
        GeoTree::GeoProduct(a, b) => out_grades(
            out,
            CatalogOp::Geometric,
            grade_of(*a, ctx, out),
            grade_of(*b, ctx, out),
        ),
        GeoTree::Wedge(a, b) => out_grades(out, CatalogOp::Wedge, grade_of(*a, ctx, out), grade_of(*b, ctx, out)),
        GeoTree::Inner(a, b) => out_grades(out, CatalogOp::Inner, grade_of(*a, ctx, out), grade_of(*b, ctx, out)),
        GeoTree::Reverse(a) => out_grades(out, CatalogOp::Reverse, grade_of(*a, ctx, out), empty_set()),
        GeoTree::GradeProject(k, a) => if k > 4 {
            empty_set()
        } else {
            out_grades(out, CatalogOp::GradeProject(k), grade_of(*a, ctx, out), empty_set())
        },
        GeoTree::Sandwich(r, x) => if versor_of(*r, ctx, out) {
            grade_of(*x, ctx, out)
        } else {
            let rg = grade_of(*r, ctx, out);
            let rx = out_grades(out, CatalogOp::Geometric, rg, grade_of(*x, ctx, out));
            out_grades(out, CatalogOp::Geometric, rx, rg)
        },
        GeoTree::Exp(a) => {
            let g = grade_of(*a, ctx, out);
            if only_grades(g, 0, 0) {
                singleton_set(0)
            } else if only_grades(g, 0, 2) {
                with_grade(with_grade(with_grade(empty_set(), 0), 2), 4)
            } else {
                full_set(4)
            }
        },
    }
}

/// The versor witnesses: `exp` of a pure bivector, a single basis vector, a
/// product of versors, and the reverse of a versor.
pub open spec fn versor_of<F: Fn(CatalogOp, GradeSet, GradeSet) -> GradeSet>(
    t: GeoTree,
    ctx: Map<Seq<char>, GradeSet>,
    out: F,
) -> bool
    decreases t,
{
    match t {
        GeoTree::Exp(b) => only_grades(grade_of(*b, ctx, out), 2, 2),
        GeoTree::GeoProduct(a, b) => versor_of(*a, ctx, out) && versor_of(*b, ctx, out),
        GeoTree::Basis(i) => i < 16 && blade_grade(i) == 1,
        GeoTree::Reverse(a) => versor_of(*a, ctx, out),
        _ => false,
    }
}

fn call_out<F: Fn(CatalogOp, GradeSet, GradeSet) -> GradeSet>(
    out: &F,
    op: CatalogOp,
    a: GradeSet,
    b: GradeSet,
) -> (r: GradeSet)
    requires
        signature_ok(*out),
    ensures
        r == out_grades(*out, op, a, b),
{
    let r = out(op, a, b);
    assert(call_ensures(*out, (op, a, b), r));
    r
}

fn blade_grade_exec(i: u8) -> (k: usize)
    ensures
        k == blade_grade(i),
        k <= 8,
{
    ((i % 2) + ((i / 2) % 2) + ((i / 4) % 2) + ((i / 8) % 2)) as usize
}

/// A form's inferred grades together with its versor verdict.
pub open spec fn analysis<F: Fn(CatalogOp, GradeSet, GradeSet) -> GradeSet>(
    t: GeoTree,
    ctx: Map<Seq<char>, GradeSet>,
    out: F,
) -> (GradeSet, bool) {
    (grade_of(t, ctx, out), versor_of(t, ctx, out))
}

/// The node's rules read its first child (a grade lift ignores its operand,
/// and so does a projection onto a grade the algebra lacks).
pub open spec fn reads_first(t: GeoTree) -> bool {
    match t {
        GeoTree::GradeLift(_, _) => false,
        GeoTree::GradeProject(k, _) => k <= 4,
        _ => arity(t) >= 1,
    }
}

/// One node's grades and versor verdict from its children's (`ca` for the
/// first child, `cb` for the second): the rules of `grade_of` and
/// `versor_of`, one level deep.
pub open spec fn node_rule<F: Fn(CatalogOp, GradeSet, GradeSet) -> GradeSet>(
    t: GeoTree,
    ctx: Map<Seq<char>, GradeSet>,
    out: F,
    ca: (GradeSet, bool),
    cb: (GradeSet, bool),
) -> (GradeSet, bool) {
    match t {
        GeoTree::Param(_) => (singleton_set(0), false),
        GeoTree::Basis(i) => if i >= 16 {
            (full_set(4), false)
        } else {
            (singleton_set(blade_grade(i)), blade_grade(i) == 1)
        },
        GeoTree::Var(name) => (ctx_grade(ctx, name, full_set(4)), false),
        GeoTree::GradeLift(k, _) => (if k > 4 {
            full_set(4)
        } else {
            singleton_set(k as int)
        }, false),
        GeoTree::GeoProduct(_, _) => (out_grades(out, CatalogOp::Geometric, ca.0, cb.0), ca.1 && cb.1),
        GeoTree::Wedge(_, _) => (out_grades(out, CatalogOp::Wedge, ca.0, cb.0), false),
        GeoTree::Inner(_, _) => (out_grades(out, CatalogOp::Inner, ca.0, cb.0), false),
        GeoTree::Reverse(_) => (out_grades(out, CatalogOp::Reverse, ca.0, empty_set()), ca.1),
        GeoTree::GradeProject(k, _) => (if k > 4 {
            empty_set()
        } else {
            out_grades(out, CatalogOp::GradeProject(k), ca.0, empty_set())
        }, false),
        GeoTree::Sandwich(_, _) => (if ca.1 {
            cb.0
        } else {
            out_grades(out, CatalogOp::Geometric, out_grades(out, CatalogOp::Geometric, ca.0, cb.0), ca.0)
        }, false),
        GeoTree::Exp(_) => (if only_grades(ca.0, 0, 0) {
            singleton_set(0)
        } else if only_grades(ca.0, 0, 2) {
            with_grade(with_grade(with_grade(empty_set(), 0), 2), 4)
        } else {
            full_set(4)
        }, only_grades(ca.0, 2, 2)),
    }
}

/// Grades and versor verdicts unfold one node at a time, for every
/// signature `out`.
pub proof fn lemma_analysis_unfold<F: Fn(CatalogOp, GradeSet, GradeSet) -> GradeSet>(
    t: GeoTree,
    ctx: Map<Seq<char>, GradeSet>,
    out: F,
)
    ensures
        analysis(t, ctx, out) == node_rule(
            t,
            ctx,
            out,
            analysis(first_child(t), ctx, out),
            analysis(second_child(t), ctx, out),
        ),
{
}

/// The check of one node from its own grades and its children's checks: an
/// out-of-range leaf grade or blade first, then the first failing child,
/// then the node's own grade set, which must be non-empty.
pub open spec fn check_rule(
    t: GeoTree,
    g: GradeSet,
    fa: Result<GradeSet, GradeFault>,
    fb: Result<GradeSet, GradeFault>,
) -> Result<GradeSet, GradeFault> {
    let pre: Option<GradeFault> = match t {
        GeoTree::Param(_) | GeoTree::Var(_) => None,
        GeoTree::Basis(i) => if i >= 16 {
            Some(GradeFault::BadBlade(i))
        } else {
            None
        },
        GeoTree::GradeLift(k, _) | GeoTree::GradeProject(k, _) => if k > 4 {
            Some(GradeFault::BadGrade(k))
        } else {
            fault_of(fa)
        },
        GeoTree::Reverse(_) | GeoTree::Exp(_) => fault_of(fa),
        _ => match fa {
            Err(f) => Some(f),
            Ok(_) => fault_of(fb),
        },
    };
    match pre {
        Some(f) => Err(f),
        None => if g.bits == 0 {
            Err(GradeFault::Incoherent(t))
        } else {
            Ok(g)
        },
    }
}

/// The check unfolds one node at a time, for every signature `out`.
pub proof fn lemma_check_unfold<F: Fn(CatalogOp, GradeSet, GradeSet) -> GradeSet>(
    t: GeoTree,
    ctx: Map<Seq<char>, GradeSet>,
    out: F,
)
    ensures
        check_of(t, ctx, out) == check_rule(
            t,
            grade_of(t, ctx, out),
            check_of(first_child(t), ctx, out),
            check_of(second_child(t), ctx, out),
        ),
{
}

/// One node's grades and versor verdict from its children's, so that every
/// node is visited once.
fn node_of<F: Fn(CatalogOp, GradeSet, GradeSet) -> GradeSet>(
    e: &GeoExpr,
    ctx: &GradeCtx,
    out: &F,
    ca: (GradeSet, bool),
    cb: (GradeSet, bool),
) -> (r: (GradeSet, bool))
    requires
        signature_ok(*out),
        reads_first(e@) ==> ca == analysis(first_child(e@), ctx@, *out),
        arity(e@) == 2 ==> cb == analysis(second_child(e@), ctx@, *out),
    ensures
        r == analysis(e@, ctx@, *out),
{
    match e {
        GeoExpr::Param(_) => (GradeSet::singleton(0), false),
        GeoExpr::Basis(i) => {
            if *i >= 16 {
                (GradeSet::full(N), false)
            } else {
                let k = blade_grade_exec(*i);
                (GradeSet::singleton(k), k == 1)
            }
        },
        GeoExpr::Var(name) => (ctx.get(name), false),
        GeoExpr::GradeLift(k, _) => {
            if *k > 4 {
                (GradeSet::full(N), false)
            } else {
                (GradeSet::singleton(*k as usize), false)
            }
        },
        GeoExpr::GeoProduct(_, _) => (call_out(out, CatalogOp::Geometric, ca.0, cb.0), ca.1 && cb.1),
        GeoExpr::Wedge(_, _) => (call_out(out, CatalogOp::Wedge, ca.0, cb.0), false),
        GeoExpr::Inner(_, _) => (call_out(out, CatalogOp::Inner, ca.0, cb.0), false),
        GeoExpr::Reverse(_) => (call_out(out, CatalogOp::Reverse, ca.0, GradeSet::empty()), ca.1),
        GeoExpr::GradeProject(k, _) => {
            // projecting onto a grade the algebra lacks is the empty set
            if *k > 4 {
                (GradeSet::empty(), false)
            } else {
                (call_out(out, CatalogOp::GradeProject(*k), ca.0, GradeSet::empty()), false)
            }
        },
        GeoExpr::Sandwich(_, _) => {
            if ca.1 {
                // a versor sandwich preserves the operand's grade
                (cb.0, false)
            } else {
                // the product bound: grades of `(r ∗ x) ∗ r`
                let rx = call_out(out, CatalogOp::Geometric, ca.0, cb.0);
                (call_out(out, CatalogOp::Geometric, rx, ca.0), false)
            }
        },
        GeoExpr::Exp(_) => {
            let g = ca.0;
            let grades = if only_in(g, 0, 0) {
                GradeSet::singleton(0)
            } else if only_in(g, 0, 2) {
                // exp of an even element is even — rotors and motors
                GradeSet::empty().with(0).with(2).with(4)
            } else {
                GradeSet::full(N)
            };
            (grades, only_in(g, 2, 2))
        },
    }
}

/// A form's grades and versor verdict in one pass over its nodes.
fn analyse<F: Fn(CatalogOp, GradeSet, GradeSet) -> GradeSet>(e: &GeoExpr, ctx: &GradeCtx, out: &F) -> (r: (
    GradeSet,
    bool,
))
    requires
        signature_ok(*out),
    ensures
        r == analysis(e@, ctx@, *out),
    decreases e,
{
    let none = (GradeSet::empty(), false);
    match e {
        GeoExpr::Param(_) | GeoExpr::Basis(_) | GeoExpr::Var(_) | GeoExpr::GradeLift(_, _) => node_of(
            e,
            ctx,
            out,
            none,
            none,
        ),
        GeoExpr::GradeProject(k, a) => {
            if *k > 4 {
                node_of(e, ctx, out, none, none)
            } else {
                let ca = analyse(a, ctx, out);
                node_of(e, ctx, out, ca, none)
            }
        },
        GeoExpr::Reverse(a) | GeoExpr::Exp(a) => {
            let ca = analyse(a, ctx, out);
            node_of(e, ctx, out, ca, none)
        },
        GeoExpr::GeoProduct(a, b) | GeoExpr::Wedge(a, b) | GeoExpr::Inner(a, b) | GeoExpr::Sandwich(a, b) => {
            let ca = analyse(a, ctx, out);
            let cb = analyse(b, ctx, out);
            node_of(e, ctx, out, ca, cb)
        },
    }
}

/// Infer a sound over-approximation of a form's result grades, visiting
/// each node once. Total: out-of-range leaves are ⊤ (`typecheck` turns
/// those into errors).
pub fn grade<F: Fn(CatalogOp, GradeSet, GradeSet) -> GradeSet>(e: &GeoExpr, ctx: &GradeCtx, out: &F) -> (g:
    GradeSet)
    requires
        signature_ok(*out),
    ensures
        g == grade_of(e@, ctx@, *out),
{
    analyse(e, ctx, out).0
}

/// Every grade of `g` is `x` or `y` (a two-element `subset_of`).
fn only_in(g: GradeSet, x: usize, y: usize) -> (r: bool)
    ensures
        r == only_grades(g, x as int, y as int),
{
    let allowed = [x, y];
    let r = subset_of(g, &allowed);
    proof {
        assert(allowed@ =~= seq![x, y]);
        if r {
            assert forall|j: int| #[trigger] g.has(j) implies j == x || j == y by {
                assert(allowed@.contains(j as usize));
                let i = choose|i: int| 0 <= i < allowed@.len() && allowed@[i] == j as usize;
            }
        } else {
            let k = choose|k: int| #[trigger] g.has(k) && !allowed@.contains(k as usize);
            if k == x {
                assert(allowed@[0] == x);
            } else if k == y {
                assert(allowed@[1] == y);
            }
        }
    }
    r
}

/// A conservative, sound static versor predicate: `true` only for the
/// versor witnesses (it may say `false` for a real versor).
pub fn is_versor<F: Fn(CatalogOp, GradeSet, GradeSet) -> GradeSet>(r: &GeoExpr, ctx: &GradeCtx, out: &F) -> (v:
    bool)
    requires
        signature_ok(*out),
    ensures
        v == versor_of(r@, ctx@, *out),
{
    analyse(r, ctx, out).1
}

// ───────────────────────────── the type checker ─────────────────────────────

/// A grade-type failure (the decidable pruning signal).
#[derive(Debug, Clone, PartialEq)]
pub enum GradeError {
    /// A grade-incoherent form — its grade set is `∅` (e.g. `GradeProject(k, a)`
    /// with `k ∉ grade(a)`); it can only ever be zero.
    Incoherent(GeoExpr),
    /// A `Basis(i)` with `i ≥ 16`.
    BadBlade(u8),
    /// A `GradeLift`/`GradeProject` grade `> 4`.
    BadGrade(u8),
}

/// A grade-type failure with the offending form as a tree.
pub enum GradeFault {
    Incoherent(GeoTree),
    BadBlade(u8),
    BadGrade(u8),
}

impl View for GradeError {
    type V = GradeFault;

    open spec fn view(&self) -> GradeFault {
        match self {
            GradeError::Incoherent(e) => GradeFault::Incoherent(e@),
            GradeError::BadBlade(i) => GradeFault::BadBlade(*i),
            GradeError::BadGrade(k) => GradeFault::BadGrade(*k),
        }
    }
}

/// The first failure of a sub-check, if any.
pub open spec fn fault_of(r: Result<GradeSet, GradeFault>) -> Option<GradeFault> {
    match r {
        Ok(_) => None,
        Err(f) => Some(f),
    }
}

/// What `typecheck` answers: an out-of-range leaf grade or blade first, then
/// the children left to right (the first failure wins), then the form's own
/// grade set, which must be non-empty.
pub open spec fn check_of<F: Fn(CatalogOp, GradeSet, GradeSet) -> GradeSet>(
    t: GeoTree,
    ctx: Map<Seq<char>, GradeSet>,
    out: F,
) -> Result<GradeSet, GradeFault>
    decreases t,
{
    let pre: Option<GradeFault> = match t {
        GeoTree::Param(_) | GeoTree::Var(_) => None,
        GeoTree::Basis(i) => if i >= 16 {
            Some(GradeFault::BadBlade(i))
        } else {
            None
        },
        GeoTree::GradeLift(k, a) | GeoTree::GradeProject(k, a) => if k > 4 {
            Some(GradeFault::BadGrade(k))
        } else {
            fault_of(check_of(*a, ctx, out))
        },
        GeoTree::Reverse(a) | GeoTree::Exp(a) => fault_of(check_of(*a, ctx, out)),
        GeoTree::GeoProduct(a, b) | GeoTree::Wedge(a, b) | GeoTree::Inner(a, b) | GeoTree::Sandwich(a, b) => {
            match check_of(*a, ctx, out) {
                Err(f) => Some(f),
                Ok(_) => fault_of(check_of(*b, ctx, out)),
            }
        },
    };
    match pre {
        Some(f) => Err(f),
        None => {
            let g = grade_of(t, ctx, out);
            if g.bits == 0 {
                Err(GradeFault::Incoherent(t))
            } else {
                Ok(g)
            }
        },
    }
}

/// The type checker's answer with the error as a tree.
pub open spec fn check_view(r: Result<GradeSet, GradeError>) -> Result<GradeSet, GradeFault> {
    match r {
        Ok(g) => Ok(g),
        Err(e) => Err(e@),
    }
}

/// The checker's answer on grades alone.
pub open spec fn check_grades(r: Result<(GradeSet, bool), GradeError>) -> Result<GradeSet, GradeFault> {
    match r {
        Ok(p) => Ok(p.0),
        Err(e) => Err(e@),
    }
}

/// Check every sub-form, returning the form's grades and versor verdict, in
/// one post-order pass.
fn check<F: Fn(CatalogOp, GradeSet, GradeSet) -> GradeSet>(e: &GeoExpr, ctx: &GradeCtx, out: &F) -> (r:
    Result<(GradeSet, bool), GradeError>)
    requires
        signature_ok(*out),
    ensures
        check_grades(r) == check_of(e@, ctx@, *out),
        r matches Ok(p) ==> p == analysis(e@, ctx@, *out),
    decreases e,
{
    let none = (GradeSet::empty(), false);
    let (ca, cb) = match e {
        GeoExpr::Param(_) | GeoExpr::Var(_) => (none, none),
        GeoExpr::Basis(i) => {
            if *i >= 16 {
                return Err(GradeError::BadBlade(*i));
            }
            (none, none)
        },
        GeoExpr::GradeLift(k, a) | GeoExpr::GradeProject(k, a) => {
            if *k > 4 {
                return Err(GradeError::BadGrade(*k));
            }
            match check(a, ctx, out) {
                Ok(p) => (p, none),
                Err(f) => {
                    return Err(f);
                },
            }
        },
        GeoExpr::Reverse(a) | GeoExpr::Exp(a) => {
            match check(a, ctx, out) {
                Ok(p) => (p, none),
                Err(f) => {
                    return Err(f);
                },
            }
        },
        GeoExpr::GeoProduct(a, b) | GeoExpr::Wedge(a, b) | GeoExpr::Inner(a, b) | GeoExpr::Sandwich(a, b) => {
            let pa = match check(a, ctx, out) {
                Ok(p) => p,
                Err(f) => {
                    return Err(f);
                },
            };
            let pb = match check(b, ctx, out) {
                Ok(p) => p,
                Err(f) => {
                    return Err(f);
                },
            };
            (pa, pb)
        },
    };
    let p = node_of(e, ctx, out, ca, cb);
    if p.0.is_empty() {
        Err(GradeError::Incoherent(e.clone()))
    } else {
        Ok(p)
    }
}

/// Infer the grade set, or fail on a grade-incoherent or out-of-range form:
/// every sub-form is checked, and each node is visited once.
pub fn typecheck<F: Fn(CatalogOp, GradeSet, GradeSet) -> GradeSet>(
    e: &GeoExpr,
    ctx: &GradeCtx,
    out: &F,
) -> (r: Result<GradeSet, GradeError>)
    requires
        signature_ok(*out),
    ensures
        check_view(r) == check_of(e@, ctx@, *out),
{
    match check(e, ctx, out) {
        Ok(p) => Ok(p.0),
        Err(f) => Err(f),
    }
}

// ───────────────────────── parameter-blind typing ─────────────────────────

/// No grade rule reads a `Param`'s value: forms that differ only in their
/// parameter values have the same inferred grades, the same versor verdict,
/// and the same `typecheck` verdict with the same `Ok` grade set.
pub proof fn lemma_params_are_grade_blind<F: Fn(CatalogOp, GradeSet, GradeSet) -> GradeSet>(
    s: GeoTree,
    t: GeoTree,
    ctx: Map<Seq<char>, GradeSet>,
    out: F,
)
    requires
        same_shape(s, t),
    ensures
        grade_of(s, ctx, out) == grade_of(t, ctx, out),
        versor_of(s, ctx, out) == versor_of(t, ctx, out),
        check_of(s, ctx, out) is Ok <==> check_of(t, ctx, out) is Ok,
        check_of(s, ctx, out) is Ok ==> check_of(s, ctx, out) == check_of(t, ctx, out),
    decreases s,
{
    match (s, t) {
        (GeoTree::GradeLift(_, a), GeoTree::GradeLift(_, b)) => {
            lemma_params_are_grade_blind(*a, *b, ctx, out);
        },
        (GeoTree::GradeProject(_, a), GeoTree::GradeProject(_, b)) => {
            lemma_params_are_grade_blind(*a, *b, ctx, out);
        },
        (GeoTree::Reverse(a), GeoTree::Reverse(b)) => {
            lemma_params_are_grade_blind(*a, *b, ctx, out);
        },
        (GeoTree::Exp(a), GeoTree::Exp(b)) => {
            lemma_params_are_grade_blind(*a, *b, ctx, out);
        },
        (GeoTree::GeoProduct(a, b), GeoTree::GeoProduct(c, d)) => {
            lemma_params_are_grade_blind(*a, *c, ctx, out);
            lemma_params_are_grade_blind(*b, *d, ctx, out);
        },
        (GeoTree::Wedge(a, b), GeoTree::Wedge(c, d)) => {
            lemma_params_are_grade_blind(*a, *c, ctx, out);
            lemma_params_are_grade_blind(*b, *d, ctx, out);
        },
        (GeoTree::Inner(a, b), GeoTree::Inner(c, d)) => {
            lemma_params_are_grade_blind(*a, *c, ctx, out);
            lemma_params_are_grade_blind(*b, *d, ctx, out);
        },
        (GeoTree::Sandwich(a, b), GeoTree::Sandwich(c, d)) => {
            lemma_params_are_grade_blind(*a, *c, ctx, out);
            lemma_params_are_grade_blind(*b, *d, ctx, out);
        },
        _ => {},
    }
}

/// Parameter values never change the `typecheck` verdict of a form: with
/// new values it typechecks iff it did before, to the same grade set.
pub proof fn lemma_param_writes_keep_the_verdict<F: Fn(CatalogOp, GradeSet, GradeSet) -> GradeSet>(
    t: GeoTree,
    vals: Seq<u64>,
    ctx: Map<Seq<char>, GradeSet>,
    out: F,
)
    requires
        vals.len() == tree_params(t),
    ensures
        check_of(t, ctx, out) is Ok <==> check_of(with_param_list(t, vals), ctx, out) is Ok,
        check_of(t, ctx, out) is Ok ==> check_of(t, ctx, out) == check_of(with_param_list(t, vals), ctx, out),
{
    lemma_params_write_then_read(t, vals);
    lemma_params_are_grade_blind(t, with_param_list(t, vals), ctx, out);
}

/// A form that typechecks is coherent: its answer is exactly its inferred
/// grade set, and that set is non-empty.
pub proof fn lemma_typecheck_ok_is_grade<F: Fn(CatalogOp, GradeSet, GradeSet) -> GradeSet>(
    t: GeoTree,
    ctx: Map<Seq<char>, GradeSet>,
    out: F,
)
    requires
        check_of(t, ctx, out) is Ok,
    ensures
        check_of(t, ctx, out) == Ok::<GradeSet, GradeFault>(grade_of(t, ctx, out)),
        grade_of(t, ctx, out).bits != 0,
{
}

// ──────────────────────────────── the screen ────────────────────────────────

/// The answer-blind coherence screen: admits a candidate iff it
/// grade-typechecks. The context declares only the input variables' grades,
/// never anything derived from a target.
pub struct GradeScreen {
    ctx: GradeCtx,
}

impl GradeScreen {
    /// The input-grade context the screen checks against.
    pub closed spec fn context(&self) -> Map<Seq<char>, GradeSet> {
        self.ctx@
    }

    /// A screen over the given input-grade context.
    pub fn new(ctx: GradeCtx) -> (r: GradeScreen)
        ensures
            r.context() == ctx@,
    {
        GradeScreen { ctx }
    }

    /// Admit a candidate iff it grade-typechecks.
    pub fn admissible<F: Fn(CatalogOp, GradeSet, GradeSet) -> GradeSet>(&self, genome: &GeoExpr, out: &F) -> (r:
        bool)
        requires
            signature_ok(*out),
        ensures
            r == check_of(genome@, self.context(), *out) is Ok,
    {
        typecheck(genome, &self.ctx, out).is_ok()
    }
}

} // verus!
