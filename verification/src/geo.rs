//! The geometric AST `GeoExpr` — a tree of `Cl(3,0,1)` forms — and the
//! structural operations the tree-GA uses: node and parameter counts, the
//! children of a node, and pre-order subtree selection and replacement.
//!
//! A `Param` leaf carries its `f64` value as the IEEE-754 bit pattern (`u64`):
//! no structural operation reads the value, and the bits round-trip exactly.

use vstd::prelude::*;

verus! {

/// A geometric program. Leaves carry raw `u8` blade/grade indices;
/// out-of-range values are rejected by the grade checker.
#[derive(Debug)]
pub enum GeoExpr {
    /// An evolvable scalar parameter (the bits of its `f64` value). Grade `{0}`.
    Param(u64),
    /// A basis blade by index `0..16` (`e1=1, e2=2, e3=4, e0=8, e12=3, …`).
    Basis(u8),
    /// An input multivector, bound at evaluation.
    Var(String),
    /// 𝒢ₖ — a scalar lifted to the lowest-index grade-`k` blade.
    GradeLift(u8, Box<GeoExpr>),
    /// The geometric product `a ∗ b`.
    GeoProduct(Box<GeoExpr>, Box<GeoExpr>),
    /// The outer (wedge) product `a ∧ b`.
    Wedge(Box<GeoExpr>, Box<GeoExpr>),
    /// The (Hestenes) inner product `a · b`.
    Inner(Box<GeoExpr>, Box<GeoExpr>),
    /// Reverse `~a`.
    Reverse(Box<GeoExpr>),
    /// Grade projection `⟨a⟩ₖ`.
    GradeProject(u8, Box<GeoExpr>),
    /// The versor sandwich `r x ~r`.
    Sandwich(Box<GeoExpr>, Box<GeoExpr>),
    /// `exp` — a rotor/motor from a bivector.
    Exp(Box<GeoExpr>),
}

/// The tree a `GeoExpr` denotes (names as character sequences).
pub enum GeoTree {
    Param(u64),
    Basis(u8),
    Var(Seq<char>),
    GradeLift(u8, Box<GeoTree>),
    GeoProduct(Box<GeoTree>, Box<GeoTree>),
    Wedge(Box<GeoTree>, Box<GeoTree>),
    Inner(Box<GeoTree>, Box<GeoTree>),
    Reverse(Box<GeoTree>),
    GradeProject(u8, Box<GeoTree>),
    Sandwich(Box<GeoTree>, Box<GeoTree>),
    Exp(Box<GeoTree>),
}

/// The tree an expression denotes.
pub open spec fn geo_tree(e: &GeoExpr) -> GeoTree
    decreases e,
{
    match e {
        GeoExpr::Param(x) => GeoTree::Param(*x),
        GeoExpr::Basis(i) => GeoTree::Basis(*i),
        GeoExpr::Var(name) => GeoTree::Var(name@),
        GeoExpr::GradeLift(k, a) => GeoTree::GradeLift(*k, Box::new(geo_tree(a))),
        GeoExpr::GeoProduct(a, b) => GeoTree::GeoProduct(Box::new(geo_tree(a)), Box::new(geo_tree(b))),
        GeoExpr::Wedge(a, b) => GeoTree::Wedge(Box::new(geo_tree(a)), Box::new(geo_tree(b))),
        GeoExpr::Inner(a, b) => GeoTree::Inner(Box::new(geo_tree(a)), Box::new(geo_tree(b))),
        GeoExpr::Reverse(a) => GeoTree::Reverse(Box::new(geo_tree(a))),
        GeoExpr::GradeProject(k, a) => GeoTree::GradeProject(*k, Box::new(geo_tree(a))),
        GeoExpr::Sandwich(a, b) => GeoTree::Sandwich(Box::new(geo_tree(a)), Box::new(geo_tree(b))),
        GeoExpr::Exp(a) => GeoTree::Exp(Box::new(geo_tree(a))),
    }
}

impl View for GeoExpr {
    type V = GeoTree;

    open spec fn view(&self) -> GeoTree {
        geo_tree(self)
    }
}

/// The number of children of a node (`0`, `1` or `2`).
pub open spec fn arity(t: GeoTree) -> int {
    match t {
        GeoTree::Param(_) | GeoTree::Basis(_) | GeoTree::Var(_) => 0,
        GeoTree::GradeLift(_, _) | GeoTree::Reverse(_) | GeoTree::GradeProject(_, _) | GeoTree::Exp(_) => 1,
        _ => 2,
    }
}

/// The first child of a node of arity at least one.
pub open spec fn first_child(t: GeoTree) -> GeoTree
    recommends
        arity(t) >= 1,
{
    match t {
        GeoTree::GradeLift(_, a) | GeoTree::Reverse(a) | GeoTree::GradeProject(_, a) | GeoTree::Exp(a) => *a,
        GeoTree::GeoProduct(a, _) | GeoTree::Wedge(a, _) | GeoTree::Inner(a, _) | GeoTree::Sandwich(a, _) => *a,
        _ => t,
    }
}

/// The second child of a binary node.
pub open spec fn second_child(t: GeoTree) -> GeoTree
    recommends
        arity(t) == 2,
{
    match t {
        GeoTree::GeoProduct(_, b) | GeoTree::Wedge(_, b) | GeoTree::Inner(_, b) | GeoTree::Sandwich(_, b) => *b,
        _ => t,
    }
}

/// The number of nodes of a tree.
pub open spec fn tree_size(t: GeoTree) -> nat
    decreases t,
{
    match t {
        GeoTree::Param(_) | GeoTree::Basis(_) | GeoTree::Var(_) => 1,
        GeoTree::GradeLift(_, a) | GeoTree::Reverse(a) | GeoTree::GradeProject(_, a) | GeoTree::Exp(a) => 1
            + tree_size(*a),
        GeoTree::GeoProduct(a, b) | GeoTree::Wedge(a, b) | GeoTree::Inner(a, b) | GeoTree::Sandwich(a, b) => 1
            + tree_size(*a) + tree_size(*b),
    }
}

/// The number of `Param` leaves of a tree.
pub open spec fn tree_params(t: GeoTree) -> nat
    decreases t,
{
    match t {
        GeoTree::Param(_) => 1,
        GeoTree::Basis(_) | GeoTree::Var(_) => 0,
        GeoTree::GradeLift(_, a) | GeoTree::Reverse(a) | GeoTree::GradeProject(_, a) | GeoTree::Exp(a) => tree_params(
            *a,
        ),
        GeoTree::GeoProduct(a, b) | GeoTree::Wedge(a, b) | GeoTree::Inner(a, b) | GeoTree::Sandwich(a, b) => tree_params(
            *a,
        ) + tree_params(*b),
    }
}

/// `s` and `t` are the same form up to the values of their `Param` leaves.
pub open spec fn same_shape(s: GeoTree, t: GeoTree) -> bool
    decreases s,
{
    match (s, t) {
        (GeoTree::Param(_), GeoTree::Param(_)) => true,
        (GeoTree::Basis(i), GeoTree::Basis(j)) => i == j,
        (GeoTree::Var(x), GeoTree::Var(y)) => x == y,
        (GeoTree::GradeLift(k, a), GeoTree::GradeLift(l, b)) => k == l && same_shape(*a, *b),
        (GeoTree::GradeProject(k, a), GeoTree::GradeProject(l, b)) => k == l && same_shape(*a, *b),
        (GeoTree::Reverse(a), GeoTree::Reverse(b)) => same_shape(*a, *b),
        (GeoTree::Exp(a), GeoTree::Exp(b)) => same_shape(*a, *b),
        (GeoTree::GeoProduct(a, b), GeoTree::GeoProduct(c, d)) => same_shape(*a, *c) && same_shape(*b, *d),
        (GeoTree::Wedge(a, b), GeoTree::Wedge(c, d)) => same_shape(*a, *c) && same_shape(*b, *d),
        (GeoTree::Inner(a, b), GeoTree::Inner(c, d)) => same_shape(*a, *c) && same_shape(*b, *d),
        (GeoTree::Sandwich(a, b), GeoTree::Sandwich(c, d)) => same_shape(*a, *c) && same_shape(*b, *d),
        _ => false,
    }
}

/// The `Param` leaves' bits, in pre-order.
pub open spec fn param_list(t: GeoTree) -> Seq<u64>
    decreases t,
{
    match t {
        GeoTree::Param(x) => seq![x],
        GeoTree::Basis(_) | GeoTree::Var(_) => Seq::empty(),
        GeoTree::GradeLift(_, a) | GeoTree::Reverse(a) | GeoTree::GradeProject(_, a) | GeoTree::Exp(a) => param_list(
            *a,
        ),
        GeoTree::GeoProduct(a, b) | GeoTree::Wedge(a, b) | GeoTree::Inner(a, b) | GeoTree::Sandwich(a, b) => param_list(
            *a,
        ) + param_list(*b),
    }
}

/// `t` with its `Param` leaves, in pre-order, holding the leading values of
/// `vals`.
pub open spec fn with_param_list(t: GeoTree, vals: Seq<u64>) -> GeoTree
    decreases t,
{
    match t {
        GeoTree::Param(_) => GeoTree::Param(vals[0]),
        GeoTree::Basis(_) | GeoTree::Var(_) => t,
        GeoTree::GradeLift(k, a) => GeoTree::GradeLift(k, Box::new(with_param_list(*a, vals))),
        GeoTree::Reverse(a) => GeoTree::Reverse(Box::new(with_param_list(*a, vals))),
        GeoTree::GradeProject(k, a) => GeoTree::GradeProject(k, Box::new(with_param_list(*a, vals))),
        GeoTree::Exp(a) => GeoTree::Exp(Box::new(with_param_list(*a, vals))),
        GeoTree::GeoProduct(a, b) => GeoTree::GeoProduct(
            Box::new(with_param_list(*a, vals)),
            Box::new(with_param_list(*b, vals.skip(tree_params(*a) as int))),
        ),
        GeoTree::Wedge(a, b) => GeoTree::Wedge(
            Box::new(with_param_list(*a, vals)),
            Box::new(with_param_list(*b, vals.skip(tree_params(*a) as int))),
        ),
        GeoTree::Inner(a, b) => GeoTree::Inner(
            Box::new(with_param_list(*a, vals)),
            Box::new(with_param_list(*b, vals.skip(tree_params(*a) as int))),
        ),
        GeoTree::Sandwich(a, b) => GeoTree::Sandwich(
            Box::new(with_param_list(*a, vals)),
            Box::new(with_param_list(*b, vals.skip(tree_params(*a) as int))),
        ),
    }
}

/// The subtree at pre-order position `idx` (`0` is the whole tree), for
/// `idx < tree_size(t)`.
pub open spec fn preorder_at(t: GeoTree, idx: int) -> GeoTree
    decreases t,
{
    if idx <= 0 {
        t
    } else {
        match t {
            GeoTree::GradeLift(_, a) | GeoTree::Reverse(a) | GeoTree::GradeProject(_, a) | GeoTree::Exp(a) => preorder_at(
                *a,
                idx - 1,
            ),
            GeoTree::GeoProduct(a, b) | GeoTree::Wedge(a, b) | GeoTree::Inner(a, b) | GeoTree::Sandwich(a, b) => if idx
                - 1 < tree_size(*a) {
                preorder_at(*a, idx - 1)
            } else {
                preorder_at(*b, idx - 1 - tree_size(*a))
            },
            _ => t,
        }
    }
}

/// `t` with its pre-order subtree at position `idx` replaced by `new`
/// (unchanged when `idx` is past the end).
pub open spec fn replace_at(t: GeoTree, idx: int, new: GeoTree) -> GeoTree
    decreases t,
{
    if idx == 0 {
        new
    } else if idx < 0 {
        t
    } else {
        match t {
            GeoTree::GradeLift(k, a) => GeoTree::GradeLift(k, Box::new(replace_at(*a, idx - 1, new))),
            GeoTree::Reverse(a) => GeoTree::Reverse(Box::new(replace_at(*a, idx - 1, new))),
            GeoTree::GradeProject(k, a) => GeoTree::GradeProject(k, Box::new(replace_at(*a, idx - 1, new))),
            GeoTree::Exp(a) => GeoTree::Exp(Box::new(replace_at(*a, idx - 1, new))),
            GeoTree::GeoProduct(a, b) => GeoTree::GeoProduct(
                Box::new(replace_at(*a, idx - 1, new)),
                Box::new(replace_at(*b, idx - 1 - tree_size(*a), new)),
            ),
            GeoTree::Wedge(a, b) => GeoTree::Wedge(
                Box::new(replace_at(*a, idx - 1, new)),
                Box::new(replace_at(*b, idx - 1 - tree_size(*a), new)),
            ),
            GeoTree::Inner(a, b) => GeoTree::Inner(
                Box::new(replace_at(*a, idx - 1, new)),
                Box::new(replace_at(*b, idx - 1 - tree_size(*a), new)),
            ),
            GeoTree::Sandwich(a, b) => GeoTree::Sandwich(
                Box::new(replace_at(*a, idx - 1, new)),
                Box::new(replace_at(*b, idx - 1 - tree_size(*a), new)),
            ),
            _ => t,
        }
    }
}

impl Clone for GeoExpr {
    /// A deep copy.
    fn clone(&self) -> (r: Self)
        ensures
            r@ == self@,
        decreases self,
    {
        match self {
            GeoExpr::Param(x) => GeoExpr::Param(*x),
            GeoExpr::Basis(i) => GeoExpr::Basis(*i),
            GeoExpr::Var(name) => GeoExpr::Var(name.clone()),
            GeoExpr::GradeLift(k, a) => GeoExpr::GradeLift(*k, Box::new((**a).clone())),
            GeoExpr::GeoProduct(a, b) => GeoExpr::GeoProduct(Box::new((**a).clone()), Box::new((**b).clone())),
            GeoExpr::Wedge(a, b) => GeoExpr::Wedge(Box::new((**a).clone()), Box::new((**b).clone())),
            GeoExpr::Inner(a, b) => GeoExpr::Inner(Box::new((**a).clone()), Box::new((**b).clone())),
            GeoExpr::Reverse(a) => GeoExpr::Reverse(Box::new((**a).clone())),
            GeoExpr::GradeProject(k, a) => GeoExpr::GradeProject(*k, Box::new((**a).clone())),
            GeoExpr::Sandwich(a, b) => GeoExpr::Sandwich(Box::new((**a).clone()), Box::new((**b).clone())),
            GeoExpr::Exp(a) => GeoExpr::Exp(Box::new((**a).clone())),
        }
    }
}

impl PartialEq for GeoExpr {
    /// Structural equality: the same form with the same leaves.
    fn eq(&self, other: &Self) -> (r: bool)
        decreases self,
    {
        match self {
            GeoExpr::Param(x) => match other {
                GeoExpr::Param(y) => *x == *y,
                _ => false,
            },
            GeoExpr::Basis(i) => match other {
                GeoExpr::Basis(j) => *i == *j,
                _ => false,
            },
            GeoExpr::Var(n) => match other {
                GeoExpr::Var(m) => n.eq(m),
                _ => false,
            },
            GeoExpr::GradeLift(k, a) => match other {
                GeoExpr::GradeLift(l, b) => *k == *l && (**a).eq(&**b),
                _ => false,
            },
            GeoExpr::GeoProduct(a, b) => match other {
                GeoExpr::GeoProduct(c, d) => (**a).eq(&**c) && (**b).eq(&**d),
                _ => false,
            },
            GeoExpr::Wedge(a, b) => match other {
                GeoExpr::Wedge(c, d) => (**a).eq(&**c) && (**b).eq(&**d),
                _ => false,
            },
            GeoExpr::Inner(a, b) => match other {
                GeoExpr::Inner(c, d) => (**a).eq(&**c) && (**b).eq(&**d),
                _ => false,
            },
            GeoExpr::Reverse(a) => match other {
                GeoExpr::Reverse(b) => (**a).eq(&**b),
                _ => false,
            },
            GeoExpr::GradeProject(k, a) => match other {
                GeoExpr::GradeProject(l, b) => *k == *l && (**a).eq(&**b),
                _ => false,
            },
            GeoExpr::Sandwich(a, b) => match other {
                GeoExpr::Sandwich(c, d) => (**a).eq(&**c) && (**b).eq(&**d),
                _ => false,
            },
            GeoExpr::Exp(a) => match other {
                GeoExpr::Exp(b) => (**a).eq(&**b),
                _ => false,
            },
        }
    }
}

impl vstd::std_specs::cmp::PartialEqSpecImpl for GeoExpr {
    open spec fn obeys_eq_spec() -> bool {
        true
    }

    open spec fn eq_spec(&self, other: &GeoExpr) -> bool {
        self@ == other@
    }
}

/// The lowest-index grade-`k` blade index: `0→0` (scalar), `1→1` (e1),
/// `2→3` (e12), `3→7` (e123), `4→15` (pseudoscalar); `None` for `k > 4`.
/// Lowest-index dodges the null `e₀`-bearing blades.
pub fn lowest_blade(k: u8) -> (r: Option<u8>)
    ensures
        k > 4 <==> r is None,
        r matches Some(b) ==> b == (if k == 0 { 0u8 } else if k == 1 { 1u8 } else if k == 2 { 3u8 } else if k
            == 3 { 7u8 } else { 15u8 }),
{
    match k {
        0 => Some(0),
        1 => Some(1),
        2 => Some(3),
        3 => Some(7),
        4 => Some(15),
        _ => None,
    }
}

/// The children of a node, left to right — the single arity source.
pub fn children(e: &GeoExpr) -> (r: [Option<&GeoExpr>; 2])
    ensures
        arity(e@) == 0 ==> r@[0] is None && r@[1] is None,
        arity(e@) == 1 ==> (r@[0] matches Some(a) && a@ == first_child(e@)) && r@[1] is None,
        arity(e@) == 2 ==> (r@[0] matches Some(a) && a@ == first_child(e@)) && (r@[1] matches Some(b) && b@
            == second_child(e@)),
{
    match e {
        GeoExpr::Param(_) | GeoExpr::Basis(_) | GeoExpr::Var(_) => [None, None],
        GeoExpr::GradeLift(_, a) | GeoExpr::GradeProject(_, a) | GeoExpr::Reverse(a) | GeoExpr::Exp(a) => [
            Some(&**a),
            None,
        ],
        GeoExpr::GeoProduct(a, b) | GeoExpr::Wedge(a, b) | GeoExpr::Inner(a, b) | GeoExpr::Sandwich(a, b) => [
            Some(&**a),
            Some(&**b),
        ],
    }
}

/// Total node count of an expression.
pub fn node_count(e: &GeoExpr) -> (n: usize)
    requires
        tree_size(e@) <= usize::MAX,
    ensures
        n == tree_size(e@),
    decreases e,
{
    match e {
        GeoExpr::Param(_) | GeoExpr::Basis(_) | GeoExpr::Var(_) => 1,
        GeoExpr::GradeLift(_, a) | GeoExpr::Reverse(a) | GeoExpr::GradeProject(_, a) | GeoExpr::Exp(a) => 1
            + node_count(a),
        GeoExpr::GeoProduct(a, b) | GeoExpr::Wedge(a, b) | GeoExpr::Inner(a, b) | GeoExpr::Sandwich(a, b) => 1
            + node_count(a) + node_count(b),
    }
}

/// How many `Param` slots an expression carries.
pub fn param_count(e: &GeoExpr) -> (n: usize)
    requires
        tree_size(e@) <= usize::MAX,
    ensures
        n == tree_params(e@),
        tree_params(e@) <= tree_size(e@),
    decreases e,
{
    match e {
        GeoExpr::Param(_) => 1,
        GeoExpr::Basis(_) | GeoExpr::Var(_) => 0,
        GeoExpr::GradeLift(_, a) | GeoExpr::Reverse(a) | GeoExpr::GradeProject(_, a) | GeoExpr::Exp(a) => param_count(
            a,
        ),
        GeoExpr::GeoProduct(a, b) | GeoExpr::Wedge(a, b) | GeoExpr::Inner(a, b) | GeoExpr::Sandwich(a, b) => param_count(
            a,
        ) + param_count(b),
    }
}

/// The `Param` leaves' bits, in pre-order.
pub fn param_bits(e: &GeoExpr) -> (r: Vec<u64>)
    ensures
        r@ == param_list(e@),
{
    let mut out: Vec<u64> = Vec::new();
    push_params(e, &mut out);
    assert(Seq::<u64>::empty() + param_list(e@) =~= param_list(e@));
    out
}

fn push_params(e: &GeoExpr, out: &mut Vec<u64>)
    ensures
        final(out)@ == old(out)@ + param_list(e@),
    decreases e,
{
    match e {
        GeoExpr::Param(x) => {
            out.push(*x);
            assert(old(out)@.push(*x) =~= old(out)@ + seq![*x]);
        },
        GeoExpr::Basis(_) | GeoExpr::Var(_) => {
            assert(old(out)@ + Seq::<u64>::empty() =~= old(out)@);
        },
        GeoExpr::GradeLift(_, a) | GeoExpr::Reverse(a) | GeoExpr::GradeProject(_, a) | GeoExpr::Exp(a) => {
            push_params(a, out);
        },
        GeoExpr::GeoProduct(a, b) | GeoExpr::Wedge(a, b) | GeoExpr::Inner(a, b) | GeoExpr::Sandwich(a, b) => {
            let ghost start = out@;
            push_params(a, out);
            push_params(b, out);
            assert(start + param_list(a@) + param_list(b@) =~= start + (param_list(a@) + param_list(b@)));
        },
    }
}

/// A copy of `e` whose `Param` leaves, in pre-order, hold `vals` — one value
/// per slot.
pub fn with_params(e: &GeoExpr, vals: &[u64]) -> (r: GeoExpr)
    requires
        vals@.len() == tree_params(e@),
        tree_size(e@) <= usize::MAX,
    ensures
        r@ == with_param_list(e@, vals@),
{
    assert(vals@.skip(0) =~= vals@);
    fill_from(e, vals, 0)
}

fn fill_from(e: &GeoExpr, vals: &[u64], start: usize) -> (r: GeoExpr)
    requires
        start + tree_params(e@) <= vals@.len(),
        tree_size(e@) <= usize::MAX,
    ensures
        r@ == with_param_list(e@, vals@.skip(start as int)),
    decreases tree_size(e@),
{
    proof {
        lemma_params_within_size(e@);
    }
    match e {
        GeoExpr::Param(_) => GeoExpr::Param(vals[start]),
        GeoExpr::Basis(i) => GeoExpr::Basis(*i),
        GeoExpr::Var(name) => GeoExpr::Var(name.clone()),
        GeoExpr::GradeLift(k, a) => GeoExpr::GradeLift(*k, Box::new(fill_from(a, vals, start))),
        GeoExpr::Reverse(a) => GeoExpr::Reverse(Box::new(fill_from(a, vals, start))),
        GeoExpr::GradeProject(k, a) => GeoExpr::GradeProject(*k, Box::new(fill_from(a, vals, start))),
        GeoExpr::Exp(a) => GeoExpr::Exp(Box::new(fill_from(a, vals, start))),
        GeoExpr::GeoProduct(a, b) => {
            let (x, y) = fill_pair(a, b, vals, start);
            GeoExpr::GeoProduct(Box::new(x), Box::new(y))
        },
        GeoExpr::Wedge(a, b) => {
            let (x, y) = fill_pair(a, b, vals, start);
            GeoExpr::Wedge(Box::new(x), Box::new(y))
        },
        GeoExpr::Inner(a, b) => {
            let (x, y) = fill_pair(a, b, vals, start);
            GeoExpr::Inner(Box::new(x), Box::new(y))
        },
        GeoExpr::Sandwich(a, b) => {
            let (x, y) = fill_pair(a, b, vals, start);
            GeoExpr::Sandwich(Box::new(x), Box::new(y))
        },
    }
}

/// The two children of a binary node, filled from position `start`.
fn fill_pair(a: &GeoExpr, b: &GeoExpr, vals: &[u64], start: usize) -> (r: (GeoExpr, GeoExpr))
    requires
        start + tree_params(a@) + tree_params(b@) <= vals@.len(),
        1 + tree_size(a@) + tree_size(b@) <= usize::MAX,
    ensures
        r.0@ == with_param_list(a@, vals@.skip(start as int)),
        r.1@ == with_param_list(b@, vals@.skip(start as int).skip(tree_params(a@) as int)),
    decreases tree_size(a@) + tree_size(b@),
{
    proof {
        lemma_size_positive(a@);
        lemma_size_positive(b@);
        lemma_params_within_size(a@);
    }
    let na = param_count(a);
    let len = vals.len();
    assert(start + na <= len);
    let x = fill_from(a, vals, start);
    let y = fill_from(b, vals, start + na);
    assert(vals@.skip(start as int).skip(na as int) =~= vals@.skip(start + na));
    (x, y)
}

/// The `idx`-th subtree of `e` in pre-order (`0` is the whole tree); `e`
/// itself when `idx` is past the end.
pub fn nth_subtree(e: &GeoExpr, idx: usize) -> (r: &GeoExpr)
    requires
        tree_size(e@) <= usize::MAX,
    ensures
        r@ == (if idx < tree_size(e@) { preorder_at(e@, idx as int) } else { e@ }),
{
    if idx < node_count(e) {
        subtree_within(e, idx)
    } else {
        e
    }
}

fn subtree_within(e: &GeoExpr, idx: usize) -> (r: &GeoExpr)
    requires
        idx < tree_size(e@),
        tree_size(e@) <= usize::MAX,
    ensures
        r@ == preorder_at(e@, idx as int),
    decreases e,
{
    if idx == 0 {
        return e;
    }
    match e {
        GeoExpr::Param(_) | GeoExpr::Basis(_) | GeoExpr::Var(_) => e,
        GeoExpr::GradeLift(_, a) | GeoExpr::Reverse(a) | GeoExpr::GradeProject(_, a) | GeoExpr::Exp(a) => subtree_within(
            a,
            idx - 1,
        ),
        GeoExpr::GeoProduct(a, b) | GeoExpr::Wedge(a, b) | GeoExpr::Inner(a, b) | GeoExpr::Sandwich(a, b) => {
            let na = node_count(a);
            if idx - 1 < na {
                subtree_within(a, idx - 1)
            } else {
                subtree_within(b, idx - 1 - na)
            }
        },
    }
}

pub proof fn lemma_param_list_len(t: GeoTree)
    ensures
        param_list(t).len() == tree_params(t),
    decreases t,
{
    match t {
        GeoTree::GradeLift(_, a) | GeoTree::Reverse(a) | GeoTree::GradeProject(_, a) | GeoTree::Exp(a) => {
            lemma_param_list_len(*a);
        },
        GeoTree::GeoProduct(a, b) | GeoTree::Wedge(a, b) | GeoTree::Inner(a, b) | GeoTree::Sandwich(a, b) => {
            lemma_param_list_len(*a);
            lemma_param_list_len(*b);
        },
        _ => {},
    }
}

/// Filling reads only the first `tree_params(t)` values.
proof fn lemma_fill_reads_prefix(t: GeoTree, s1: Seq<u64>, s2: Seq<u64>)
    requires
        s1.len() >= tree_params(t),
        s2.len() >= tree_params(t),
        s1.take(tree_params(t) as int) == s2.take(tree_params(t) as int),
    ensures
        with_param_list(t, s1) == with_param_list(t, s2),
    decreases t,
{
    let p = tree_params(t) as int;
    match t {
        GeoTree::Param(_) => {
            assert(s1[0] == s1.take(p)[0]);
            assert(s2[0] == s2.take(p)[0]);
        },
        GeoTree::GradeLift(_, a) | GeoTree::Reverse(a) | GeoTree::GradeProject(_, a) | GeoTree::Exp(a) => {
            lemma_fill_reads_prefix(*a, s1, s2);
        },
        GeoTree::GeoProduct(a, b) | GeoTree::Wedge(a, b) | GeoTree::Inner(a, b) | GeoTree::Sandwich(a, b) => {
            let pa = tree_params(*a) as int;
            let pb = tree_params(*b) as int;
            assert(s1.take(pa) =~= s1.take(p).take(pa));
            assert(s2.take(pa) =~= s2.take(p).take(pa));
            lemma_fill_reads_prefix(*a, s1, s2);
            assert(s1.skip(pa).take(pb) =~= s1.take(p).skip(pa));
            assert(s2.skip(pa).take(pb) =~= s2.take(p).skip(pa));
            lemma_fill_reads_prefix(*b, s1.skip(pa), s2.skip(pa));
        },
        _ => {},
    }
}

proof fn lemma_fill_then_read(t: GeoTree, vals: Seq<u64>)
    requires
        vals.len() >= tree_params(t),
    ensures
        param_list(with_param_list(t, vals)) == vals.take(tree_params(t) as int),
        tree_params(with_param_list(t, vals)) == tree_params(t),
        tree_size(with_param_list(t, vals)) == tree_size(t),
        same_shape(t, with_param_list(t, vals)),
    decreases t,
{
    match t {
        GeoTree::Param(x) => {
            assert(vals.take(1) =~= seq![vals[0]]);
        },
        GeoTree::Basis(_) | GeoTree::Var(_) => {
            assert(vals.take(0) =~= Seq::<u64>::empty());
        },
        GeoTree::GradeLift(_, a) | GeoTree::Reverse(a) | GeoTree::GradeProject(_, a) | GeoTree::Exp(a) => {
            lemma_fill_then_read(*a, vals);
        },
        GeoTree::GeoProduct(a, b) | GeoTree::Wedge(a, b) | GeoTree::Inner(a, b) | GeoTree::Sandwich(a, b) => {
            let pa = tree_params(*a) as int;
            let pb = tree_params(*b) as int;
            lemma_fill_then_read(*a, vals);
            lemma_fill_then_read(*b, vals.skip(pa));
            assert(vals.take(pa) + vals.skip(pa).take(pb) =~= vals.take(pa + pb));
        },
    }
}

/// Setting the parameter slots and reading them back gives exactly the
/// values set, and the form is unchanged but for its parameter values.
pub proof fn lemma_params_write_then_read(t: GeoTree, vals: Seq<u64>)
    requires
        vals.len() == tree_params(t),
    ensures
        param_list(with_param_list(t, vals)) == vals,
        same_shape(t, with_param_list(t, vals)),
        tree_size(with_param_list(t, vals)) == tree_size(t),
{
    lemma_fill_then_read(t, vals);
    assert(vals.take(vals.len() as int) =~= vals);
}

/// Setting a form's parameters to their own values changes nothing.
pub proof fn lemma_params_read_then_write(t: GeoTree)
    ensures
        with_param_list(t, param_list(t)) == t,
    decreases t,
{
    lemma_param_list_len(t);
    match t {
        GeoTree::Param(x) => {},
        GeoTree::GradeLift(_, a) | GeoTree::Reverse(a) | GeoTree::GradeProject(_, a) | GeoTree::Exp(a) => {
            lemma_params_read_then_write(*a);
        },
        GeoTree::GeoProduct(a, b) | GeoTree::Wedge(a, b) | GeoTree::Inner(a, b) | GeoTree::Sandwich(a, b) => {
            let la = param_list(*a);
            let lb = param_list(*b);
            lemma_param_list_len(*a);
            lemma_param_list_len(*b);
            lemma_params_read_then_write(*a);
            lemma_params_read_then_write(*b);
            assert((la + lb).take(la.len() as int) =~= la);
            assert(la.take(la.len() as int) =~= la);
            lemma_fill_reads_prefix(*a, la + lb, la);
            assert((la + lb).skip(la.len() as int) =~= lb);
        },
        _ => {},
    }
}

proof fn lemma_params_within_size(t: GeoTree)
    ensures
        tree_params(t) <= tree_size(t),
    decreases t,
{
    match t {
        GeoTree::GradeLift(_, a) | GeoTree::Reverse(a) | GeoTree::GradeProject(_, a) | GeoTree::Exp(a) => {
            lemma_params_within_size(*a);
        },
        GeoTree::GeoProduct(a, b) | GeoTree::Wedge(a, b) | GeoTree::Inner(a, b) | GeoTree::Sandwich(a, b) => {
            lemma_params_within_size(*a);
            lemma_params_within_size(*b);
        },
        _ => {},
    }
}

/// Every tree has at least one node.
pub proof fn lemma_size_positive(t: GeoTree)
    ensures
        tree_size(t) >= 1,
{
}

/// A copy of `e` with its `idx`-th pre-order subtree replaced by `new`
/// (an unchanged copy when `idx` is past the end).
pub fn replace_nth(e: &GeoExpr, idx: usize, new: &GeoExpr) -> (r: GeoExpr)
    requires
        tree_size(e@) <= usize::MAX,
    ensures
        r@ == replace_at(e@, idx as int, new@),
    decreases tree_size(e@),
{
    if idx == 0 {
        return new.clone();
    }
    match e {
        GeoExpr::Param(_) | GeoExpr::Basis(_) | GeoExpr::Var(_) => e.clone(),
        GeoExpr::GradeLift(k, a) => GeoExpr::GradeLift(*k, Box::new(replace_nth(a, idx - 1, new))),
        GeoExpr::Reverse(a) => GeoExpr::Reverse(Box::new(replace_nth(a, idx - 1, new))),
        GeoExpr::GradeProject(k, a) => GeoExpr::GradeProject(*k, Box::new(replace_nth(a, idx - 1, new))),
        GeoExpr::Exp(a) => GeoExpr::Exp(Box::new(replace_nth(a, idx - 1, new))),
        GeoExpr::GeoProduct(a, b) => {
            let (ra, rb) = replace_pair(a, b, idx, new);
            GeoExpr::GeoProduct(Box::new(ra), Box::new(rb))
        },
        GeoExpr::Wedge(a, b) => {
            let (ra, rb) = replace_pair(a, b, idx, new);
            GeoExpr::Wedge(Box::new(ra), Box::new(rb))
        },
        GeoExpr::Inner(a, b) => {
            let (ra, rb) = replace_pair(a, b, idx, new);
            GeoExpr::Inner(Box::new(ra), Box::new(rb))
        },
        GeoExpr::Sandwich(a, b) => {
            let (ra, rb) = replace_pair(a, b, idx, new);
            GeoExpr::Sandwich(Box::new(ra), Box::new(rb))
        },
    }
}

/// The two children of a binary node after replacing position `idx`
/// (counted from the node itself).
fn replace_pair(a: &GeoExpr, b: &GeoExpr, idx: usize, new: &GeoExpr) -> (r: (GeoExpr, GeoExpr))
    requires
        idx >= 1,
        1 + tree_size(a@) + tree_size(b@) <= usize::MAX,
    ensures
        r.0@ == replace_at(a@, idx - 1, new@),
        r.1@ == replace_at(b@, idx - 1 - tree_size(a@), new@),
    decreases tree_size(a@) + tree_size(b@),
{
    proof {
        lemma_size_positive(a@);
        lemma_size_positive(b@);
    }
    let na = node_count(a);
    let ra = replace_nth(a, idx - 1, new);
    let rb = if idx - 1 >= na {
        replace_nth(b, idx - 1 - na, new)
    } else {
        b.clone()
    };
    (ra, rb)
}

/// Replacing the subtree at a pre-order position puts `new` exactly there,
/// and changes the node count by the difference of the two subtrees' sizes.
pub proof fn lemma_replace_then_select(t: GeoTree, idx: int, new: GeoTree)
    requires
        0 <= idx < tree_size(t),
    ensures
        preorder_at(replace_at(t, idx, new), idx) == new,
        tree_size(replace_at(t, idx, new)) == tree_size(t) - tree_size(preorder_at(t, idx)) + tree_size(new),
        idx + tree_size(preorder_at(t, idx)) <= tree_size(t),
    decreases t,
{
    lemma_size_positive(new);
    if idx > 0 {
        match t {
            GeoTree::GradeLift(_, a) | GeoTree::Reverse(a) | GeoTree::GradeProject(_, a) | GeoTree::Exp(a) => {
                lemma_replace_then_select(*a, idx - 1, new);
            },
            GeoTree::GeoProduct(a, b) | GeoTree::Wedge(a, b) | GeoTree::Inner(a, b) | GeoTree::Sandwich(a, b) => {
                if idx - 1 < tree_size(*a) {
                    lemma_replace_then_select(*a, idx - 1, new);
                    lemma_replace_before_start(*b, idx - 1 - tree_size(*a), new);
                    assert(tree_size(replace_at(*a, idx - 1, new)) >= 1) by {
                        lemma_size_positive(replace_at(*a, idx - 1, new));
                    }
                } else {
                    lemma_replace_then_select(*b, idx - 1 - tree_size(*a), new);
                    lemma_replace_past_end(*a, idx - 1, new);
                }
            },
            _ => {},
        }
    }
}

/// Replacing the subtree at `idx` and then putting the old subtree back
/// gives the original tree: a replacement changes nothing outside the
/// replaced subtree.
pub proof fn lemma_replace_then_restore(t: GeoTree, idx: int, new: GeoTree)
    requires
        0 <= idx < tree_size(t),
    ensures
        replace_at(replace_at(t, idx, new), idx, preorder_at(t, idx)) == t,
    decreases t,
{
    lemma_replace_then_select(t, idx, new);
    if idx > 0 {
        match t {
            GeoTree::GradeLift(_, a) | GeoTree::Reverse(a) | GeoTree::GradeProject(_, a) | GeoTree::Exp(a) => {
                lemma_replace_then_restore(*a, idx - 1, new);
            },
            GeoTree::GeoProduct(a, b) | GeoTree::Wedge(a, b) | GeoTree::Inner(a, b) | GeoTree::Sandwich(a, b) => {
                if idx - 1 < tree_size(*a) {
                    let a2 = replace_at(*a, idx - 1, new);
                    lemma_replace_then_restore(*a, idx - 1, new);
                    lemma_replace_then_select(*a, idx - 1, new);
                    lemma_size_positive(new);
                    lemma_replace_before_start(*b, idx - 1 - tree_size(*a), new);
                    lemma_replace_before_start(*b, idx - 1 - tree_size(a2), preorder_at(*a, idx - 1));
                } else {
                    lemma_replace_then_restore(*b, idx - 1 - tree_size(*a), new);
                    lemma_replace_past_end(*a, idx - 1, new);
                    lemma_replace_past_end(*a, idx - 1, preorder_at(*b, idx - 1 - tree_size(*a)));
                }
            },
            _ => {},
        }
    }
}

/// A negative position leaves the tree unchanged.
proof fn lemma_replace_before_start(t: GeoTree, idx: int, new: GeoTree)
    requires
        idx < 0,
    ensures
        replace_at(t, idx, new) == t,
{
}

/// A position past the end leaves the tree unchanged.
proof fn lemma_replace_past_end(t: GeoTree, idx: int, new: GeoTree)
    requires
        idx >= tree_size(t),
    ensures
        replace_at(t, idx, new) == t,
    decreases t,
{
    lemma_size_positive(t);
    match t {
        GeoTree::GradeLift(_, a) | GeoTree::Reverse(a) | GeoTree::GradeProject(_, a) | GeoTree::Exp(a) => {
            lemma_replace_past_end(*a, idx - 1, new);
        },
        GeoTree::GeoProduct(a, b) | GeoTree::Wedge(a, b) | GeoTree::Inner(a, b) | GeoTree::Sandwich(a, b) => {
            lemma_replace_past_end(*a, idx - 1, new);
            lemma_replace_past_end(*b, idx - 1 - tree_size(*a), new);
        },
        _ => {},
    }
}

/// The tree-GA's shape over `GeoExpr`: random depth-capped trees, elitism and
/// tournament selection, subtree crossover and subtree-replacing mutation.
#[derive(Clone, Copy, Debug, PartialEq, Eq, Structural)]
pub struct GeoProposer {
    /// Population size (constant across generations).
    pub population: usize,
    /// Elites copied unchanged each generation.
    pub elitism: usize,
    /// Tournament size for parent selection.
    pub tournament: usize,
    /// Maximum tree depth at generation and mutation.
    pub max_depth: usize,
    /// Maximum node count per genome — the anti-bloat cap.
    pub max_nodes: usize,
}

impl GeoProposer {
    /// The pinned configuration: 4 elites, tournaments of 5, depth 4, at
    /// most 60 nodes.
    pub fn pinned(population: usize) -> (r: GeoProposer)
        ensures
            r == (GeoProposer { population, elitism: 4, tournament: 5, max_depth: 4, max_nodes: 60 }),
    {
        GeoProposer { population, elitism: 4, tournament: 5, max_depth: 4, max_nodes: 60 }
    }
}

} // verus!
