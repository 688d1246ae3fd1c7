//! The tree-GA over `GeoExpr`: random depth-capped trees, elitism and
//! tournament selection, subtree crossover, subtree-replacing mutation and
//! the node cap. Answer-blind: it sees only the cost-ascending ranking.
//!
//! A parameter leaf's value is a normal deviate, which this library does not
//! compute; it comes from `param`, a deterministic draw that maps the
//! generator state to the value's bits and the state after the draw.

use vstd::prelude::*;

use crate::geo::{
    GeoExpr, GeoProposer, GeoTree, lemma_replace_then_restore, lemma_replace_then_select, lemma_size_positive, node_count, nth_subtree, preorder_at, replace_at,
    replace_nth, tree_size,
};
use crate::prng::{SplitMix64, below_spec, lemma_below_spec_range};

verus! {

/// `param` can be called on every state and gives one answer per state.
pub open spec fn param_ok<F: Fn(u64) -> (u64, u64)>(param: F) -> bool {
    &&& forall|st: u64| #[trigger] call_requires(param, (st,))
    &&& forall|st: u64, r1: (u64, u64), r2: (u64, u64)|
        #[trigger] call_ensures(param, (st,), r1) && #[trigger] call_ensures(param, (st,), r2) ==> r1
            == r2
}

/// The parameter bits `param` draws from state `st`, and the state after.
pub open spec fn param_draw<F: Fn(u64) -> (u64, u64)>(param: F, st: u64) -> (u64, u64) {
    choose|r: (u64, u64)| call_ensures(param, (st,), r)
}

/// An unbiased draw in `0..n` from state `st`.
pub open spec fn pick(st: u64, n: int) -> int {
    below_spec(st, n as u64).0 as int
}

/// The state after an unbiased draw in `0..n` from state `st`.
pub open spec fn after(st: u64, n: int) -> u64 {
    below_spec(st, n as u64).1
}

/// A random leaf from state `st`: one draw picks a parameter (drawn by
/// `param`), a basis blade (one more draw over `0..16`) or the input `v`.
pub open spec fn random_leaf_spec<F: Fn(u64) -> (u64, u64)>(param: F, st: u64) -> (GeoTree, u64) {
    let k = pick(st, 3);
    let s1 = after(st, 3);
    if k == 0 {
        let (bits, s2) = param_draw(param, s1);
        (GeoTree::Param(bits), s2)
    } else if k == 1 {
        (GeoTree::Basis(pick(s1, 16) as u8), after(s1, 16))
    } else {
        (GeoTree::Var(seq!['v']), s1)
    }
}

/// A random tree of depth at most `depth` from state `st`, and the state
/// after it: a leaf at depth 0 or on a draw of `0` over `0..4`; else one
/// draw over the eight internal forms, uniformly (a grade draw over `0..5`
/// first for the two graded forms), then the children left to right.
#[verifier::opaque]
pub open spec fn random_tree<F: Fn(u64) -> (u64, u64)>(param: F, depth: nat, st: u64) -> (GeoTree, u64)
    decreases depth,
{
    if depth == 0 {
        random_leaf_spec(param, st)
    } else if pick(st, 4) == 0 {
        random_leaf_spec(param, after(st, 4))
    } else {
        let s1 = after(st, 4);
        let form = pick(s1, 8);
        let s2 = after(s1, 8);
        let d = (depth - 1) as nat;
        if form == 0 || form == 5 {
            let g = pick(s2, 5) as u8;
            let (a, s4) = random_tree(param, d, after(s2, 5));
            if form == 0 {
                (GeoTree::GradeLift(g, Box::new(a)), s4)
            } else {
                (GeoTree::GradeProject(g, Box::new(a)), s4)
            }
        } else if form == 4 || form == 7 {
            let (a, s3) = random_tree(param, d, s2);
            if form == 4 {
                (GeoTree::Reverse(Box::new(a)), s3)
            } else {
                (GeoTree::Exp(Box::new(a)), s3)
            }
        } else {
            let (a, s3) = random_tree(param, d, s2);
            let (b, s4) = random_tree(param, d, s3);
            if form == 1 {
                (GeoTree::GeoProduct(Box::new(a), Box::new(b)), s4)
            } else if form == 2 {
                (GeoTree::Wedge(Box::new(a), Box::new(b)), s4)
            } else if form == 3 {
                (GeoTree::Inner(Box::new(a), Box::new(b)), s4)
            } else {
                (GeoTree::Sandwich(Box::new(a), Box::new(b)), s4)
            }
        }
    }
}

/// A tournament of `rounds` draws over a cost-ascending ranking of `len`:
/// the lowest index drawn wins, starting from the worst (`len − 1`).
pub open spec fn tree_tournament(st: u64, len: int, rounds: nat) -> (int, u64)
    decreases rounds,
{
    if rounds == 0 {
        (len - 1, st)
    } else {
        let (best, s1) = tree_tournament(st, len, (rounds - 1) as nat);
        let i = pick(s1, len);
        (if i < best { i } else { best }, after(s1, len))
    }
}

/// Crossover from state `st`: two tournament parents; a random subtree of
/// the second replaces a random subtree of the first.
pub open spec fn crossed_child(p: GeoProposer, ranked: Seq<GeoTree>, st: u64) -> (GeoTree, u64) {
    let len = ranked.len() as int;
    let (ia, s1) = tree_tournament(st, len, p.tournament as nat);
    let (ib, s2) = tree_tournament(s1, len, p.tournament as nat);
    let a = ranked[ia];
    let b = ranked[ib];
    let cut_a = pick(s2, tree_size(a) as int);
    let s3 = after(s2, tree_size(a) as int);
    let cut_b = pick(s3, tree_size(b) as int);
    (replace_at(a, cut_a, preorder_at(b, cut_b)), after(s3, tree_size(b) as int))
}

/// Mutation from state `st`: on a draw of `0` over `0..2`, a random subtree
/// of `t` is replaced by a fresh depth-2 tree.
pub open spec fn mutated_child<F: Fn(u64) -> (u64, u64)>(t: GeoTree, st: u64, param: F) -> (GeoTree, u64) {
    let s1 = after(st, 2);
    if pick(st, 2) == 0 {
        let cut = pick(s1, tree_size(t) as int);
        let (fresh, s2) = random_tree(param, 2, after(s1, tree_size(t) as int));
        (replace_at(t, cut, fresh), s2)
    } else {
        (t, s1)
    }
}

/// One child from state `st`: crossover, then mutation; a child over the
/// node cap is replaced by a fresh tree of the maximum depth.
pub open spec fn tree_child<F: Fn(u64) -> (u64, u64)>(
    p: GeoProposer,
    ranked: Seq<GeoTree>,
    st: u64,
    param: F,
) -> (GeoTree, u64) {
    let (crossed, s1) = crossed_child(p, ranked, st);
    let (mutated, s2) = mutated_child(crossed, s1, param);
    if tree_size(mutated) > p.max_nodes {
        random_tree(param, p.max_depth as nat, s2)
    } else {
        (mutated, s2)
    }
}

/// `count` children in a row from state `st`, and the state after them.
pub open spec fn tree_children<F: Fn(u64) -> (u64, u64)>(
    p: GeoProposer,
    ranked: Seq<GeoTree>,
    st: u64,
    count: nat,
    param: F,
) -> (Seq<GeoTree>, u64)
    decreases count,
{
    if count == 0 {
        (Seq::empty(), st)
    } else {
        let (prev, s1) = tree_children(p, ranked, st, (count - 1) as nat, param);
        let (c, s2) = tree_child(p, ranked, s1, param);
        (prev.push(c), s2)
    }
}

/// `count` random trees of the maximum depth in a row from state `st`.
pub open spec fn seed_trees<F: Fn(u64) -> (u64, u64)>(p: GeoProposer, st: u64, count: nat, param: F) -> (
    Seq<GeoTree>,
    u64,
)
    decreases count,
{
    if count == 0 {
        (Seq::empty(), st)
    } else {
        let (prev, s1) = seed_trees(p, st, (count - 1) as nat, param);
        let (t, s2) = random_tree(param, p.max_depth as nat, s1);
        (prev.push(t), s2)
    }
}

/// The trees of a ranking.
pub open spec fn ranked_trees<S>(ranked: Seq<(GeoExpr, S)>) -> Seq<GeoTree> {
    Seq::new(ranked.len(), |i: int| ranked[i].0@)
}

/// The size bound under which the surgery's node counts stay in `usize`.
pub open spec fn small_tree(t: GeoTree) -> bool {
    tree_size(t) <= usize::MAX / 4
}

/// The most nodes a tree of depth `depth` can have.
pub open spec fn full_size(depth: nat) -> nat
    decreases depth,
{
    if depth == 0 {
        1
    } else {
        1 + 2 * full_size((depth - 1) as nat)
    }
}

proof fn lemma_random_tree_size<F: Fn(u64) -> (u64, u64)>(param: F, depth: nat, st: u64)
    ensures
        tree_size(random_tree(param, depth, st).0) <= full_size(depth),
    decreases depth,
{
    reveal(random_tree);
    if depth > 0 && pick(st, 4) != 0 {
        let s1 = after(st, 4);
        let form = pick(s1, 8);
        let s2 = after(s1, 8);
        let d = (depth - 1) as nat;
        if form == 0 || form == 5 {
            lemma_random_tree_size(param, d, after(s2, 5));
        } else if form == 4 || form == 7 {
            lemma_random_tree_size(param, d, s2);
        } else {
            let (a, s3) = random_tree(param, d, s2);
            lemma_random_tree_size(param, d, s2);
            lemma_random_tree_size(param, d, s3);
        }
    }
}

/// The tree-GA is score-blind: two rankings holding the same trees in the
/// same order breed the same children from the same generator state,
/// whatever their scores are and whatever type they have.
pub proof fn lemma_vary_is_score_blind<S, T, F: Fn(u64) -> (u64, u64)>(
    p: GeoProposer,
    a: Seq<(GeoExpr, S)>,
    b: Seq<(GeoExpr, T)>,
    st: u64,
    count: nat,
    param: F,
)
    requires
        a.len() == b.len(),
        forall|i: int| 0 <= i < a.len() ==> #[trigger] a[i].0@ == b[i].0@,
    ensures
        tree_children(p, ranked_trees(a), st, count, param) == tree_children(
            p,
            ranked_trees(b),
            st,
            count,
            param,
        ),
{
    assert(ranked_trees(a) =~= ranked_trees(b));
}

/// The depth of a tree: `0` for a leaf.
pub open spec fn tree_depth(t: GeoTree) -> nat
    decreases t,
{
    match t {
        GeoTree::Param(_) | GeoTree::Basis(_) | GeoTree::Var(_) => 0,
        GeoTree::GradeLift(_, a) | GeoTree::Reverse(a) | GeoTree::GradeProject(_, a) | GeoTree::Exp(a) => 1
            + tree_depth(*a),
        GeoTree::GeoProduct(a, b) | GeoTree::Wedge(a, b) | GeoTree::Inner(a, b) | GeoTree::Sandwich(a, b) => 1
            + if tree_depth(*a) >= tree_depth(*b) {
            tree_depth(*a)
        } else {
            tree_depth(*b)
        },
    }
}

proof fn lemma_random_tree_depth<F: Fn(u64) -> (u64, u64)>(param: F, depth: nat, st: u64)
    ensures
        tree_depth(random_tree(param, depth, st).0) <= depth,
    decreases depth,
{
    reveal(random_tree);
    if depth > 0 && pick(st, 4) != 0 {
        let s1 = after(st, 4);
        let form = pick(s1, 8);
        let s2 = after(s1, 8);
        let d = (depth - 1) as nat;
        if form == 0 || form == 5 {
            lemma_random_tree_depth(param, d, after(s2, 5));
        } else if form == 4 || form == 7 {
            lemma_random_tree_depth(param, d, s2);
        } else {
            let (a, s3) = random_tree(param, d, s2);
            lemma_random_tree_depth(param, d, s2);
            lemma_random_tree_depth(param, d, s3);
        }
    }
}

/// Seeding is depth-capped: each of the `count` seeded trees is at most
/// `max_depth` deep.
pub proof fn lemma_seed_is_depth_capped<F: Fn(u64) -> (u64, u64)>(
    p: GeoProposer,
    st: u64,
    count: nat,
    param: F,
)
    ensures
        seed_trees(p, st, count, param).0.len() == count,
        forall|i: int|
            0 <= i < count ==> tree_depth(#[trigger] seed_trees(p, st, count, param).0[i]) <= p.max_depth,
    decreases count,
{
    if count > 0 {
        let (prev, s1) = seed_trees(p, st, (count - 1) as nat, param);
        lemma_seed_is_depth_capped(p, st, (count - 1) as nat, param);
        lemma_random_tree_depth(param, p.max_depth as nat, s1);
        let t = random_tree(param, p.max_depth as nat, s1).0;
        assert forall|i: int| 0 <= i < count implies tree_depth(
            #[trigger] seed_trees(p, st, count, param).0[i],
        ) <= p.max_depth by {
            if i < count - 1 {
                assert(seed_trees(p, st, count, param).0[i] == prev[i]);
            } else {
                assert(seed_trees(p, st, count, param).0[i] == t);
            }
        }
    }
}

/// The node cap holds: every bred child has at most `max_nodes` nodes, or
/// is a fresh tree at most `max_depth` deep.
pub proof fn lemma_children_respect_the_cap<F: Fn(u64) -> (u64, u64)>(
    p: GeoProposer,
    ranked: Seq<GeoTree>,
    st: u64,
    count: nat,
    param: F,
)
    ensures
        tree_children(p, ranked, st, count, param).0.len() == count,
        forall|i: int|
            0 <= i < count ==> {
                let c = #[trigger] tree_children(p, ranked, st, count, param).0[i];
                tree_size(c) <= p.max_nodes || tree_depth(c) <= p.max_depth
            },
    decreases count,
{
    if count > 0 {
        let (prev, s1) = tree_children(p, ranked, st, (count - 1) as nat, param);
        lemma_children_respect_the_cap(p, ranked, st, (count - 1) as nat, param);
        let (crossed, sc) = crossed_child(p, ranked, s1);
        let (mutated, sm) = mutated_child(crossed, sc, param);
        lemma_random_tree_depth(param, p.max_depth as nat, sm);
        let c = tree_child(p, ranked, s1, param).0;
        assert(tree_size(c) <= p.max_nodes || tree_depth(c) <= p.max_depth);
        assert forall|i: int| 0 <= i < count implies {
            let x = #[trigger] tree_children(p, ranked, st, count, param).0[i];
            tree_size(x) <= p.max_nodes || tree_depth(x) <= p.max_depth
        } by {
            if i < count - 1 {
                assert(tree_children(p, ranked, st, count, param).0[i] == prev[i]);
            } else {
                assert(tree_children(p, ranked, st, count, param).0[i] == c);
            }
        }
    }
}

/// A tournament picks the best-ranked index it sees: the winner of `rounds`
/// draws over a ranking of `len` is at most the start `len − 1` and at most
/// every index drawn (the draw of round `j` is made from the state after
/// `j` rounds), and it is the start or one of those draws.
pub proof fn lemma_tournament_is_the_lowest_draw(st: u64, len: int, rounds: nat)
    requires
        len > 0,
    ensures
        tree_tournament(st, len, rounds).0 <= len - 1,
        forall|j: nat|
            j < rounds ==> tree_tournament(st, len, rounds).0 <= pick(
                #[trigger] tree_tournament(st, len, j).1,
                len,
            ),
        tree_tournament(st, len, rounds).0 == len - 1 || exists|j: nat|
            j < rounds && tree_tournament(st, len, rounds).0 == pick(
                #[trigger] tree_tournament(st, len, j).1,
                len,
            ),
    decreases rounds,
{
    if rounds > 0 {
        let k = (rounds - 1) as nat;
        lemma_tournament_is_the_lowest_draw(st, len, k);
        let (best, s1) = tree_tournament(st, len, k);
        let i = pick(s1, len);
        assert forall|j: nat| j < rounds implies tree_tournament(st, len, rounds).0 <= pick(
            #[trigger] tree_tournament(st, len, j).1,
            len,
        ) by {
            if j < k {
                assert(best <= pick(tree_tournament(st, len, j).1, len));
            }
        }
        if tree_tournament(st, len, rounds).0 != len - 1 {
            if i < best {
                assert(tree_tournament(st, len, rounds).0 == pick(tree_tournament(st, len, k).1, len));
            } else {
                let j = choose|j: nat|
                    j < k && best == pick(#[trigger] tree_tournament(st, len, j).1, len);
                assert(tree_tournament(st, len, rounds).0 == pick(tree_tournament(st, len, j).1, len));
            }
        }
    }
}

/// Subtree mutation: on a mutation the fresh depth-2 tree lands
/// exactly at the drawn pre-order position `cut` and the rest of the parent
/// stays (putting the replaced subtree back gives the parent again, and the
/// size changes by the two subtrees' sizes only); without one the parent is
/// kept as it is.
pub proof fn lemma_mutation_replaces_the_drawn_subtree<F: Fn(u64) -> (u64, u64)>(t: GeoTree, st: u64, param: F)
    requires
        tree_size(t) <= u64::MAX,
    ensures
        ({
            let s1 = after(st, 2);
            let cut = pick(s1, tree_size(t) as int);
            let fresh = random_tree(param, 2, after(s1, tree_size(t) as int)).0;
            let m = mutated_child(t, st, param).0;
            if pick(st, 2) == 0 {
                &&& 0 <= cut < tree_size(t)
                &&& preorder_at(m, cut) == fresh
                &&& tree_size(m) == tree_size(t) - tree_size(preorder_at(t, cut)) + tree_size(fresh)
                &&& cut + tree_size(preorder_at(t, cut)) <= tree_size(t)
                &&& replace_at(m, cut, preorder_at(t, cut)) == t
            } else {
                m == t
            }
        }),
{
    let s1 = after(st, 2);
    let n = tree_size(t) as int;
    if pick(st, 2) == 0 {
        assert(n >= 1) by {
            lemma_size_positive(t);
        }
        lemma_below_spec_range(s1, n as u64);
        let cut = pick(s1, n);
        let fresh = random_tree(param, 2, after(s1, n)).0;
        lemma_replace_then_select(t, cut, fresh);
        lemma_replace_then_restore(t, cut, fresh);
    }
}

fn call_param<F: Fn(u64) -> (u64, u64)>(param: &F, st: u64) -> (r: (u64, u64))
    requires
        param_ok(*param),
    ensures
        r == param_draw(*param, st),
{
    let r = param(st);
    assert(call_ensures(*param, (st,), r));
    r
}

impl GeoProposer {
    fn random_leaf<F: Fn(u64) -> (u64, u64)>(&self, rng: &mut SplitMix64, param: &F) -> (e: GeoExpr)
        requires
            param_ok(*param),
        ensures
            (e@, final(rng)@) == random_leaf_spec(*param, old(rng)@),
    {
        let k = rng.below(3) as usize;
        if k == 0 {
            let (bits, st) = call_param(param, rng.state());
            *rng = SplitMix64::new(st);
            GeoExpr::Param(bits)
        } else if k == 1 {
            let b = rng.below(16);
            GeoExpr::Basis(b as u8)
        } else {
            let name = "v".to_owned();
            proof {
                reveal_strlit("v");
            }
            assert(name@ =~= seq!['v']);
            GeoExpr::Var(name)
        }
    }

    fn random_expr<F: Fn(u64) -> (u64, u64)>(&self, depth: usize, rng: &mut SplitMix64, param: &F) -> (e:
        GeoExpr)
        requires
            param_ok(*param),
        ensures
            (e@, final(rng)@) == random_tree(*param, depth as nat, old(rng)@),
        decreases depth,
    {
        reveal(random_tree);
        if depth == 0 {
            return self.random_leaf(rng, param);
        }
        if rng.below(4) == 0 {
            return self.random_leaf(rng, param);
        }
        let form = rng.below(8);
        if form == 0 {
            let g = rng.below(5) as u8;
            GeoExpr::GradeLift(g, Box::new(self.random_expr(depth - 1, rng, param)))
        } else if form == 1 {
            let a = self.random_expr(depth - 1, rng, param);
            let b = self.random_expr(depth - 1, rng, param);
            GeoExpr::GeoProduct(Box::new(a), Box::new(b))
        } else if form == 2 {
            let a = self.random_expr(depth - 1, rng, param);
            let b = self.random_expr(depth - 1, rng, param);
            GeoExpr::Wedge(Box::new(a), Box::new(b))
        } else if form == 3 {
            let a = self.random_expr(depth - 1, rng, param);
            let b = self.random_expr(depth - 1, rng, param);
            GeoExpr::Inner(Box::new(a), Box::new(b))
        } else if form == 4 {
            GeoExpr::Reverse(Box::new(self.random_expr(depth - 1, rng, param)))
        } else if form == 5 {
            let g = rng.below(5) as u8;
            GeoExpr::GradeProject(g, Box::new(self.random_expr(depth - 1, rng, param)))
        } else if form == 6 {
            let a = self.random_expr(depth - 1, rng, param);
            let b = self.random_expr(depth - 1, rng, param);
            GeoExpr::Sandwich(Box::new(a), Box::new(b))
        } else {
            GeoExpr::Exp(Box::new(self.random_expr(depth - 1, rng, param)))
        }
    }
}

impl GeoProposer {
    fn tournament_pick<'a, S>(&self, ranked: &'a [(GeoExpr, S)], rng: &mut SplitMix64) -> (r:
        &'a GeoExpr)
        requires
            ranked@.len() > 0,
        ensures
            ({
                let (i, st) = tree_tournament(old(rng)@, ranked@.len() as int, self.tournament as nat);
                &&& 0 <= i < ranked@.len()
                &&& r@ == ranked@[i].0@
                &&& final(rng)@ == st
            }),
    {
        let len = ranked.len();
        let ghost st0 = rng@;
        let mut best = len - 1;
        let mut round: usize = 0;
        while round < self.tournament
            invariant
                len == ranked@.len(),
                len > 0,
                round <= self.tournament,
                best < len,
                (best as int, rng@) == tree_tournament(st0, len as int, round as nat),
            decreases self.tournament - round,
        {
            let i = rng.below(len as u64) as usize;
            if i < best {
                best = i;
            }
            round = round + 1;
        }
        &ranked[best].0
    }

    fn cross<S>(&self, ranked: &[(GeoExpr, S)], rng: &mut SplitMix64) -> (c: GeoExpr)
        requires
            ranked@.len() > 0,
            forall|i: int| 0 <= i < ranked@.len() ==> small_tree(#[trigger] ranked@[i].0@),
        ensures
            (c@, final(rng)@) == crossed_child(*self, ranked_trees(ranked@), old(rng)@),
            tree_size(c@) <= usize::MAX / 2,
    {
        let a = self.tournament_pick(ranked, rng);
        let b = self.tournament_pick(ranked, rng);
        proof {
            assert(small_tree(a@) && small_tree(b@));
        }
        let cut_a = rng.below(node_count(a) as u64) as usize;
        let cut_b = rng.below(node_count(b) as u64) as usize;
        let sub = nth_subtree(b, cut_b);
        proof {
            lemma_replace_then_select(b@, cut_b as int, b@);
            lemma_replace_then_select(a@, cut_a as int, sub@);
        }
        replace_nth(a, cut_a, sub)
    }

    fn mutate_tree<F: Fn(u64) -> (u64, u64)>(&self, t: GeoExpr, rng: &mut SplitMix64, param: &F) -> (c:
        GeoExpr)
        requires
            param_ok(*param),
            tree_size(t@) <= usize::MAX / 2,
        ensures
            (c@, final(rng)@) == mutated_child(t@, old(rng)@, *param),
            tree_size(c@) <= usize::MAX / 2 + 7,
    {
        if rng.below(2) == 0 {
            let cut = rng.below(node_count(&t) as u64) as usize;
            let ghost s_fresh = rng@;
            let fresh = self.random_expr(2, rng, param);
            proof {
                lemma_random_tree_size(*param, 2, s_fresh);
                reveal_with_fuel(full_size, 3);
                lemma_replace_then_select(t@, cut as int, fresh@);
            }
            replace_nth(&t, cut, &fresh)
        } else {
            t
        }
    }

    /// One child of the ranking (see `tree_child`).
    fn breed<S, F: Fn(u64) -> (u64, u64)>(
        &self,
        ranked: &[(GeoExpr, S)],
        rng: &mut SplitMix64,
        param: &F,
    ) -> (c: GeoExpr)
        requires
            param_ok(*param),
            ranked@.len() > 0,
            forall|i: int| 0 <= i < ranked@.len() ==> small_tree(#[trigger] ranked@[i].0@),
        ensures
            (c@, final(rng)@) == tree_child(*self, ranked_trees(ranked@), old(rng)@, *param),
    {
        let crossed = self.cross(ranked, rng);
        let child = self.mutate_tree(crossed, rng, param);
        if node_count(&child) > self.max_nodes {
            self.random_expr(self.max_depth, rng, param)
        } else {
            child
        }
    }

    /// The seed population: `population` random trees of the maximum depth.
    pub fn seed<F: Fn(u64) -> (u64, u64)>(&self, rng: &mut SplitMix64, param: &F) -> (pop: Vec<GeoExpr>)
        requires
            param_ok(*param),
        ensures
            ({
                let (ts, st) = seed_trees(*self, old(rng)@, self.population as nat, *param);
                &&& pop@.len() == self.population
                &&& forall|i: int| 0 <= i < pop@.len() ==> (#[trigger] pop@[i])@ == ts[i]
                &&& final(rng)@ == st
            }),
    {
        let ghost st0 = rng@;
        let mut pop: Vec<GeoExpr> = Vec::new();
        let mut k: usize = 0;
        while k < self.population
            invariant
                k <= self.population,
                pop@.len() == k,
                seed_trees(*self, st0, k as nat, *param).0.len() == k,
                forall|i: int|
                    0 <= i < k ==> (#[trigger] pop@[i])@ == seed_trees(*self, st0, k as nat, *param).0[i],
                rng@ == seed_trees(*self, st0, k as nat, *param).1,
                param_ok(*param),
            decreases self.population - k,
        {
            let ghost prev = seed_trees(*self, st0, k as nat, *param).0;
            let t = self.random_expr(self.max_depth, rng, param);
            pop.push(t);
            k = k + 1;
            assert(seed_trees(*self, st0, k as nat, *param).0 == prev.push(t@));
        }
        pop
    }

    /// The next generation from a cost-ascending ranking: the first
    /// `elitism` trees unchanged, then children (see `tree_child`) until
    /// `population` is reached.
    pub fn vary<S, F: Fn(u64) -> (u64, u64)>(
        &self,
        ranked: &[(GeoExpr, S)],
        rng: &mut SplitMix64,
        param: &F,
    ) -> (next: Vec<GeoExpr>)
        requires
            param_ok(*param),
            (if self.elitism < ranked@.len() { self.elitism as int } else { ranked@.len() as int })
                < self.population ==> ranked@.len() > 0,
            forall|i: int| 0 <= i < ranked@.len() ==> small_tree(#[trigger] ranked@[i].0@),
        ensures
            ({
                let ec = if self.elitism < ranked@.len() { self.elitism as int } else { ranked@.len() as int };
                let total = if ec < self.population { self.population as int } else { ec };
                let (kids, st) = tree_children(
                    *self,
                    ranked_trees(ranked@),
                    old(rng)@,
                    (total - ec) as nat,
                    *param,
                );
                &&& next@.len() == total
                &&& forall|i: int| 0 <= i < ec ==> (#[trigger] next@[i])@ == ranked@[i].0@
                &&& forall|i: int| ec <= i < total ==> (#[trigger] next@[i])@ == kids[i - ec]
                &&& final(rng)@ == st
            }),
    {
        let ghost st0 = rng@;
        let ghost trees = ranked_trees(ranked@);
        let n = ranked.len();
        let ec = if self.elitism < n {
            self.elitism
        } else {
            n
        };
        let mut next: Vec<GeoExpr> = Vec::new();
        let mut i: usize = 0;
        while i < ec
            invariant
                ec <= n == ranked@.len(),
                i <= ec,
                next@.len() == i,
                forall|j: int| 0 <= j < i ==> (#[trigger] next@[j])@ == ranked@[j].0@,
            decreases ec - i,
        {
            next.push(ranked[i].0.clone());
            i = i + 1;
        }
        while next.len() < self.population
            invariant
                ec <= n == ranked@.len(),
                ec as int == (if self.elitism < ranked@.len() { self.elitism as int } else {
                    ranked@.len() as int
                }),
                ec < self.population ==> n > 0,
                ec <= next@.len(),
                next@.len() <= (if ec < self.population { self.population as int } else { ec as int }),
                trees == ranked_trees(ranked@),
                forall|j: int| 0 <= j < ranked@.len() ==> small_tree(#[trigger] ranked@[j].0@),
                param_ok(*param),
                forall|j: int| 0 <= j < ec ==> (#[trigger] next@[j])@ == ranked@[j].0@,
                tree_children(*self, trees, st0, (next@.len() - ec) as nat, *param).0.len() == next@.len()
                    - ec,
                forall|j: int|
                    ec <= j < next@.len() ==> (#[trigger] next@[j])@ == tree_children(
                        *self,
                        trees,
                        st0,
                        (next@.len() - ec) as nat,
                        *param,
                    ).0[j - ec],
                rng@ == tree_children(*self, trees, st0, (next@.len() - ec) as nat, *param).1,
            decreases self.population - next@.len(),
        {
            let ghost k = (next@.len() - ec) as nat;
            let ghost prev = tree_children(*self, trees, st0, k, *param).0;
            let c = self.breed(ranked, rng, param);
            next.push(c);
            assert(tree_children(*self, trees, st0, k + 1, *param).0 == prev.push(c@));
        }
        next
    }
}

} // verus!
