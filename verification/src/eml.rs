//! The EML expression tree: a binary tree over the grammar
//! `S → 1 | <var> | eml(S, S)`, with iterative deep clone and structural
//! equality (no recursion, so arbitrarily deep trees are safe).

use vstd::prelude::*;

verus! {

/// A UFL EML expression. The enum admits exactly the grammar.
#[derive(Debug)]
pub enum Eml {
    /// The literal `1` — the sole numeric constant terminal.
    One,
    /// A free variable terminal, identified by name.
    Var(String),
    /// The binary `eml` node — `exp(exp_arg) − ln(log_arg)`.
    Node { exp_arg: Box<Eml>, log_arg: Box<Eml> },
}

/// The mathematical tree an [`Eml`] denotes: names as character sequences.
pub enum EmlTree {
    One,
    Var(Seq<char>),
    Node(Box<EmlTree>, Box<EmlTree>),
}

/// The tree an expression denotes.
pub open spec fn tree_of(e: &Eml) -> EmlTree
    decreases e,
{
    match e {
        Eml::One => EmlTree::One,
        Eml::Var(name) => EmlTree::Var(name@),
        Eml::Node { exp_arg, log_arg } => EmlTree::Node(
            Box::new(tree_of(exp_arg)),
            Box::new(tree_of(log_arg)),
        ),
    }
}

impl View for Eml {
    type V = EmlTree;

    open spec fn view(&self) -> EmlTree {
        tree_of(self)
    }
}

/// The number of nodes of an expression.
pub open spec fn eml_size(e: &Eml) -> nat
    decreases e,
{
    match e {
        Eml::Node { exp_arg, log_arg } => 1 + eml_size(exp_arg) + eml_size(log_arg),
        _ => 1,
    }
}

impl Eml {
    /// The literal `1`.
    pub fn one() -> (r: Eml)
        ensures
            r@ == EmlTree::One,
    {
        Eml::One
    }

    /// A free variable terminal.
    pub fn var(name: &str) -> (r: Eml)
        ensures
            r@ == EmlTree::Var(name@),
    {
        Eml::Var(name.to_owned())
    }

    /// The binary `eml(exp_arg, log_arg)` node.
    pub fn node(exp_arg: Eml, log_arg: Eml) -> (r: Eml)
        ensures
            r@ == EmlTree::Node(Box::new(exp_arg@), Box::new(log_arg@)),
    {
        Eml::Node { exp_arg: Box::new(exp_arg), log_arg: Box::new(log_arg) }
    }
}

// ───────────────────────────── equality ─────────────────────────────

/// Every pair on the stack is structurally equal.
pub open spec fn pairs_equal(s: Seq<(&Eml, &Eml)>) -> bool {
    forall|i: int| 0 <= i < s.len() ==> #[trigger] s[i].0@ == s[i].1@
}

/// The nodes still to compare: the sizes of the left trees on the stack.
pub open spec fn pairs_size(s: Seq<(&Eml, &Eml)>) -> nat
    decreases s.len(),
{
    if s.len() == 0 {
        0
    } else {
        pairs_size(s.drop_last()) + eml_size(s.last().0)
    }
}

proof fn lemma_pairs_push(s: Seq<(&Eml, &Eml)>, x: (&Eml, &Eml))
    ensures
        pairs_size(s.push(x)) == pairs_size(s) + eml_size(x.0),
        pairs_equal(s.push(x)) <==> pairs_equal(s) && x.0@ == x.1@,
{
    assert(s.push(x).drop_last() =~= s);
    if pairs_equal(s) && x.0@ == x.1@ {
        assert forall|i: int| 0 <= i < s.push(x).len() implies #[trigger] s.push(x)[i].0@ == s.push(x)[i].1@ by {
            if i < s.len() {
                assert(s.push(x)[i] == s[i]);
            }
        }
    }
    if pairs_equal(s.push(x)) {
        assert forall|i: int| 0 <= i < s.len() implies #[trigger] s[i].0@ == s[i].1@ by {
            assert(s.push(x)[i] == s[i]);
        }
        assert(s.push(x)[s.len() as int] == x);
    }
}

impl PartialEq for Eml {
    /// Iterative structural equality: a lockstep walk over an explicit stack
    /// of pairs, stopping at the first difference.
    fn eq(&self, other: &Self) -> (r: bool) {
        let mut pairs: Vec<(&Eml, &Eml)> = Vec::new();
        pairs.push((self, other));
        proof {
            lemma_pairs_push(Seq::empty(), (self, other));
            assert(seq![(self, other)] =~= Seq::<(&Eml, &Eml)>::empty().push((self, other)));
        }
        loop
            invariant
                (self@ == other@) <==> pairs_equal(pairs@),
            decreases pairs_size(pairs@),
        {
            let ghost before = pairs@;
            match pairs.pop() {
                None => {
                    return true;
                },
                Some(pair) => {
                    let (a, b) = pair;
                    proof {
                        assert(before == pairs@.push(pair));
                        lemma_pairs_push(pairs@, pair);
                    }
                    match a {
                        Eml::One => {
                            match b {
                                Eml::One => {},
                                _ => {
                                    return false;
                                },
                            }
                        },
                        Eml::Var(x) => {
                            match b {
                                Eml::Var(y) => {
                                    let same = x.eq(y);
                                    if !same {
                                        return false;
                                    }
                                },
                                _ => {
                                    return false;
                                },
                            }
                        },
                        Eml::Node { exp_arg: ae, log_arg: al } => {
                            match b {
                                Eml::Node { exp_arg: be, log_arg: bl } => {
                                    let ghost mid = pairs@;
                                    pairs.push((&**al, &**bl));
                                    pairs.push((&**ae, &**be));
                                    proof {
                                        lemma_pairs_push(mid, (&**al, &**bl));
                                        lemma_pairs_push(mid.push((&**al, &**bl)), (&**ae, &**be));
                                    }
                                },
                                _ => {
                                    return false;
                                },
                            }
                        },
                    }
                },
            }
        }
    }
}

impl vstd::std_specs::cmp::PartialEqSpecImpl for Eml {
    open spec fn obeys_eq_spec() -> bool {
        true
    }

    open spec fn eq_spec(&self, other: &Eml) -> bool {
        self@ == other@
    }
}

// ──────────────────────────────── clone ────────────────────────────────

/// One step of the iterative clone: visit a subtree, or rebuild a node from
/// the two most recent results.
pub enum CloneTask<'a> {
    Visit(&'a Eml),
    Rebuild,
}

/// The work a task stack still holds: each visit counts twice its subtree's
/// size, each rebuild once.
pub open spec fn task_weight(t: CloneTask) -> nat {
    match t {
        CloneTask::Visit(e) => 2 * eml_size(e),
        CloneTask::Rebuild => 1,
    }
}

/// The total work of a task stack.
pub open spec fn tasks_weight(s: Seq<CloneTask>) -> nat
    decreases s.len(),
{
    if s.len() == 0 {
        0
    } else {
        tasks_weight(s.drop_last()) + task_weight(s.last())
    }
}

pub proof fn lemma_tasks_weight_push(s: Seq<CloneTask>, t: CloneTask)
    ensures
        tasks_weight(s.push(t)) == tasks_weight(s) + task_weight(t),
{
    assert(s.push(t).drop_last() =~= s);
}

/// What running the task stack (top last) from result stack `out` leaves on
/// the result stack; `None` if a rebuild finds fewer than two results.
pub open spec fn run_tasks(tasks: Seq<CloneTask>, out: Seq<EmlTree>) -> Option<Seq<EmlTree>>
    decreases tasks_weight(tasks),
{
    if tasks.len() == 0 {
        Some(out)
    } else {
        let rest = tasks.drop_last();
        proof {
            assert(tasks == rest.push(tasks.last()));
            lemma_tasks_weight_push(rest, tasks.last());
        }
        match tasks.last() {
            CloneTask::Visit(e) => match e {
                Eml::One => run_tasks(rest, out.push(EmlTree::One)),
                Eml::Var(name) => run_tasks(rest, out.push(EmlTree::Var(name@))),
                Eml::Node { exp_arg, log_arg } => {
                    proof {
                        lemma_tasks_weight_push(rest, CloneTask::Rebuild);
                        lemma_tasks_weight_push(rest.push(CloneTask::Rebuild), CloneTask::Visit(log_arg));
                        lemma_tasks_weight_push(
                            rest.push(CloneTask::Rebuild).push(CloneTask::Visit(log_arg)),
                            CloneTask::Visit(exp_arg),
                        );
                    }
                    run_tasks(
                        rest.push(CloneTask::Rebuild).push(CloneTask::Visit(log_arg)).push(
                            CloneTask::Visit(exp_arg),
                        ),
                        out,
                    )
                },
            },
            CloneTask::Rebuild => if out.len() < 2 {
                None
            } else {
                let log = out.last();
                let exp = out.drop_last().last();
                run_tasks(
                    rest,
                    out.drop_last().drop_last().push(EmlTree::Node(Box::new(exp), Box::new(log))),
                )
            },
        }
    }
}

/// Visiting a subtree pushes exactly its tree onto the results.
proof fn lemma_visit(tasks: Seq<CloneTask>, out: Seq<EmlTree>, e: &Eml)
    ensures
        run_tasks(tasks.push(CloneTask::Visit(e)), out) == run_tasks(tasks, out.push(e@)),
    decreases eml_size(e),
{
    let s = tasks.push(CloneTask::Visit(e));
    assert(s.drop_last() =~= tasks);
    match e {
        Eml::One => {},
        Eml::Var(_) => {},
        Eml::Node { exp_arg, log_arg } => {
            let t1 = tasks.push(CloneTask::Rebuild);
            let t2 = t1.push(CloneTask::Visit(log_arg));
            lemma_visit(t2, out, exp_arg);
            lemma_visit(t1, out.push(exp_arg@), log_arg);
            let o2 = out.push(exp_arg@).push(log_arg@);
            assert(t1.drop_last() =~= tasks);
            assert(o2.drop_last().drop_last() =~= out);
            assert(o2.drop_last().last() == exp_arg@);
        },
    }
}

/// The result stack as trees.
pub open spec fn trees_of(out: Seq<Eml>) -> Seq<EmlTree> {
    out.map_values(|e: Eml| e@)
}

impl Clone for Eml {
    /// Iterative deep clone: a two-stack post-order rebuild, so a tree of
    /// any depth clones without recursing.
    fn clone(&self) -> (r: Self)
        ensures
            r@ == self@,
    {
        let mut tasks: Vec<CloneTask> = Vec::new();
        tasks.push(CloneTask::Visit(self));
        let mut out: Vec<Eml> = Vec::new();
        proof {
            lemma_visit(Seq::empty(), Seq::empty(), self);
            assert(Seq::<CloneTask>::empty().push(CloneTask::Visit(self)) =~= tasks@);
            assert(trees_of(out@) =~= Seq::<EmlTree>::empty());
            assert(Seq::<EmlTree>::empty().push(self@) =~= seq![self@]);
        }
        loop
            invariant
                run_tasks(tasks@, trees_of(out@)) == Some(seq![self@]),
            ensures
                trees_of(out@) == seq![self@],
            decreases tasks_weight(tasks@),
        {
            let ghost before = tasks@;
            let ghost outs = trees_of(out@);
            match tasks.pop() {
                None => {
                    assert(before.len() == 0);
                    break;
                },
                Some(task) => {
                    proof {
                        assert(before.drop_last() =~= tasks@);
                        assert(before.last() == task);
                        lemma_tasks_weight_push(tasks@, task);
                        assert(before =~= tasks@.push(task));
                    }
                    match task {
                        CloneTask::Visit(e) => {
                            match e {
                                Eml::One => {
                                    out.push(Eml::One);
                                    assert(trees_of(out@) =~= outs.push(EmlTree::One));
                                },
                                Eml::Var(name) => {
                                    out.push(Eml::Var(name.clone()));
                                    assert(trees_of(out@) =~= outs.push(EmlTree::Var(name@)));
                                },
                                Eml::Node { exp_arg, log_arg } => {
                                    tasks.push(CloneTask::Rebuild);
                                    tasks.push(CloneTask::Visit(&**log_arg));
                                    tasks.push(CloneTask::Visit(&**exp_arg));
                                    proof {
                                        let rest = before.drop_last();
                                        lemma_tasks_weight_push(rest, CloneTask::Rebuild);
                                        lemma_tasks_weight_push(
                                            rest.push(CloneTask::Rebuild),
                                            CloneTask::Visit(log_arg),
                                        );
                                        lemma_tasks_weight_push(
                                            rest.push(CloneTask::Rebuild).push(CloneTask::Visit(log_arg)),
                                            CloneTask::Visit(exp_arg),
                                        );
                                    }
                                },
                            }
                        },
                        CloneTask::Rebuild => {
                            let log = out.pop();
                            let exp = out.pop();
                            match (exp, log) {
                                (Some(x), Some(l)) => {
                                    let ghost lv = l@;
                                    let ghost xv = x@;
                                    proof {
                                        assert(outs.len() >= 2);
                                        assert(outs.last() == lv);
                                        assert(outs.drop_last().last() == xv);
                                        assert(trees_of(out@) =~= outs.drop_last().drop_last());
                                    }
                                    out.push(Eml::node(x, l));
                                    assert(trees_of(out@) =~= outs.drop_last().drop_last().push(
                                        EmlTree::Node(Box::new(xv), Box::new(lv)),
                                    ));
                                },
                                _ => {
                                    // a rebuild always follows its two children's visits
                                    assert(false);
                                },
                            }
                        },
                    }
                },
            }
        }
        match out.pop() {
            Some(root) => {
                assert(root@ == trees_of(out@.push(root))[0]);
                root
            },
            None => {
                assert(false);
                Eml::One
            },
        }
    }
}

// ───────────────────────── unbound variables ─────────────────────────

/// The names `bound` holds.
pub open spec fn name_set(bound: Seq<String>) -> Set<Seq<char>> {
    Set::new(|x: Seq<char>| exists|i: int| 0 <= i < bound.len() && #[trigger] bound[i]@ == x)
}

/// The first variable of `t` in evaluation order (`exp_arg` before
/// `log_arg`) that `bound` does not hold.
pub open spec fn first_unbound(t: EmlTree, bound: Set<Seq<char>>) -> Option<Seq<char>>
    decreases t,
{
    match t {
        EmlTree::One => None,
        EmlTree::Var(x) => if bound.contains(x) {
            None
        } else {
            Some(x)
        },
        EmlTree::Node(a, b) => match first_unbound(*a, bound) {
            Some(x) => Some(x),
            None => first_unbound(*b, bound),
        },
    }
}

/// The first unbound variable of a work stack, top first.
pub open spec fn first_unbound_stack(s: Seq<&Eml>, bound: Set<Seq<char>>) -> Option<Seq<char>>
    decreases s.len(),
{
    if s.len() == 0 {
        None
    } else {
        match first_unbound(s.last()@, bound) {
            Some(x) => Some(x),
            None => first_unbound_stack(s.drop_last(), bound),
        }
    }
}

/// The nodes a work stack still holds.
pub open spec fn stack_size(s: Seq<&Eml>) -> nat
    decreases s.len(),
{
    if s.len() == 0 {
        0
    } else {
        stack_size(s.drop_last()) + eml_size(s.last())
    }
}

proof fn lemma_stack_push(s: Seq<&Eml>, x: &Eml, bound: Set<Seq<char>>)
    ensures
        stack_size(s.push(x)) == stack_size(s) + eml_size(x),
        first_unbound_stack(s.push(x), bound) == match first_unbound(x@, bound) {
            Some(y) => Some(y),
            None => first_unbound_stack(s, bound),
        },
{
    assert(s.push(x).drop_last() =~= s);
}

fn is_bound(name: &String, bound: &[String]) -> (r: bool)
    ensures
        r == name_set(bound@).contains(name@),
{
    let mut i: usize = 0;
    while i < bound.len()
        invariant
            i <= bound@.len(),
            forall|j: int| 0 <= j < i ==> #[trigger] bound@[j]@ != name@,
        decreases bound@.len() - i,
    {
        if name.eq(&bound[i]) {
            assert(bound@[i as int]@ == name@);
            return true;
        }
        i = i + 1;
    }
    false
}

/// The first variable of `e`, in evaluation order (`exp_arg` before
/// `log_arg`), whose name `bound` does not list — an iterative walk, so
/// arbitrarily deep trees are safe.
pub fn first_unbound_var(e: &Eml, bound: &[String]) -> (r: Option<String>)
    ensures
        r is None <==> first_unbound(e@, name_set(bound@)) is None,
        r matches Some(x) ==> first_unbound(e@, name_set(bound@)) == Some(x@),
{
    let ghost names = name_set(bound@);
    let mut stack: Vec<&Eml> = Vec::new();
    stack.push(e);
    proof {
        lemma_stack_push(Seq::empty(), e, names);
        assert(Seq::<&Eml>::empty().push(e) =~= stack@);
    }
    loop
        invariant
            names == name_set(bound@),
            first_unbound_stack(stack@, names) == first_unbound(e@, names),
        decreases stack_size(stack@),
    {
        let ghost before = stack@;
        match stack.pop() {
            None => {
                return None;
            },
            Some(t) => {
                proof {
                    assert(before == stack@.push(t));
                    lemma_stack_push(stack@, t, names);
                }
                match t {
                    Eml::One => {},
                    Eml::Var(name) => {
                        if !is_bound(name, bound) {
                            return Some(name.clone());
                        }
                    },
                    Eml::Node { exp_arg, log_arg } => {
                        let ghost rest = stack@;
                        stack.push(&**log_arg);
                        stack.push(&**exp_arg);
                        proof {
                            lemma_stack_push(rest, &**log_arg, names);
                            lemma_stack_push(rest.push(&**log_arg), &**exp_arg, names);
                        }
                    },
                }
            },
        }
    }
}

} // verus!
