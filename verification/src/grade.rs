//! Grade sets and the grade context of the decidable grade-type system:
//! which grades (`0..=4` in `Cl(3,0,1)`) a form's value can carry, and the
//! grades declared for the input variables (⊤ = `full(4)` when undeclared).

use vstd::prelude::*;

verus! {

/// The number of `Cl(3,0,1)` generators (grades range over `0..=4`).
pub const N: usize = 4;

/// A set of grades, bit `k` standing for grade `k` (`k < 32`).
#[derive(Clone, Copy, Debug, PartialEq, Eq, Structural)]
pub struct GradeSet {
    pub bits: u32,
}

impl GradeSet {
    /// Grade `k` is in the set.
    pub open spec fn has(self, k: int) -> bool {
        0 <= k < 32 && (self.bits >> (k as u32)) & 1u32 == 1u32
    }
}

/// `∅`.
pub open spec fn empty_set() -> GradeSet {
    GradeSet { bits: 0 }
}

/// `{k}`.
pub open spec fn singleton_set(k: int) -> GradeSet {
    GradeSet { bits: 1u32 << (k as u32) }
}

/// `g ∪ {k}`.
pub open spec fn with_grade(g: GradeSet, k: int) -> GradeSet {
    GradeSet { bits: g.bits | (1u32 << (k as u32)) }
}

/// `{0, …, n}`.
pub open spec fn full_set(n: int) -> GradeSet {
    if n >= 31 {
        GradeSet { bits: 0xffff_ffff }
    } else {
        GradeSet { bits: !(0xffff_ffffu32 << ((n + 1) as u32)) }
    }
}

proof fn lemma_bits_singleton(k: u32)
    requires
        k < 32,
    ensures
        forall|j: u32| j < 32 ==> (#[trigger] ((1u32 << k) >> j) & 1u32 == 1u32) == (j == k),
{
    assert(forall|j: u32| j < 32 ==> (#[trigger] ((1u32 << k) >> j) & 1u32 == 1u32) == (j == k)) by (bit_vector)
        requires
            k < 32,
    ;
}

proof fn lemma_bits_with(b: u32, k: u32)
    requires
        k < 32,
    ensures
        forall|j: u32|
            j < 32 ==> (#[trigger] ((b | (1u32 << k)) >> j) & 1u32 == 1u32) == ((b >> j) & 1u32 == 1u32 || j
                == k),
{
    assert(forall|j: u32|
        j < 32 ==> (#[trigger] ((b | (1u32 << k)) >> j) & 1u32 == 1u32) == ((b >> j) & 1u32 == 1u32 || j == k))
        by (bit_vector)
        requires
            k < 32,
    ;
}

proof fn lemma_bits_low(n: u32)
    requires
        n < 31,
    ensures
        forall|j: u32| j < 32 ==> (#[trigger] ((!(0xffff_ffffu32 << ((n + 1) as u32))) >> j) & 1u32 == 1u32) == (j
            <= n),
{
    assert(forall|j: u32|
        j < 32 ==> (#[trigger] ((!(0xffff_ffffu32 << ((n + 1) as u32))) >> j) & 1u32 == 1u32) == (j <= n))
        by (bit_vector)
        requires
            n < 31,
    ;
}

proof fn lemma_bits_all()
    ensures
        forall|j: u32| j < 32 ==> #[trigger] (0xffff_ffffu32 >> j) & 1u32 == 1u32,
{
    assert(forall|j: u32| j < 32 ==> #[trigger] (0xffff_ffffu32 >> j) & 1u32 == 1u32) by (bit_vector);
}

proof fn lemma_bits_zero(b: u32)
    ensures
        b == 0 ==> forall|j: u32| j < 32 ==> #[trigger] (b >> j) & 1u32 == 0u32,
{
    assert(b == 0 ==> forall|j: u32| j < 32 ==> #[trigger] (b >> j) & 1u32 == 0u32) by (bit_vector);
}

/// A non-zero set has a lowest member at or above `j` when `b >> j` is
/// non-zero.
proof fn lemma_some_bit(b: u32, j: u32) -> (k: u32)
    requires
        j < 32,
        (b >> j) != 0,
    ensures
        j <= k < 32,
        (b >> k) & 1u32 == 1u32,
    decreases 32 - j,
{
    if (b >> j) & 1u32 == 1u32 {
        j
    } else {
        assert(j < 31) by (bit_vector)
            requires
                (b >> j) != 0,
                (b >> j) & 1u32 != 1u32,
                j < 32,
        ;
        assert((b >> ((j + 1) as u32)) != 0) by (bit_vector)
            requires
                (b >> j) != 0,
                (b >> j) & 1u32 != 1u32,
                j < 31,
        ;
        lemma_some_bit(b, (j + 1) as u32)
    }
}

/// How many of the grades `0..n` the set holds.
pub open spec fn count_below(g: GradeSet, n: int) -> nat
    decreases n,
{
    if n <= 0 {
        0
    } else {
        count_below(g, n - 1) + if g.has(n - 1) {
            1nat
        } else {
            0nat
        }
    }
}

impl GradeSet {
    /// The empty set.
    pub fn empty() -> (r: GradeSet)
        ensures
            r == empty_set(),
            forall|k: int| !#[trigger] r.has(k),
    {
        proof {
            lemma_bits_zero(0);
            assert forall|k: int| !#[trigger] GradeSet { bits: 0 }.has(k) by {
                if 0 <= k < 32 {
                    assert((0u32 >> (k as u32)) & 1u32 == 0u32);
                }
            }
        }
        GradeSet { bits: 0 }
    }

    /// `{k}`.
    pub fn singleton(k: usize) -> (r: GradeSet)
        requires
            k < 32,
        ensures
            r == singleton_set(k as int),
            forall|j: int| #[trigger] r.has(j) <==> j == k,
    {
        let r = GradeSet { bits: 1u32 << (k as u32) };
        proof {
            lemma_bits_singleton(k as u32);
            assert forall|j: int| #[trigger] r.has(j) <==> j == k by {
                if 0 <= j < 32 {
                    assert(((1u32 << (k as u32)) >> (j as u32)) & 1u32 == 1u32 <==> (j as u32) == (k as u32));
                }
            }
        }
        r
    }

    /// `self ∪ {k}`.
    pub fn with(self, k: usize) -> (r: GradeSet)
        requires
            k < 32,
        ensures
            r == with_grade(self, k as int),
            forall|j: int| #[trigger] r.has(j) <==> self.has(j) || j == k,
    {
        let r = GradeSet { bits: self.bits | (1u32 << (k as u32)) };
        proof {
            lemma_bits_with(self.bits, k as u32);
            assert forall|j: int| #[trigger] r.has(j) <==> self.has(j) || j == k by {
                if 0 <= j < 32 {
                    assert(((self.bits | (1u32 << (k as u32))) >> (j as u32)) & 1u32 == 1u32 <==> ((self.bits
                        >> (j as u32)) & 1u32 == 1u32 || (j as u32) == (k as u32)));
                }
            }
        }
        r
    }

    /// `{0, …, n}` — every grade of an `n`-generator algebra.
    pub fn full(n: usize) -> (r: GradeSet)
        requires
            n < 32,
        ensures
            r == full_set(n as int),
            forall|j: int| #[trigger] r.has(j) <==> 0 <= j <= n,
    {
        if n >= 31 {
            proof {
                lemma_bits_all();
                assert forall|j: int| #[trigger] GradeSet { bits: 0xffff_ffffu32 }.has(j) <==> 0 <= j <= n by {
                    if 0 <= j < 32 {
                        assert((0xffff_ffffu32 >> (j as u32)) & 1u32 == 1u32);
                    }
                }
            }
            GradeSet { bits: 0xffff_ffff }
        } else {
            let m = n as u32;
            proof {
                lemma_bits_low(m);
            }
            let r = GradeSet { bits: !(0xffff_ffffu32 << (m + 1)) };
            proof {
                assert forall|j: int| #[trigger] r.has(j) <==> 0 <= j <= n by {
                    if 0 <= j < 32 {
                        assert(((!(0xffff_ffffu32 << ((m + 1) as u32))) >> (j as u32)) & 1u32 == 1u32 <==> (j as u32)
                            <= m);
                    }
                }
            }
            r
        }
    }

    /// Grade `k` is in the set.
    pub fn contains(&self, k: usize) -> (r: bool)
        ensures
            r == self.has(k as int),
    {
        if k >= 32 {
            false
        } else {
            (self.bits >> (k as u32)) & 1 == 1
        }
    }

    /// The set has no grade.
    pub fn is_empty(&self) -> (r: bool)
        ensures
            r == (self.bits == 0),
            r <==> forall|k: int| !#[trigger] self.has(k),
    {
        proof {
            lemma_bits_zero(self.bits);
            if self.bits == 0 {
                assert forall|k: int| !#[trigger] self.has(k) by {
                    if 0 <= k < 32 {
                        assert((self.bits >> (k as u32)) & 1u32 == 0u32);
                    }
                }
            } else {
                let b = self.bits;
                assert((b >> 0u32) == b) by (bit_vector);
                let j = lemma_some_bit(b, 0);
                assert(self.has(j as int));
            }
        }
        self.bits == 0
    }

    /// The number of grades in the set.
    pub fn len(&self) -> (r: usize)
        ensures
            r == count_below(*self, 32),
    {
        let mut n: usize = 0;
        let mut k: usize = 0;
        while k < 32
            invariant
                k <= 32,
                n == count_below(*self, k as int),
                n <= k,
            decreases 32 - k,
        {
            if self.contains(k) {
                n = n + 1;
            }
            k = k + 1;
        }
        n
    }

    /// The grades of the set, ascending.
    pub fn grades(&self) -> (r: Vec<usize>)
        ensures
            forall|i: int, j: int| 0 <= i < j < r@.len() ==> r@[i] < r@[j],
            forall|i: int| 0 <= i < r@.len() ==> r@[i] < 32,
            forall|k: int| 0 <= k < 32 ==> (#[trigger] self.has(k) <==> r@.contains(k as usize)),
    {
        let mut out: Vec<usize> = Vec::new();
        let mut k: usize = 0;
        while k < 32
            invariant
                k <= 32,
                forall|i: int, j: int| 0 <= i < j < out@.len() ==> out@[i] < out@[j],
                forall|i: int| 0 <= i < out@.len() ==> out@[i] < k,
                forall|j: int| 0 <= j < k ==> (#[trigger] self.has(j) <==> out@.contains(j as usize)),
            decreases 32 - k,
        {
            let ghost before = out@;
            if self.contains(k) {
                out.push(k);
            }
            proof {
                assert forall|j: int| 0 <= j < k + 1 implies (#[trigger] self.has(j) <==> out@.contains(
                    j as usize,
                )) by {
                    if out@.contains(j as usize) {
                        let i = choose|i: int| 0 <= i < out@.len() && out@[i] == j as usize;
                        if i < before.len() {
                            assert(before[i] == j as usize);
                        }
                    }
                    if j < k && before.contains(j as usize) {
                        let i = choose|i: int| 0 <= i < before.len() && before[i] == j as usize;
                        assert(out@[i] == j as usize);
                    }
                    if j == k && self.has(j) {
                        assert(out@[out@.len() - 1] == k);
                    }
                }
            }
            k = k + 1;
        }
        out
    }
}

/// Is every grade of `g` one of `allowed`? (`g ⊆ allowed`.)
pub fn subset_of(g: GradeSet, allowed: &[usize]) -> (r: bool)
    ensures
        r <==> forall|k: int| #[trigger] g.has(k) ==> allowed@.contains(k as usize),
{
    let mut k: usize = 0;
    while k < 32
        invariant
            k <= 32,
            forall|j: int| 0 <= j < k ==> #[trigger] g.has(j) ==> allowed@.contains(j as usize),
        decreases 32 - k,
    {
        if g.contains(k) {
            let mut found = false;
            let mut i: usize = 0;
            while i < allowed.len()
                invariant
                    i <= allowed@.len(),
                    found <==> exists|m: int| 0 <= m < i && allowed@[m] == k,
                decreases allowed@.len() - i,
            {
                if allowed[i] == k {
                    found = true;
                }
                i = i + 1;
            }
            if !found {
                assert(!allowed@.contains(k));
                return false;
            }
        }
        k = k + 1;
    }
    true
}

// ─────────────────────────────── the context ───────────────────────────────

/// The declarations in order; a later declaration of a name overrides an
/// earlier one.
pub open spec fn declared(s: Seq<(String, GradeSet)>) -> Map<Seq<char>, GradeSet>
    decreases s.len(),
{
    if s.len() == 0 {
        Map::empty()
    } else {
        declared(s.drop_last()).insert(s.last().0@, s.last().1)
    }
}

/// Grade context: input variables declared with their grade set (⊤ =
/// `full(4)` when undeclared).
#[derive(Debug)]
pub struct GradeCtx {
    vars: Vec<(String, GradeSet)>,
}

impl View for GradeCtx {
    type V = Map<Seq<char>, GradeSet>;

    closed spec fn view(&self) -> Map<Seq<char>, GradeSet> {
        declared(self.vars@)
    }
}

/// The grade of a name in a context: its declaration, or ⊤ (`{0, …, 4}`).
pub open spec fn ctx_grade(ctx: Map<Seq<char>, GradeSet>, name: Seq<char>, top: GradeSet) -> GradeSet {
    if ctx.contains_key(name) {
        ctx[name]
    } else {
        top
    }
}

proof fn lemma_declared_suffix(s: Seq<(String, GradeSet)>, i: int, k: Seq<char>)
    requires
        0 <= i < s.len(),
        s[i].0@ == k,
        forall|m: int| i < m < s.len() ==> (#[trigger] s[m]).0@ != k,
    ensures
        declared(s).contains_key(k),
        declared(s)[k] == s[i].1,
    decreases s.len(),
{
    if i < s.len() - 1 {
        assert forall|m: int| i < m < s.len() - 1 implies (#[trigger] s.drop_last()[m]).0@ != k by {
            assert(s.drop_last()[m] == s[m]);
        }
        lemma_declared_suffix(s.drop_last(), i, k);
    }
}

proof fn lemma_declared_absent(s: Seq<(String, GradeSet)>, k: Seq<char>)
    requires
        forall|m: int| 0 <= m < s.len() ==> (#[trigger] s[m]).0@ != k,
    ensures
        !declared(s).contains_key(k),
    decreases s.len(),
{
    if s.len() > 0 {
        assert forall|m: int| 0 <= m < s.len() - 1 implies (#[trigger] s.drop_last()[m]).0@ != k by {
            assert(s.drop_last()[m] == s[m]);
        }
        lemma_declared_absent(s.drop_last(), k);
    }
}

impl GradeCtx {
    /// An empty context (every variable is ⊤ until declared).
    pub fn new() -> (r: GradeCtx)
        ensures
            r@ == Map::<Seq<char>, GradeSet>::empty(),
    {
        GradeCtx { vars: Vec::new() }
    }

    /// Declare a variable's grade set (overriding an earlier declaration).
    pub fn declare(&mut self, name: &str, grades: GradeSet)
        ensures
            final(self)@ == old(self)@.insert(name@, grades),
    {
        let ghost before = self.vars@;
        self.vars.push((name.to_owned(), grades));
        assert(self.vars@.drop_last() =~= before);
    }

    /// The declared grade of a variable, or ⊤ (`full(4)`) if undeclared.
    pub fn get(&self, name: &String) -> (r: GradeSet)
        ensures
            r == ctx_grade(self@, name@, full_set(4)),
            !self@.contains_key(name@) ==> forall|j: int| #[trigger] r.has(j) <==> 0 <= j <= 4,
    {
        let mut i = self.vars.len();
        while i > 0
            invariant
                i <= self.vars@.len(),
                forall|m: int| i <= m < self.vars@.len() ==> (#[trigger] self.vars@[m]).0@ != name@,
            decreases i,
        {
            i = i - 1;
            let same = self.vars[i].0.eq(name);
            if same {
                proof {
                    lemma_declared_suffix(self.vars@, i as int, name@);
                }
                return self.vars[i].1;
            }
        }
        proof {
            lemma_declared_absent(self.vars@, name@);
        }
        GradeSet::full(N)
    }
}

/// The grade set a proper (even) versor must have: `{0, 2, 4}`.
pub fn even_grades() -> (r: GradeSet)
    ensures
        r == with_grade(with_grade(singleton_set(0), 2), 4),
        forall|k: int| #[trigger] r.has(k) <==> k == 0 || k == 2 || k == 4,
{
    GradeSet::singleton(0).with(2).with(4)
}

/// The grade context of the planar-arm witness: the joint angles `t1` and
/// `t2` are grade 0.
pub fn witness_ctx() -> (r: GradeCtx)
    ensures
        r@.dom() == set!["t1"@, "t2"@],
        r@.contains_key("t1"@),
        r@.contains_key("t2"@),
        forall|k: int| #[trigger] r@["t1"@].has(k) <==> k == 0,
        forall|k: int| #[trigger] r@["t2"@].has(k) <==> k == 0,
        r@["t1"@] == singleton_set(0),
        r@["t2"@] == singleton_set(0),
{
    let mut ctx = GradeCtx::new();
    let zero = GradeSet::singleton(0);
    ctx.declare("t1", zero);
    ctx.declare("t2", zero);
    proof {
        reveal_strlit("t1");
        reveal_strlit("t2");
        assert("t1"@[1] != "t2"@[1]);
        assert(ctx@.dom() =~= set!["t1"@, "t2"@]);
    }
    ctx
}

} // verus!
