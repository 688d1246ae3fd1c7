//! Basis blades of G(3,0,0) and their geometric product: the static Cayley
//! table (the fast path) and the rule that derives it from the blade masks
//! (result mask `mask_i XOR mask_j`, sign `(−1)^s` with `s` the transpositions
//! that sort the concatenated basis vectors, each `eₖ² = +1`).

use vstd::prelude::*;

verus! {

/// Storage index → basis-vector mask, in grade-then-lexicographic order
/// `[1, e₁, e₂, e₃, e₁₂, e₁₃, e₂₃, e₁₂₃]`.
pub const MASK: [u8; 8] = [0b000, 0b001, 0b010, 0b100, 0b011, 0b101, 0b110, 0b111];

/// Grade of each blade by storage index.
pub const GRADE: [u8; 8] = [0, 1, 1, 1, 2, 2, 2, 3];

/// Sign of `blade_i ∗ blade_j`, by storage indices.
pub const CAYLEY_SIGN: [[i8; 8]; 8] = [
    [1, 1, 1, 1, 1, 1, 1, 1],
    [1, 1, 1, 1, 1, 1, 1, 1],
    [1, -1, 1, 1, -1, -1, 1, -1],
    [1, -1, -1, 1, 1, -1, -1, 1],
    [1, -1, 1, 1, -1, -1, 1, -1],
    [1, -1, -1, 1, 1, -1, -1, 1],
    [1, 1, -1, 1, -1, 1, -1, -1],
    [1, 1, -1, 1, -1, 1, -1, -1],
];

/// Storage index of `blade_i ∗ blade_j`.
pub const CAYLEY_BLADE: [[u8; 8]; 8] = [
    [0, 1, 2, 3, 4, 5, 6, 7],
    [1, 0, 4, 5, 2, 3, 7, 6],
    [2, 4, 0, 6, 1, 7, 3, 5],
    [3, 5, 6, 0, 7, 1, 2, 4],
    [4, 2, 1, 7, 0, 6, 5, 3],
    [5, 3, 7, 1, 6, 0, 4, 2],
    [6, 7, 3, 2, 5, 4, 0, 1],
    [7, 6, 5, 4, 3, 2, 1, 0],
];

/// `(sign, result blade index)` for the product of two basis blades; in
/// G(3,0,0) every blade product is a single signed blade.
#[derive(Debug, Clone, Copy, PartialEq, Eq, Structural)]
pub struct BladeProduct {
    pub sign: i8,
    pub blade: usize,
}

/// The mask of the blade at storage index `i`.
pub open spec fn mask_of(i: int) -> int {
    if i == 0 {
        0
    } else if i == 1 {
        1
    } else if i == 2 {
        2
    } else if i == 3 {
        4
    } else if i == 4 {
        3
    } else if i == 5 {
        5
    } else if i == 6 {
        6
    } else {
        7
    }
}

/// Bit `k` of a mask (basis vector `e_{k+1}` is present).
pub open spec fn has(m: int, k: int) -> bool {
    if k == 0 {
        m % 2 == 1
    } else if k == 1 {
        (m / 2) % 2 == 1
    } else {
        (m / 4) % 2 == 1
    }
}

/// `a XOR b` on 3-bit masks.
pub open spec fn mask_xor(a: int, b: int) -> int {
    (if has(a, 0) != has(b, 0) { 1int } else { 0 }) + (if has(a, 1) != has(b, 1) { 2int } else { 0 }) + (
    if has(a, 2) != has(b, 2) {
        4int
    } else {
        0
    })
}

/// The storage index holding mask `m`.
pub open spec fn index_of_mask(m: int) -> int {
    if m == 0 {
        0
    } else if m == 1 {
        1
    } else if m == 2 {
        2
    } else if m == 4 {
        3
    } else if m == 3 {
        4
    } else if m == 5 {
        5
    } else if m == 6 {
        6
    } else {
        7
    }
}

/// The transpositions that bring `e_A e_B` into sorted order: the pairs of a
/// basis vector of `A` above one of `B`.
pub open spec fn inversions(a: int, b: int) -> int {
    (if has(a, 1) && has(b, 0) { 1int } else { 0 }) + (if has(a, 2) && has(b, 0) { 1int } else { 0 }) + (
    if has(a, 2) && has(b, 1) {
        1int
    } else {
        0
    })
}

/// The rule: `blade_i ∗ blade_j` is the blade of mask `mask_i XOR mask_j`
/// with sign `(−1)^inversions`.
pub open spec fn blade_rule(i: int, j: int) -> BladeProduct {
    BladeProduct {
        sign: if inversions(mask_of(i), mask_of(j)) % 2 == 0 { 1i8 } else { -1i8 },
        blade: index_of_mask(mask_xor(mask_of(i), mask_of(j))) as usize,
    }
}

/// The table entry for `blade_i ∗ blade_j`.
pub open spec fn cayley_entry(i: int, j: int) -> BladeProduct {
    BladeProduct { sign: CAYLEY_SIGN[i][j], blade: CAYLEY_BLADE[i][j] as usize }
}

/// `blade_i ∗ blade_j` from the static table.
pub fn cayley(i: usize, j: usize) -> (r: BladeProduct)
    requires
        i < 8,
        j < 8,
    ensures
        r == cayley_entry(i as int, j as int),
{
    BladeProduct { sign: CAYLEY_SIGN[i][j], blade: CAYLEY_BLADE[i][j] as usize }
}

/// `blade_i ∗ blade_j` derived from the masks: the result mask is the XOR, the
/// sign counts the transpositions.
pub fn derive(i: usize, j: usize) -> (r: BladeProduct)
    requires
        i < 8,
        j < 8,
    ensures
        r == blade_rule(i as int, j as int),
{
    let a = MASK[i];
    let b = MASK[j];
    assert(a == mask_of(i as int) && b == mask_of(j as int));
    let mut swaps: u8 = 0;
    // each basis vector of A above a basis vector of B is one transposition
    let mut x: u8 = 0;
    while x < 3
        invariant
            x <= 3,
            a == mask_of(i as int),
            b == mask_of(j as int),
            0 <= a < 8,
            0 <= b < 8,
            swaps <= 3 * x,
            swaps == (if x >= 2 && has(a as int, 1) && has(b as int, 0) { 1int } else { 0 }) + (if x >= 3 && has(
                a as int,
                2,
            ) && has(b as int, 0) {
                1int
            } else {
                0
            }) + (if x >= 3 && has(a as int, 2) && has(b as int, 1) { 1int } else { 0 }),
        decreases 3 - x,
    {
        let mut y: u8 = 0;
        while y < x
            invariant
                y <= x,
                x < 3,
                a == mask_of(i as int),
                b == mask_of(j as int),
                0 <= a < 8,
                0 <= b < 8,
                swaps <= 3 * x + y,
                swaps == (if x >= 2 && has(a as int, 1) && has(b as int, 0) { 1int } else { 0 }) + (if x >= 3
                    && has(a as int, 2) && has(b as int, 0) {
                    1int
                } else {
                    0
                }) + (if x >= 3 && has(a as int, 2) && has(b as int, 1) { 1int } else { 0 }) + (if x == 1 && y
                    >= 1 && has(a as int, 1) && has(b as int, 0) {
                    1int
                } else {
                    0
                }) + (if x == 2 && y >= 1 && has(a as int, 2) && has(b as int, 0) { 1int } else { 0 }) + (if x
                    == 2 && y >= 2 && has(a as int, 2) && has(b as int, 1) {
                    1int
                } else {
                    0
                }),
            decreases x - y,
        {
            let above = if x == 0 {
                a % 2
            } else if x == 1 {
                (a / 2) % 2
            } else {
                (a / 4) % 2
            };
            let below = if y == 0 {
                b % 2
            } else if y == 1 {
                (b / 2) % 2
            } else {
                (b / 4) % 2
            };
            if above == 1 && below == 1 {
                swaps = swaps + 1;
            }
            y = y + 1;
        }
        x = x + 1;
    }
    assert(swaps == inversions(a as int, b as int));
    let m = a ^ b;
    assert(m == mask_xor(a as int, b as int)) by {
        assert(a ^ b == ((a % 2) ^ (b % 2)) + 2 * (((a / 2) % 2) ^ ((b / 2) % 2)) + 4 * (((a / 4) % 2) ^ ((b / 4)
            % 2))) by (bit_vector)
            requires
                a < 8,
                b < 8,
        ;
        assert(((a % 2) ^ (b % 2)) == (if a % 2 != b % 2 { 1u8 } else { 0u8 })) by (bit_vector)
            requires
                a < 8,
                b < 8,
        ;
        assert((((a / 2) % 2) ^ ((b / 2) % 2)) == (if (a / 2) % 2 != (b / 2) % 2 { 1u8 } else { 0u8 }))
            by (bit_vector)
            requires
                a < 8,
                b < 8,
        ;
        assert((((a / 4) % 2) ^ ((b / 4) % 2)) == (if (a / 4) % 2 != (b / 4) % 2 { 1u8 } else { 0u8 }))
            by (bit_vector)
            requires
                a < 8,
                b < 8,
        ;
    }
    let mut k: usize = 0;
    while k < 8
        invariant
            k <= 8,
            swaps == inversions(mask_of(i as int), mask_of(j as int)),
            m == mask_xor(mask_of(i as int), mask_of(j as int)),
            forall|k2: int| 0 <= k2 < k ==> mask_of(k2) != m,
        decreases 8 - k,
    {
        if MASK[k] == m {
            assert(k == 0 || k == 1 || k == 2 || k == 3 || k == 4 || k == 5 || k == 6 || k == 7);
            assert(index_of_mask(mask_of(k as int)) == k);
            let sign: i8 = if swaps % 2 == 0 { 1 } else { -1 };
            return BladeProduct { sign, blade: k };
        }
        k = k + 1;
    }
    // every 3-bit mask occurs in MASK
    assert(m == 0 || m == 1 || m == 2 || m == 3 || m == 4 || m == 5 || m == 6 || m == 7);
    assert(mask_of(index_of_mask(m as int)) == m);
    assert(false);
    BladeProduct { sign: 1, blade: 0 }
}

/// The static table is the rule: every entry of the Cayley table is the
/// signed blade the mask rule derives.
pub proof fn lemma_cayley_is_rule(i: int, j: int)
    requires
        0 <= i < 8,
        0 <= j < 8,
    ensures
        cayley_entry(i, j) == blade_rule(i, j),
{
    assert(i == 0 || i == 1 || i == 2 || i == 3 || i == 4 || i == 5 || i == 6 || i == 7);
    assert(j == 0 || j == 1 || j == 2 || j == 3 || j == 4 || j == 5 || j == 6 || j == 7);
}

} // verus!
