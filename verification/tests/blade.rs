use ufl::blade::{cayley, BladeProduct, GRADE, MASK};

/// The static table agrees with the mask rule on all 64 blade pairs.
#[test]
fn cayley_table_matches_the_rule() {
    for i in 0..8 {
        for j in 0..8 {
            assert_eq!(cayley(i, j), ufl::blade::derive(i, j), "blade {i} * blade {j}");
        }
    }
}

#[test]
fn basis_vectors_square_to_one_and_anticommute() {
    for i in 1..=3 {
        assert_eq!(cayley(i, i), BladeProduct { sign: 1, blade: 0 });
    }
    // e1 e2 = e12, e2 e1 = -e12
    assert_eq!(cayley(1, 2), BladeProduct { sign: 1, blade: 4 });
    assert_eq!(cayley(2, 1), BladeProduct { sign: -1, blade: 4 });
    // e12 e1 = e1 e2 e1 = -e2
    assert_eq!(cayley(4, 1), BladeProduct { sign: -1, blade: 2 });
    // e123 e123 = -1
    assert_eq!(cayley(7, 7), BladeProduct { sign: -1, blade: 0 });
}

#[test]
fn result_blade_is_the_mask_xor_and_grades_add_mod_two() {
    for i in 0..8 {
        for j in 0..8 {
            let p = ufl::blade::derive(i, j);
            assert_eq!(MASK[p.blade], MASK[i] ^ MASK[j]);
            assert_eq!(GRADE[p.blade] % 2, (GRADE[i] + GRADE[j]) % 2);
        }
    }
}
