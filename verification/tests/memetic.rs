use ufl::geo::{children, node_count, GeoExpr, GeoProposer};
use ufl::prng::SplitMix64;

/// A parameter draw that always yields 1.5 and consumes one step of state.
fn one_and_a_half(st: u64) -> (u64, u64) {
    (1.5f64.to_bits(), st.wrapping_add(1))
}

fn depth(e: &GeoExpr) -> usize {
    let [a, b] = children(e);
    let da = a.map(depth).map(|d| d + 1).unwrap_or(0);
    let db = b.map(depth).map(|d| d + 1).unwrap_or(0);
    da.max(db)
}

fn params(e: &GeoExpr, out: &mut Vec<u64>) {
    if let GeoExpr::Param(bits) = e {
        out.push(*bits);
    }
    let [a, b] = children(e);
    for c in [a, b].into_iter().flatten() {
        params(c, out);
    }
}

fn shown(v: &[GeoExpr]) -> Vec<String> {
    v.iter().map(|e| format!("{e:?}")).collect()
}

#[test]
fn seeding_is_deterministic_and_depth_capped() {
    let p = GeoProposer::pinned(30);
    let mut r1 = SplitMix64::new(42);
    let mut r2 = SplitMix64::new(42);
    let a = p.seed(&mut r1, &one_and_a_half);
    let b = p.seed(&mut r2, &one_and_a_half);
    assert_eq!(a.len(), 30);
    assert_eq!(shown(&a), shown(&b));
    assert_eq!(r1.state(), r2.state());
    for e in &a {
        assert!(depth(e) <= 4, "depth {} over the cap", depth(e));
        assert!(node_count(e) <= 31);
    }
    let other = p.seed(&mut SplitMix64::new(43), &one_and_a_half);
    assert_ne!(shown(&a), shown(&other), "another seed, another population");
}

#[test]
fn every_parameter_leaf_comes_from_the_draw() {
    let p = GeoProposer::pinned(40);
    let pop = p.seed(&mut SplitMix64::new(7), &one_and_a_half);
    let mut bits = Vec::new();
    for e in &pop {
        params(e, &mut bits);
    }
    assert!(!bits.is_empty(), "forty trees carry some parameter leaf");
    assert!(bits.iter().all(|&b| b == 1.5f64.to_bits()));
}

#[test]
fn an_empty_population_draws_nothing() {
    let p = GeoProposer::pinned(0);
    let mut rng = SplitMix64::new(9);
    assert!(p.seed(&mut rng, &one_and_a_half).is_empty());
    assert_eq!(rng.state(), 9);
}

#[test]
fn variation_keeps_the_elites_and_fills_the_population() {
    let p = GeoProposer::pinned(20);
    let mut rng = SplitMix64::new(5);
    let pop = p.seed(&mut rng, &one_and_a_half);
    let ranked: Vec<(GeoExpr, u32)> = pop.into_iter().zip(0u32..).collect();
    let before: Vec<GeoExpr> = ranked.iter().map(|(e, _)| e.clone()).collect();
    let mut r1 = SplitMix64::new(77);
    let mut r2 = SplitMix64::new(77);
    let next = p.vary(&ranked, &mut r1, &one_and_a_half);
    let again = p.vary(&ranked, &mut r2, &one_and_a_half);
    assert_eq!(next.len(), 20);
    assert_eq!(shown(&next[..4]), shown(&before[..4]), "the four elites pass unchanged");
    assert_eq!(shown(&next), shown(&again), "deterministic in the generator");
    assert_eq!(r1.state(), r2.state());
}

#[test]
fn more_elites_than_places_means_no_children() {
    let p = GeoProposer { population: 2, elitism: 4, tournament: 5, max_depth: 3, max_nodes: 60 };
    let ranked: Vec<(GeoExpr, ())> =
        (0u8..5).map(|i| (GeoExpr::Basis(i), ())).collect();
    let mut rng = SplitMix64::new(3);
    let next = p.vary(&ranked, &mut rng, &one_and_a_half);
    assert_eq!(shown(&next), shown(&[0u8, 1, 2, 3].map(GeoExpr::Basis)));
    assert_eq!(rng.state(), 3, "no child, no draw");
}

#[test]
fn the_node_cap_replaces_every_oversized_child() {
    // With a cap of zero nodes every child is replaced by a fresh tree of
    // the maximum depth — here depth 0, a single leaf.
    let p = GeoProposer { population: 12, elitism: 2, tournament: 3, max_depth: 0, max_nodes: 0 };
    let seeder = GeoProposer::pinned(12);
    let pop = seeder.seed(&mut SplitMix64::new(11), &one_and_a_half);
    let ranked: Vec<(GeoExpr, usize)> = pop.into_iter().zip(0usize..).collect();
    let next = p.vary(&ranked, &mut SplitMix64::new(12), &one_and_a_half);
    assert_eq!(next.len(), 12);
    for child in &next[2..] {
        assert_eq!(node_count(child), 1);
    }
}

#[test]
fn variation_is_blind_to_the_scores() {
    let p = GeoProposer::pinned(16);
    let pop = p.seed(&mut SplitMix64::new(21), &one_and_a_half);
    let with_costs: Vec<(GeoExpr, f64)> =
        pop.iter().cloned().zip([0.5f64, 9.0, 1e9, -3.0].into_iter().cycle()).collect();
    let without: Vec<(GeoExpr, ())> = pop.iter().cloned().map(|e| (e, ())).collect();
    let a = p.vary(&with_costs, &mut SplitMix64::new(8), &one_and_a_half);
    let b = p.vary(&without, &mut SplitMix64::new(8), &one_and_a_half);
    assert_eq!(shown(&a), shown(&b));
}

#[test]
fn every_child_is_under_the_cap_or_a_fresh_shallow_tree() {
    let p = GeoProposer { population: 40, elitism: 0, tournament: 4, max_depth: 2, max_nodes: 5 };
    let seeder = GeoProposer::pinned(25);
    let pop = seeder.seed(&mut SplitMix64::new(31), &one_and_a_half);
    let ranked: Vec<(GeoExpr, usize)> = pop.into_iter().zip(0usize..).collect();
    let next = p.vary(&ranked, &mut SplitMix64::new(32), &one_and_a_half);
    assert_eq!(next.len(), 40);
    for child in &next {
        assert!(node_count(child) <= 5 || depth(child) <= 2, "{child:?}");
    }
}
