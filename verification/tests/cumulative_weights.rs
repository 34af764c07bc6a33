use banner_rotator::util::cumulative_weights::CumulativeWeights;
use banner_rotator::util::cumulative_weights::IdxProjection;

fn table(weights: &[u32]) -> CumulativeWeights {
    let mut table = CumulativeWeights::new();
    for weight in weights {
        table.add_weight(*weight);
    }
    table
}

#[test]
fn empty_table_selects_nothing() {
    let table = CumulativeWeights::new();
    assert_eq!(table.len(), 0);
    assert_eq!(table.total(), 0);
    assert_eq!(table.select_at(0), None);
    assert_eq!(table.select_uniformly(), None);
    assert_eq!(CumulativeWeights::with_projection().select_uniformly(), None);
}

#[test]
fn single_candidate_is_always_selected() {
    let table = table(&[7]);
    assert_eq!(table.len(), 1);
    assert_eq!(table.total(), 7);
    assert_eq!(table.select_at(0), Some(0));
    assert_eq!(table.select_at(7), Some(0));
    for _ in 0..100 {
        assert_eq!(table.select_uniformly(), Some(0));
    }
}

#[test]
fn total_is_the_sum_of_the_weights() {
    let table = table(&[2, 1, 3]);
    assert_eq!(table.len(), 3);
    assert_eq!(table.total(), 6);
}

#[test]
fn large_weights_add_up() {
    let mut table = CumulativeWeights::new();
    for _ in 0..5 {
        table.add_weight(u32::MAX);
    }
    assert_eq!(table.total(), 5 * (u32::MAX as u128));
    assert_eq!(table.select_at(5 * (u32::MAX as u128)), Some(4));
    assert_eq!(table.select_at(u32::MAX as u128), Some(0));
    assert_eq!(table.select_at(u32::MAX as u128 + 1), Some(1));
}

#[test]
fn each_draw_selects_the_first_candidate_that_reaches_it() {
    let table = table(&[2, 1, 3]);
    assert_eq!(table.select_at(0), Some(0));
    assert_eq!(table.select_at(1), Some(0));
    assert_eq!(table.select_at(2), Some(0));
    assert_eq!(table.select_at(3), Some(1));
    assert_eq!(table.select_at(4), Some(2));
    assert_eq!(table.select_at(5), Some(2));
    assert_eq!(table.select_at(6), Some(2));
}

#[test]
fn a_candidate_owns_as_many_draws_as_its_weight() {
    let weights = [5u32, 1, 9, 4, 2];
    let table = table(&weights);
    let mut owned = [0u32; 5];
    for draw in 0..=table.total() {
        owned[table.select_at(draw).unwrap()] += 1;
    }
    assert_eq!(owned, [6, 1, 9, 4, 2]);
}

#[test]
fn a_candidate_without_weight_is_never_selected() {
    let table = table(&[3, 0, 2]);
    for draw in 0..=table.total() {
        assert_ne!(table.select_at(draw), Some(1));
    }
    assert_eq!(table.select_at(3), Some(0));
    assert_eq!(table.select_at(4), Some(2));
}

#[test]
fn projection_maps_the_selected_candidate() {
    let mut table = CumulativeWeights::with_projection();
    table.add_weight_for_idx(2, 5);
    table.add_weight_for_idx(1, 7);
    table.add_weight_for_idx(3, 9);
    assert_eq!(table.len(), 3);
    assert_eq!(table.total(), 6);
    assert_eq!(table.select_at(0), Some(5));
    assert_eq!(table.select_at(2), Some(5));
    assert_eq!(table.select_at(3), Some(7));
    assert_eq!(table.select_at(4), Some(9));
    assert_eq!(table.select_at(6), Some(9));
}

#[test]
fn projection_of_a_single_candidate() {
    let mut table = CumulativeWeights::with_projection();
    table.add_weight_for_idx(4, 11);
    assert_eq!(table.select_at(0), Some(11));
    assert_eq!(table.select_uniformly(), Some(11));
}

#[test]
fn project_as_is_and_specific() {
    assert_eq!(IdxProjection::AsIs.project(3), 3);
    assert_eq!(IdxProjection::Specific(vec![4, 8, 15]).project(1), 8);
}

#[test]
fn uniform_selection_stays_within_the_table() {
    let table = table(&[1, 1]);
    let mut seen = [false, false];
    for _ in 0..1000 {
        let position = table.select_uniformly().unwrap();
        assert!(position < 2);
        seen[position] = true;
    }
    assert!(seen[0]);
    assert!(seen[1]);
}

#[test]
fn uniform_selection_follows_the_weights() {
    let table = table(&[1000, 3000]);
    let trials = 40000;
    let mut first = 0;
    for _ in 0..trials {
        if table.select_uniformly() == Some(0) {
            first += 1;
        }
    }
    let share = first as f64 / trials as f64;
    assert!(share > 0.22 && share < 0.28, "share of the first candidate: {}", share);
}
