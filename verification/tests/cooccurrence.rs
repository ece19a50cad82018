use fnv::FnvHashSet;
use puppies::cooccurrence::{Cooccurrences, F_MAX, K_MAX};
use rand::XorShiftRng;

fn set(items: &[u32]) -> FnvHashSet<u32> {
    items.iter().cloned().collect()
}

fn observe_all(state: &mut Cooccurrences, interactions: &[(u32, u32)]) -> FnvHashSet<u32> {
    let mut to_rescore = FnvHashSet::default();
    for &(user, item) in interactions {
        assert!(state.observe_slot(user, item, 0, &mut to_rescore).is_ok());
    }
    to_rescore
}

/// The row sums and the total agree with the matrix itself.
fn check_sums(state: &Cooccurrences) {
    let n = state.num_items() as u32;
    let mut total: u64 = 0;
    for a in 0..n {
        let row: u64 = (0..n).map(|b| state.cooccurrence_count(a, b) as u64).sum();
        assert_eq!(row, state.row_sum(a) as u64);
        total += row;
        for b in 0..n {
            assert_eq!(state.cooccurrence_count(a, b), state.cooccurrence_count(b, a));
        }
    }
    assert_eq!(total, state.num_cooccurrences_observed());
}

#[test]
fn new_state_is_empty() {
    let state = Cooccurrences::new(3, 4);
    assert_eq!(state.num_users(), 3);
    assert_eq!(state.num_items(), 4);
    assert_eq!(state.num_interactions_observed(), 0);
    assert_eq!(state.num_cooccurrences_observed(), 0);
    assert!(state.user_history(2).is_empty());
    check_sums(&state);
}

#[test]
fn sampling_counts_pairs_within_a_history() {
    let mut state = Cooccurrences::new(2, 5);
    let touched = observe_all(&mut state, &[(0, 1), (0, 2), (0, 3), (1, 1), (1, 2)]);
    assert_eq!(touched, set(&[1, 2, 3]));
    assert_eq!(state.user_history(0), &vec![1, 2, 3]);
    assert_eq!(state.cooccurrence_count(1, 2), 2);
    assert_eq!(state.cooccurrence_count(2, 3), 1);
    assert_eq!(state.cooccurrence_count(1, 1), 0);
    assert_eq!(state.cooccurrence_count(4, 1), 0);
    assert_eq!(state.row_sum(1), 3);
    assert_eq!(state.row_sum(3), 2);
    assert_eq!(state.num_cooccurrences_observed(), 8);
    assert_eq!(state.num_interactions_observed(), 5);
    assert_eq!(state.item_interaction_count(1), 2);
    assert_eq!(state.user_non_sampled_interaction_count(0), 3);
    check_sums(&state);
}

#[test]
fn repeated_item_pairs_with_itself() {
    let mut state = Cooccurrences::new(1, 3);
    observe_all(&mut state, &[(0, 2), (0, 2), (0, 2)]);
    assert_eq!(state.cooccurrence_count(2, 2), 6);
    assert_eq!(state.row_sum(2), 6);
    check_sums(&state);
}

#[test]
fn contingency_tables_of_an_item() {
    let mut state = Cooccurrences::new(2, 5);
    observe_all(&mut state, &[(0, 1), (0, 2), (0, 3), (1, 1), (1, 2)]);
    let mut tables = state.contingency_tables(1).unwrap();
    tables.sort_by_key(|(other, _)| *other);
    assert_eq!(tables.len(), 2);
    let (b, t) = &tables[0];
    assert_eq!(*b, 2);
    assert_eq!((t.k11, t.k12, t.k21, t.k22), (2, 1, 1, 8 + 2 - 1 - 1));
    let (b, t) = &tables[1];
    assert_eq!(*b, 3);
    assert_eq!((t.k11, t.k12, t.k21, t.k22), (1, 2, 1, 8 + 1 - 2 - 1));
    assert!(state.contingency_tables(4).unwrap().is_empty());
}

fn fill_history(state: &mut Cooccurrences, user: u32) {
    let items: Vec<(u32, u32)> = (0..K_MAX).map(|i| (user, i % 4)).collect();
    observe_all(state, &items);
}

#[test]
fn full_history_replaces_the_drawn_slot() {
    let mut state = Cooccurrences::new(1, 6);
    fill_history(&mut state, 0);
    assert_eq!(state.user_history(0).len(), K_MAX as usize);
    let before_total = state.num_cooccurrences_observed();
    let mut touched = FnvHashSet::default();
    // Slot 1 holds item 1; item 5 takes its place.
    assert!(state.observe_slot(0, 5, 1, &mut touched).is_ok());
    assert_eq!(state.user_history(0)[1], 5);
    assert_eq!(state.user_history(0).len(), K_MAX as usize);
    assert_eq!(touched, set(&[0, 1, 2, 3, 5]));
    assert_eq!(state.num_cooccurrences_observed(), before_total);
    assert_eq!(state.cooccurrence_count(5, 0), 125);
    assert_eq!(state.cooccurrence_count(5, 1), 124);
    assert_eq!(state.item_interaction_count(5), 1);
    assert_eq!(state.item_interaction_count(1), 124);
    check_sums(&state);
}

#[test]
fn full_history_ignores_a_draw_past_its_end() {
    let mut state = Cooccurrences::new(1, 6);
    fill_history(&mut state, 0);
    let before: Vec<u32> = state.user_history(0).clone();
    let mut touched = FnvHashSet::default();
    assert!(state.observe_slot(0, 5, K_MAX as usize, &mut touched).is_ok());
    assert_eq!(state.user_history(0), &before);
    assert!(touched.is_empty());
    assert_eq!(state.num_interactions_observed(), K_MAX as u64 + 1);
    assert_eq!(state.user_non_sampled_interaction_count(0), K_MAX + 1);
}

#[test]
fn item_in_f_max_histories_is_no_longer_sampled() {
    let users = F_MAX + 1;
    let mut state = Cooccurrences::new(users as usize, 2);
    let interactions: Vec<(u32, u32)> = (0..F_MAX).map(|u| (u, 0)).collect();
    observe_all(&mut state, &interactions);
    assert_eq!(state.item_interaction_count(0), F_MAX);
    let touched = observe_all(&mut state, &[(F_MAX, 0)]);
    assert!(state.user_history(F_MAX).is_empty());
    assert!(touched.is_empty());
    assert_eq!(state.user_non_sampled_interaction_count(F_MAX), 1);
}

#[test]
fn count_beyond_u16_is_refused() {
    let mut state = Cooccurrences::new(1, 2);
    let mut touched = FnvHashSet::default();
    for _ in 0..256 {
        assert!(state.observe_slot(0, 1, 0, &mut touched).is_ok());
    }
    assert_eq!(state.cooccurrence_count(1, 1), 65280);
    assert!(state.observe_slot(0, 1, 0, &mut touched).is_err());
}

#[test]
fn observe_with_rng_keeps_history_bounded() {
    let mut state = Cooccurrences::new(2, 10);
    let mut rng = XorShiftRng::new_unseeded();
    let mut touched = FnvHashSet::default();
    for i in 0..(K_MAX + 200) {
        assert!(state.observe(0, i % 10, &mut rng, &mut touched).is_ok());
    }
    assert_eq!(state.user_history(0).len(), K_MAX as usize);
    assert_eq!(state.user_non_sampled_interaction_count(0), K_MAX + 200);
    check_sums(&state);
}

#[test]
fn observe_batch_returns_the_touched_items() {
    let mut state = Cooccurrences::new(3, 6);
    let mut rng = XorShiftRng::new_unseeded();
    let touched = state.observe_batch(&vec![(0, 1), (0, 4), (2, 5)], &mut rng).ok().unwrap();
    assert_eq!(touched, set(&[1, 4, 5]));
    assert_eq!(state.cooccurrence_count(1, 4), 1);
    assert_eq!(state.cooccurrence_count(4, 1), 1);
    assert_eq!(state.num_interactions_observed(), 3);
    check_sums(&state);
}

#[test]
fn observe_with_rng_replaces_slots_of_a_full_history() {
    let mut state = Cooccurrences::new(1, 20);
    let mut rng = XorShiftRng::new_unseeded();
    let mut touched = FnvHashSet::default();
    for i in 0..K_MAX {
        assert!(state.observe(0, i % 10, &mut rng, &mut touched).is_ok());
    }
    for i in 0..200 {
        assert!(state.observe(0, 10 + i % 10, &mut rng, &mut touched).is_ok());
    }
    let history = state.user_history(0);
    assert_eq!(history.len(), K_MAX as usize);
    assert!(history.iter().any(|&item| item >= 10));
    check_sums(&state);
}
