use coup_constraint::card::Card;
use coup_constraint::group::CompressedGroupConstraint;
use coup_constraint::path_dependent_collective_constraint::{ActionInfo, PathDependentCollectiveConstraint};
use coup_constraint::path_dependent_prob::{AOName, ActionObservation, PathDependentCardCountManager};

fn empty_changes() -> Vec<Vec<usize>> {
    vec![Vec::new(), Vec::new(), Vec::new(), Vec::new(), Vec::new()]
}

#[test]
fn card_numbers_round_trip() {
    assert_eq!(Card::from_num(3), Card::Duke);
    assert_eq!(Card::Contessa.num(), 4);
    assert_eq!(Card::try_from_num(1), Some(Card::Assassin));
    assert_eq!(Card::try_from_num(7), None);
}

#[test]
fn group_counts_stay_within_three() {
    let mut g = CompressedGroupConstraint::zero();
    g.add_alive_count(5);
    assert_eq!(g.count_alive(), 3);
    g.sub_alive_count(4);
    assert_eq!(g.count_alive(), 0);
    g.add_dead_count(2);
    assert_eq!(g.count(), 2);
}

#[test]
fn group_with_pile_holds_player_and_pile() {
    let g = CompressedGroupConstraint::new_with_pile(2, Card::Captain, 1, 2);
    assert!(g.get_player_flag(2));
    assert!(g.get_player_flag(6));
    assert!(!g.get_player_flag(0));
    assert_eq!(g.count_dead(), 1);
    assert_eq!(g.count_alive(), 2);
    assert_eq!(g.get_total_count(), 3);
    assert_eq!(g.part_list_count(), 2);
    assert_eq!(g.get_slots(), 5);
    assert_eq!(g.iter_true_player_flags(), vec![2, 6]);
}

#[test]
fn union_of_disjoint_groups() {
    let mut a = CompressedGroupConstraint::zero();
    a.set_card(Card::Duke);
    a.set_player_flag(0, true);
    a.set_alive_count(1);
    let mut b = CompressedGroupConstraint::zero();
    b.set_card(Card::Duke);
    b.set_player_flag(1, true);
    b.set_alive_count(1);
    assert!(a.part_list_is_mut_excl(&b));
    let u = CompressedGroupConstraint::mutually_exclusive_union(a, b);
    assert!(u.get_player_flag(0) && u.get_player_flag(1));
    assert_eq!(u.count_alive(), 2);
    assert!(a.part_list_is_subset_of(&u));
    assert!(!u.part_list_is_subset_of(&a));
    assert!(a.is_single_player_part_list());
}

#[test]
fn game_start_has_one_full_group_per_card() {
    let s = PathDependentCollectiveConstraint::game_start();
    assert!(s.is_empty() == false);
    for c in 0..5 {
        let list = &s.group_constraints()[c];
        assert_eq!(list.len(), 1);
        assert_eq!(list[0].count_alive(), 3);
        assert_eq!(list[0].part_list_count(), 7);
        assert_eq!(list[0].card_num(), c);
    }
    assert_eq!(s.history().len(), 2);
    assert_eq!(s.dead_card_count(), [0; 5]);
}

#[test]
fn dead_card_moves_a_living_copy_to_dead() {
    let mut s = PathDependentCollectiveConstraint::game_start();
    s.add_dead_card(0, Card::Duke);
    assert_eq!(s.public_constraints()[0], vec![Card::Duke]);
    assert_eq!(s.player_dead_card_count(0, Card::Duke), 1);
    let duke = &s.group_constraints()[3];
    assert_eq!(duke.len(), 1);
    assert_eq!(duke[0].count_alive(), 2);
    assert_eq!(duke[0].count_dead(), 1);
    assert_eq!(s.player_lives(0), 1);
}

#[test]
fn two_deaths_kill_the_player() {
    let mut s = PathDependentCollectiveConstraint::game_start();
    s.death(2, 0, Card::Duke);
    s.death(3, 0, Card::Captain);
    assert_eq!(s.sorted_public_constraints()[0], vec![Card::Captain, Card::Duke]);
    assert!(!s.player_is_alive(0));
    assert_eq!(s.player_lives(0), 0);
}

#[test]
fn three_dead_copies_settle_the_card() {
    let mut s = PathDependentCollectiveConstraint::game_start();
    s.death(2, 0, Card::Duke);
    s.death(3, 1, Card::Duke);
    s.death(4, 2, Card::Duke);
    assert_eq!(s.dead_card_count()[3], 3);
    let duke = &s.group_constraints()[3];
    assert_eq!(duke.len(), 1);
    assert_eq!(duke[0].count_dead(), 3);
    assert_eq!(duke[0].count_alive(), 0);
    assert!(duke[0].get_player_flag(0) && duke[0].get_player_flag(1) && duke[0].get_player_flag(2));
    assert!(!duke[0].get_player_flag(3));
}

#[test]
fn known_card_is_recorded_and_noted() {
    let mut s = PathDependentCollectiveConstraint::game_start();
    let mut changes = empty_changes();
    let (changed, _) = s.add_inferred_card(0, Card::Duke, 1, &mut changes);
    assert!(changed);
    assert_eq!(s.inferred_constraints()[0], vec![Card::Duke]);
    assert_eq!(changes[3], vec![0]);
    assert_eq!(s.group_constraints()[3].len(), 1);
    let (again, _) = s.add_inferred_card(0, Card::Duke, 1, &mut changes);
    assert!(!again);
    assert_eq!(s.inferred_constraints()[0], vec![Card::Duke]);
}

#[test]
fn full_hand_leaves_every_group() {
    let mut s = PathDependentCollectiveConstraint::game_start();
    let mut changes = empty_changes();
    let (changed, singles) = s.add_inferred_card(1, Card::Duke, 2, &mut changes);
    assert!(changed);
    assert!(singles.is_empty());
    assert_eq!(s.inferred_constraints()[1], vec![Card::Duke, Card::Duke]);
    for c in 0..5 {
        for g in s.group_constraints()[c].iter() {
            assert!(!g.get_player_flag(1));
        }
    }
    assert_eq!(s.group_constraints()[3][0].count_alive(), 1);
}

#[test]
fn bulk_records_single_participant_groups() {
    let mut s = PathDependentCollectiveConstraint::game_start();
    let mut g = CompressedGroupConstraint::zero();
    g.set_card(Card::Captain);
    g.set_player_flag(2, true);
    g.set_alive_count(1);
    assert!(s.add_inferred_card_bulk(vec![g, g]));
    assert_eq!(s.inferred_constraints()[2], vec![Card::Captain]);
}

#[test]
fn reveal_makes_the_card_known() {
    let mut s = PathDependentCollectiveConstraint::game_start();
    s.reveal_card(2, 0, Card::Contessa);
    assert!(s.inferred_player_constraint_contains(0, Card::Contessa));
    assert_eq!(s.public_constraints()[0].len(), 0);
}

#[test]
fn redraw_adds_the_pile_group() {
    let mut s = PathDependentCollectiveConstraint::game_start();
    s.redraw(0, Card::Duke);
    let duke = &s.group_constraints()[3];
    assert_eq!(duke.len(), 2);
    let pile = duke[1];
    assert!(pile.get_player_flag(0) && pile.get_player_flag(6) && !pile.get_player_flag(1));
    assert_eq!(pile.count_alive(), 1);
    assert_eq!(s.group_constraints()[2].len(), 1);
}

#[test]
fn mix_keeps_group_counts_and_impossibilities() {
    let mut s = PathDependentCollectiveConstraint::game_start();
    s.mix(0);
    for c in 0..5 {
        assert_eq!(s.group_constraints()[c].len(), 1);
        assert!(!s.group_constraints()[c][0].get_single_card_flag(0));
    }
    assert_eq!(*s.impossible_constraints(), [[false; 5]; 7]);
}

#[test]
fn reveal_redraw_variants() {
    let table: Vec<Vec<Card>> = vec![Vec::new(); 7];
    let v = PathDependentCollectiveConstraint::return_variants_reveal_redraw(Card::Duke, Card::Captain, 0, &table);
    assert_eq!(v.len(), 1);
    assert_eq!(v[0][0], vec![Card::Duke]);
    assert_eq!(v[0][6], vec![Card::Captain]);
    let none = PathDependentCollectiveConstraint::return_variants_reveal_redraw_none_opt(Card::Duke, 0, &table);
    assert_eq!(none.len(), 1);
    assert_eq!(none[0][0], vec![Card::Duke]);
    let relinquish = PathDependentCollectiveConstraint::return_variants_reveal_relinquish(Card::Duke, Card::Captain, 0, &table);
    assert_eq!(relinquish.len(), 1);
    assert_eq!(relinquish[0][0], vec![Card::Duke]);
}

#[test]
fn full_pile_without_the_card_has_no_variants() {
    let mut table: Vec<Vec<Card>> = vec![Vec::new(); 7];
    table[6] = vec![Card::Captain, Card::Captain, Card::Assassin];
    let v = PathDependentCollectiveConstraint::return_variants_reveal_relinquish(Card::Duke, Card::Captain, 0, &table);
    assert!(v.is_empty());
}

#[test]
fn subset_derivation_reports_new_groups() {
    let mut s = PathDependentCollectiveConstraint::game_start();
    assert!(s.add_subset_groups_unopt());
}

#[test]
fn manager_push_then_pop_restores() {
    let mut m = PathDependentCardCountManager::new();
    m.reset();
    let ao = ActionObservation::new(AOName::Discard, 1, vec![Card::Duke]);
    m.push_ao_public(&ao);
    assert_eq!(m.latest_constraint().public_constraints()[1], vec![Card::Duke]);
    assert_eq!(m.latest_constraint().history().len(), 3);
    m.pop();
    assert_eq!(m.latest_constraint().public_constraints()[1].len(), 0);
    assert_eq!(m.latest_constraint().history().len(), 2);
}

#[test]
fn manager_ignores_other_actions() {
    let mut m = PathDependentCardCountManager::new();
    m.reset();
    let ao = ActionObservation::new(AOName::Other, 0, Vec::new());
    m.push_ao_public(&ao);
    assert_eq!(m.latest_constraint().history().len(), 2);
    m.pop();
    assert_eq!(m.latest_constraint().history().len(), 2);
}

#[test]
fn manager_records_reveal_and_exchange() {
    let mut m = PathDependentCardCountManager::new();
    m.reset();
    m.push_ao_public(&ActionObservation::new(AOName::RevealRedraw, 0, vec![Card::Duke]));
    m.push_ao_public(&ActionObservation::new(AOName::ExchangeChoice, 2, Vec::new()));
    m.push_ao_public(&ActionObservation::new(AOName::Discard, 1, vec![Card::Captain, Card::Assassin]));
    let latest = m.latest_constraint();
    assert_eq!(latest.history().len(), 6);
    assert_eq!(latest.sorted_public_constraints()[1], vec![Card::Assassin, Card::Captain]);
}


fn all_but_player_zero_known() -> PathDependentCollectiveConstraint {
    let mut s = PathDependentCollectiveConstraint::game_start();
    let mut changes = empty_changes();
    s.add_inferred_card(1, Card::Ambassador, 2, &mut changes);
    s.add_inferred_card(2, Card::Ambassador, 1, &mut changes);
    s.add_inferred_card(2, Card::Assassin, 1, &mut changes);
    s.add_inferred_card(3, Card::Assassin, 2, &mut changes);
    s.add_inferred_card(4, Card::Captain, 2, &mut changes);
    s.add_inferred_card(5, Card::Captain, 1, &mut changes);
    s.add_inferred_card(5, Card::Duke, 1, &mut changes);
    s.add_inferred_card(6, Card::Duke, 1, &mut changes);
    s.add_inferred_card(6, Card::Contessa, 2, &mut changes);
    s
}

#[test]
fn complement_places_the_last_unplaced_cards() {
    let mut s = all_but_player_zero_known();
    assert_eq!(s.inferred_constraints()[6], vec![Card::Duke, Card::Contessa, Card::Contessa]);
    let before = s.inferred_constraints().clone();
    assert!(s.add_inferred_complement_of_player());
    let mut hand = s.inferred_constraints()[0].clone();
    hand.sort_by_key(|c| c.num());
    assert_eq!(hand, vec![Card::Duke, Card::Contessa]);
    for p in 1..7 {
        assert_eq!(s.inferred_constraints()[p], before[p]);
    }
}

#[test]
fn inference_steps_keep_known_cards() {
    let mut s = PathDependentCollectiveConstraint::game_start();
    let mut changes = empty_changes();
    s.add_inferred_card(0, Card::Duke, 1, &mut changes);
    s.add_inferred_card(6, Card::Captain, 1, &mut changes);
    s.add_inferred_except_player();
    s.add_inferred_complement_of_player();
    s.add_inferred_remaining_negation();
    assert_eq!(s.inferred_constraints()[0][0], Card::Duke);
    assert_eq!(s.inferred_constraints()[6][0], Card::Captain);
    assert_eq!(s.public_constraints()[0].len(), 0);
}

#[test]
fn manager_records_the_last_discard_of_two() {
    let mut m = PathDependentCardCountManager::new();
    m.reset();
    m.push_ao_public(&ActionObservation::new(AOName::Discard, 3, vec![Card::Duke, Card::Contessa]));
    let latest = m.latest_constraint();
    assert_eq!(latest.history().len(), 4);
    let last = &latest.history()[3];
    assert_eq!(last.player(), 3);
    assert_eq!(m.state_count(), 2);
    m.pop();
    assert_eq!(m.state_count(), 1);
}

#[test]
fn three_dead_copies_are_impossible_everywhere() {
    let mut m = PathDependentCardCountManager::new();
    m.reset();
    m.push_ao_public(&ActionObservation::new(AOName::Discard, 0, vec![Card::Duke]));
    m.push_ao_public(&ActionObservation::new(AOName::Discard, 1, vec![Card::Duke]));
    m.push_ao_public(&ActionObservation::new(AOName::Discard, 2, vec![Card::Duke]));
    let imp = m.latest_constraint().generate_one_card_impossibilities_player_card_indexing();
    for p in 0..7 {
        assert!(imp[p][3]);
        assert!(!imp[p][2]);
    }
}

#[test]
fn dead_player_can_hold_nothing() {
    let mut m = PathDependentCardCountManager::new();
    m.reset();
    m.push_ao_public(&ActionObservation::new(AOName::Discard, 4, vec![Card::Captain, Card::Contessa]));
    let imp = m.latest_constraint().generate_one_card_impossibilities_player_card_indexing();
    assert_eq!(imp[4], [true; 5]);
    assert_eq!(imp[0], [false; 5]);
}

#[test]
fn later_moves_keep_earlier_moves() {
    let mut m = PathDependentCardCountManager::new();
    m.reset();
    m.push_ao_public(&ActionObservation::new(AOName::RevealRedraw, 0, vec![Card::Duke]));
    m.push_ao_public(&ActionObservation::new(AOName::Discard, 1, vec![Card::Captain]));
    m.push_ao_public(&ActionObservation::new(AOName::Discard, 0, vec![Card::Assassin]));
    let latest = m.latest_constraint();
    assert_eq!(latest.history().len(), 5);
    assert_eq!(latest.history()[2].player(), 0);
    match latest.history()[2].action_info() {
        ActionInfo::RevealRedraw { reveal, relinquish, .. } => {
            assert_eq!(*reveal, Card::Duke);
            assert!(relinquish.is_none());
        },
        _ => panic!("the reveal is kept"),
    }
    assert_eq!(latest.history()[3].player(), 1);
    match latest.history()[3].action_info() {
        ActionInfo::Discard { discard } => assert_eq!(*discard, Card::Captain),
        _ => panic!("the discard is kept"),
    }
}

#[test]
fn dead_cards_are_the_recorded_discards() {
    let mut m = PathDependentCardCountManager::new();
    m.reset();
    m.push_ao_public(&ActionObservation::new(AOName::Discard, 2, vec![Card::Assassin]));
    m.push_ao_public(&ActionObservation::new(AOName::RevealRedraw, 3, vec![Card::Captain]));
    m.push_ao_public(&ActionObservation::new(AOName::Discard, 2, vec![Card::Ambassador]));
    let latest = m.latest_constraint();
    assert_eq!(latest.public_constraints()[2], vec![Card::Assassin, Card::Ambassador]);
    for p in [0usize, 1, 3, 4, 5, 6] {
        assert!(latest.public_constraints()[p].is_empty());
    }
    m.pop();
    assert_eq!(m.latest_constraint().public_constraints()[2], vec![Card::Assassin]);
}

#[test]
fn discarding_the_revealed_card_again_shows_it_was_drawn_back() {
    let mut m = PathDependentCardCountManager::new();
    m.reset();
    m.push_ao_public(&ActionObservation::new(AOName::Discard, 1, vec![Card::Duke]));
    m.push_ao_public(&ActionObservation::new(AOName::Discard, 2, vec![Card::Duke]));
    m.push_ao_public(&ActionObservation::new(AOName::RevealRedraw, 0, vec![Card::Duke]));
    m.push_ao_public(&ActionObservation::new(AOName::Discard, 0, vec![Card::Duke]));
    let latest = m.latest_constraint();
    assert_eq!(latest.history().len(), 6);
    match latest.history()[4].action_info() {
        ActionInfo::RevealRedraw { reveal, redraw, relinquish } => {
            assert_eq!(*reveal, Card::Duke);
            assert_eq!(*redraw, Some(Card::Duke));
            assert!(relinquish.is_none());
        },
        _ => panic!("the reveal is kept"),
    }
    assert_eq!(latest.public_constraints()[0], vec![Card::Duke]);
    assert_eq!(latest.dead_card_count()[3], 3);
}

#[test]
fn redraw_none_variants_with_a_known_card() {
    let mut table: Vec<Vec<Card>> = vec![Vec::new(); 7];
    table[0] = vec![Card::Captain];
    table[6] = vec![Card::Duke, Card::Assassin];
    let v = PathDependentCollectiveConstraint::return_variants_reveal_redraw_none_opt(Card::Duke, 0, &table);
    assert_eq!(v.len(), 2);
    assert_eq!(v[0][0], vec![Card::Captain, Card::Duke]);
    assert_eq!(v[0][6], vec![Card::Assassin]);
    assert_eq!(v[1][0], vec![Card::Duke]);
    assert_eq!(v[1][6], vec![Card::Captain, Card::Assassin]);
}

#[test]
fn redraw_none_variants_move_a_card_to_the_pile() {
    let mut table: Vec<Vec<Card>> = vec![Vec::new(); 7];
    table[0] = vec![Card::Captain, Card::Contessa];
    let v = PathDependentCollectiveConstraint::return_variants_reveal_redraw_none_opt(Card::Duke, 0, &table);
    let mut first: Vec<Vec<Card>> = vec![Vec::new(); 7];
    first[0] = vec![Card::Contessa, Card::Duke];
    first[6] = vec![Card::Captain];
    let mut second: Vec<Vec<Card>> = vec![Vec::new(); 7];
    second[0] = vec![Card::Captain, Card::Duke];
    second[6] = vec![Card::Contessa];
    assert_eq!(v, vec![first, second]);
}

#[test]
fn new_union_group_is_reported() {
    let mut s = PathDependentCollectiveConstraint::game_start();
    let mut g = CompressedGroupConstraint::zero();
    g.set_card(Card::Ambassador);
    g.set_player_flag(0, true);
    g.set_player_flag(1, true);
    g.set_alive_count(1);
    g.set_total_count(1);
    let reference = vec![vec![g], Vec::new(), Vec::new(), Vec::new(), Vec::new()];
    assert!(s.add_mutually_exclusive_unions_recurse(reference));
    assert!(s.group_constraints()[0].contains(&g));
}

#[test]
fn a_discarded_card_was_held() {
    let mut s = PathDependentCollectiveConstraint::game_start();
    s.add_move(0, ActionInfo::Discard { discard: Card::Duke });
    assert!(!s.impossible_to_have_cards(2, &vec![Card::Duke, Card::Captain]));
    assert!(s.impossible_to_have_cards(2, &vec![Card::Captain, Card::Captain]));
}

#[test]
fn search_goes_back_over_a_blind_reveal() {
    let mut s = PathDependentCollectiveConstraint::game_start();
    s.add_move(0, ActionInfo::Discard { discard: Card::Duke });
    s.add_move(1, ActionInfo::RevealRedraw { reveal: Card::Captain, redraw: None, relinquish: None });
    s.add_move(0, ActionInfo::Discard { discard: Card::Contessa });
    assert!(!s.impossible_to_have_cards(2, &vec![Card::Duke, Card::Contessa]));
    assert!(s.impossible_to_have_cards(2, &vec![Card::Duke, Card::Duke]));
}

#[test]
fn backward_passes_count_the_later_discards() {
    let mut s = PathDependentCollectiveConstraint::game_start();
    s.add_move(0, ActionInfo::Discard { discard: Card::Duke });
    s.add_move(1, ActionInfo::Discard { discard: Card::Duke });
    s.add_move(2, ActionInfo::Discard { discard: Card::Duke });
    let shown = s.backward_pass_minimum_cards_shown(2, Card::Duke);
    assert_eq!(shown.len(), 2);
    assert!(shown[0].get_player_flag(2));
    assert!(shown[1].get_player_flag(1));
    assert_eq!(s.backward_max_player_cards(2, Card::Duke), 1);
}

#[test]
fn relinquish_variants_move_the_card_to_the_pile() {
    let mut table: Vec<Vec<Card>> = vec![Vec::new(); 7];
    table[0] = vec![Card::Captain];
    let v = PathDependentCollectiveConstraint::return_variants_reveal_relinquish_opt(Card::Duke, 0, &table);
    assert_eq!(v.len(), 1);
    assert_eq!(v[0][0], vec![Card::Duke]);
    assert_eq!(v[0][6], vec![Card::Captain]);
}

#[test]
fn both_cards_known_readds_the_other_participants() {
    let mut s = PathDependentCollectiveConstraint::game_start();
    s.add_inferred_player_constraint(0, Card::Duke);
    s.add_inferred_player_constraint(0, Card::Captain);
    s.reveal_group_adjustment(0, Card::Duke);
    let duke = &s.group_constraints()[3];
    let readded = duke.iter().any(|g| !g.get_player_flag(0) && g.get_player_flag(1) && g.get_player_flag(6)
        && g.count_alive() == 2);
    assert!(readded);
    let ambassador = &s.group_constraints()[0];
    assert!(ambassador.iter().any(|g| !g.get_player_flag(0) && g.get_player_flag(5) && g.count_alive() == 3));
}

#[test]
fn a_first_reveal_is_known_from_the_start() {
    let mut m = PathDependentCardCountManager::new();
    m.reset();
    m.push_ao_public(&ActionObservation::new(AOName::RevealRedraw, 0, vec![Card::Duke]));
    let latest = m.latest_constraint();
    assert_eq!(latest.history().len(), 3);
    assert_eq!(latest.history()[0].inferred_constraints()[0], vec![Card::Duke]);
}
