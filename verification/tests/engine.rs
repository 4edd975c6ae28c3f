use grokdb::review::ReviewableSelection;
use grokdb::scores::{ReviewAction, UpdateCardScore};
use grokdb::store::Store;
use grokdb::StoreError;

fn no_update() -> UpdateCardScore {
    UpdateCardScore {
        action: ReviewAction::Success,
        changelog: None,
        deck: None,
        stash: None,
    }
}

#[test]
fn fresh_deck_has_no_ancestors() {
    let mut s = Store::new();
    let d = s.create_deck("maths".to_owned(), "".to_owned(), 10);
    assert_eq!(s.ancestors(d), Ok(vec![]));
    assert!(!s.has_parent(d));
    // the closure table holds exactly the self-edge for the fresh deck
    assert_eq!(s.closure.len(), 1);
    assert_eq!(s.closure[0].ancestor, d);
    assert_eq!(s.closure[0].descendant, d);
    assert_eq!(s.closure[0].depth, 0);
}

#[test]
fn ancestors_of_missing_deck_fail() {
    let s = Store::new();
    assert_eq!(s.ancestors(7), Err(StoreError::NotFound));
    assert_eq!(s.get_parent(7), Err(StoreError::NotFound));
}

#[test]
fn connect_builds_ancestor_chain() {
    let mut s = Store::new();
    let a = s.create_deck("a".to_owned(), "".to_owned(), 1);
    let b = s.create_deck("b".to_owned(), "".to_owned(), 2);
    let c = s.create_deck("c".to_owned(), "".to_owned(), 3);
    s.connect(b, a);
    s.connect(c, b);
    assert_eq!(s.ancestors(b), Ok(vec![a]));
    assert_eq!(s.ancestors(c), Ok(vec![b, a]));
    assert_eq!(s.get_parent(c), Ok(b));
    assert!(s.has_parent(b));
    assert!(!s.has_parent(a));
}

#[test]
fn ancestors_by_name_projects_names() {
    let mut s = Store::new();
    let a = s.create_deck("root".to_owned(), "".to_owned(), 1);
    let b = s.create_deck("child".to_owned(), "".to_owned(), 2);
    s.connect(b, a);
    assert_eq!(s.ancestors_by_name(b), Ok(vec!["root".to_owned()]));
}

#[test]
fn reparent_moves_subtree_as_a_unit() {
    // a -> b -> c; then b is reparented under d
    let mut s = Store::new();
    let a = s.create_deck("a".to_owned(), "".to_owned(), 1);
    let b = s.create_deck("b".to_owned(), "".to_owned(), 2);
    let c = s.create_deck("c".to_owned(), "".to_owned(), 3);
    let d = s.create_deck("d".to_owned(), "".to_owned(), 4);
    s.connect(b, a);
    s.connect(c, b);
    s.connect(b, d);
    assert_eq!(s.ancestors(b), Ok(vec![d]));
    // c moved with b: it kept b as its parent and gained d, losing a
    assert_eq!(s.ancestors(c), Ok(vec![b, d]));
}

#[test]
fn remove_parent_makes_a_root() {
    let mut s = Store::new();
    let a = s.create_deck("a".to_owned(), "".to_owned(), 1);
    let b = s.create_deck("b".to_owned(), "".to_owned(), 2);
    s.connect(b, a);
    assert!(s.has_parent(b));
    s.remove_parent(b);
    assert!(!s.has_parent(b));
    assert_eq!(s.ancestors(b), Ok(vec![]));
}

#[test]
fn descendant_cards_aggregate_the_subtree() {
    // deck a (root) -> deck b; c1 in a, c2 in b
    let mut s = Store::new();
    let a = s.create_deck("a".to_owned(), "".to_owned(), 1);
    let b = s.create_deck("b".to_owned(), "".to_owned(), 2);
    s.connect(b, a);
    let c1 = s.create_card("c1".to_owned(), "".to_owned(), "".to_owned(), "".to_owned(), a, 3);
    let c2 = s.create_card("c2".to_owned(), "".to_owned(), "".to_owned(), "".to_owned(), b, 4);
    let mut of_a = s.descendant_card_ids(a);
    of_a.sort();
    assert_eq!(of_a, vec![c1, c2]);
    assert_eq!(s.descendant_card_ids(b), vec![c2]);
}

#[test]
fn review_card_is_stable_until_scored() {
    let mut s = Store::new();
    let a = s.create_deck("a".to_owned(), "".to_owned(), 1);
    let _c1 = s.create_card("c1".to_owned(), "".to_owned(), "".to_owned(), "".to_owned(), a, 2);
    let _c2 = s.create_card("c2".to_owned(), "".to_owned(), "".to_owned(), "".to_owned(), a, 3);
    let sel = ReviewableSelection::Deck(a);
    let first = s.get_review_card(&sel, 10);
    assert!(first.is_some());
    let second = s.get_review_card(&sel, 11);
    assert_eq!(second, first);
    let third = s.get_review_card(&sel, 12);
    assert_eq!(third, first);
}

#[test]
fn review_of_empty_container_finds_no_card() {
    let mut s = Store::new();
    let a = s.create_deck("a".to_owned(), "".to_owned(), 1);
    assert_eq!(s.get_review_card(&ReviewableSelection::Deck(a), 5), None);
    let st = s.create_stash(
        &grokdb::stashes::CreateStash {
            name: "inbox".to_owned(),
            description: None,
        },
        6,
    );
    assert_eq!(s.get_review_card(&ReviewableSelection::Stash(st), 7), None);
}

#[test]
fn scoring_invalidate_offers_a_different_card() {
    let mut s = Store::new();
    let a = s.create_deck("a".to_owned(), "".to_owned(), 1);
    let c1 = s.create_card("c1".to_owned(), "".to_owned(), "".to_owned(), "".to_owned(), a, 2);
    let c2 = s.create_card("c2".to_owned(), "".to_owned(), "".to_owned(), "".to_owned(), a, 3);
    let c3 = s.create_card("c3".to_owned(), "".to_owned(), "".to_owned(), "".to_owned(), a, 4);
    let sel = ReviewableSelection::Deck(a);
    let offered = s.get_review_card(&sel, 10).unwrap();
    assert!(offered == c1 || offered == c2 || offered == c3);
    assert_eq!(s.update_reviewed_card(offered, &no_update(), 20), Ok(()));
    assert_eq!(s.remove_cached_card(offered), Ok(()));
    let next = s.get_review_card(&sel, 30).unwrap();
    assert_ne!(next, offered);
}

#[test]
fn sole_pool_member_is_offered_again() {
    let mut s = Store::new();
    let a = s.create_deck("a".to_owned(), "".to_owned(), 1);
    let c1 = s.create_card("c1".to_owned(), "".to_owned(), "".to_owned(), "".to_owned(), a, 2);
    let sel = ReviewableSelection::Deck(a);
    assert_eq!(s.get_review_card(&sel, 10), Some(c1));
    assert_eq!(s.update_reviewed_card(c1, &no_update(), 20), Ok(()));
    assert_eq!(s.remove_cached_card(c1), Ok(()));
    assert_eq!(s.get_review_card(&sel, 30), Some(c1));
}

#[test]
fn review_outcome_updates_counters_and_history() {
    let mut s = Store::new();
    let a = s.create_deck("a".to_owned(), "".to_owned(), 1);
    let c = s.create_card("c".to_owned(), "".to_owned(), "".to_owned(), "".to_owned(), a, 2);
    let req = UpdateCardScore {
        action: ReviewAction::Fail,
        changelog: Some("missed it".to_owned()),
        deck: Some(a),
        stash: None,
    };
    assert_eq!(s.update_reviewed_card(c, &req, 50), Ok(()));
    let row = s.get_card_score(c).unwrap();
    assert_eq!(row.success, 0);
    assert_eq!(row.fail, 1);
    assert_eq!(row.times_reviewed, 1);
    assert_eq!(row.reviewed_at, 50);
    assert_eq!(row.changelog, "missed it");
    assert_eq!(s.history.len(), 1);
    let h = &s.history[0];
    assert_eq!(h.occurred_at, 50);
    assert!(h.is_review_event);
    assert_eq!(h.success, 0);
    assert_eq!(h.fail, 1);
    assert_eq!(h.total_success, 0);
    assert_eq!(h.total_fail, 1);
    assert_eq!(h.card, c);
}

#[test]
fn update_of_missing_card_fails() {
    let mut s = Store::new();
    assert_eq!(
        s.update_reviewed_card(99, &no_update(), 1),
        Err(StoreError::NotFound)
    );
}

#[test]
fn history_delta_floors_at_zero() {
    // success 3 -> 5 and fail 1 -> 1 give deltas 2 and 0 with the new totals
    let mut s = Store::new();
    let a = s.create_deck("a".to_owned(), "".to_owned(), 1);
    let c = s.create_card("c".to_owned(), "".to_owned(), "".to_owned(), "".to_owned(), a, 2);
    assert_eq!(
        s.set_card_score(c, 3, 1, "".to_owned(), 4, 4, 2, 2, 10),
        Ok(())
    );
    assert_eq!(
        s.set_card_score(c, 5, 1, "".to_owned(), 6, 6, 20, 20, 20),
        Ok(())
    );
    let h = s.history.last().unwrap();
    assert_eq!(h.success, 2);
    assert_eq!(h.fail, 0);
    assert_eq!(h.total_success, 5);
    assert_eq!(h.total_fail, 1);
    // a mutation that lowers a counter still floors its delta at zero
    assert_eq!(
        s.set_card_score(c, 2, 3, "".to_owned(), 7, 7, 30, 30, 30),
        Ok(())
    );
    let h2 = s.history.last().unwrap();
    assert_eq!(h2.success, 0);
    assert_eq!(h2.fail, 2);
    assert_eq!(h2.total_success, 2);
    assert_eq!(h2.total_fail, 3);
}

#[test]
fn unchanged_score_writes_no_history() {
    let mut s = Store::new();
    let a = s.create_deck("a".to_owned(), "".to_owned(), 1);
    let c = s.create_card("c".to_owned(), "".to_owned(), "".to_owned(), "".to_owned(), a, 2);
    // only timestamps move: the history rule does not fire
    assert_eq!(
        s.set_card_score(c, 0, 0, "".to_owned(), 0, 3, 70, 70, 70),
        Ok(())
    );
    assert_eq!(s.history.len(), 0);
}

#[test]
fn seen_counter_moves_only_on_offers() {
    let mut s = Store::new();
    let a = s.create_deck("a".to_owned(), "".to_owned(), 1);
    let c = s.create_card("c".to_owned(), "".to_owned(), "".to_owned(), "".to_owned(), a, 2);
    let sel = ReviewableSelection::Deck(a);
    assert_eq!(s.get_review_card(&sel, 30), Some(c));
    let row = s.get_card_score(c).unwrap();
    assert_eq!(row.times_seen, 1);
    assert_eq!(row.seen_at, 30);
    assert_eq!(row.times_reviewed, 0);
    // a cache hit does not count as another offer
    assert_eq!(s.get_review_card(&sel, 40), Some(c));
    let row = s.get_card_score(c).unwrap();
    assert_eq!(row.times_seen, 1);
}

#[test]
fn deleting_a_deck_cascades() {
    // deck a (root) -> deck b; c1 in a, c2 in b; c1 scored, cached, stashed
    let mut s = Store::new();
    let a = s.create_deck("a".to_owned(), "".to_owned(), 1);
    let b = s.create_deck("b".to_owned(), "".to_owned(), 2);
    s.connect(b, a);
    let c1 = s.create_card("c1".to_owned(), "".to_owned(), "".to_owned(), "".to_owned(), a, 3);
    let c2 = s.create_card("c2".to_owned(), "".to_owned(), "".to_owned(), "".to_owned(), b, 4);
    let st = s.create_stash(
        &grokdb::stashes::CreateStash {
            name: "inbox".to_owned(),
            description: None,
        },
        5,
    );
    assert_eq!(s.add_card_to_stash(st, c1, 6), Ok(()));
    assert_eq!(s.update_reviewed_card(c1, &no_update(), 7), Ok(()));
    assert_eq!(s.get_review_card(&ReviewableSelection::Stash(st), 8), Some(c1));
    assert!(s.history.iter().any(|h| h.card == c1));
    s.delete_deck(a);
    // c1, its score, its history rows, its membership and its cache entry are gone
    assert!(!s.card_exists(c1));
    assert!(matches!(s.get_card_score(c1), Err(StoreError::NotFound)));
    assert!(!s.history.iter().any(|h| h.card == c1));
    assert!(s.stash_cards.iter().all(|r| r.card != c1));
    assert!(s.stash_cache.rows.iter().all(|r| r.1.card != c1));
    assert!(s.deck_cache.rows.iter().all(|r| r.1.card != c1));
    // the child deck and its card survive, orphaned
    assert!(s.deck_exists(b));
    assert!(s.card_exists(c2));
    assert!(!s.deck_exists(a));
    assert_eq!(s.ancestors(b), Ok(vec![]));
}

#[test]
fn deleting_a_card_cascades() {
    let mut s = Store::new();
    let a = s.create_deck("a".to_owned(), "".to_owned(), 1);
    let c = s.create_card("c".to_owned(), "".to_owned(), "".to_owned(), "".to_owned(), a, 2);
    assert_eq!(s.update_reviewed_card(c, &no_update(), 3), Ok(()));
    assert_eq!(s.get_review_card(&ReviewableSelection::Deck(a), 4), Some(c));
    s.delete_card(c);
    assert!(!s.card_exists(c));
    assert!(matches!(s.get_card_score(c), Err(StoreError::NotFound)));
    assert!(s.history.is_empty());
    assert_eq!(s.get_review_card(&ReviewableSelection::Deck(a), 5), None);
    assert!(s.deck_exists(a));
}

#[test]
fn cache_purge_reaches_every_container() {
    // one card cached in a deck and in a stash; purging hits both slots
    let mut s = Store::new();
    let a = s.create_deck("a".to_owned(), "".to_owned(), 1);
    let c = s.create_card("c".to_owned(), "".to_owned(), "".to_owned(), "".to_owned(), a, 2);
    let st = s.create_stash(
        &grokdb::stashes::CreateStash {
            name: "inbox".to_owned(),
            description: None,
        },
        3,
    );
    assert_eq!(s.add_card_to_stash(st, c, 4), Ok(()));
    assert_eq!(s.get_review_card(&ReviewableSelection::Deck(a), 5), Some(c));
    assert_eq!(s.get_review_card(&ReviewableSelection::Stash(st), 6), Some(c));
    assert_eq!(s.deck_cache.rows.len(), 1);
    assert_eq!(s.stash_cache.rows.len(), 1);
    assert_eq!(s.remove_cached_card(c), Ok(()));
    assert!(s.deck_cache.rows.is_empty());
    assert!(s.stash_cache.rows.is_empty());
}

#[test]
fn card_counts_follow_the_hierarchy() {
    let mut s = Store::new();
    let a = s.create_deck("a".to_owned(), "".to_owned(), 1);
    let b = s.create_deck("b".to_owned(), "".to_owned(), 2);
    s.connect(b, a);
    let c1 = s.create_card("c1".to_owned(), "".to_owned(), "".to_owned(), "".to_owned(), a, 3);
    let c2 = s.create_card("c2".to_owned(), "".to_owned(), "".to_owned(), "".to_owned(), b, 4);
    assert_eq!(s.count_cards_by_deck(a), 2);
    assert_eq!(s.count_cards_by_deck(b), 1);
    assert!(s.deck_has_card(a, c1));
    assert!(s.deck_has_card(a, c2));
    assert!(!s.deck_has_card(b, c1));
    assert!(s.deck_has_card(b, c2));
}

#[test]
fn deck_and_card_updates_replace_given_fields() {
    let mut s = Store::new();
    let a = s.create_deck("a".to_owned(), "first".to_owned(), 1);
    let b = s.create_deck("b".to_owned(), "".to_owned(), 2);
    let c = s.create_card("c".to_owned(), "".to_owned(), "q".to_owned(), "ans".to_owned(), a, 3);
    let deck_req = grokdb::store::UpdateDeck {
        name: Some("renamed".to_owned()),
        description: None,
    };
    assert_eq!(s.update_deck(a, &deck_req, 10), Ok(()));
    {
        let row = s.get_deck(a).unwrap();
        assert_eq!(row.name, "renamed");
        assert_eq!(row.description, "first");
        assert_eq!(row.updated_at, 10);
    }
    // moving the card to another deck changes the pools
    let card_req = grokdb::store::UpdateCard {
        title: None,
        description: None,
        front: Some("q2".to_owned()),
        back: None,
        deck: Some(b),
    };
    assert_eq!(s.update_card(c, &card_req, 20), Ok(()));
    {
        let row = s.get_card(c).unwrap();
        assert_eq!(row.title, "c");
        assert_eq!(row.front, "q2");
        assert_eq!(row.back, "ans");
        assert_eq!(row.deck, b);
    }
    assert!(!s.deck_has_card(a, c));
    assert!(s.deck_has_card(b, c));
}

#[test]
fn changelog_entries_accumulate() {
    let mut s = Store::new();
    let a = s.create_deck("a".to_owned(), "".to_owned(), 1);
    let c = s.create_card("c".to_owned(), "".to_owned(), "".to_owned(), "".to_owned(), a, 2);
    let first = UpdateCardScore {
        action: ReviewAction::Success,
        changelog: Some("easy; ".to_owned()),
        deck: None,
        stash: None,
    };
    let second = UpdateCardScore {
        action: ReviewAction::Fail,
        changelog: Some("slipped".to_owned()),
        deck: None,
        stash: None,
    };
    assert_eq!(s.update_reviewed_card(c, &first, 10), Ok(()));
    assert_eq!(s.update_reviewed_card(c, &second, 20), Ok(()));
    let row = s.get_card_score(c).unwrap();
    assert_eq!(row.changelog, "easy; slipped");
    assert_eq!(s.history[1].changelog, "easy; slipped");
}
