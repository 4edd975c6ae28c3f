use grokdb::review::ReviewableSelection;
use grokdb::scores::{ReviewAction, UpdateCardScore};
use grokdb::stashes::{
    get_stashes_query, get_stashes_query_by_card, CreateStash, SortBy, SortOrder,
    StashPaginationInfo, StashesPageRequest, UpdateStash,
};
use grokdb::store::Store;
use grokdb::StoreError;

fn page(sort_by: SortBy, order: SortOrder) -> StashesPageRequest {
    StashesPageRequest {
        page: 3,
        per_page: 25,
        sort_by,
        order,
        card: None,
    }
}

#[test]
fn offset_is_pages_skipped() {
    assert_eq!(page(SortBy::Name, SortOrder::Ascending).get_offset(), 50);
    let first = StashesPageRequest {
        page: 1,
        per_page: 25,
        sort_by: SortBy::CreatedAt,
        order: SortOrder::Descending,
        card: Some(4),
    };
    assert_eq!(first.get_offset(), 0);
}

#[test]
fn valid_name_rejects_blank_text() {
    let blank = UpdateStash {
        name: Some("   \t\n".to_owned()),
        description: None,
    };
    assert!(!blank.valid_name());
    assert!(!blank.should_update());
    let named = UpdateStash {
        name: Some("  notes  ".to_owned()),
        description: None,
    };
    assert!(named.valid_name());
    assert!(named.should_update());
    let unnamed = UpdateStash {
        name: None,
        description: None,
    };
    assert!(unnamed.valid_name());
    assert!(unnamed.should_update());
}

#[test]
fn sqlize_lists_the_changed_fields() {
    let both = UpdateStash {
        name: Some("a".to_owned()),
        description: Some("b".to_owned()),
    };
    let (fields, values) = both.sqlize();
    assert_eq!(fields, "name = :name, description = :description");
    assert_eq!(
        values,
        vec![
            (":name".to_owned(), "a".to_owned()),
            (":description".to_owned(), "b".to_owned())
        ]
    );
    let none = UpdateStash {
        name: None,
        description: None,
    };
    let (fields, values) = none.sqlize();
    assert_eq!(fields, "");
    assert!(values.is_empty());
}

#[test]
fn listing_queries_follow_sort_and_order() {
    let q = get_stashes_query(&page(SortBy::Name, SortOrder::Ascending));
    assert!(q.contains("ORDER BY"));
    assert!(q.contains("name"));
    assert!(q.contains("ASC"));
    assert!(!q.contains("DESC"));
    assert!(q.contains("LIMIT :per_page"));
    let q2 = get_stashes_query(&page(SortBy::UpdatedAt, SortOrder::Descending));
    assert!(q2.contains("updated_at"));
    assert!(q2.contains("DESC"));
    let q3 = get_stashes_query_by_card(9, &page(SortBy::CreatedAt, SortOrder::Descending));
    assert!(q3.contains("StashCards.card = :card_id"));
    assert!(q3.contains("created_at"));
    assert!(q3.contains("DESC"));
}

#[test]
fn stash_crud_round_trip() {
    let mut s = Store::new();
    let st = s.create_stash(
        &CreateStash {
            name: "inbox".to_owned(),
            description: None,
        },
        10,
    );
    assert!(s.stash_exists(st));
    assert_eq!(s.count_stashes(), 1);
    {
        let row = s.get_stash(st).unwrap();
        assert_eq!(row.name, "inbox");
        assert_eq!(row.description, "");
        assert_eq!(row.created_at, 10);
    }
    let upd = UpdateStash {
        name: Some("archive".to_owned()),
        description: Some("old cards".to_owned()),
    };
    assert_eq!(s.update_stash(st, &upd, 20), Ok(()));
    {
        let row = s.get_stash(st).unwrap();
        assert_eq!(row.name, "archive");
        assert_eq!(row.description, "old cards");
        assert_eq!(row.created_at, 10);
        assert_eq!(row.updated_at, 20);
    }
    assert_eq!(s.delete_stash(st), Ok(()));
    assert!(!s.stash_exists(st));
    assert!(matches!(s.get_stash(st), Err(StoreError::NotFound)));
}

#[test]
fn membership_is_tracked_per_pair() {
    let mut s = Store::new();
    let d = s.create_deck("d".to_owned(), "".to_owned(), 1);
    let c1 = s.create_card("c1".to_owned(), "".to_owned(), "".to_owned(), "".to_owned(), d, 2);
    let c2 = s.create_card("c2".to_owned(), "".to_owned(), "".to_owned(), "".to_owned(), d, 3);
    let s1 = s.create_stash(
        &CreateStash {
            name: "s1".to_owned(),
            description: None,
        },
        4,
    );
    let s2 = s.create_stash(
        &CreateStash {
            name: "s2".to_owned(),
            description: Some("second".to_owned()),
        },
        5,
    );
    assert_eq!(s.add_card_to_stash(s1, c1, 6), Ok(()));
    assert_eq!(s.add_card_to_stash(s1, c2, 7), Ok(()));
    assert_eq!(s.add_card_to_stash(s2, c1, 8), Ok(()));
    // adding the same pair again changes nothing
    assert_eq!(s.add_card_to_stash(s1, c1, 9), Ok(()));
    assert_eq!(s.stash_cards.len(), 3);
    let (_, has) = s.get_stash_with_card(s1, c1).unwrap();
    assert!(has);
    assert_eq!(s.remove_card_from_stash(s1, c1), Ok(()));
    let (_, has) = s.get_stash_with_card(s1, c1).unwrap();
    assert!(!has);
    let (_, still) = s.get_stash_with_card(s2, c1).unwrap();
    assert!(still);
    assert_eq!(s.remove_card_from_all_stashes(c1), Ok(()));
    let (_, gone) = s.get_stash_with_card(s2, c1).unwrap();
    assert!(!gone);
    assert_eq!(s.remove_all_cards_from_stash(s1), Ok(()));
    assert!(s.stash_cards.is_empty());
}

#[test]
fn stash_review_prefers_least_recently_reviewed() {
    // stash with two unreviewed cards: the tie breaks on the older reviewed_at
    let mut s = Store::new();
    let d = s.create_deck("d".to_owned(), "".to_owned(), 1);
    let c3 = s.create_card("c3".to_owned(), "".to_owned(), "".to_owned(), "".to_owned(), d, 40);
    let c4 = s.create_card("c4".to_owned(), "".to_owned(), "".to_owned(), "".to_owned(), d, 30);
    let st = s.create_stash(
        &CreateStash {
            name: "stash".to_owned(),
            description: None,
        },
        50,
    );
    assert_eq!(s.add_card_to_stash(st, c3, 51), Ok(()));
    assert_eq!(s.add_card_to_stash(st, c4, 52), Ok(()));
    let sel = ReviewableSelection::Stash(st);
    // both have times_reviewed = 0; c4's reviewed_at (30) is older than c3's (40)
    assert_eq!(s.get_review_card(&sel, 60), Some(c4));
    let outcome = UpdateCardScore {
        action: ReviewAction::Success,
        changelog: None,
        deck: None,
        stash: Some(st),
    };
    assert_eq!(s.update_reviewed_card(c4, &outcome, 70), Ok(()));
    assert_eq!(s.remove_cached_card(c4), Ok(()));
    // the next call returns the other card
    assert_eq!(s.get_review_card(&sel, 80), Some(c3));
}

#[test]
fn pagination_info_carries_the_count() {
    let info = StashPaginationInfo { num_of_stashes: 12 };
    assert_eq!(info.num_of_stashes, 12);
}

#[test]
fn stash_card_counts_follow_membership() {
    let mut s = Store::new();
    let d = s.create_deck("d".to_owned(), "".to_owned(), 1);
    let c1 = s.create_card("c1".to_owned(), "".to_owned(), "".to_owned(), "".to_owned(), d, 2);
    let c2 = s.create_card("c2".to_owned(), "".to_owned(), "".to_owned(), "".to_owned(), d, 3);
    let s1 = s.create_stash(
        &CreateStash {
            name: "s1".to_owned(),
            description: None,
        },
        4,
    );
    assert_eq!(s.count_cards_by_stash(s1), 0);
    assert_eq!(s.count_stashes_by_card(c1), 0);
    assert_eq!(s.add_card_to_stash(s1, c1, 5), Ok(()));
    assert_eq!(s.add_card_to_stash(s1, c2, 6), Ok(()));
    assert_eq!(s.count_cards_by_stash(s1), 2);
    assert_eq!(s.count_stashes_by_card(c1), 1);
    assert_eq!(s.remove_card_from_stash(s1, c1), Ok(()));
    assert_eq!(s.count_cards_by_stash(s1), 1);
    assert_eq!(s.count_stashes_by_card(c1), 0);
}

#[test]
fn valid_name_strips_unicode_whitespace() {
    // a single no-break space is blank, exactly as trim() treats it
    let nbsp = UpdateStash {
        name: Some("\u{a0}".to_owned()),
        description: None,
    };
    assert!(!nbsp.valid_name());
    let mixed = UpdateStash {
        name: Some("\u{2003}\u{a0}x\u{3000}".to_owned()),
        description: None,
    };
    assert!(mixed.valid_name());
}

#[test]
fn listing_pages_are_sorted_windows() {
    let mut s = Store::new();
    let mut ids = Vec::new();
    // created_at runs backwards, so ascending creation order reverses the ids
    for t in 0..5i64 {
        ids.push(s.create_stash(
            &CreateStash {
                name: format!("s{t}"),
                description: None,
            },
            100 - t,
        ));
    }
    let req = StashesPageRequest {
        page: 1,
        per_page: 3,
        sort_by: SortBy::CreatedAt,
        order: SortOrder::Ascending,
        card: None,
    };
    assert_eq!(s.get_list(&req), vec![ids[4], ids[3], ids[2]]);
    let req2 = StashesPageRequest {
        page: 2,
        per_page: 3,
        sort_by: SortBy::CreatedAt,
        order: SortOrder::Ascending,
        card: None,
    };
    assert_eq!(s.get_list(&req2), vec![ids[1], ids[0]]);
    let req3 = StashesPageRequest {
        page: 1,
        per_page: 10,
        sort_by: SortBy::Name,
        order: SortOrder::Descending,
        card: None,
    };
    // names s0..s4 in descending lexicographic order
    assert_eq!(
        s.get_list(&req3),
        vec![ids[4], ids[3], ids[2], ids[1], ids[0]]
    );
}

#[test]
fn listing_by_card_keeps_only_holders() {
    let mut s = Store::new();
    let d = s.create_deck("d".to_owned(), "".to_owned(), 1);
    let c = s.create_card("c".to_owned(), "".to_owned(), "".to_owned(), "".to_owned(), d, 2);
    let s1 = s.create_stash(
        &CreateStash {
            name: "a".to_owned(),
            description: None,
        },
        3,
    );
    let s2 = s.create_stash(
        &CreateStash {
            name: "b".to_owned(),
            description: None,
        },
        4,
    );
    assert_eq!(s.add_card_to_stash(s2, c, 5), Ok(()));
    let req = StashesPageRequest {
        page: 1,
        per_page: 10,
        sort_by: SortBy::Name,
        order: SortOrder::Ascending,
        card: Some(c),
    };
    assert_eq!(s.get_by_card(c, &req), vec![s2]);
    assert_eq!(s.get_list(&req), vec![s1, s2]);
}
