//! Deletion and its cascades: removing a card or a deck takes every
//! dependent row with it — scores, history entries, stash memberships and
//! cache slots — exactly as the schema's foreign keys demand.

use vstd::prelude::*;

use crate::store::{CacheEntry, CardRow, ClosureEdge, HistoryRow, ScoreRow, StashCardRow, Store};

verus! {

/// The card exists in `cards` and belongs to the deck being deleted.
pub open spec fn doomed_card(cards: Map<i64, CardRow>, deck_id: i64, c: i64) -> bool {
    cards.contains_key(c) && cards[c].deck == deck_id
}

/// Keeps a closure edge not touching the deleted deck.
pub open spec fn keep_edges(deck_id: i64) -> spec_fn(ClosureEdge) -> bool {
    |e: ClosureEdge| e.ancestor != deck_id && e.descendant != deck_id
}

/// Keeps a membership row whose card does not belong to the deleted deck.
pub open spec fn keep_members(cards: Map<i64, CardRow>, deck_id: i64) -> spec_fn(
    StashCardRow,
) -> bool {
    |r: StashCardRow| !doomed_card(cards, deck_id, r.card)
}

/// Keeps a history row whose card does not belong to the deleted deck.
pub open spec fn keep_history(cards: Map<i64, CardRow>, deck_id: i64) -> spec_fn(
    HistoryRow,
) -> bool {
    |h: HistoryRow| !doomed_card(cards, deck_id, h.card)
}

/// Keeps a score row whose card does not belong to the deleted deck.
pub open spec fn keep_scores(cards: Map<i64, CardRow>, deck_id: i64) -> spec_fn(
    (i64, ScoreRow),
) -> bool {
    |r: (i64, ScoreRow)| !doomed_card(cards, deck_id, r.0)
}

/// Keeps a deck-cache row that is neither the deleted deck's slot nor a
/// promise of one of its cards.
pub open spec fn keep_deck_cache(cards: Map<i64, CardRow>, deck_id: i64) -> spec_fn(
    (i64, CacheEntry),
) -> bool {
    |r: (i64, CacheEntry)| r.0 != deck_id && !doomed_card(cards, deck_id, r.1.card)
}

/// Keeps a stash-cache row not promising one of the deleted deck's cards.
pub open spec fn keep_stash_cache(cards: Map<i64, CardRow>, deck_id: i64) -> spec_fn(
    (i64, CacheEntry),
) -> bool {
    |r: (i64, CacheEntry)| !doomed_card(cards, deck_id, r.1.card)
}

/// Keeps a card not owned by the deleted deck.
pub open spec fn keep_cards(deck_id: i64) -> spec_fn((i64, CardRow)) -> bool {
    |r: (i64, CardRow)| r.1.deck != deck_id
}

impl Store {
    /// The card exists and belongs to the given deck.
    pub open spec fn card_in_deck(self, deck_id: i64, c: i64) -> bool {
        self.cards@.contains_key(c) && self.cards@[c].deck == deck_id
    }

    /// Deletes the card, cascading to its score record, its history rows,
    /// its stash memberships and any cache slot promising it. Deleting an
    /// absent card leaves every table's contents as they were.
    pub fn delete_card(&mut self, card_id: i64)
        requires
            old(self).wf(),
        ensures
            final(self).wf(),
            final(self).cards@ == old(self).cards@.remove(card_id),
            final(self).scores@ == old(self).scores@.remove(card_id),
            final(self).history@ == old(self).history@.filter(
                (|h: HistoryRow| h.card != card_id),
            ),
            forall|s: i64, c: i64|
                #[trigger] final(self).has_stash_card(s, c) <==> (old(self).has_stash_card(s, c)
                    && c != card_id),
            forall|k: i64|
                #[trigger] final(self).deck_cache@.contains_key(k) <==> (old(
                    self).deck_cache@.contains_key(k) && old(self).deck_cache@[k].card != card_id),
            forall|k: i64|
                #[trigger] final(self).deck_cache@.contains_key(k) ==> final(self).deck_cache@[k]
                    == old(self).deck_cache@[k],
            forall|k: i64|
                #[trigger] final(self).stash_cache@.contains_key(k) <==> (old(
                    self).stash_cache@.contains_key(k) && old(self).stash_cache@[k].card
                    != card_id),
            forall|k: i64|
                #[trigger] final(self).stash_cache@.contains_key(k) ==> final(
                    self).stash_cache@[k] == old(self).stash_cache@[k],
            final(self).next_id == old(self).next_id,
            final(self).decks == old(self).decks,
            final(self).closure == old(self).closure,
            final(self).stashes == old(self).stashes,
    {
        let ghost pre = *self;
        let _removed = self.remove_card_from_all_stashes(card_id);
        let ghost mid1 = *self;
        let _purged = self.remove_cached_card(card_id);
        self.filter_history_by_card(card_id);
        self.cards.remove(card_id);
        self.scores.remove(card_id);
        proof {
            Store::lemma_stash_cards_unchanged(mid1, *self);
            assert forall|s2: i64, c2: i64| #[trigger] self.has_stash_card(s2, c2) <==> (
            pre.has_stash_card(s2, c2) && c2 != card_id) by {
                assert(self.has_stash_card(s2, c2) == mid1.has_stash_card(s2, c2));
            }
            crate::table::lemma_filter_elems(
                pre.history@,
                (|h: HistoryRow| h.card != card_id),
            );
            assert forall|i: int| 0 <= i < self.history@.len() implies self.cards@.contains_key(
                (#[trigger] self.history@[i]).card,
            ) by {
                let h = self.history@[i];
                assert(pre.history@.contains(h) && h.card != card_id);
                let j = choose|j: int| 0 <= j < pre.history@.len() && pre.history@[j] == h;
                assert(pre.cards@.contains_key((#[trigger] pre.history@[j]).card));
            }
            assert forall|i: int| 0 <= i < self.stash_cards@.len() implies
                self.stashes@.contains_key((#[trigger] self.stash_cards@[i]).stash)
                && self.cards@.contains_key(self.stash_cards@[i].card) by {
                self.lemma_stash_card_at(i);
                let s2 = self.stash_cards@[i].stash;
                let c2 = self.stash_cards@[i].card;
                assert(self.has_stash_card(s2, c2));
                assert(pre.has_stash_card(s2, c2) && c2 != card_id);
                pre.lemma_stash_card(s2, c2);
                let j = pre.stash_card_idx(s2, c2);
                assert(pre.stashes@.contains_key((#[trigger] pre.stash_cards@[j]).stash));
            }
            Store::lemma_edges_unchanged(pre, *self);
            assert forall|d: i64| #[trigger] self.decks@.contains_key(d) implies self.has_edge(
                d,
                d,
            ) by {
                assert(pre.has_edge(d, d));
            }
        }
    }

    /// Rebuilds the history without the rows of one card.
    fn filter_history_by_card(&mut self, card_id: i64)
        ensures
            final(self).history@ == old(self).history@.filter(
                (|h: HistoryRow| h.card != card_id),
            ),
            *final(self) == (Store { history: final(self).history, ..*old(self) }),
    {
        let ghost pre = *self;
        let ghost pred = |h: HistoryRow| h.card != card_id;
        let mut src: Vec<HistoryRow> = Vec::new();
        core::mem::swap(&mut self.history, &mut src);
        let n = src.len();
        let mut i: usize = 0;
        while i < n
            invariant
                0 <= i <= n,
                n == pre.history@.len(),
                src@ == pre.history@.skip(i as int),
                self.history@ == pre.history@.take(i as int).filter(pred),
                *self == (Store { history: self.history, ..pre }),
            decreases n - i,
        {
            let e = src.remove(0);
            proof {
                assert(e == pre.history@[i as int]);
                assert(src@ =~= pre.history@.skip(i + 1));
                assert(pre.history@.take(i + 1) =~= pre.history@.take(i as int).push(e));
                crate::table::lemma_filter_push(pre.history@.take(i as int), e, pred);
            }
            if e.card != card_id {
                self.history.push(e);
            }
            i += 1;
        }
        proof {
            assert(pre.history@.take(n as int) =~= pre.history@);
        }
    }

    /// Drops every closure edge touching the deck.
    fn filter_closure_of_deck(&mut self, deck_id: i64)
        requires
            old(self).cards.wf(),
        ensures
            final(self).closure@ == old(self).closure@.filter(keep_edges(deck_id)),
            *final(self) == (Store { closure: final(self).closure, ..*old(self) }),
    {
        let ghost pre = *self;
        let ghost pred = keep_edges(deck_id);
        let mut src: Vec<ClosureEdge> = Vec::new();
        core::mem::swap(&mut self.closure, &mut src);
        let n = src.len();
        let mut i: usize = 0;
        while i < n
            invariant
                0 <= i <= n,
                n == pre.closure@.len(),
                src@ == pre.closure@.skip(i as int),
                self.closure@ == pre.closure@.take(i as int).filter(pred),
                *self == (Store { closure: self.closure, ..pre }),
            decreases n - i,
        {
            let e = src.remove(0);
            proof {
                assert(e == pre.closure@[i as int]);
                assert(src@ =~= pre.closure@.skip(i + 1));
                assert(pre.closure@.take(i + 1) =~= pre.closure@.take(i as int).push(e));
                crate::table::lemma_filter_push(pre.closure@.take(i as int), e, pred);
            }
            let keep = e.ancestor != deck_id && e.descendant != deck_id;
            if keep {
                self.closure.push(e);
            }
            i += 1;
        }
        proof {
            assert(pre.closure@.take(n as int) =~= pre.closure@);
        }
    }

    /// Drops the memberships of the deck's cards.
    fn filter_stash_cards_of_deck(&mut self, deck_id: i64)
        requires
            old(self).cards.wf(),
        ensures
            final(self).stash_cards@ == old(self).stash_cards@.filter(keep_members(old(self).cards@, deck_id)),
            *final(self) == (Store { stash_cards: final(self).stash_cards, ..*old(self) }),
    {
        let ghost pre = *self;
        let ghost pred = keep_members(pre.cards@, deck_id);
        let mut src: Vec<StashCardRow> = Vec::new();
        core::mem::swap(&mut self.stash_cards, &mut src);
        let n = src.len();
        let mut i: usize = 0;
        while i < n
            invariant
                0 <= i <= n,
                n == pre.stash_cards@.len(),
                src@ == pre.stash_cards@.skip(i as int),
                self.stash_cards@ == pre.stash_cards@.take(i as int).filter(pred),
                *self == (Store { stash_cards: self.stash_cards, ..pre }),
            decreases n - i,
        {
            let e = src.remove(0);
            proof {
                assert(e == pre.stash_cards@[i as int]);
                assert(src@ =~= pre.stash_cards@.skip(i + 1));
                assert(pre.stash_cards@.take(i + 1) =~= pre.stash_cards@.take(i as int).push(e));
                crate::table::lemma_filter_push(pre.stash_cards@.take(i as int), e, pred);
            }
            let keep = match self.cards.get(e.card) {
                Some(card) => card.deck != deck_id,
                None => true,
            };
            if keep {
                self.stash_cards.push(e);
            }
            i += 1;
        }
        proof {
            assert(pre.stash_cards@.take(n as int) =~= pre.stash_cards@);
        }
    }

    /// Drops the history of the deck's cards.
    fn filter_history_of_deck(&mut self, deck_id: i64)
        requires
            old(self).cards.wf(),
        ensures
            final(self).history@ == old(self).history@.filter(keep_history(old(self).cards@, deck_id)),
            *final(self) == (Store { history: final(self).history, ..*old(self) }),
    {
        let ghost pre = *self;
        let ghost pred = keep_history(pre.cards@, deck_id);
        let mut src: Vec<HistoryRow> = Vec::new();
        core::mem::swap(&mut self.history, &mut src);
        let n = src.len();
        let mut i: usize = 0;
        while i < n
            invariant
                0 <= i <= n,
                n == pre.history@.len(),
                src@ == pre.history@.skip(i as int),
                self.history@ == pre.history@.take(i as int).filter(pred),
                *self == (Store { history: self.history, ..pre }),
            decreases n - i,
        {
            let e = src.remove(0);
            proof {
                assert(e == pre.history@[i as int]);
                assert(src@ =~= pre.history@.skip(i + 1));
                assert(pre.history@.take(i + 1) =~= pre.history@.take(i as int).push(e));
                crate::table::lemma_filter_push(pre.history@.take(i as int), e, pred);
            }
            let keep = match self.cards.get(e.card) {
                Some(card) => card.deck != deck_id,
                None => true,
            };
            if keep {
                self.history.push(e);
            }
            i += 1;
        }
        proof {
            assert(pre.history@.take(n as int) =~= pre.history@);
        }
    }

    /// Drops the score rows of the deck's own cards.
    fn filter_scores_of_deck(&mut self, deck_id: i64)
        requires
            old(self).cards.wf(),
        ensures
            final(self).scores.rows@ == old(self).scores.rows@.filter(keep_scores(old(self).cards@, deck_id)),
            *final(self) == (Store { scores: final(self).scores, ..*old(self) }),
    {
        let ghost pre = *self;
        let ghost pred = keep_scores(pre.cards@, deck_id);
        let mut src: Vec<(i64, ScoreRow)> = Vec::new();
        core::mem::swap(&mut self.scores.rows, &mut src);
        let n = src.len();
        let mut i: usize = 0;
        while i < n
            invariant
                0 <= i <= n,
                n == pre.scores.rows@.len(),
                src@ == pre.scores.rows@.skip(i as int),
                self.scores.rows@ == pre.scores.rows@.take(i as int).filter(pred),
                *self == (Store { scores: self.scores, ..pre }),
            decreases n - i,
        {
            let e = src.remove(0);
            proof {
                assert(e == pre.scores.rows@[i as int]);
                assert(src@ =~= pre.scores.rows@.skip(i + 1));
                assert(pre.scores.rows@.take(i + 1) =~= pre.scores.rows@.take(
                    i as int).push(e));
                crate::table::lemma_filter_push(pre.scores.rows@.take(i as int), e, pred);
            }
            let keep = match self.cards.get(e.0) {
                Some(card) => card.deck != deck_id,
                None => true,
            };
            if keep {
                self.scores.rows.push(e);
            }
            i += 1;
        }
        proof {
            assert(pre.scores.rows@.take(n as int) =~= pre.scores.rows@);
        }
    }

    /// Drops the deck's own cache slot and any slot promising its cards.
    fn filter_deck_cache_of_deck(&mut self, deck_id: i64)
        requires
            old(self).cards.wf(),
        ensures
            final(self).deck_cache.rows@ == old(self).deck_cache.rows@.filter(keep_deck_cache(old(self).cards@, deck_id)),
            *final(self) == (Store { deck_cache: final(self).deck_cache, ..*old(self) }),
    {
        let ghost pre = *self;
        let ghost pred = keep_deck_cache(pre.cards@, deck_id);
        let mut src: Vec<(i64, CacheEntry)> = Vec::new();
        core::mem::swap(&mut self.deck_cache.rows, &mut src);
        let n = src.len();
        let mut i: usize = 0;
        while i < n
            invariant
                0 <= i <= n,
                n == pre.deck_cache.rows@.len(),
                src@ == pre.deck_cache.rows@.skip(i as int),
                self.deck_cache.rows@ == pre.deck_cache.rows@.take(i as int).filter(pred),
                *self == (Store { deck_cache: self.deck_cache, ..pre }),
            decreases n - i,
        {
            let e = src.remove(0);
            proof {
                assert(e == pre.deck_cache.rows@[i as int]);
                assert(src@ =~= pre.deck_cache.rows@.skip(i + 1));
                assert(pre.deck_cache.rows@.take(i + 1) =~= pre.deck_cache.rows@.take(
                    i as int).push(e));
                crate::table::lemma_filter_push(pre.deck_cache.rows@.take(i as int), e, pred);
            }
            let keep = e.0 != deck_id && (match self.cards.get(e.1.card) {
                Some(card) => card.deck != deck_id,
                None => true,
            });
            if keep {
                self.deck_cache.rows.push(e);
            }
            i += 1;
        }
        proof {
            assert(pre.deck_cache.rows@.take(n as int) =~= pre.deck_cache.rows@);
        }
    }

    /// Drops the stash-cache slots promising the deck's cards.
    fn filter_stash_cache_of_deck(&mut self, deck_id: i64)
        requires
            old(self).cards.wf(),
        ensures
            final(self).stash_cache.rows@ == old(self).stash_cache.rows@.filter(keep_stash_cache(old(self).cards@, deck_id)),
            *final(self) == (Store { stash_cache: final(self).stash_cache, ..*old(self) }),
    {
        let ghost pre = *self;
        let ghost pred = keep_stash_cache(pre.cards@, deck_id);
        let mut src: Vec<(i64, CacheEntry)> = Vec::new();
        core::mem::swap(&mut self.stash_cache.rows, &mut src);
        let n = src.len();
        let mut i: usize = 0;
        while i < n
            invariant
                0 <= i <= n,
                n == pre.stash_cache.rows@.len(),
                src@ == pre.stash_cache.rows@.skip(i as int),
                self.stash_cache.rows@ == pre.stash_cache.rows@.take(i as int).filter(pred),
                *self == (Store { stash_cache: self.stash_cache, ..pre }),
            decreases n - i,
        {
            let e = src.remove(0);
            proof {
                assert(e == pre.stash_cache.rows@[i as int]);
                assert(src@ =~= pre.stash_cache.rows@.skip(i + 1));
                assert(pre.stash_cache.rows@.take(i + 1) =~= pre.stash_cache.rows@.take(
                    i as int).push(e));
                crate::table::lemma_filter_push(pre.stash_cache.rows@.take(i as int), e, pred);
            }
            let keep = match self.cards.get(e.1.card) {
                Some(card) => card.deck != deck_id,
                None => true,
            };
            if keep {
                self.stash_cache.rows.push(e);
            }
            i += 1;
        }
        proof {
            assert(pre.stash_cache.rows@.take(n as int) =~= pre.stash_cache.rows@);
        }
    }

    /// Drops the deck's own cards.
    fn filter_cards_of_deck(&mut self, deck_id: i64)
        requires
            old(self).cards.wf(),
        ensures
            final(self).cards.rows@ == old(self).cards.rows@.filter(keep_cards(deck_id)),
            *final(self) == (Store { cards: final(self).cards, ..*old(self) }),
    {
        let ghost pre = *self;
        let ghost pred = keep_cards(deck_id);
        let mut src: Vec<(i64, CardRow)> = Vec::new();
        core::mem::swap(&mut self.cards.rows, &mut src);
        let n = src.len();
        let mut i: usize = 0;
        while i < n
            invariant
                0 <= i <= n,
                n == pre.cards.rows@.len(),
                src@ == pre.cards.rows@.skip(i as int),
                self.cards.rows@ == pre.cards.rows@.take(i as int).filter(pred),
                *self == (Store { cards: self.cards, ..pre }),
            decreases n - i,
        {
            let e = src.remove(0);
            proof {
                assert(e == pre.cards.rows@[i as int]);
                assert(src@ =~= pre.cards.rows@.skip(i + 1));
                assert(pre.cards.rows@.take(i + 1) =~= pre.cards.rows@.take(
                    i as int).push(e));
                crate::table::lemma_filter_push(pre.cards.rows@.take(i as int), e, pred);
            }
            let keep = e.1.deck != deck_id;
            if keep {
                self.cards.rows.push(e);
            }
            i += 1;
        }
        proof {
            assert(pre.cards.rows@.take(n as int) =~= pre.cards.rows@);
        }
    }

    /// Deletes the deck, cascading as the schema's foreign keys do: its
    /// closure edges, its own cards (not its descendants' cards), and with
    /// each card its score, history, memberships and cache slots; the deck's
    /// own cache slot goes too. Descendant decks survive as orphans keeping
    /// their own subtrees.
    #[verifier::rlimit(100)]
    pub fn delete_deck(&mut self, deck_id: i64)
        requires
            old(self).wf(),
        ensures
            final(self).wf(),
            final(self).decks@ == old(self).decks@.remove(deck_id),
            forall|a: i64, d: i64|
                #[trigger] final(self).has_edge(a, d) <==> (old(self).has_edge(a, d) && a
                    != deck_id && d != deck_id),
            forall|a: i64, d: i64|
                #[trigger] final(self).has_edge(a, d) ==> final(self).edge_depth(a, d) == old(
                    self).edge_depth(a, d),
            forall|k: i64|
                #[trigger] final(self).cards@.contains_key(k) <==> (old(
                    self).cards@.contains_key(k) && old(self).cards@[k].deck != deck_id),
            forall|k: i64|
                #[trigger] final(self).cards@.contains_key(k) ==> final(self).cards@[k] == old(
                    self).cards@[k],
            forall|k: i64|
                #[trigger] final(self).scores@.contains_key(k) <==> (old(
                    self).scores@.contains_key(k) && !old(self).card_in_deck(deck_id, k)),
            forall|k: i64|
                #[trigger] final(self).scores@.contains_key(k) ==> final(self).scores@[k] == old(
                    self).scores@[k],
            final(self).history@ == old(self).history@.filter(
                keep_history(old(self).cards@, deck_id),
            ),
            forall|s: i64, c: i64|
                #[trigger] final(self).has_stash_card(s, c) <==> (old(self).has_stash_card(s, c)
                    && !old(self).card_in_deck(deck_id, c)),
            forall|k: i64|
                #[trigger] final(self).deck_cache@.contains_key(k) <==> (old(
                    self).deck_cache@.contains_key(k) && k != deck_id && !old(self).card_in_deck(
                    deck_id,
                    old(self).deck_cache@[k].card,
                )),
            forall|k: i64|
                #[trigger] final(self).deck_cache@.contains_key(k) ==> final(self).deck_cache@[k]
                    == old(self).deck_cache@[k],
            forall|k: i64|
                #[trigger] final(self).stash_cache@.contains_key(k) <==> (old(
                    self).stash_cache@.contains_key(k) && !old(self).card_in_deck(
                    deck_id,
                    old(self).stash_cache@[k].card,
                )),
            forall|k: i64|
                #[trigger] final(self).stash_cache@.contains_key(k) ==> final(
                    self).stash_cache@[k] == old(self).stash_cache@[k],
            final(self).next_id == old(self).next_id,
            final(self).stashes == old(self).stashes,
    {
        let ghost pre = *self;
        self.filter_closure_of_deck(deck_id);
        self.filter_stash_cards_of_deck(deck_id);
        self.filter_history_of_deck(deck_id);
        self.filter_scores_of_deck(deck_id);
        self.filter_deck_cache_of_deck(deck_id);
        self.filter_stash_cache_of_deck(deck_id);
        self.filter_cards_of_deck(deck_id);
        self.decks.remove(deck_id);
        proof {
            let post = *self;
            post.lemma_closure_filter_facts(pre, keep_edges(deck_id));
            assert forall|a: i64, d: i64| #[trigger] post.has_edge(a, d) <==> (pre.has_edge(a, d)
                && a != deck_id && d != deck_id) by {
                if pre.has_edge(a, d) {
                    pre.lemma_edge(a, d);
                }
            }
            post.lemma_stash_cards_filter_facts(pre, keep_members(pre.cards@, deck_id));
            assert forall|s: i64, c: i64| #[trigger] post.has_stash_card(s, c) <==> (
            pre.has_stash_card(s, c) && !pre.card_in_deck(deck_id, c)) by {
                if pre.has_stash_card(s, c) {
                    pre.lemma_stash_card(s, c);
                }
            }
            crate::table::lemma_filtered_view(pre.scores, post.scores, keep_scores(pre.cards@, deck_id));
            crate::table::lemma_filtered_view(pre.deck_cache, post.deck_cache, keep_deck_cache(pre.cards@, deck_id));
            crate::table::lemma_filtered_view(pre.stash_cache, post.stash_cache, keep_stash_cache(pre.cards@, deck_id));
            crate::table::lemma_filtered_view(pre.cards, post.cards, keep_cards(deck_id));
            crate::table::lemma_filter_elems(pre.history@, keep_history(pre.cards@, deck_id));
            // well-formedness of the result
            assert forall|i: int| 0 <= i < post.closure@.len() implies post.decks@.contains_key(
                (#[trigger] post.closure@[i]).ancestor,
            ) && post.decks@.contains_key(post.closure@[i].descendant) && post.closure@[i].depth
                >= 0 && (post.closure@[i].depth == 0 <==> post.closure@[i].ancestor
                == post.closure@[i].descendant) by {
                let e = post.closure@[i];
                assert(pre.closure@.contains(e)) by {
                    crate::table::lemma_filter_elems(
                        pre.closure@,
                        (|e2: ClosureEdge| e2.ancestor != deck_id && e2.descendant != deck_id),
                    );
                }
                let j = choose|j: int| 0 <= j < pre.closure@.len() && pre.closure@[j] == e;
                assert(pre.decks@.contains_key((#[trigger] pre.closure@[j]).ancestor));
            }
            assert forall|d: i64| #[trigger] post.decks@.contains_key(d) implies post.has_edge(
                d,
                d,
            ) by {
                assert(pre.has_edge(d, d));
            }
            assert forall|i: int| 0 <= i < post.history@.len() implies post.cards@.contains_key(
                (#[trigger] post.history@[i]).card,
            ) by {
                let h = post.history@[i];
                assert(pre.history@.contains(h) && !pre.card_in_deck(deck_id, h.card));
                let j = choose|j: int| 0 <= j < pre.history@.len() && pre.history@[j] == h;
                assert(pre.cards@.contains_key((#[trigger] pre.history@[j]).card));
            }
            assert forall|i: int| 0 <= i < post.stash_cards@.len() implies
                post.stashes@.contains_key((#[trigger] post.stash_cards@[i]).stash)
                && post.cards@.contains_key(post.stash_cards@[i].card) by {
                post.lemma_stash_card_at(i);
                let s2 = post.stash_cards@[i].stash;
                let c2 = post.stash_cards@[i].card;
                assert(post.has_stash_card(s2, c2));
                assert(pre.has_stash_card(s2, c2) && !pre.card_in_deck(deck_id, c2));
                pre.lemma_stash_card(s2, c2);
                let j = pre.stash_card_idx(s2, c2);
                assert(pre.stashes@.contains_key((#[trigger] pre.stash_cards@[j]).stash));
            }
        }
    }
}

} // verus!
