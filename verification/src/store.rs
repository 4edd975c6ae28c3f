//! The in-memory relational store: one structure per table of the schema,
//! with the referential-integrity rules the schema enforces through keys,
//! checks and foreign-key cascades stated as a single well-formedness
//! invariant.

use vstd::prelude::*;

use crate::table::Table;
use crate::StoreError;

verus! {

/// A deck of cards; decks nest through the closure table.
pub struct DeckRow {
    pub name: String,
    pub description: String,
    pub created_at: i64,
    pub updated_at: i64,
    pub reviewed_at: i64,
}

/// One ancestor/descendant pair of the deck tree, with the distance between
/// the two decks. Every deck has a self-edge at depth zero.
pub struct ClosureEdge {
    pub ancestor: i64,
    pub descendant: i64,
    pub depth: i64,
}

/// A study card; it belongs to exactly one deck.
pub struct CardRow {
    pub title: String,
    pub description: String,
    pub front: String,
    pub back: String,
    pub created_at: i64,
    pub updated_at: i64,
    pub deck: i64,
}

/// The per-card score record, created together with its card.
pub struct ScoreRow {
    pub changelog: String,
    pub success: i64,
    pub fail: i64,
    pub times_reviewed: i64,
    pub times_seen: i64,
    pub seen_at: i64,
    pub reviewed_at: i64,
}

/// One append-only history entry, written whenever a score mutation changes
/// the success count, the fail count or the changelog.
pub struct HistoryRow {
    pub occurred_at: i64,
    pub is_review_event: bool,
    pub success: i64,
    pub fail: i64,
    pub total_success: i64,
    pub total_fail: i64,
    pub changelog: String,
    pub card: i64,
}

/// A stash: a flat grouping of cards, orthogonal to decks.
pub struct StashRow {
    pub name: String,
    pub description: String,
    pub created_at: i64,
    pub updated_at: i64,
    pub reviewed_at: i64,
}

/// Membership of one card in one stash.
pub struct StashCardRow {
    pub stash: i64,
    pub card: i64,
    pub added_at: i64,
}

/// The card currently promised to a container as its next review item.
pub struct CacheEntry {
    pub card: i64,
    pub created_at: i64,
}


/// A request to change a deck's fields; a missing field is left unchanged.
pub struct UpdateDeck {
    pub name: Option<String>,
    pub description: Option<String>,
}

/// A request to change a card's fields; a missing field is left unchanged.
/// A given `deck` moves the card to that deck.
pub struct UpdateCard {
    pub title: Option<String>,
    pub description: Option<String>,
    pub front: Option<String>,
    pub back: Option<String>,
    pub deck: Option<i64>,
}

/// The whole store. Row ids are handed out from a single counter, so an id is
/// never reused across tables or time.
pub struct Store {
    pub next_id: i64,
    pub decks: Table<DeckRow>,
    pub closure: Vec<ClosureEdge>,
    pub cards: Table<CardRow>,
    pub scores: Table<ScoreRow>,
    pub history: Vec<HistoryRow>,
    pub stashes: Table<StashRow>,
    pub stash_cards: Vec<StashCardRow>,
    pub deck_cache: Table<CacheEntry>,
    pub stash_cache: Table<CacheEntry>,
}

impl Store {
    /// There is an edge from `a` down to `d` in the closure table.
    pub open spec fn has_edge(self, a: i64, d: i64) -> bool {
        exists|i: int|
            0 <= i < self.closure@.len() && (#[trigger] self.closure@[i]).ancestor == a
                && self.closure@[i].descendant == d
    }

    pub open spec fn edge_idx(self, a: i64, d: i64) -> int {
        choose|i: int|
            0 <= i < self.closure@.len() && (#[trigger] self.closure@[i]).ancestor == a
                && self.closure@[i].descendant == d
    }

    /// The depth of the edge from `a` down to `d` (meaningful when `has_edge`).
    pub open spec fn edge_depth(self, a: i64, d: i64) -> i64 {
        self.closure@[self.edge_idx(a, d)].depth
    }

    /// The card at `c` is in the stash at `s`.
    pub open spec fn has_stash_card(self, s: i64, c: i64) -> bool {
        exists|i: int|
            0 <= i < self.stash_cards@.len() && (#[trigger] self.stash_cards@[i]).stash == s
                && self.stash_cards@[i].card == c
    }

    pub open spec fn stash_card_idx(self, s: i64, c: i64) -> int {
        choose|i: int|
            0 <= i < self.stash_cards@.len() && (#[trigger] self.stash_cards@[i]).stash == s
                && self.stash_cards@[i].card == c
    }

    /// The closure table's composite primary key: one row per
    /// (ancestor, descendant) pair.
    pub open spec fn closure_unique(self) -> bool {
        forall|i: int, j: int|
            0 <= i < j < self.closure@.len() ==> !((#[trigger] self.closure@[i]).ancestor == (
            #[trigger] self.closure@[j]).ancestor && self.closure@[i].descendant
                == self.closure@[j].descendant)
    }

    /// The membership table's composite primary key: one row per
    /// (stash, card) pair.
    pub open spec fn stash_cards_unique(self) -> bool {
        forall|i: int, j: int|
            0 <= i < j < self.stash_cards@.len() ==> !((#[trigger] self.stash_cards@[i]).stash == (
            #[trigger] self.stash_cards@[j]).stash && self.stash_cards@[i].card
                == self.stash_cards@[j].card)
    }

    /// Each table's primary key is respected.
    pub open spec fn keys_wf(self) -> bool {
        &&& self.decks.wf()
        &&& self.cards.wf()
        &&& self.scores.wf()
        &&& self.stashes.wf()
        &&& self.deck_cache.wf()
        &&& self.stash_cache.wf()
        &&& self.closure_unique()
        &&& self.stash_cards_unique()
    }

    /// Ids come from the shared counter, so any id at or above `next_id` is
    /// fresh for every table.
    pub open spec fn ids_wf(self) -> bool {
        &&& 1 <= self.next_id
        &&& forall|k: i64| #[trigger] self.decks@.contains_key(k) ==> 0 < k < self.next_id
        &&& forall|k: i64| #[trigger] self.cards@.contains_key(k) ==> 0 < k < self.next_id
        &&& forall|k: i64| #[trigger] self.stashes@.contains_key(k) ==> 0 < k < self.next_id
    }

    /// The closure table references decks, keeps a self-edge for every deck,
    /// and uses depth zero exactly on self-edges.
    pub open spec fn closure_wf(self) -> bool {
        &&& forall|i: int|
            0 <= i < self.closure@.len() ==> self.decks@.contains_key(
                (#[trigger] self.closure@[i]).ancestor,
            ) && self.decks@.contains_key(self.closure@[i].descendant)
        &&& forall|i: int|
            0 <= i < self.closure@.len() ==> (#[trigger] self.closure@[i]).depth >= 0 && (
            self.closure@[i].depth == 0 <==> self.closure@[i].ancestor
                == self.closure@[i].descendant)
        &&& forall|d: i64| #[trigger] self.decks@.contains_key(d) ==> self.has_edge(d, d)
    }

    /// Foreign keys: every reference points at a live row, and every card has
    /// exactly one score record.
    pub open spec fn refs_wf(self) -> bool {
        &&& forall|k: i64|
            #[trigger] self.cards@.contains_key(k) ==> self.decks@.contains_key(self.cards@[k].deck)
        &&& forall|k: i64| #[trigger] self.cards@.contains_key(k) ==> self.scores@.contains_key(k)
        &&& forall|k: i64| #[trigger] self.scores@.contains_key(k) ==> self.cards@.contains_key(k)
        &&& forall|i: int|
            0 <= i < self.history@.len() ==> self.cards@.contains_key(
                (#[trigger] self.history@[i]).card,
            )
        &&& forall|i: int|
            0 <= i < self.stash_cards@.len() ==> self.stashes@.contains_key(
                (#[trigger] self.stash_cards@[i]).stash,
            ) && self.cards@.contains_key(self.stash_cards@[i].card)
        &&& forall|k: i64|
            #[trigger] self.deck_cache@.contains_key(k) ==> self.decks@.contains_key(k)
                && self.cards@.contains_key(self.deck_cache@[k].card)
        &&& forall|k: i64|
            #[trigger] self.stash_cache@.contains_key(k) ==> self.stashes@.contains_key(k)
                && self.cards@.contains_key(self.stash_cache@[k].card)
    }

    /// Score counters never go below zero.
    pub open spec fn scores_wf(self) -> bool {
        forall|k: i64|
            #[trigger] self.scores@.contains_key(k) ==> self.scores@[k].success >= 0
                && self.scores@[k].fail >= 0 && self.scores@[k].times_reviewed >= 0
                && self.scores@[k].times_seen >= 0
    }

    pub open spec fn wf(self) -> bool {
        &&& self.keys_wf()
        &&& self.ids_wf()
        &&& self.closure_wf()
        &&& self.refs_wf()
        &&& self.scores_wf()
    }

    /// Ties a closure row position to `has_edge`/`edge_depth`.
    pub proof fn lemma_edge_at(self, i: int)
        requires
            self.closure_unique(),
            0 <= i < self.closure@.len(),
        ensures
            self.has_edge(self.closure@[i].ancestor, self.closure@[i].descendant),
            self.edge_idx(self.closure@[i].ancestor, self.closure@[i].descendant) == i,
            self.edge_depth(self.closure@[i].ancestor, self.closure@[i].descendant)
                == self.closure@[i].depth,
    {
        let a = self.closure@[i].ancestor;
        let d = self.closure@[i].descendant;
        assert(self.has_edge(a, d));
        let j = self.edge_idx(a, d);
        if i < j {
            assert(!(self.closure@[i].ancestor == self.closure@[j].ancestor
                && self.closure@[i].descendant == self.closure@[j].descendant));
        } else if j < i {
            assert(!(self.closure@[j].ancestor == self.closure@[i].ancestor
                && self.closure@[j].descendant == self.closure@[i].descendant));
        }
    }

    /// An edge that `has_edge` grants stands at `edge_idx`.
    pub proof fn lemma_edge(self, a: i64, d: i64)
        requires
            self.has_edge(a, d),
        ensures
            0 <= self.edge_idx(a, d) < self.closure@.len(),
            self.closure@[self.edge_idx(a, d)].ancestor == a,
            self.closure@[self.edge_idx(a, d)].descendant == d,
            self.closure@[self.edge_idx(a, d)].depth == self.edge_depth(a, d),
    {
    }

    /// Ties a stash-membership row position to `has_stash_card`.
    pub proof fn lemma_stash_card_at(self, i: int)
        requires
            self.stash_cards_unique(),
            0 <= i < self.stash_cards@.len(),
        ensures
            self.has_stash_card(self.stash_cards@[i].stash, self.stash_cards@[i].card),
            self.stash_card_idx(self.stash_cards@[i].stash, self.stash_cards@[i].card) == i,
    {
        let s = self.stash_cards@[i].stash;
        let c = self.stash_cards@[i].card;
        assert(self.has_stash_card(s, c));
        let j = self.stash_card_idx(s, c);
        if i < j {
            assert(!(self.stash_cards@[i].stash == self.stash_cards@[j].stash
                && self.stash_cards@[i].card == self.stash_cards@[j].card));
        } else if j < i {
            assert(!(self.stash_cards@[j].stash == self.stash_cards@[i].stash
                && self.stash_cards@[j].card == self.stash_cards@[i].card));
        }
    }

    pub proof fn lemma_stash_card(self, s: i64, c: i64)
        requires
            self.has_stash_card(s, c),
        ensures
            0 <= self.stash_card_idx(s, c) < self.stash_cards@.len(),
            self.stash_cards@[self.stash_card_idx(s, c)].stash == s,
            self.stash_cards@[self.stash_card_idx(s, c)].card == c,
    {
    }

    /// Two stores with the same closure rows agree on every edge fact.
    pub proof fn lemma_edges_unchanged(pre: Store, post: Store)
        requires
            pre.closure_unique(),
            post.closure@ == pre.closure@,
        ensures
            forall|a: i64, d: i64| #[trigger] post.has_edge(a, d) <==> pre.has_edge(a, d),
            forall|a: i64, d: i64|
                #[trigger] pre.has_edge(a, d) ==> post.edge_depth(a, d) == pre.edge_depth(a, d),
    {
        assert forall|a: i64, d: i64| #[trigger] post.has_edge(a, d) <==> pre.has_edge(a, d) by {
            if pre.has_edge(a, d) {
                let i = pre.edge_idx(a, d);
                pre.lemma_edge(a, d);
                assert(post.closure@[i].ancestor == a && post.closure@[i].descendant == d);
            }
            if post.has_edge(a, d) {
                let i = post.edge_idx(a, d);
                post.lemma_edge(a, d);
                assert(pre.closure@[i].ancestor == a && pre.closure@[i].descendant == d);
            }
        }
        assert forall|a: i64, d: i64| #[trigger] pre.has_edge(a, d) implies post.edge_depth(a, d)
            == pre.edge_depth(a, d) by {
            let i = pre.edge_idx(a, d);
            pre.lemma_edge(a, d);
            assert(post.closure@[i].ancestor == a && post.closure@[i].descendant == d);
            post.lemma_edge_at(i);
        }
    }

    /// Two stores with the same membership rows agree on every stash fact.
    pub proof fn lemma_stash_cards_unchanged(pre: Store, post: Store)
        requires
            post.stash_cards@ == pre.stash_cards@,
        ensures
            forall|s: i64, c: i64| #[trigger] post.has_stash_card(s, c) <==> pre.has_stash_card(
                s,
                c,
            ),
    {
        assert forall|s: i64, c: i64| #[trigger] post.has_stash_card(s, c) <==> pre.has_stash_card(
            s,
            c,
        ) by {
            if pre.has_stash_card(s, c) {
                let i = pre.stash_card_idx(s, c);
                pre.lemma_stash_card(s, c);
                assert(post.stash_cards@[i].stash == s && post.stash_cards@[i].card == c);
            }
            if post.has_stash_card(s, c) {
                let i = post.stash_card_idx(s, c);
                post.lemma_stash_card(s, c);
                assert(pre.stash_cards@[i].stash == s && pre.stash_cards@[i].card == c);
            }
        }
    }

    /// An empty store.
    pub fn new() -> (s: Store)
        ensures
            s.wf(),
            s.next_id == 1,
            s.decks@ == Map::<i64, DeckRow>::empty(),
            s.closure@ == Seq::<ClosureEdge>::empty(),
            s.cards@ == Map::<i64, CardRow>::empty(),
            s.scores@ == Map::<i64, ScoreRow>::empty(),
            s.history@ == Seq::<HistoryRow>::empty(),
            s.stashes@ == Map::<i64, StashRow>::empty(),
            s.stash_cards@ == Seq::<StashCardRow>::empty(),
            s.deck_cache@ == Map::<i64, CacheEntry>::empty(),
            s.stash_cache@ == Map::<i64, CacheEntry>::empty(),
    {
        let s = Store {
            next_id: 1,
            decks: Table::new(),
            closure: Vec::new(),
            cards: Table::new(),
            scores: Table::new(),
            history: Vec::new(),
            stashes: Table::new(),
            stash_cards: Vec::new(),
            deck_cache: Table::new(),
            stash_cache: Table::new(),
        };
        proof {
            assert(s.closure@ =~= Seq::<ClosureEdge>::empty());
            assert(s.history@ =~= Seq::<HistoryRow>::empty());
            assert(s.stash_cards@ =~= Seq::<StashCardRow>::empty());
        }
        s
    }

    pub fn deck_exists(&self, deck_id: i64) -> (r: bool)
        ensures
            r == self.decks@.contains_key(deck_id),
    {
        self.decks.contains_key(deck_id)
    }

    pub fn card_exists(&self, card_id: i64) -> (r: bool)
        ensures
            r == self.cards@.contains_key(card_id),
    {
        self.cards.contains_key(card_id)
    }


    /// The deck's row; fails exactly when the deck does not exist.
    pub fn get_deck(&self, deck_id: i64) -> (r: Result<&DeckRow, StoreError>)
        requires
            self.wf(),
        ensures
            (match r {
                Ok(row) => self.decks@.contains_key(deck_id) && *row == self.decks@[deck_id],
                Err(e) => e == StoreError::NotFound && !self.decks@.contains_key(deck_id),
            }),
    {
        match self.decks.get(deck_id) {
            Some(row) => Ok(row),
            None => Err(StoreError::NotFound),
        }
    }

    /// The card's row; fails exactly when the card does not exist.
    pub fn get_card(&self, card_id: i64) -> (r: Result<&CardRow, StoreError>)
        requires
            self.wf(),
        ensures
            (match r {
                Ok(row) => self.cards@.contains_key(card_id) && *row == self.cards@[card_id],
                Err(e) => e == StoreError::NotFound && !self.cards@.contains_key(card_id),
            }),
    {
        match self.cards.get(card_id) {
            Some(row) => Ok(row),
            None => Err(StoreError::NotFound),
        }
    }

    /// The card's score row; fails exactly when the card does not exist.
    pub fn get_card_score(&self, card_id: i64) -> (r: Result<&ScoreRow, StoreError>)
        requires
            self.wf(),
        ensures
            (match r {
                Ok(row) => self.scores@.contains_key(card_id) && *row == self.scores@[card_id],
                Err(e) => e == StoreError::NotFound && !self.scores@.contains_key(card_id),
            }),
    {
        match self.scores.get(card_id) {
            Some(row) => Ok(row),
            None => Err(StoreError::NotFound),
        }
    }

    pub fn stash_exists(&self, stash_id: i64) -> (r: bool)
        ensures
            r == self.stashes@.contains_key(stash_id),
    {
        self.stashes.contains_key(stash_id)
    }


    /// Applies an update request to the deck's row; a request that carries
    /// nothing, or names a deck that does not exist, changes nothing.
    pub fn update_deck(
        &mut self,
        deck_id: i64,
        update_deck_request: &UpdateDeck,
        now: i64,
    ) -> (r: Result<(), StoreError>)
        requires
            old(self).wf(),
        ensures
            final(self).wf(),
            r is Ok,
            (if old(self).decks@.contains_key(deck_id) && (update_deck_request.name is Some
                || update_deck_request.description is Some) {
                let old_row = old(self).decks@[deck_id];
                let new_row = final(self).decks@[deck_id];
                &&& final(self).decks@.contains_key(deck_id)
                &&& forall|k: i64|
                    k != deck_id ==> (#[trigger] final(self).decks@.contains_key(k) == old(
                        self).decks@.contains_key(k) && (old(self).decks@.contains_key(k) ==> final(
                        self).decks@[k] == old(self).decks@[k]))
                &&& new_row.name@ == (match update_deck_request.name {
                    Some(n) => n@,
                    None => old_row.name@,
                })
                &&& new_row.description@ == (match update_deck_request.description {
                    Some(d) => d@,
                    None => old_row.description@,
                })
                &&& new_row.created_at == old_row.created_at
                &&& new_row.updated_at == now
                &&& new_row.reviewed_at == old_row.reviewed_at
            } else {
                *final(self) == *old(self)
            }),
            final(self).next_id == old(self).next_id,
            final(self).closure == old(self).closure,
            final(self).cards == old(self).cards,
            final(self).scores == old(self).scores,
            final(self).history == old(self).history,
            final(self).stashes == old(self).stashes,
            final(self).stash_cards == old(self).stash_cards,
            final(self).deck_cache == old(self).deck_cache,
            final(self).stash_cache == old(self).stash_cache,
    {
        let ghost pre = *self;
        if update_deck_request.name.is_none() && update_deck_request.description.is_none() {
            return Ok(());
        }
        let old_row = match self.decks.remove(deck_id) {
            Some(row) => row,
            None => {
                return Ok(());
            },
        };
        let name = match &update_deck_request.name {
            Some(n) => n.clone(),
            None => old_row.name,
        };
        let description = match &update_deck_request.description {
            Some(d) => d.clone(),
            None => old_row.description,
        };
        let new_row = DeckRow {
            name,
            description,
            created_at: old_row.created_at,
            updated_at: now,
            reviewed_at: old_row.reviewed_at,
        };
        self.decks.insert_new(deck_id, new_row);
        proof {
            assert forall|k: i64| #[trigger] self.decks@.contains_key(k) <==>
                pre.decks@.contains_key(k) by {}
            Store::lemma_edges_unchanged(pre, *self);
            assert forall|d: i64| #[trigger] self.decks@.contains_key(d) implies self.has_edge(
                d,
                d,
            ) by {
                assert(pre.decks@.contains_key(d));
                assert(pre.has_edge(d, d));
            }
        }
        Ok(())
    }

    /// Applies an update request to the card's row; a missing field is left
    /// alone, and a given deck id moves the card there. A request that
    /// carries nothing, or names a card that does not exist, changes
    /// nothing; a deck to move into must exist.
    pub fn update_card(
        &mut self,
        card_id: i64,
        update_card_request: &UpdateCard,
        now: i64,
    ) -> (r: Result<(), StoreError>)
        requires
            old(self).wf(),
            (match update_card_request.deck {
                Some(d) => old(self).decks@.contains_key(d),
                None => true,
            }),
        ensures
            final(self).wf(),
            r is Ok,
            (if old(self).cards@.contains_key(card_id) && (update_card_request.title is Some
                || update_card_request.description is Some || update_card_request.front is Some
                || update_card_request.back is Some || update_card_request.deck is Some) {
                let old_row = old(self).cards@[card_id];
                let new_row = final(self).cards@[card_id];
                &&& final(self).cards@.contains_key(card_id)
                &&& forall|k: i64|
                    k != card_id ==> (#[trigger] final(self).cards@.contains_key(k) == old(
                        self).cards@.contains_key(k) && (old(self).cards@.contains_key(k) ==> final(
                        self).cards@[k] == old(self).cards@[k]))
                &&& new_row.title@ == (match update_card_request.title {
                    Some(t) => t@,
                    None => old_row.title@,
                })
                &&& new_row.description@ == (match update_card_request.description {
                    Some(d) => d@,
                    None => old_row.description@,
                })
                &&& new_row.front@ == (match update_card_request.front {
                    Some(f) => f@,
                    None => old_row.front@,
                })
                &&& new_row.back@ == (match update_card_request.back {
                    Some(b) => b@,
                    None => old_row.back@,
                })
                &&& new_row.deck == (match update_card_request.deck {
                    Some(d) => d,
                    None => old_row.deck,
                })
                &&& new_row.created_at == old_row.created_at
                &&& new_row.updated_at == now
            } else {
                *final(self) == *old(self)
            }),
            final(self).next_id == old(self).next_id,
            final(self).decks == old(self).decks,
            final(self).closure == old(self).closure,
            final(self).scores == old(self).scores,
            final(self).history == old(self).history,
            final(self).stashes == old(self).stashes,
            final(self).stash_cards == old(self).stash_cards,
            final(self).deck_cache == old(self).deck_cache,
            final(self).stash_cache == old(self).stash_cache,
    {
        let ghost pre = *self;
        if update_card_request.title.is_none() && update_card_request.description.is_none()
            && update_card_request.front.is_none() && update_card_request.back.is_none()
            && update_card_request.deck.is_none() {
            return Ok(());
        }
        let old_row = match self.cards.remove(card_id) {
            Some(row) => row,
            None => {
                return Ok(());
            },
        };
        let title = match &update_card_request.title {
            Some(t) => t.clone(),
            None => old_row.title,
        };
        let description = match &update_card_request.description {
            Some(d) => d.clone(),
            None => old_row.description,
        };
        let front = match &update_card_request.front {
            Some(f) => f.clone(),
            None => old_row.front,
        };
        let back = match &update_card_request.back {
            Some(b) => b.clone(),
            None => old_row.back,
        };
        let deck = match update_card_request.deck {
            Some(d) => d,
            None => old_row.deck,
        };
        let new_row = CardRow {
            title,
            description,
            front,
            back,
            created_at: old_row.created_at,
            updated_at: now,
            deck,
        };
        self.cards.insert_new(card_id, new_row);
        proof {
            assert forall|k: i64| #[trigger] self.cards@.contains_key(k) <==>
                pre.cards@.contains_key(k) by {}
            Store::lemma_edges_unchanged(pre, *self);
            assert forall|d: i64| #[trigger] self.decks@.contains_key(d) implies self.has_edge(
                d,
                d,
            ) by {
                assert(pre.has_edge(d, d));
            }
            assert forall|k: i64| #[trigger] self.cards@.contains_key(k) implies
                self.scores@.contains_key(k) by {
                assert(pre.cards@.contains_key(k));
            }
        }
        Ok(())
    }

    /// Creates a deck. The closure table gains exactly the new deck's
    /// self-edge, so a fresh deck is a root with no ancestors.
    pub fn create_deck(&mut self, name: String, description: String, now: i64) -> (id: i64)
        requires
            old(self).wf(),
            old(self).next_id < i64::MAX,
            name@.len() > 0,
        ensures
            final(self).wf(),
            id == old(self).next_id,
            !old(self).decks@.contains_key(id),
            final(self).next_id == old(self).next_id + 1,
            final(self).decks@ == old(self).decks@.insert(
                id,
                (DeckRow {
                    name,
                    description,
                    created_at: now,
                    updated_at: now,
                    reviewed_at: now,
                }),
            ),
            final(self).closure@ == old(self).closure@.push(
                (ClosureEdge { ancestor: id, descendant: id, depth: 0 }),
            ),
            final(self).cards == old(self).cards,
            final(self).scores == old(self).scores,
            final(self).history == old(self).history,
            final(self).stashes == old(self).stashes,
            final(self).stash_cards == old(self).stash_cards,
            final(self).deck_cache == old(self).deck_cache,
            final(self).stash_cache == old(self).stash_cache,
    {
        let ghost pre = *self;
        let id = self.next_id;
        self.next_id = self.next_id + 1;
        let row = DeckRow { name, description, created_at: now, updated_at: now, reviewed_at: now };
        self.decks.insert_new(id, row);
        let edge = ClosureEdge { ancestor: id, descendant: id, depth: 0 };
        self.closure.push(edge);
        proof {
            let n = pre.closure@.len() as int;
            assert forall|i: int, j: int| 0 <= i < j < self.closure@.len() implies !((
            #[trigger] self.closure@[i]).ancestor == (#[trigger] self.closure@[j]).ancestor
                && self.closure@[i].descendant == self.closure@[j].descendant) by {
                if j < n {
                    assert(self.closure@[i] == pre.closure@[i]);
                    assert(self.closure@[j] == pre.closure@[j]);
                } else {
                    assert(self.closure@[j] == edge);
                    assert(self.closure@[i] == pre.closure@[i]);
                    assert(pre.decks@.contains_key(pre.closure@[i].ancestor));
                }
            }
            assert forall|d: i64| #[trigger] self.decks@.contains_key(d) implies self.has_edge(
                d,
                d,
            ) by {
                if d == id {
                    assert(self.closure@[n].ancestor == id && self.closure@[n].descendant == id);
                } else {
                    assert(pre.decks@.contains_key(d));
                    assert(pre.has_edge(d, d));
                    let i = pre.edge_idx(d, d);
                    pre.lemma_edge(d, d);
                    assert(self.closure@[i] == pre.closure@[i]);
                }
            }
            assert forall|i: int| 0 <= i < self.closure@.len() implies self.decks@.contains_key(
                (#[trigger] self.closure@[i]).ancestor,
            ) && self.decks@.contains_key(self.closure@[i].descendant) by {
                if i < n {
                    assert(self.closure@[i] == pre.closure@[i]);
                    assert(pre.decks@.contains_key(pre.closure@[i].ancestor));
                    assert(pre.decks@.contains_key(pre.closure@[i].descendant));
                }
            }
            assert forall|i: int| 0 <= i < self.closure@.len() implies (
            #[trigger] self.closure@[i]).depth >= 0 && (self.closure@[i].depth == 0
                <==> self.closure@[i].ancestor == self.closure@[i].descendant) by {
                if i < n {
                    assert(self.closure@[i] == pre.closure@[i]);
                    assert(pre.closure@[i].depth >= 0 && (pre.closure@[i].depth == 0
                        <==> pre.closure@[i].ancestor == pre.closure@[i].descendant));
                }
            }
        }
        id
    }

    /// Creates a card in an existing deck. A zeroed score record is created
    /// with it, mirroring the schema's insert trigger; no history entry is
    /// written, since history records mutations only.
    pub fn create_card(
        &mut self,
        title: String,
        description: String,
        front: String,
        back: String,
        deck: i64,
        now: i64,
    ) -> (id: i64)
        requires
            old(self).wf(),
            old(self).next_id < i64::MAX,
            title@.len() > 0,
            old(self).decks@.contains_key(deck),
        ensures
            final(self).wf(),
            id == old(self).next_id,
            !old(self).cards@.contains_key(id),
            final(self).next_id == old(self).next_id + 1,
            final(self).cards@ == old(self).cards@.insert(
                id,
                (CardRow { title, description, front, back, created_at: now, updated_at: now, deck
                }),
            ),
            final(self).scores@.contains_key(id),
            forall|k: i64|
                k != id ==> (#[trigger] final(self).scores@.contains_key(k) == old(
                    self).scores@.contains_key(k) && (old(self).scores@.contains_key(k) ==> final(
                    self).scores@[k] == old(self).scores@[k])),
            final(self).scores@[id].success == 0,
            final(self).scores@[id].fail == 0,
            final(self).scores@[id].times_reviewed == 0,
            final(self).scores@[id].times_seen == 0,
            final(self).scores@[id].seen_at == now,
            final(self).scores@[id].reviewed_at == now,
            final(self).scores@[id].changelog@.len() == 0,
            final(self).decks == old(self).decks,
            final(self).closure == old(self).closure,
            final(self).history == old(self).history,
            final(self).stashes == old(self).stashes,
            final(self).stash_cards == old(self).stash_cards,
            final(self).deck_cache == old(self).deck_cache,
            final(self).stash_cache == old(self).stash_cache,
    {
        let ghost pre = *self;
        let id = self.next_id;
        self.next_id = self.next_id + 1;
        let row = CardRow { title, description, front, back, created_at: now, updated_at: now, deck
        };
        self.cards.insert_new(id, row);
        let score = ScoreRow {
            changelog: String::new(),
            success: 0,
            fail: 0,
            times_reviewed: 0,
            times_seen: 0,
            seen_at: now,
            reviewed_at: now,
        };
        self.scores.insert_new(id, score);
        proof {
            assert forall|d: i64| #[trigger] self.decks@.contains_key(d) implies self.has_edge(
                d,
                d,
            ) by {
                assert(pre.has_edge(d, d));
                let i = pre.edge_idx(d, d);
                pre.lemma_edge(d, d);
                assert(self.closure@[i].ancestor == d && self.closure@[i].descendant == d);
            }
        }
        id
    }
}

} // verus!
