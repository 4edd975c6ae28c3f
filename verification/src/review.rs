//! The review candidate selector: computes the next card to present for a
//! container (a deck or a stash), caches the pick for stability, and purges
//! cache entries when a card has been graded.

use vstd::prelude::*;

use crate::store::{CacheEntry, ScoreRow, Store};
use crate::StoreError;

verus! {

/// A container over which cards are offered for review.
#[derive(Clone, Copy, Debug, PartialEq, Eq, Structural)]
pub enum ReviewableSelection {
    Deck(i64),
    Stash(i64),
}

/// The ranking policy: fewest reviews first, ties broken by the least
/// recently reviewed card.
pub open spec fn rank_le(a: ScoreRow, b: ScoreRow) -> bool {
    a.times_reviewed < b.times_reviewed || (a.times_reviewed == b.times_reviewed && a.reviewed_at
        <= b.reviewed_at)
}

impl Store {
    /// The candidate pool of a container: a deck aggregates its whole
    /// subtree's cards; a stash holds its members.
    pub open spec fn pool_contains(self, sel: ReviewableSelection, c: i64) -> bool {
        match sel {
            ReviewableSelection::Deck(d) => self.in_deck_subtree(d, c),
            ReviewableSelection::Stash(st) => self.has_stash_card(st, c),
        }
    }

    /// The card currently promised to the container, if any.
    pub open spec fn cached_card(self, sel: ReviewableSelection) -> Option<i64> {
        match sel {
            ReviewableSelection::Deck(d) => if self.deck_cache@.contains_key(d) {
                Some(self.deck_cache@[d].card)
            } else {
                None
            },
            ReviewableSelection::Stash(st) => if self.stash_cache@.contains_key(st) {
                Some(self.stash_cache@[st].card)
            } else {
                None
            },
        }
    }

    /// A cache entry is honoured only while the cached card is still in the
    /// container's pool.
    pub open spec fn cache_valid(self, sel: ReviewableSelection) -> bool {
        match self.cached_card(sel) {
            Some(c) => self.pool_contains(sel, c),
            None => false,
        }
    }

    /// What `get_review_card` does. A valid cache entry is returned
    /// unchanged; an empty pool yields no card and no change; otherwise a
    /// rank-minimal pool member is picked, cached for the container, and its
    /// seen counter is bumped.
    pub open spec fn review_card_post(
        pre: Store,
        post: Store,
        sel: ReviewableSelection,
        now: i64,
        r: Option<i64>,
    ) -> bool {
        if pre.cache_valid(sel) {
            r == pre.cached_card(sel) && post == pre
        } else if forall|c: i64| !(#[trigger] pre.pool_contains(sel, c)) {
            r == None::<i64> && post == pre
        } else {
            let w = r.unwrap();
            &&& r is Some
            &&& pre.pool_contains(sel, w)
            &&& forall|c: i64|
                #[trigger] pre.pool_contains(sel, c) ==> rank_le(pre.scores@[w], pre.scores@[c])
            &&& post.scores@ == pre.scores@.insert(
                w,
                (ScoreRow {
                    times_seen: (pre.scores@[w].times_seen + 1) as i64,
                    seen_at: now,
                    ..pre.scores@[w]
                }),
            )
            &&& post.next_id == pre.next_id
            &&& post.decks == pre.decks
            &&& post.closure == pre.closure
            &&& post.cards == pre.cards
            &&& post.history == pre.history
            &&& post.stashes == pre.stashes
            &&& post.stash_cards == pre.stash_cards
            &&& (match sel {
                ReviewableSelection::Deck(d) => post.deck_cache@ == pre.deck_cache@.insert(
                    d,
                    (CacheEntry { card: w, created_at: now }),
                ) && post.stash_cache == pre.stash_cache,
                ReviewableSelection::Stash(st) => post.stash_cache@ == pre.stash_cache@.insert(
                    st,
                    (CacheEntry { card: w, created_at: now }),
                ) && post.deck_cache == pre.deck_cache,
            })
        }
    }

    /// Whether the membership table links `stash_id` and `card_id`.
    pub fn stash_card_exists(&self, stash_id: i64, card_id: i64) -> (r: bool)
        requires
            self.stash_cards_unique(),
        ensures
            r == self.has_stash_card(stash_id, card_id),
    {
        let n = self.stash_cards.len();
        let mut i: usize = 0;
        while i < n
            invariant
                0 <= i <= n,
                forall|j: int|
                    0 <= j < i ==> !((#[trigger] self.stash_cards@[j]).stash == stash_id
                        && self.stash_cards@[j].card == card_id),
            decreases n - i,
        {
            if self.stash_cards[i].stash == stash_id && self.stash_cards[i].card == card_id {
                proof {
                    self.lemma_stash_card_at(i as int);
                }
                return true;
            }
            i += 1;
        }
        false
    }

    /// Whether the card is in the container's candidate pool.
    pub fn pool_member(&self, selection: &ReviewableSelection, card_id: i64) -> (r: bool)
        requires
            self.wf(),
        ensures
            r == self.pool_contains(*selection, card_id),
    {
        match selection {
            ReviewableSelection::Deck(d) => {
                match self.cards.get(card_id) {
                    Some(card) => self.edge_exists(*d, card.deck),
                    None => false,
                }
            },
            ReviewableSelection::Stash(st) => self.stash_card_exists(*st, card_id),
        }
    }

    /// A rank-minimal card of the deck's subtree, if the subtree holds any.
    fn select_best_deck(&self, deck_id: i64) -> (r: Option<i64>)
        requires
            self.wf(),
        ensures
            (match r {
                Some(w) => self.in_deck_subtree(deck_id, w) && forall|c: i64|
                    #[trigger] self.in_deck_subtree(deck_id, c) ==> rank_le(
                        self.scores@[w],
                        self.scores@[c],
                    ),
                None => forall|c: i64| !(#[trigger] self.in_deck_subtree(deck_id, c)),
            }),
    {
        let n = self.cards.len();
        let mut have: bool = false;
        let mut best: i64 = 0;
        let mut best_tr: i64 = 0;
        let mut best_ra: i64 = 0;
        let mut i: usize = 0;
        while i < n
            invariant
                0 <= i <= n,
                n == self.cards.rows@.len(),
                have ==> self.in_deck_subtree(deck_id, best) && self.scores@.contains_key(best)
                    && self.scores@[best].times_reviewed == best_tr
                    && self.scores@[best].reviewed_at == best_ra,
                have ==> forall|j: int|
                    0 <= j < i && self.has_edge(deck_id, (#[trigger] self.cards.rows@[j]).1.deck)
                        ==> rank_le(self.scores@[best], self.scores@[self.cards.rows@[j].0]),
                !have ==> forall|j: int|
                    0 <= j < i ==> !self.has_edge(
                        deck_id,
                        (#[trigger] self.cards.rows@[j]).1.deck,
                    ),
            decreases n - i,
        {
            if self.edge_exists(deck_id, self.cards.rows[i].1.deck) {
                let cid = self.cards.rows[i].0;
                proof {
                    self.cards.lemma_index(i as int);
                }
                let sc = self.scores.get(cid).unwrap();
                if !have || sc.times_reviewed < best_tr || (sc.times_reviewed == best_tr
                    && sc.reviewed_at < best_ra) {
                    have = true;
                    best = cid;
                    best_tr = sc.times_reviewed;
                    best_ra = sc.reviewed_at;
                }
            }
            i += 1;
        }
        if have {
            proof {
                assert forall|c: i64| #[trigger] self.in_deck_subtree(deck_id, c) implies rank_le(
                    self.scores@[best],
                    self.scores@[c],
                ) by {
                    self.cards.lemma_contains(c);
                    let j = self.cards.index_of(c);
                    assert(self.has_edge(deck_id, (#[trigger] self.cards.rows@[j]).1.deck));
                }
            }
            Some(best)
        } else {
            proof {
                assert forall|c: i64| !(#[trigger] self.in_deck_subtree(deck_id, c)) by {
                    if self.in_deck_subtree(deck_id, c) {
                        self.cards.lemma_contains(c);
                        let j = self.cards.index_of(c);
                        assert(self.has_edge(deck_id, (#[trigger] self.cards.rows@[j]).1.deck));
                    }
                }
            }
            None
        }
    }

    /// A rank-minimal member of the stash, if it holds any.
    fn select_best_stash(&self, stash_id: i64) -> (r: Option<i64>)
        requires
            self.wf(),
        ensures
            (match r {
                Some(w) => self.has_stash_card(stash_id, w) && self.cards@.contains_key(w)
                    && forall|c: i64|
                    #[trigger] self.has_stash_card(stash_id, c) ==> rank_le(
                        self.scores@[w],
                        self.scores@[c],
                    ),
                None => forall|c: i64| !(#[trigger] self.has_stash_card(stash_id, c)),
            }),
    {
        let n = self.stash_cards.len();
        let mut have: bool = false;
        let mut best: i64 = 0;
        let mut best_tr: i64 = 0;
        let mut best_ra: i64 = 0;
        let mut i: usize = 0;
        while i < n
            invariant
                0 <= i <= n,
                n == self.stash_cards@.len(),
                have ==> self.has_stash_card(stash_id, best) && self.cards@.contains_key(best)
                    && self.scores@.contains_key(best) && self.scores@[best].times_reviewed
                    == best_tr && self.scores@[best].reviewed_at == best_ra,
                have ==> forall|j: int|
                    0 <= j < i && (#[trigger] self.stash_cards@[j]).stash == stash_id ==> rank_le(
                        self.scores@[best],
                        self.scores@[self.stash_cards@[j].card],
                    ),
                !have ==> forall|j: int|
                    0 <= j < i ==> (#[trigger] self.stash_cards@[j]).stash != stash_id,
            decreases n - i,
        {
            if self.stash_cards[i].stash == stash_id {
                let cid = self.stash_cards[i].card;
                proof {
                    self.lemma_stash_card_at(i as int);
                    assert(self.cards@.contains_key(cid));
                }
                let sc = self.scores.get(cid).unwrap();
                if !have || sc.times_reviewed < best_tr || (sc.times_reviewed == best_tr
                    && sc.reviewed_at < best_ra) {
                    have = true;
                    best = cid;
                    best_tr = sc.times_reviewed;
                    best_ra = sc.reviewed_at;
                }
            }
            i += 1;
        }
        if have {
            proof {
                assert forall|c: i64| #[trigger] self.has_stash_card(stash_id, c) implies rank_le(
                    self.scores@[best],
                    self.scores@[c],
                ) by {
                    self.lemma_stash_card(stash_id, c);
                    let j = self.stash_card_idx(stash_id, c);
                    assert((#[trigger] self.stash_cards@[j]).stash == stash_id);
                }
            }
            Some(best)
        } else {
            proof {
                assert forall|c: i64| !(#[trigger] self.has_stash_card(stash_id, c)) by {
                    if self.has_stash_card(stash_id, c) {
                        self.lemma_stash_card(stash_id, c);
                        let j = self.stash_card_idx(stash_id, c);
                        assert((#[trigger] self.stash_cards@[j]).stash == stash_id);
                    }
                }
            }
            None
        }
    }

    /// Upserts the container's single cache slot, replacing any prior pick.
    pub fn set_cached_card(&mut self, selection: &ReviewableSelection, card_id: i64, now: i64)
        requires
            old(self).wf(),
            old(self).cards@.contains_key(card_id),
            (match *selection {
                ReviewableSelection::Deck(d) => old(self).decks@.contains_key(d),
                ReviewableSelection::Stash(st) => old(self).stashes@.contains_key(st),
            }),
        ensures
            final(self).wf(),
            (match *selection {
                ReviewableSelection::Deck(d) => final(self).deck_cache@ == old(
                    self).deck_cache@.insert(d, (CacheEntry { card: card_id, created_at: now }))
                    && final(self).stash_cache == old(self).stash_cache,
                ReviewableSelection::Stash(st) => final(self).stash_cache@ == old(
                    self).stash_cache@.insert(st, (CacheEntry { card: card_id, created_at: now }))
                    && final(self).deck_cache == old(self).deck_cache,
            }),
            final(self).next_id == old(self).next_id,
            final(self).decks == old(self).decks,
            final(self).closure == old(self).closure,
            final(self).cards == old(self).cards,
            final(self).scores == old(self).scores,
            final(self).history == old(self).history,
            final(self).stashes == old(self).stashes,
            final(self).stash_cards == old(self).stash_cards,
    {
        let ghost pre = *self;
        let entry = CacheEntry { card: card_id, created_at: now };
        match selection {
            ReviewableSelection::Deck(d) => self.deck_cache.upsert(*d, entry),
            ReviewableSelection::Stash(st) => self.stash_cache.upsert(*st, entry),
        }
        proof {
            Store::lemma_edges_unchanged(pre, *self);
            assert forall|d: i64| #[trigger] self.decks@.contains_key(d) implies self.has_edge(
                d,
                d,
            ) by {
                assert(pre.has_edge(d, d));
            }
        }
    }

    /// The next card to review in the container: a valid cached pick is
    /// returned unchanged; otherwise the rank-minimal pool member is chosen,
    /// cached, and marked as seen.
    pub fn get_review_card(&mut self, selection: &ReviewableSelection, now: i64) -> (r: Option<
        i64,
    >)
        requires
            old(self).wf(),
            forall|c: i64|
                #[trigger] old(self).scores@.contains_key(c) ==> old(self).scores@[c].times_seen
                    < i64::MAX,
        ensures
            final(self).wf(),
            Store::review_card_post(*old(self), *final(self), *selection, now, r),
    {
        let ghost pre = *self;
        let cached: Option<i64> = match selection {
            ReviewableSelection::Deck(d) => match self.deck_cache.get(*d) {
                Some(e) => Some(e.card),
                None => None,
            },
            ReviewableSelection::Stash(st) => match self.stash_cache.get(*st) {
                Some(e) => Some(e.card),
                None => None,
            },
        };
        proof {
            assert(cached == pre.cached_card(*selection));
        }
        match cached {
            Some(c) => {
                if self.pool_member(selection, c) {
                    return Some(c);
                }
            },
            None => {},
        }
        proof {
            assert(!pre.cache_valid(*selection));
        }
        let best = match selection {
            ReviewableSelection::Deck(d) => self.select_best_deck(*d),
            ReviewableSelection::Stash(st) => self.select_best_stash(*st),
        };
        let w = match best {
            None => {
                proof {
                    assert forall|c: i64| !(#[trigger] pre.pool_contains(*selection, c)) by {}
                }
                return None;
            },
            Some(w) => w,
        };
        proof {
            assert(pre.pool_contains(*selection, w));
            assert(pre.cards@.contains_key(w));
            assert(pre.scores@.contains_key(w));
        }
        let row = self.scores.remove(w).unwrap();
        let bumped = ScoreRow { times_seen: row.times_seen + 1, seen_at: now, ..row };
        self.scores.insert_new(w, bumped);
        proof {
            assert(self.scores@ =~= pre.scores@.insert(
                w,
                (ScoreRow {
                    times_seen: (pre.scores@[w].times_seen + 1) as i64,
                    seen_at: now,
                    ..pre.scores@[w]
                }),
            ));
            Store::lemma_edges_unchanged(pre, *self);
            assert forall|d: i64| #[trigger] self.decks@.contains_key(d) implies self.has_edge(
                d,
                d,
            ) by {
                assert(pre.has_edge(d, d));
            }
            assert forall|k: i64| #[trigger] self.cards@.contains_key(k) implies
                self.scores@.contains_key(k) by {
                assert(pre.scores@.contains_key(k));
            }
            match *selection {
                ReviewableSelection::Deck(d) => {
                    pre.lemma_edge(d, pre.cards@[w].deck);
                    assert(pre.decks@.contains_key(d));
                },
                ReviewableSelection::Stash(st) => {
                    pre.lemma_stash_card(st, w);
                    let j = pre.stash_card_idx(st, w);
                    assert(pre.stashes@.contains_key((#[trigger] pre.stash_cards@[j]).stash));
                },
            }
        }
        self.set_cached_card(selection, w, now);
        Some(w)
    }

    /// Purges the card from every container's cache slot, in the deck cache
    /// and the stash cache alike: once graded, a card stops being the
    /// promised pick anywhere.
    pub fn remove_cached_card(&mut self, card_id: i64) -> (r: Result<(), StoreError>)
        requires
            old(self).wf(),
        ensures
            final(self).wf(),
            r is Ok,
            forall|k: i64|
                #[trigger] final(self).deck_cache@.contains_key(k) <==> (old(
                    self).deck_cache@.contains_key(k) && old(self).deck_cache@[k].card != card_id),
            forall|k: i64|
                #[trigger] final(self).deck_cache@.contains_key(k) ==> final(self).deck_cache@[k]
                    == old(self).deck_cache@[k],
            forall|k: i64|
                #[trigger] final(self).stash_cache@.contains_key(k) <==> (old(
                    self).stash_cache@.contains_key(k) && old(self).stash_cache@[k].card
                    != card_id),
            forall|k: i64|
                #[trigger] final(self).stash_cache@.contains_key(k) ==> final(
                    self).stash_cache@[k] == old(self).stash_cache@[k],
            final(self).next_id == old(self).next_id,
            final(self).decks == old(self).decks,
            final(self).closure == old(self).closure,
            final(self).cards == old(self).cards,
            final(self).scores == old(self).scores,
            final(self).history == old(self).history,
            final(self).stashes == old(self).stashes,
            final(self).stash_cards == old(self).stash_cards,
    {
        let ghost pre = *self;
        purge_cache_table(&mut self.deck_cache, card_id);
        purge_cache_table(&mut self.stash_cache, card_id);
        proof {
            Store::lemma_edges_unchanged(pre, *self);
            assert forall|d: i64| #[trigger] self.decks@.contains_key(d) implies self.has_edge(
                d,
                d,
            ) by {
                assert(pre.has_edge(d, d));
            }
        }
        Ok(())
    }
}

/// Strictly better rank: reviewed strictly fewer times, or as often but
/// longer ago.
pub open spec fn rank_lt(a: ScoreRow, b: ScoreRow) -> bool {
    a.times_reviewed < b.times_reviewed || (a.times_reviewed == b.times_reviewed && a.reviewed_at
        < b.reviewed_at)
}

/// Stability of the selection: asking the same container twice, with no
/// score update in between, yields the same card both times — the first call
/// either honours a valid cache entry and changes nothing, or caches its
/// winner, which the second call then honours.
pub proof fn lemma_review_card_stable(
    s0: Store,
    s1: Store,
    s2: Store,
    sel: ReviewableSelection,
    now1: i64,
    now2: i64,
    r1: Option<i64>,
    r2: Option<i64>,
)
    requires
        s0.wf(),
        Store::review_card_post(s0, s1, sel, now1, r1),
        Store::review_card_post(s1, s2, sel, now2, r2),
    ensures
        r2 == r1,
{
    if s0.cache_valid(sel) {
        assert(s1 == s0);
    } else if forall|c: i64| !(#[trigger] s0.pool_contains(sel, c)) {
        assert(s1 == s0 && r1 == None::<i64>);
        assert(r2 == None::<i64>);
    } else {
        let w = r1.unwrap();
        Store::lemma_edges_unchanged(s0, s1);
        Store::lemma_stash_cards_unchanged(s0, s1);
        assert(s1.cached_card(sel) == Some(w));
        assert(s1.pool_contains(sel, w)) by {
            match sel {
                ReviewableSelection::Deck(d) => {
                    assert(s0.in_deck_subtree(d, w));
                    assert(s1.cards@ == s0.cards@);
                    assert(s1.has_edge(d, s1.cards@[w].deck));
                },
                ReviewableSelection::Stash(st) => {
                    assert(s0.has_stash_card(st, w));
                },
            }
        }
        assert(s1.cache_valid(sel));
        assert(r2 == s1.cached_card(sel));
    }
}

/// Invalidation, first half: after the reviewed card has been purged from
/// every cache slot, a container that still has a pool member outranking it
/// offers a different card. (A container whose remaining members all rank at
/// or behind the just-reviewed card may offer it again.)
pub proof fn lemma_invalidated_selection(
    s: Store,
    post: Store,
    sel: ReviewableSelection,
    card: i64,
    now: i64,
    r: Option<i64>,
)
    requires
        s.wf(),
        s.cached_card(sel) != Some(card),
        exists|m: i64|
            #[trigger] s.pool_contains(sel, m) && m != card && rank_lt(
                s.scores@[m],
                s.scores@[card],
            ),
        Store::review_card_post(s, post, sel, now, r),
    ensures
        r is Some,
        r != Some(card),
{
    let m = choose|m: i64|
        #[trigger] s.pool_contains(sel, m) && m != card && rank_lt(s.scores@[m], s.scores@[card]);
    if s.cache_valid(sel) {
        assert(r == s.cached_card(sel));
    } else {
        assert(s.pool_contains(sel, m));
        let w = r.unwrap();
        assert(rank_le(s.scores@[w], s.scores@[m]));
        if w == card {
            assert(rank_lt(s.scores@[m], s.scores@[card]));
            assert(false);
        }
    }
}

/// Invalidation, second half: a container whose pool is exactly the reviewed
/// card offers that same card again.
pub proof fn lemma_sole_member_reselected(
    s: Store,
    post: Store,
    sel: ReviewableSelection,
    card: i64,
    now: i64,
    r: Option<i64>,
)
    requires
        s.wf(),
        s.pool_contains(sel, card),
        forall|c: i64| #[trigger] s.pool_contains(sel, c) ==> c == card,
        Store::review_card_post(s, post, sel, now, r),
    ensures
        r == Some(card),
{
    if s.cache_valid(sel) {
        let c = s.cached_card(sel).unwrap();
        assert(s.pool_contains(sel, c));
    } else {
        assert(s.pool_contains(sel, card));
    }
}

/// Deletes every cache row that promises the given card, whatever its
/// container key.
fn purge_cache_table(t: &mut crate::table::Table<CacheEntry>, card_id: i64)
    requires
        old(t).wf(),
    ensures
        final(t).wf(),
        forall|k: i64|
            #[trigger] final(t)@.contains_key(k) <==> (old(t)@.contains_key(k) && old(t)@[k].card
                != card_id),
        forall|k: i64| #[trigger] final(t)@.contains_key(k) ==> final(t)@[k] == old(t)@[k],
{
    let ghost pre = *t;
    let ghost pred = |r: (i64, CacheEntry)| r.1.card != card_id;
    let mut src: Vec<(i64, CacheEntry)> = Vec::new();
    core::mem::swap(&mut t.rows, &mut src);
    let n = src.len();
    let mut i: usize = 0;
    while i < n
        invariant
            0 <= i <= n,
            n == pre.rows@.len(),
            src@ == pre.rows@.skip(i as int),
            t.rows@ == pre.rows@.take(i as int).filter(pred),
        decreases n - i,
    {
        let e = src.remove(0);
        proof {
            assert(e == pre.rows@[i as int]);
            assert(src@ =~= pre.rows@.skip(i + 1));
            assert(pre.rows@.take(i + 1) =~= pre.rows@.take(i as int).push(e));
            crate::table::lemma_filter_push(pre.rows@.take(i as int), e, pred);
        }
        if e.1.card != card_id {
            t.rows.push(e);
        }
        i += 1;
    }
    proof {
        assert(pre.rows@.take(n as int) =~= pre.rows@);
        crate::table::lemma_filtered_view(pre, *t, pred);
        assert forall|k: i64| #[trigger] t@.contains_key(k) <==> (pre@.contains_key(k)
            && pre@[k].card != card_id) by {
            if pre@.contains_key(k) {
                assert(pred((k, pre@[k])) == (pre@[k].card != card_id));
            }
        }
    }
}

} // verus!
