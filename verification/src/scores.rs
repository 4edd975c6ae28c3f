//! The score tracker: mutations of a card's score record, with the
//! append-only history rule — whenever a mutation changes the success count,
//! the fail count or the changelog, a history entry is written with the
//! non-negative deltas and the new totals.

use vstd::prelude::*;

use crate::store::{HistoryRow, ScoreRow, Store};
use crate::StoreError;

verus! {

/// The outcome of one review of a card.
#[derive(Clone, Copy, Debug, PartialEq, Eq, Structural)]
pub enum ReviewAction {
    Success,
    Fail,
}

/// A request to record a review outcome, with optional bookkeeping context.
/// The container ids are consumed for bookkeeping only; existence checks are
/// the boundary's business.
pub struct UpdateCardScore {
    pub action: ReviewAction,
    pub changelog: Option<String>,
    pub deck: Option<i64>,
    pub stash: Option<i64>,
}

impl Store {
    /// Whether a mutation of the score row to these values fires the history
    /// rule: the success count, fail count or changelog changes value.
    pub open spec fn score_mutation_fires(
        old_row: ScoreRow,
        success: i64,
        fail: i64,
        changelog: Seq<char>,
    ) -> bool {
        success != old_row.success || fail != old_row.fail || changelog != old_row.changelog@
    }

    /// Overwrites the score row of `card_id`, mirroring a row update under
    /// the history trigger: when the success count, fail count or changelog
    /// changes, exactly one history entry is appended, carrying the deltas
    /// floored at zero, the new totals, and whether `reviewed_at` moved.
    pub fn set_card_score(
        &mut self,
        card_id: i64,
        success: i64,
        fail: i64,
        changelog: String,
        times_reviewed: i64,
        times_seen: i64,
        seen_at: i64,
        reviewed_at: i64,
        now: i64,
    ) -> (r: Result<(), StoreError>)
        requires
            old(self).wf(),
            success >= 0,
            fail >= 0,
            times_reviewed >= 0,
            times_seen >= 0,
        ensures
            final(self).wf(),
            (match r {
                Ok(()) => {
                    let old_row = old(self).scores@[card_id];
                    &&& old(self).scores@.contains_key(card_id)
                    &&& final(self).scores@ == old(self).scores@.insert(
                        card_id,
                        (ScoreRow {
                            changelog,
                            success,
                            fail,
                            times_reviewed,
                            times_seen,
                            seen_at,
                            reviewed_at,
                        }),
                    )
                    &&& if Store::score_mutation_fires(old_row, success, fail, changelog@) {
                        let h = final(self).history@[old(self).history@.len() as int];
                        &&& final(self).history@.len() == old(self).history@.len() + 1
                        &&& h.occurred_at == now
                        &&& h.is_review_event == (reviewed_at != old_row.reviewed_at)
                        &&& h.success == (if success > old_row.success {
                            success - old_row.success
                        } else {
                            0int
                        })
                        &&& h.fail == (if fail > old_row.fail {
                            fail - old_row.fail
                        } else {
                            0int
                        })
                        &&& h.total_success == success
                        &&& h.total_fail == fail
                        &&& h.changelog@ == changelog@
                        &&& h.card == card_id
                        &&& forall|i: int|
                            0 <= i < old(self).history@.len() ==> final(self).history@[i] == old(
                                self).history@[i]
                    } else {
                        final(self).history == old(self).history
                    }
                },
                Err(e) => e == StoreError::NotFound && !old(self).scores@.contains_key(card_id)
                    && *final(self) == *old(self),
            }),
            final(self).next_id == old(self).next_id,
            final(self).decks == old(self).decks,
            final(self).closure == old(self).closure,
            final(self).cards == old(self).cards,
            final(self).stashes == old(self).stashes,
            final(self).stash_cards == old(self).stash_cards,
            final(self).deck_cache == old(self).deck_cache,
            final(self).stash_cache == old(self).stash_cache,
    {
        let ghost pre = *self;
        let old_row = match self.scores.remove(card_id) {
            Some(row) => row,
            None => {
                return Err(StoreError::NotFound);
            },
        };
        let fires = success != old_row.success || fail != old_row.fail || changelog
            != old_row.changelog;
        let delta_success = if success > old_row.success {
            success - old_row.success
        } else {
            0
        };
        let delta_fail = if fail > old_row.fail {
            fail - old_row.fail
        } else {
            0
        };
        let new_row = ScoreRow {
            changelog,
            success,
            fail,
            times_reviewed,
            times_seen,
            seen_at,
            reviewed_at,
        };
        if fires {
            let entry = HistoryRow {
                occurred_at: now,
                is_review_event: reviewed_at != old_row.reviewed_at,
                success: delta_success,
                fail: delta_fail,
                total_success: success,
                total_fail: fail,
                changelog: new_row.changelog.clone(),
                card: card_id,
            };
            self.history.push(entry);
        }
        self.scores.insert_new(card_id, new_row);
        proof {
            assert(self.scores@ =~= pre.scores@.insert(
                card_id,
                (ScoreRow {
                    changelog: new_row.changelog,
                    success,
                    fail,
                    times_reviewed,
                    times_seen,
                    seen_at,
                    reviewed_at,
                }),
            ));
            Store::lemma_edges_unchanged(pre, *self);
            assert forall|d: i64| #[trigger] self.decks@.contains_key(d) implies self.has_edge(
                d,
                d,
            ) by {
                assert(pre.has_edge(d, d));
            }
            assert forall|k: i64| #[trigger] self.cards@.contains_key(k) implies
                self.scores@.contains_key(k) by {
                assert(pre.scores@.contains_key(k));
            }
        }
        Ok(())
    }

    /// Records a review outcome for a card: bumps the chosen counter and the
    /// review counter, stamps `reviewed_at`, appends any given changelog
    /// text to the card's changelog trail, and (through the history rule)
    /// appends exactly one history entry whose delta is one on the chosen
    /// counter.
    pub fn update_reviewed_card(
        &mut self,
        card_id: i64,
        update_card_score_request: &UpdateCardScore,
        now: i64,
    ) -> (r: Result<(), StoreError>)
        requires
            old(self).wf(),
            old(self).scores@.contains_key(card_id) ==> old(self).scores@[card_id].success
                < i64::MAX && old(self).scores@[card_id].fail < i64::MAX && old(
                self).scores@[card_id].times_reviewed < i64::MAX,
        ensures
            final(self).wf(),
            (match r {
                Ok(()) => {
                    let old_row = old(self).scores@[card_id];
                    let new_row = final(self).scores@[card_id];
                    &&& old(self).scores@.contains_key(card_id)
                    &&& final(self).scores@.contains_key(card_id)
                    &&& forall|k: i64|
                        k != card_id ==> (#[trigger] final(self).scores@.contains_key(k) == old(
                            self).scores@.contains_key(k) && (old(self).scores@.contains_key(k)
                            ==> final(self).scores@[k] == old(self).scores@[k]))
                    &&& new_row.success == old_row.success + (
                    if update_card_score_request.action == ReviewAction::Success {
                        1int
                    } else {
                        0int
                    })
                    &&& new_row.fail == old_row.fail + (
                    if update_card_score_request.action == ReviewAction::Fail {
                        1int
                    } else {
                        0int
                    })
                    &&& new_row.times_reviewed == old_row.times_reviewed + 1
                    &&& new_row.reviewed_at == now
                    &&& new_row.times_seen == old_row.times_seen
                    &&& new_row.seen_at == old_row.seen_at
                    &&& new_row.changelog@ == (match update_card_score_request.changelog {
                        Some(c) => old_row.changelog@ + c@,
                        None => old_row.changelog@,
                    })
                    &&& final(self).history@.len() == old(self).history@.len() + 1
                    &&& forall|i: int|
                        0 <= i < old(self).history@.len() ==> final(self).history@[i] == old(
                            self).history@[i]
                    &&& {
                        let h = final(self).history@[old(self).history@.len() as int];
                        &&& h.occurred_at == now
                        &&& h.is_review_event == (now != old_row.reviewed_at)
                        &&& h.success == (
                        if update_card_score_request.action == ReviewAction::Success {
                            1int
                        } else {
                            0int
                        })
                        &&& h.fail == (
                        if update_card_score_request.action == ReviewAction::Fail {
                            1int
                        } else {
                            0int
                        })
                        &&& h.total_success == new_row.success
                        &&& h.total_fail == new_row.fail
                        &&& h.changelog@ == new_row.changelog@
                        &&& h.card == card_id
                    }
                },
                Err(e) => e == StoreError::NotFound && !old(self).scores@.contains_key(card_id)
                    && *final(self) == *old(self),
            }),
            final(self).next_id == old(self).next_id,
            final(self).decks == old(self).decks,
            final(self).closure == old(self).closure,
            final(self).cards == old(self).cards,
            final(self).stashes == old(self).stashes,
            final(self).stash_cards == old(self).stash_cards,
            final(self).deck_cache == old(self).deck_cache,
            final(self).stash_cache == old(self).stash_cache,
    {
        let (old_success, old_fail, old_tr, old_ts, old_seen, old_changelog) = match self.scores.get(
            card_id,
        ) {
            Some(row) => (
                row.success,
                row.fail,
                row.times_reviewed,
                row.times_seen,
                row.seen_at,
                row.changelog.clone(),
            ),
            None => {
                return Err(StoreError::NotFound);
            },
        };
        let new_success = if matches!(update_card_score_request.action, ReviewAction::Success) {
            old_success + 1
        } else {
            old_success
        };
        let new_fail = if matches!(update_card_score_request.action, ReviewAction::Fail) {
            old_fail + 1
        } else {
            old_fail
        };
        let new_changelog = match &update_card_score_request.changelog {
            Some(c) => {
                let mut trail = old_changelog;
                trail.append(c.as_str());
                trail
            },
            None => old_changelog,
        };
        let res = self.set_card_score(
            card_id,
            new_success,
            new_fail,
            new_changelog,
            old_tr + 1,
            old_ts,
            old_seen,
            now,
            now,
        );
        proof {
            assert(self.scores@.contains_key(card_id));
            assert(res is Ok);
        }
        Ok(())
    }
}

} // verus!
