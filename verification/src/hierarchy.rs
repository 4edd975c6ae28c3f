//! The deck hierarchy: ancestor and descendant queries over the closure
//! table, reparenting, and the aggregation of a deck subtree's cards.

use vstd::prelude::*;

use crate::store::{CardRow, ClosureEdge, StashCardRow, Store};
use crate::StoreError;

verus! {

/// A pair `(ancestor, depth)` drawn from one of the first `bound` closure
/// rows that lead into `deck_id` from elsewhere.
pub open spec fn pair_from(s: Store, deck_id: i64, p: (i64, i64), bound: int) -> bool {
    exists|j: int|
        0 <= j < bound && (#[trigger] s.closure@[j]).ancestor == p.0 && s.closure@[j].descendant
            == deck_id && s.closure@[j].ancestor != deck_id && s.closure@[j].depth == p.1
}

/// A pair `(descendant, depth)` drawn from one of the first `bound` closure
/// rows that leave `node`.
pub open spec fn desc_pair_from(s: Store, node: i64, p: (i64, i64), bound: int) -> bool {
    exists|j: int|
        0 <= j < bound && (#[trigger] s.closure@[j]).ancestor == node && s.closure@[j].descendant
            == p.0 && s.closure@[j].depth == p.1
}

/// A pair `(ancestor, depth)` drawn from one of the first `bound` closure
/// rows that enter `node`.
pub open spec fn anc_pair_from(s: Store, node: i64, p: (i64, i64), bound: int) -> bool {
    exists|j: int|
        0 <= j < bound && (#[trigger] s.closure@[j]).descendant == node && s.closure@[j].ancestor
            == p.0 && s.closure@[j].depth == p.1
}

/// Whether some pair of `v` has `x` as its first component.
pub open spec fn pairs_have(v: Seq<(i64, i64)>, x: i64) -> bool {
    exists|p: int| 0 <= p < v.len() && (#[trigger] v[p]).0 == x
}

/// Keeps an edge unless it enters the subtree (the descendants listed in
/// `dp`) from outside it.
pub open spec fn keep_outside(dp: Seq<(i64, i64)>) -> spec_fn(ClosureEdge) -> bool {
    |e: ClosureEdge| !pairs_have(dp, e.descendant) || pairs_have(dp, e.ancestor)
}

/// The edge joins the `p0`-th ancestor pair to the `q0`-th descendant pair.
pub open spec fn join_row(
    e: ClosureEdge,
    anc: Seq<(i64, i64)>,
    desc: Seq<(i64, i64)>,
    p0: int,
    q0: int,
) -> bool {
    e.ancestor == anc[p0].0 && e.descendant == desc[q0].0 && e.depth == anc[p0].1 + desc[q0].1 + 1
}

/// The joins of the first `k` pair positions (row-major order) stand in `c`
/// past `fl`, the join of pair `(p0, q0)` at offset `p0 * desc.len() + q0`.
pub open spec fn joins_laid(
    c: Seq<ClosureEdge>,
    fl: int,
    anc: Seq<(i64, i64)>,
    desc: Seq<(i64, i64)>,
    k: int,
) -> bool {
    forall|p0: int, q0: int|
        0 <= p0 < anc.len() && 0 <= q0 < desc.len() && p0 * desc.len() + q0 < k ==> #[trigger] join_row(
            c[fl + p0 * desc.len() + q0],
            anc,
            desc,
            p0,
            q0,
        )
}

fn pairs_contain(v: &Vec<(i64, i64)>, x: i64) -> (r: bool)
    ensures
        r == pairs_have(v@, x),
{
    let n = v.len();
    let mut i: usize = 0;
    while i < n
        invariant
            0 <= i <= n,
            forall|j: int| 0 <= j < i ==> (#[trigger] v@[j]).0 != x,
        decreases n - i,
    {
        if v[i].0 == x {
            return true;
        }
        i += 1;
    }
    false
}

impl Store {
    /// Every `(descendant, depth)` under `node`, each descendant once.
    fn collect_descendants(&self, node: i64) -> (r: Vec<(i64, i64)>)
        requires
            self.closure_unique(),
        ensures
            forall|p: int|
                0 <= p < r@.len() ==> self.has_edge(node, (#[trigger] r@[p]).0)
                    && self.edge_depth(node, r@[p].0) == r@[p].1,
            forall|x: i64| #[trigger] self.has_edge(node, x) ==> pairs_have(r@, x),
            forall|p: int, q: int|
                #![trigger r@[p], r@[q]]
                0 <= p < q < r@.len() ==> r@[p].0 != r@[q].0,
    {
        let n = self.closure.len();
        let mut pairs: Vec<(i64, i64)> = Vec::new();
        let mut i: usize = 0;
        while i < n
            invariant
                0 <= i <= n,
                forall|p: int|
                    0 <= p < pairs@.len() ==> desc_pair_from(*self, node, #[trigger] pairs@[p],
                    i as int),
                forall|j: int|
                    0 <= j < i && (#[trigger] self.closure@[j]).ancestor == node ==> pairs_have(
                        pairs@,
                        self.closure@[j].descendant,
                    ),
                forall|p: int, q: int|
                    #![trigger pairs@[p], pairs@[q]]
                    0 <= p < q < pairs@.len() ==> pairs@[p].0 != pairs@[q].0,
            decreases n - i,
        {
            if self.closure[i].ancestor == node {
                let x = self.closure[i].descendant;
                let dx = self.closure[i].depth;
                proof {
                    assert forall|p: int| 0 <= p < pairs@.len() implies (#[trigger] pairs@[p]).0
                        != x by {
                        if pairs@[p].0 == x {
                            assert(desc_pair_from(*self, node, pairs@[p], i as int));
                            let j = choose|j: int|
                                0 <= j < i && (#[trigger] self.closure@[j]).ancestor == node
                                    && self.closure@[j].descendant == pairs@[p].0
                                    && self.closure@[j].depth == pairs@[p].1;
                            assert(!(self.closure@[j].ancestor == self.closure@[i as int].ancestor
                                && self.closure@[j].descendant
                                == self.closure@[i as int].descendant));
                        }
                    }
                }
                let ghost oldpairs = pairs@;
                pairs.push((x, dx));
                proof {
                    assert((#[trigger] self.closure@[i as int]).ancestor == node);
                    assert(desc_pair_from(*self, node, (x, dx), i + 1));
                    assert forall|p: int| 0 <= p < oldpairs.len() implies desc_pair_from(
                        *self,
                        node,
                        #[trigger] pairs@[p],
                        i + 1,
                    ) by {
                        assert(pairs@[p] == oldpairs[p]);
                        assert(desc_pair_from(*self, node, oldpairs[p], i as int));
                        let j = choose|j: int|
                            0 <= j < i && (#[trigger] self.closure@[j]).ancestor == node
                                && self.closure@[j].descendant == oldpairs[p].0
                                && self.closure@[j].depth == oldpairs[p].1;
                        assert(0 <= j < i + 1 && (#[trigger] self.closure@[j]).ancestor == node
                            && self.closure@[j].descendant == pairs@[p].0 && self.closure@[j].depth
                            == pairs@[p].1);
                    }
                    assert(pairs@[pairs@.len() - 1].0 == x);
                    assert(pairs_have(pairs@, x));
                    assert forall|j: int|
                        0 <= j < i + 1 && (#[trigger] self.closure@[j]).ancestor
                            == node implies pairs_have(pairs@, self.closure@[j].descendant) by {
                        if j < i as int {
                            assert(pairs_have(oldpairs, self.closure@[j].descendant));
                            let p = choose|p: int|
                                0 <= p < oldpairs.len() && (#[trigger] oldpairs[p]).0
                                    == self.closure@[j].descendant;
                            assert((#[trigger] pairs@[p]).0 == self.closure@[j].descendant);
                        }
                    }
                }
            }
            i += 1;
        }
        proof {
            assert forall|p: int| 0 <= p < pairs@.len() implies self.has_edge(
                node,
                (#[trigger] pairs@[p]).0,
            ) && self.edge_depth(node, pairs@[p].0) == pairs@[p].1 by {
                assert(desc_pair_from(*self, node, pairs@[p], n as int));
                let j = choose|j: int|
                    0 <= j < n && (#[trigger] self.closure@[j]).ancestor == node
                        && self.closure@[j].descendant == pairs@[p].0 && self.closure@[j].depth
                        == pairs@[p].1;
                self.lemma_edge_at(j);
            }
            assert forall|x: i64| #[trigger] self.has_edge(node, x) implies pairs_have(
                pairs@,
                x,
            ) by {
                self.lemma_edge(node, x);
            }
        }
        pairs
    }

    /// Every `(ancestor, depth)` above `node` (the self-pair included), each
    /// ancestor once.
    fn collect_ancestors(&self, node: i64) -> (r: Vec<(i64, i64)>)
        requires
            self.closure_unique(),
        ensures
            forall|p: int|
                0 <= p < r@.len() ==> self.has_edge((#[trigger] r@[p]).0, node)
                    && self.edge_depth(r@[p].0, node) == r@[p].1,
            forall|a: i64| #[trigger] self.has_edge(a, node) ==> pairs_have(r@, a),
            forall|p: int, q: int|
                #![trigger r@[p], r@[q]]
                0 <= p < q < r@.len() ==> r@[p].0 != r@[q].0,
    {
        let n = self.closure.len();
        let mut pairs: Vec<(i64, i64)> = Vec::new();
        let mut i: usize = 0;
        while i < n
            invariant
                0 <= i <= n,
                forall|p: int|
                    0 <= p < pairs@.len() ==> anc_pair_from(*self, node, #[trigger] pairs@[p],
                    i as int),
                forall|j: int|
                    0 <= j < i && (#[trigger] self.closure@[j]).descendant == node ==> pairs_have(
                        pairs@,
                        self.closure@[j].ancestor,
                    ),
                forall|p: int, q: int|
                    #![trigger pairs@[p], pairs@[q]]
                    0 <= p < q < pairs@.len() ==> pairs@[p].0 != pairs@[q].0,
            decreases n - i,
        {
            if self.closure[i].descendant == node {
                let a = self.closure[i].ancestor;
                let da = self.closure[i].depth;
                proof {
                    assert forall|p: int| 0 <= p < pairs@.len() implies (#[trigger] pairs@[p]).0
                        != a by {
                        if pairs@[p].0 == a {
                            assert(anc_pair_from(*self, node, pairs@[p], i as int));
                            let j = choose|j: int|
                                0 <= j < i && (#[trigger] self.closure@[j]).descendant == node
                                    && self.closure@[j].ancestor == pairs@[p].0
                                    && self.closure@[j].depth == pairs@[p].1;
                            assert(!(self.closure@[j].ancestor == self.closure@[i as int].ancestor
                                && self.closure@[j].descendant
                                == self.closure@[i as int].descendant));
                        }
                    }
                }
                let ghost oldpairs = pairs@;
                pairs.push((a, da));
                proof {
                    assert((#[trigger] self.closure@[i as int]).descendant == node);
                    assert(anc_pair_from(*self, node, (a, da), i + 1));
                    assert forall|p: int| 0 <= p < oldpairs.len() implies anc_pair_from(
                        *self,
                        node,
                        #[trigger] pairs@[p],
                        i + 1,
                    ) by {
                        assert(pairs@[p] == oldpairs[p]);
                        assert(anc_pair_from(*self, node, oldpairs[p], i as int));
                        let j = choose|j: int|
                            0 <= j < i && (#[trigger] self.closure@[j]).descendant == node
                                && self.closure@[j].ancestor == oldpairs[p].0
                                && self.closure@[j].depth == oldpairs[p].1;
                        assert(0 <= j < i + 1 && (#[trigger] self.closure@[j]).descendant == node
                            && self.closure@[j].ancestor == pairs@[p].0 && self.closure@[j].depth
                            == pairs@[p].1);
                    }
                    assert(pairs@[pairs@.len() - 1].0 == a);
                    assert(pairs_have(pairs@, a));
                    assert forall|j: int|
                        0 <= j < i + 1 && (#[trigger] self.closure@[j]).descendant
                            == node implies pairs_have(pairs@, self.closure@[j].ancestor) by {
                        if j < i as int {
                            assert(pairs_have(oldpairs, self.closure@[j].ancestor));
                            let p = choose|p: int|
                                0 <= p < oldpairs.len() && (#[trigger] oldpairs[p]).0
                                    == self.closure@[j].ancestor;
                            assert((#[trigger] pairs@[p]).0 == self.closure@[j].ancestor);
                        }
                    }
                }
            }
            i += 1;
        }
        proof {
            assert forall|p: int| 0 <= p < pairs@.len() implies self.has_edge(
                (#[trigger] pairs@[p]).0,
                node,
            ) && self.edge_depth(pairs@[p].0, node) == pairs@[p].1 by {
                assert(anc_pair_from(*self, node, pairs@[p], n as int));
                let j = choose|j: int|
                    0 <= j < n && (#[trigger] self.closure@[j]).descendant == node
                        && self.closure@[j].ancestor == pairs@[p].0 && self.closure@[j].depth
                        == pairs@[p].1;
                self.lemma_edge_at(j);
            }
            assert forall|a: i64| #[trigger] self.has_edge(a, node) implies pairs_have(
                pairs@,
                a,
            ) by {
                self.lemma_edge(a, node);
            }
        }
        pairs
    }

    /// What `ancestors` returns: every proper ancestor of `deck_id`, each
    /// once, ordered nearest first (by depth ascending).
    pub open spec fn ancestors_post(self, deck_id: i64, ids: Seq<i64>) -> bool {
        &&& forall|i: int|
            0 <= i < ids.len() ==> self.has_edge(#[trigger] ids[i], deck_id) && ids[i] != deck_id
        &&& forall|a: i64|
            #[trigger] self.has_edge(a, deck_id) && a != deck_id ==> ids.contains(a)
        &&& forall|i: int, j: int|
            #![trigger ids[i], ids[j]]
            0 <= i < j < ids.len() ==> ids[i] != ids[j] && self.edge_depth(ids[i], deck_id)
                <= self.edge_depth(ids[j], deck_id)
    }

    /// Whether the closure table holds an edge from `a` down to `d`.
    pub fn edge_exists(&self, a: i64, d: i64) -> (r: bool)
        requires
            self.closure_unique(),
        ensures
            r == self.has_edge(a, d),
    {
        let n = self.closure.len();
        let mut i: usize = 0;
        while i < n
            invariant
                0 <= i <= n,
                forall|j: int|
                    0 <= j < i ==> !((#[trigger] self.closure@[j]).ancestor == a
                        && self.closure@[j].descendant == d),
            decreases n - i,
        {
            if self.closure[i].ancestor == a && self.closure[i].descendant == d {
                proof {
                    self.lemma_edge_at(i as int);
                }
                return true;
            }
            i += 1;
        }
        false
    }

    /// All proper ancestors of `deck_id`, nearest first. Fails exactly when
    /// the deck does not exist.
    #[verifier::rlimit(100)]
    pub fn ancestors(&self, deck_id: i64) -> (r: Result<Vec<i64>, StoreError>)
        requires
            self.wf(),
        ensures
            (match r {
                Ok(ids) => self.decks@.contains_key(deck_id) && self.ancestors_post(deck_id, ids@),
                Err(e) => e == StoreError::NotFound && !self.decks@.contains_key(deck_id),
            }),
    {
        if !self.decks.contains_key(deck_id) {
            return Err(StoreError::NotFound);
        }
        let n = self.closure.len();
        let mut pairs: Vec<(i64, i64)> = Vec::new();
        let mut i: usize = 0;
        while i < n
            invariant
                0 <= i <= n,
                forall|p: int|
                    0 <= p < pairs@.len() ==> pair_from(*self, deck_id, #[trigger] pairs@[p],
                    i as int),
                forall|j: int|
                    0 <= j < i && (#[trigger] self.closure@[j]).descendant == deck_id
                        && self.closure@[j].ancestor != deck_id ==> exists|p: int|
                        0 <= p < pairs@.len() && (#[trigger] pairs@[p]).0
                            == self.closure@[j].ancestor,
                forall|p: int, q: int|
                    #![trigger pairs@[p], pairs@[q]]
                    0 <= p < q < pairs@.len() ==> pairs@[p].0 != pairs@[q].0 && pairs@[p].1
                        <= pairs@[q].1,
            decreases n - i,
        {
            let anc = self.closure[i].ancestor;
            let dep = self.closure[i].depth;
            if self.closure[i].descendant == deck_id && anc != deck_id {
                let m = pairs.len();
                let mut pos: usize = 0;
                while pos < m && pairs[pos].1 <= dep
                    invariant
                        0 <= pos <= m,
                        forall|t: int| 0 <= t < pos ==> (#[trigger] pairs@[t]).1 <= dep,
                    decreases m - pos,
                {
                    pos += 1;
                }
                let ghost oldpairs = pairs@;
                proof {
                    if pairs@.len() > 0 && (pos as int) < pairs@.len() {
                        assert(pairs@[pos as int].1 > dep);
                    }
                    // the new ancestor is not already present
                    assert forall|p: int| 0 <= p < oldpairs.len() implies oldpairs[p].0 != anc by {
                        if oldpairs[p].0 == anc {
                            assert(pair_from(*self, deck_id, oldpairs[p], i as int));
                            let j = choose|j: int|
                                0 <= j < i && (#[trigger] self.closure@[j]).ancestor
                                    == oldpairs[p].0 && self.closure@[j].descendant == deck_id
                                    && self.closure@[j].ancestor != deck_id
                                    && self.closure@[j].depth == oldpairs[p].1;
                            assert(!(self.closure@[j].ancestor == self.closure@[i as int].ancestor
                                && self.closure@[j].descendant
                                == self.closure@[i as int].descendant));
                        }
                    }
                }
                pairs.insert(pos, (anc, dep));
                proof {
                    assert forall|p: int|
                        0 <= p < pairs@.len() implies pair_from(*self, deck_id,
                    #[trigger] pairs@[p], i + 1) by {
                        if p < pos as int {
                            assert(pairs@[p] == oldpairs[p]);
                            assert(pair_from(*self, deck_id, oldpairs[p], i as int));
                        } else if p == pos as int {
                            assert(pairs@[p] == (anc, dep));
                            assert((#[trigger] self.closure@[i as int]).ancestor == anc);
                        } else {
                            assert(pairs@[p] == oldpairs[p - 1]);
                            assert(pair_from(*self, deck_id, oldpairs[p - 1], i as int));
                        }
                    }
                    assert forall|j: int|
                        0 <= j < i + 1 && (#[trigger] self.closure@[j]).descendant == deck_id
                            && self.closure@[j].ancestor != deck_id implies exists|p: int|
                        0 <= p < pairs@.len() && (#[trigger] pairs@[p]).0
                            == self.closure@[j].ancestor by {
                        if j == i as int {
                            assert(pairs@[pos as int].0 == anc);
                        } else {
                            let p = choose|p: int|
                                0 <= p < oldpairs.len() && (#[trigger] oldpairs[p]).0
                                    == self.closure@[j].ancestor;
                            if p < pos as int {
                                assert(pairs@[p].0 == self.closure@[j].ancestor);
                            } else {
                                assert(pairs@[p + 1].0 == self.closure@[j].ancestor);
                            }
                        }
                    }
                    assert forall|p: int, q: int|
                        #![trigger pairs@[p], pairs@[q]]
                        0 <= p < q < pairs@.len() implies pairs@[p].0 != pairs@[q].0 && pairs@[p].1
                        <= pairs@[q].1 by {
                        let p0: int = if p < pos as int {
                            p
                        } else {
                            p - 1
                        };
                        let q0: int = if q < pos as int {
                            q
                        } else {
                            q - 1
                        };
                        if p != pos as int && q != pos as int {
                            assert(pairs@[p] == oldpairs[p0]);
                            assert(pairs@[q] == oldpairs[q0]);
                        } else if p == pos as int {
                            assert(pairs@[p] == (anc, dep));
                            assert(pairs@[q] == oldpairs[q0]);
                            assert(oldpairs[q0].1 > dep);
                        } else {
                            assert(pairs@[q] == (anc, dep));
                            assert(pairs@[p] == oldpairs[p0]);
                            assert(oldpairs[p0].1 <= dep);
                        }
                    }
                }
            }
            i += 1;
        }
        let mut ids: Vec<i64> = Vec::new();
        let m = pairs.len();
        let mut t: usize = 0;
        while t < m
            invariant
                0 <= t <= m,
                ids@.len() == t,
                forall|u: int| 0 <= u < t ==> #[trigger] ids@[u] == pairs@[u].0,
            decreases m - t,
        {
            ids.push(pairs[t].0);
            t += 1;
        }
        proof {
            assert forall|u: int| 0 <= u < ids@.len() implies self.has_edge(
                #[trigger] ids@[u],
                deck_id,
            ) && ids@[u] != deck_id && self.edge_depth(ids@[u], deck_id) == pairs@[u].1 by {
                assert(pair_from(*self, deck_id, pairs@[u], n as int));
                let j = choose|j: int|
                    0 <= j < n && (#[trigger] self.closure@[j]).ancestor == pairs@[u].0
                        && self.closure@[j].descendant == deck_id && self.closure@[j].ancestor
                        != deck_id && self.closure@[j].depth == pairs@[u].1;
                self.lemma_edge_at(j);
            }
            assert forall|a: i64| #[trigger] self.has_edge(a, deck_id) && a != deck_id implies
                ids@.contains(a) by {
                self.lemma_edge(a, deck_id);
                let j = self.edge_idx(a, deck_id);
                let p = choose|p: int|
                    0 <= p < pairs@.len() && (#[trigger] pairs@[p]).0 == self.closure@[j].ancestor;
                assert(ids@[p] == a);
            }
        }
        Ok(ids)
    }

    /// The ancestors of `deck_id` projected to their names, nearest first.
    pub fn ancestors_by_name(&self, deck_id: i64) -> (r: Result<Vec<String>, StoreError>)
        requires
            self.wf(),
        ensures
            (match r {
                Ok(names) => self.decks@.contains_key(deck_id) && exists|ids: Seq<i64>|
                    #[trigger] self.ancestors_post(deck_id, ids) && names@.len() == ids.len() && (
                    forall|t: int|
                        0 <= t < ids.len() ==> self.decks@.contains_key(ids[t]) && (
                        #[trigger] names@[t])@ == self.decks@[ids[t]].name@),
                Err(e) => e == StoreError::NotFound && !self.decks@.contains_key(deck_id),
            }),
    {
        let ids = match self.ancestors(deck_id) {
            Ok(v) => v,
            Err(e) => {
                return Err(e);
            },
        };
        let mut names: Vec<String> = Vec::new();
        let m = ids.len();
        let mut t: usize = 0;
        while t < m
            invariant
                0 <= t <= m,
                names@.len() == t,
                forall|u: int|
                    0 <= u < t ==> self.decks@.contains_key(ids@[u]) && (#[trigger] names@[u])@
                        == self.decks@[ids@[u]].name@,
            decreases m - t,
        {
            let row = self.decks.get(ids[t]).unwrap();
            names.push(row.name.clone());
            t += 1;
        }
        proof {
            assert(self.ancestors_post(deck_id, ids@));
        }
        Ok(names)
    }

    /// Makes `deck_id` a root: deletes every incoming edge except the
    /// self-edge. Edges among its descendants are untouched.
    pub fn remove_parent(&mut self, deck_id: i64)
        requires
            old(self).wf(),
        ensures
            final(self).wf(),
            final(self).closure@ == old(self).closure@.filter(
                (|e: ClosureEdge| e.descendant != deck_id || e.ancestor == deck_id),
            ),
            forall|a: i64, d: i64|
                #[trigger] final(self).has_edge(a, d) <==> (old(self).has_edge(a, d) && (d
                    != deck_id || a == deck_id)),
            forall|a: i64, d: i64|
                #[trigger] final(self).has_edge(a, d) ==> final(self).edge_depth(a, d) == old(
                    self,
                ).edge_depth(a, d),
            *final(self) == (Store { closure: final(self).closure, ..*old(self) }),
    {
        let ghost pre = *self;
        let ghost pred = |e: ClosureEdge| e.descendant != deck_id || e.ancestor == deck_id;
        let mut src: Vec<ClosureEdge> = Vec::new();
        core::mem::swap(&mut self.closure, &mut src);
        let n = src.len();
        let mut i: usize = 0;
        while i < n
            invariant
                0 <= i <= n,
                n == pre.closure@.len(),
                src@ == pre.closure@.skip(i as int),
                self.closure@ == pre.closure@.take(i as int).filter(pred),
                *self == (Store { closure: self.closure, ..pre }),
            decreases n - i,
        {
            let e = src.remove(0);
            proof {
                assert(e == pre.closure@[i as int]);
                assert(src@ =~= pre.closure@.skip(i + 1));
                assert(pre.closure@.take(i + 1) =~= pre.closure@.take(i as int).push(e));
                crate::table::lemma_filter_push(pre.closure@.take(i as int), e, pred);
            }
            if e.descendant != deck_id || e.ancestor == deck_id {
                self.closure.push(e);
            }
            i += 1;
        }
        proof {
            assert(pre.closure@.take(n as int) =~= pre.closure@);
            self.lemma_closure_filter_facts(pre, pred);
            crate::table::lemma_filter_elems(pre.closure@, pred);
            assert forall|i: int| 0 <= i < self.closure@.len() implies self.decks@.contains_key(
                (#[trigger] self.closure@[i]).ancestor,
            ) && self.decks@.contains_key(self.closure@[i].descendant) && self.closure@[i].depth
                >= 0 && (self.closure@[i].depth == 0 <==> self.closure@[i].ancestor
                == self.closure@[i].descendant) by {
                let e = self.closure@[i];
                assert(pre.closure@.contains(e));
                let j = choose|j: int| 0 <= j < pre.closure@.len() && pre.closure@[j] == e;
                assert(pre.decks@.contains_key((#[trigger] pre.closure@[j]).ancestor));
            }
            assert forall|d: i64| #[trigger] self.decks@.contains_key(d) implies self.has_edge(
                d,
                d,
            ) by {
                assert(pre.has_edge(d, d));
                pre.lemma_edge(d, d);
                assert(pred(pre.closure@[pre.edge_idx(d, d)]));
            }
        }
    }

    /// Packaged consequences of replacing the closure rows by a filtered
    /// copy: uniqueness survives, and edge facts restrict pointwise.
    pub(crate) proof fn lemma_closure_filter_facts(self, pre: Store, pred: spec_fn(ClosureEdge) -> bool)
        requires
            pre.closure_unique(),
            self.closure@ == pre.closure@.filter(pred),
        ensures
            self.closure_unique(),
            forall|a: i64, d: i64|
                #[trigger] self.has_edge(a, d) <==> (pre.has_edge(a, d) && pred(
                    pre.closure@[pre.edge_idx(a, d)],
                )),
            forall|a: i64, d: i64|
                #[trigger] self.has_edge(a, d) ==> self.edge_depth(a, d) == pre.edge_depth(a, d),
    {
        let same = |x: ClosureEdge, y: ClosureEdge| x.ancestor == y.ancestor && x.descendant
            == y.descendant;
        crate::table::lemma_filter_elems(pre.closure@, pred);
        crate::table::lemma_filter_nodup(pre.closure@, pred, same);
        assert forall|i: int, j: int| 0 <= i < j < self.closure@.len() implies !((
        #[trigger] self.closure@[i]).ancestor == (#[trigger] self.closure@[j]).ancestor
            && self.closure@[i].descendant == self.closure@[j].descendant) by {
            assert(!same(pre.closure@.filter(pred)[i], pre.closure@.filter(pred)[j]));
        }
        assert forall|a: i64, d: i64| #[trigger] self.has_edge(a, d) implies (pre.has_edge(a, d)
            && pred(pre.closure@[pre.edge_idx(a, d)]) && self.edge_depth(a, d) == pre.edge_depth(
            a,
            d,
        )) by {
            self.lemma_edge(a, d);
            let i = self.edge_idx(a, d);
            let e = self.closure@[i];
            assert(pred(e) && pre.closure@.contains(e));
            let j = choose|j: int| 0 <= j < pre.closure@.len() && pre.closure@[j] == e;
            pre.lemma_edge_at(j);
        }
        assert forall|a: i64, d: i64|
            pre.has_edge(a, d) && pred(pre.closure@[pre.edge_idx(a, d)]) implies self.has_edge(
            a,
            d,
        ) by {
            pre.lemma_edge(a, d);
            let j = pre.edge_idx(a, d);
            assert(pre.closure@.filter(pred).contains(pre.closure@[j]));
            let i = choose|i: int|
                0 <= i < pre.closure@.filter(pred).len() && pre.closure@.filter(pred)[i]
                    == pre.closure@[j];
            assert((#[trigger] self.closure@[i]).ancestor == a && self.closure@[i].descendant
                == d);
        }
    }

    /// What `connect` does to the closure table. Kept edges are those not
    /// entering the moved subtree from outside; the new edges join every
    /// ancestor of the parent (the parent itself included, through its
    /// self-pair) to every member of the subtree, at the combined depth.
    pub open spec fn connect_post(pre: Store, post: Store, deck_id: i64, parent_id: i64) -> bool {
        &&& forall|a: i64, d: i64|
            #[trigger] post.has_edge(a, d) <==> ((pre.has_edge(a, d) && (!pre.has_edge(deck_id, d)
                || pre.has_edge(deck_id, a))) || (pre.has_edge(a, parent_id) && pre.has_edge(
                deck_id,
                d,
            )))
        &&& forall|a: i64, d: i64|
            #[trigger] post.has_edge(a, d) ==> post.edge_depth(a, d) == (if pre.has_edge(
                a,
                parent_id,
            ) && pre.has_edge(deck_id, d) {
                pre.edge_depth(a, parent_id) + pre.edge_depth(deck_id, d) + 1
            } else {
                pre.edge_depth(a, d) as int
            })
    }

    /// Drops every closure edge that enters the subtree described by
    /// `desc_pairs` from outside it.
    fn purge_into_subtree(&mut self, desc_pairs: &Vec<(i64, i64)>)
        ensures
            final(self).closure@ == old(self).closure@.filter(keep_outside(desc_pairs@)),
            *final(self) == (Store { closure: final(self).closure, ..*old(self) }),
    {
        let ghost pre = *self;
        let ghost pred = keep_outside(desc_pairs@);
        let mut src: Vec<ClosureEdge> = Vec::new();
        core::mem::swap(&mut self.closure, &mut src);
        let n = src.len();
        let mut i: usize = 0;
        while i < n
            invariant
                0 <= i <= n,
                n == pre.closure@.len(),
                src@ == pre.closure@.skip(i as int),
                self.closure@ == pre.closure@.take(i as int).filter(pred),
                *self == (Store { closure: self.closure, ..pre }),
            decreases n - i,
        {
            let e = src.remove(0);
            proof {
                assert(e == pre.closure@[i as int]);
                assert(src@ =~= pre.closure@.skip(i + 1));
                assert(pre.closure@.take(i + 1) =~= pre.closure@.take(i as int).push(e));
                crate::table::lemma_filter_push(pre.closure@.take(i as int), e, pred);
            }
            let in_desc = pairs_contain(desc_pairs, e.descendant);
            let in_anc = pairs_contain(desc_pairs, e.ancestor);
            if !in_desc || in_anc {
                self.closure.push(e);
            }
            i += 1;
        }
        proof {
            assert(pre.closure@.take(n as int) =~= pre.closure@);
        }
    }

    /// Appends one edge per (ancestor pair, descendant pair), joining the two
    /// chains at the combined depth. The appended block is laid out row by
    /// row: the join of pair `(p0, q0)` stands at offset `p0 * m + q0`.
    #[verifier::rlimit(100)]
    fn append_joins(
        &mut self,
        anc_pairs: &Vec<(i64, i64)>,
        desc_pairs: &Vec<(i64, i64)>,
        Ghost(pre): Ghost<Store>,
        Ghost(deck_id): Ghost<i64>,
        Ghost(parent_id): Ghost<i64>,
    )
        requires
            old(self).closure_unique(),
            forall|t: int|
                0 <= t < old(self).closure@.len() ==> !pairs_have(
                    desc_pairs@,
                    (#[trigger] old(self).closure@[t]).descendant,
                ) || pairs_have(desc_pairs@, old(self).closure@[t].ancestor),
            forall|p0: int|
                0 <= p0 < anc_pairs@.len() ==> pre.has_edge((#[trigger] anc_pairs@[p0]).0,
                parent_id) && pre.edge_depth(anc_pairs@[p0].0, parent_id) == anc_pairs@[p0].1
                    && !pairs_have(desc_pairs@, anc_pairs@[p0].0),
            forall|q0: int|
                0 <= q0 < desc_pairs@.len() ==> pre.has_edge(
                    deck_id,
                    (#[trigger] desc_pairs@[q0]).0,
                ) && pre.edge_depth(deck_id, desc_pairs@[q0].0) == desc_pairs@[q0].1,
            forall|p0: int, q0: int|
                #![trigger anc_pairs@[p0], desc_pairs@[q0]]
                0 <= p0 < anc_pairs@.len() && 0 <= q0 < desc_pairs@.len() ==> 0 <= anc_pairs@[p0].1
                    && 0 <= desc_pairs@[q0].1 && anc_pairs@[p0].1 + desc_pairs@[q0].1 + 1
                    <= i64::MAX,
            forall|p0: int, q0: int|
                #![trigger anc_pairs@[p0], anc_pairs@[q0]]
                0 <= p0 < q0 < anc_pairs@.len() ==> anc_pairs@[p0].0 != anc_pairs@[q0].0,
            forall|p0: int, q0: int|
                #![trigger desc_pairs@[p0], desc_pairs@[q0]]
                0 <= p0 < q0 < desc_pairs@.len() ==> desc_pairs@[p0].0 != desc_pairs@[q0].0,
        ensures
            final(self).closure@.len() == old(self).closure@.len() + anc_pairs@.len()
                * desc_pairs@.len(),
            forall|t: int|
                0 <= t < old(self).closure@.len() ==> final(self).closure@[t] == old(
                    self,
                ).closure@[t],
            joins_laid(
                final(self).closure@,
                old(self).closure@.len() as int,
                anc_pairs@,
                desc_pairs@,
                anc_pairs@.len() * desc_pairs@.len() as int,
            ),
            forall|t: int|
                old(self).closure@.len() <= t < final(self).closure@.len() ==> pre.has_edge(
                    (#[trigger] final(self).closure@[t]).ancestor,
                    parent_id,
                ) && pre.has_edge(deck_id, final(self).closure@[t].descendant) && final(
                    self).closure@[t].depth == pre.edge_depth(final(self).closure@[t].ancestor, parent_id)
                    + pre.edge_depth(deck_id, final(self).closure@[t].descendant) + 1,
            final(self).closure_unique(),
            *final(self) == (Store { closure: final(self).closure, ..*old(self) }),
    {
        let ghost start = *self;
        let ghost filtered = self.closure@;
        let ghost fl = filtered.len() as int;
        let na = anc_pairs.len();
        let m = desc_pairs.len();
        let mut p: usize = 0;
        while p < na
            invariant
                0 <= p <= na,
                self.closure@.len() == fl + p * m,
                forall|t: int| 0 <= t < fl ==> self.closure@[t] == filtered[t],
                joins_laid(self.closure@, fl, anc_pairs@, desc_pairs@, p * m),
                forall|t: int|
                    fl <= t < self.closure@.len() ==> pre.has_edge(
                        (#[trigger] self.closure@[t]).ancestor,
                        parent_id,
                    ) && pre.has_edge(deck_id, self.closure@[t].descendant)
                        && self.closure@[t].depth == pre.edge_depth(
                        self.closure@[t].ancestor,
                        parent_id,
                    ) + pre.edge_depth(deck_id, self.closure@[t].descendant) + 1,
                forall|t: int, p0: int|
                    #![trigger self.closure@[t], anc_pairs@[p0]]
                    fl <= t < self.closure@.len() && p <= p0 < na ==> self.closure@[t].ancestor
                        != anc_pairs@[p0].0,
                self.closure_unique(),
                *self == (Store { closure: self.closure, ..start }),
            decreases na - p,
        {
            let a = anc_pairs[p].0;
            let da = anc_pairs[p].1;
            let mut q: usize = 0;
            while q < m
                invariant
                    0 <= q <= m,
                    0 <= p < na,
                    a == anc_pairs@[p as int].0,
                    da == anc_pairs@[p as int].1,
                    self.closure@.len() == fl + p * m + q,
                    forall|t: int| 0 <= t < fl ==> self.closure@[t] == filtered[t],
                    joins_laid(self.closure@, fl, anc_pairs@, desc_pairs@, p * m + q),
                    forall|t: int|
                        fl <= t < self.closure@.len() ==> pre.has_edge(
                            (#[trigger] self.closure@[t]).ancestor,
                            parent_id,
                        ) && pre.has_edge(deck_id, self.closure@[t].descendant)
                            && self.closure@[t].depth == pre.edge_depth(
                            self.closure@[t].ancestor,
                            parent_id,
                        ) + pre.edge_depth(deck_id, self.closure@[t].descendant) + 1,
                    forall|t: int, p0: int|
                        #![trigger self.closure@[t], anc_pairs@[p0]]
                        fl <= t < self.closure@.len() && p < p0 < na ==> self.closure@[t].ancestor
                            != anc_pairs@[p0].0,
                    forall|t: int, q0: int|
                        #![trigger self.closure@[t], desc_pairs@[q0]]
                        fl <= t < self.closure@.len() && q <= q0 < m
                            && self.closure@[t].ancestor == a ==> self.closure@[t].descendant
                            != desc_pairs@[q0].0,
                    self.closure_unique(),
                    *self == (Store { closure: self.closure, ..start }),
                decreases m - q,
            {
                let x = desc_pairs[q].0;
                let dx = desc_pairs[q].1;
                proof {
                    assert(0 <= anc_pairs@[p as int].1 && 0 <= desc_pairs@[q as int].1
                        && anc_pairs@[p as int].1 + desc_pairs@[q as int].1 + 1 <= i64::MAX);
                }
                let e = ClosureEdge { ancestor: a, descendant: x, depth: da + dx + 1 };
                let ghost before = self.closure@;
                let ghost tn = before.len() as int;
                self.closure.push(e);
                proof {
                    assert(pairs_have(desc_pairs@, (#[trigger] desc_pairs@[q as int]).0));
                    assert forall|t: int| 0 <= t < tn implies !((
                    #[trigger] self.closure@[t]).ancestor == a && self.closure@[t].descendant
                        == x) by {
                        assert(self.closure@[t] == before[t]);
                        if t < fl {
                            assert(before[t] == filtered[t]);
                            assert(filtered[t] == start.closure@[t]);
                            if before[t].ancestor == a && before[t].descendant == x {
                                assert(!pairs_have(desc_pairs@, (
                                #[trigger] start.closure@[t]).descendant) || pairs_have(
                                    desc_pairs@,
                                    start.closure@[t].ancestor,
                                ));
                                assert(pairs_have(desc_pairs@, x));
                                assert(pairs_have(desc_pairs@, a));
                                assert(!pairs_have(desc_pairs@, (
                                #[trigger] anc_pairs@[p as int]).0));
                                assert(false);
                            }
                        } else {
                            assert(before[t].ancestor == a ==> before[t].descendant
                                != desc_pairs@[q as int].0);
                        }
                    }
                    assert(self.closure@[tn] == e);
                    assert(tn == fl + p * m + q);
                    assert(join_row(self.closure@[fl + (p as int) * (m as int) + (q as int)],
                    anc_pairs@, desc_pairs@, p as int, q as int));
                    assert forall|p0: int, q0: int|
                        0 <= p0 < anc_pairs@.len() && 0 <= q0 < desc_pairs@.len() && p0
                            * desc_pairs@.len() + q0 < p * m + q + 1 implies #[trigger] join_row(
                        self.closure@[fl + p0 * desc_pairs@.len() + q0],
                        anc_pairs@,
                        desc_pairs@,
                        p0,
                        q0,
                    ) by {
                        assert(joins_laid(before, fl, anc_pairs@, desc_pairs@, p * m + q));
                        if p0 * m + q0 < p * m + q {
                            assert(0 <= p0 < anc_pairs@.len() && 0 <= q0 < desc_pairs@.len()
                                && p0 * desc_pairs@.len() + q0 < p * m + q);
                            assert(self.closure@[fl + p0 * m + q0] == before[fl + p0 * m + q0]);
                            assert(join_row(before[fl + p0 * desc_pairs@.len() + q0], anc_pairs@,
                            desc_pairs@, p0, q0));
                        } else {
                            assert(p0 * m + q0 == p * m + q);
                            assert(p0 == p && q0 == q) by (nonlinear_arith)
                                requires
                                    p0 * m + q0 == p * m + q,
                                    0 <= q0 < m,
                                    0 <= q < m,
                                    0 <= p0,
                                    0 <= p,
                            ;
                        }
                    }
                    assert(joins_laid(self.closure@, fl, anc_pairs@, desc_pairs@, p * m + q
                        + 1));
                }
                q += 1;
            }
            proof {
                assert(p * m + m == (p + 1) * m) by (nonlinear_arith);
            }
            p += 1;
        }
    }

    /// Establishes `parent_id` as the sole parent of `deck_id`, moving the
    /// whole subtree under it. The caller must ensure the new parent chain
    /// does not pass through the subtree being moved, and that the combined
    /// depths fit the depth field.
    #[verifier::rlimit(100)]
    pub fn connect(&mut self, deck_id: i64, parent_id: i64)
        requires
            old(self).wf(),
            old(self).decks@.contains_key(deck_id),
            old(self).decks@.contains_key(parent_id),
            forall|a: i64|
                #[trigger] old(self).has_edge(a, parent_id) ==> !old(self).has_edge(deck_id, a),
            forall|a: i64, x: i64|
                #[trigger] old(self).has_edge(a, parent_id) && #[trigger] old(self).has_edge(
                    deck_id,
                    x,
                ) ==> old(self).edge_depth(a, parent_id) + old(self).edge_depth(deck_id, x) + 1
                    <= i64::MAX,
        ensures
            final(self).wf(),
            Store::connect_post(*old(self), *final(self), deck_id, parent_id),
            *final(self) == (Store { closure: final(self).closure, ..*old(self) }),
    {
        let ghost pre = *self;
        let anc_pairs = self.collect_ancestors(parent_id);
        let desc_pairs = self.collect_descendants(deck_id);
        proof {
            assert forall|p0: int, q0: int|
                #![trigger anc_pairs@[p0], desc_pairs@[q0]]
                0 <= p0 < anc_pairs@.len() && 0 <= q0 < desc_pairs@.len() implies 0
                <= anc_pairs@[p0].1 && 0 <= desc_pairs@[q0].1 && anc_pairs@[p0].1
                + desc_pairs@[q0].1 + 1 <= i64::MAX by {
                let a = anc_pairs@[p0].0;
                let x = desc_pairs@[q0].0;
                assert(pre.has_edge(a, parent_id) && pre.has_edge(deck_id, x));
                pre.lemma_edge(a, parent_id);
                pre.lemma_edge(deck_id, x);
            }
            assert forall|p0: int| 0 <= p0 < anc_pairs@.len() implies !pairs_have(
                desc_pairs@,
                (#[trigger] anc_pairs@[p0]).0,
            ) by {
                let a = anc_pairs@[p0].0;
                assert(pre.has_edge(a, parent_id));
                if pairs_have(desc_pairs@, a) {
                    let q0 = choose|q0: int|
                        0 <= q0 < desc_pairs@.len() && (#[trigger] desc_pairs@[q0]).0 == a;
                    assert(pre.has_edge(deck_id, a));
                }
            }
        }
        self.purge_into_subtree(&desc_pairs);
        let ghost fl = self.closure@.len() as int;
        proof {
            self.lemma_closure_filter_facts(pre, keep_outside(desc_pairs@));
            crate::table::lemma_filter_elems(pre.closure@, keep_outside(desc_pairs@));
            assert forall|t: int| 0 <= t < self.closure@.len() implies !pairs_have(
                desc_pairs@,
                (#[trigger] self.closure@[t]).descendant,
            ) || pairs_have(desc_pairs@, self.closure@[t].ancestor) by {
                assert(keep_outside(desc_pairs@)(
                    pre.closure@.filter(keep_outside(desc_pairs@))[t],
                ));
            }
        }
        self.append_joins(&anc_pairs, &desc_pairs, Ghost(pre), Ghost(deck_id), Ghost(parent_id));
        proof {
            Store::lemma_connect_edges(pre, *self, deck_id, parent_id, anc_pairs@, desc_pairs@);
            Store::lemma_connect_wf(pre, *self, deck_id, parent_id);
        }
    }

    /// From the two phases' outcomes to the edge-level statement of
    /// `connect_post`.
    #[verifier::rlimit(100)]
    proof fn lemma_connect_edges(
        pre: Store,
        post: Store,
        deck_id: i64,
        parent_id: i64,
        anc: Seq<(i64, i64)>,
        desc: Seq<(i64, i64)>,
    )
        requires
            pre.closure_unique(),
            post.closure_unique(),
            forall|p0: int|
                0 <= p0 < anc.len() ==> pre.has_edge((#[trigger] anc[p0]).0, parent_id)
                    && pre.edge_depth(anc[p0].0, parent_id) == anc[p0].1,
            forall|a: i64| #[trigger] pre.has_edge(a, parent_id) ==> pairs_have(anc, a),
            forall|q0: int|
                0 <= q0 < desc.len() ==> pre.has_edge(deck_id, (#[trigger] desc[q0]).0)
                    && pre.edge_depth(deck_id, desc[q0].0) == desc[q0].1,
            forall|x: i64| #[trigger] pre.has_edge(deck_id, x) ==> pairs_have(desc, x),
            forall|a: i64| #[trigger] pre.has_edge(a, parent_id) ==> !pre.has_edge(deck_id, a),
            post.closure@.len() == pre.closure@.filter(keep_outside(desc)).len() + anc.len()
                * desc.len(),
            forall|t: int|
                0 <= t < pre.closure@.filter(keep_outside(desc)).len() ==> (
                #[trigger] post.closure@[t]) == pre.closure@.filter(keep_outside(desc))[t],
            joins_laid(
                post.closure@,
                pre.closure@.filter(keep_outside(desc)).len() as int,
                anc,
                desc,
                anc.len() * desc.len() as int,
            ),
            forall|t: int|
                pre.closure@.filter(keep_outside(desc)).len() <= t < post.closure@.len()
                    ==> pre.has_edge((#[trigger] post.closure@[t]).ancestor, parent_id)
                    && pre.has_edge(deck_id, post.closure@[t].descendant)
                    && post.closure@[t].depth == pre.edge_depth(
                    post.closure@[t].ancestor,
                    parent_id,
                ) + pre.edge_depth(deck_id, post.closure@[t].descendant) + 1,
        ensures
            Store::connect_post(pre, post, deck_id, parent_id),
    {
        let pred = keep_outside(desc);
        let filtered = pre.closure@.filter(pred);
        let fl = filtered.len() as int;
        crate::table::lemma_filter_elems(pre.closure@, pred);
        assert forall|a: i64, d: i64| #[trigger] post.has_edge(a, d) implies ((pre.has_edge(a, d)
            && (!pre.has_edge(deck_id, d) || pre.has_edge(deck_id, a))) || (pre.has_edge(
            a,
            parent_id,
        ) && pre.has_edge(deck_id, d))) && post.edge_depth(a, d) == (if pre.has_edge(a, parent_id)
            && pre.has_edge(deck_id, d) {
            pre.edge_depth(a, parent_id) + pre.edge_depth(deck_id, d) + 1
        } else {
            pre.edge_depth(a, d) as int
        }) by {
            post.lemma_edge(a, d);
            let t = post.edge_idx(a, d);
            post.lemma_edge_at(t);
            let e = post.closure@[t];
            if t < fl {
                assert(e == filtered[t]);
                assert(pred(e) && pre.closure@.contains(e));
                let j = choose|j: int| 0 <= j < pre.closure@.len() && pre.closure@[j] == e;
                pre.lemma_edge_at(j);
                assert(pre.has_edge(a, d) && pre.edge_depth(a, d) == e.depth);
                if pairs_have(desc, d) {
                    let q0 = choose|q0: int| 0 <= q0 < desc.len() && (#[trigger] desc[q0]).0 == d;
                    assert(pre.has_edge(deck_id, d));
                }
                if pairs_have(desc, a) {
                    let q0 = choose|q0: int| 0 <= q0 < desc.len() && (#[trigger] desc[q0]).0 == a;
                    assert(pre.has_edge(deck_id, a));
                }
                if pre.has_edge(deck_id, d) {
                    assert(pairs_have(desc, d));
                    assert(pre.has_edge(deck_id, a));
                }
                if pre.has_edge(a, parent_id) && pre.has_edge(deck_id, d) {
                    assert(!pre.has_edge(deck_id, a));
                    assert(false);
                }
            } else {
                assert(pre.has_edge(a, parent_id) && pre.has_edge(deck_id, d)
                    && post.closure@[t].depth == pre.edge_depth(a, parent_id) + pre.edge_depth(
                    deck_id,
                    d,
                ) + 1);
            }
        }
        assert forall|a: i64, d: i64|
            ((pre.has_edge(a, d) && (!pre.has_edge(deck_id, d) || pre.has_edge(deck_id, a))) || (
            pre.has_edge(a, parent_id) && pre.has_edge(deck_id, d))) implies #[trigger] post.has_edge(
            a,
            d,
        ) by {
            if pre.has_edge(a, parent_id) && pre.has_edge(deck_id, d) {
                assert(pairs_have(anc, a));
                assert(pairs_have(desc, d));
                let p0 = choose|p0: int| 0 <= p0 < anc.len() && (#[trigger] anc[p0]).0 == a;
                let q0 = choose|q0: int| 0 <= q0 < desc.len() && (#[trigger] desc[q0]).0 == d;
                let t = fl + p0 * desc.len() + q0;
                assert(p0 * desc.len() + q0 < anc.len() * desc.len()) by (nonlinear_arith)
                    requires
                        0 <= p0 < anc.len(),
                        0 <= q0 < desc.len(),
                ;
                assert(join_row(post.closure@[t], anc, desc, p0, q0));
                assert(0 <= t < post.closure@.len());
                assert((#[trigger] post.closure@[t]).ancestor == a && post.closure@[t].descendant
                    == d);
            } else {
                pre.lemma_edge(a, d);
                let j = pre.edge_idx(a, d);
                assert(pred(pre.closure@[j])) by {
                    if pairs_have(desc, d) {
                        let q0 = choose|q0: int|
                            0 <= q0 < desc.len() && (#[trigger] desc[q0]).0 == d;
                        assert(pre.has_edge(deck_id, d));
                        assert(pre.has_edge(deck_id, a));
                        assert(pairs_have(desc, a));
                    }
                }
                assert(filtered.contains(pre.closure@[j]));
                let t = choose|t: int| 0 <= t < filtered.len() && filtered[t] == pre.closure@[j];
                assert((#[trigger] post.closure@[t]).ancestor == a && post.closure@[t].descendant
                    == d);
            }
        }
    }

    /// From `connect_post` back to the store invariant.
    proof fn lemma_connect_wf(pre: Store, post: Store, deck_id: i64, parent_id: i64)
        requires
            pre.wf(),
            pre.decks@.contains_key(deck_id),
            pre.decks@.contains_key(parent_id),
            forall|a: i64| #[trigger] pre.has_edge(a, parent_id) ==> !pre.has_edge(deck_id, a),
            post.closure_unique(),
            Store::connect_post(pre, post, deck_id, parent_id),
            post == (Store { closure: post.closure, ..pre }),
        ensures
            post.wf(),
    {
        assert forall|t: int| 0 <= t < post.closure@.len() implies post.decks@.contains_key(
            (#[trigger] post.closure@[t]).ancestor,
        ) && post.decks@.contains_key(post.closure@[t].descendant) && post.closure@[t].depth >= 0
            && (post.closure@[t].depth == 0 <==> post.closure@[t].ancestor
            == post.closure@[t].descendant) by {
            post.lemma_edge_at(t);
            let a = post.closure@[t].ancestor;
            let d = post.closure@[t].descendant;
            assert(post.has_edge(a, d));
            if pre.has_edge(a, parent_id) && pre.has_edge(deck_id, d) {
                pre.lemma_edge(a, parent_id);
                pre.lemma_edge(deck_id, d);
                assert(pre.decks@.contains_key(a) && pre.decks@.contains_key(d));
                assert(pre.edge_depth(a, parent_id) >= 0 && pre.edge_depth(deck_id, d) >= 0) by {
                    pre.lemma_edge(a, parent_id);
                    pre.lemma_edge(deck_id, d);
                }
                assert(post.closure@[t].depth >= 1);
                assert(!pre.has_edge(deck_id, a));
                assert(a != d);
            } else {
                assert(pre.has_edge(a, d));
                pre.lemma_edge(a, d);
                assert(pre.decks@.contains_key(a) && pre.decks@.contains_key(d));
                assert(post.closure@[t].depth == pre.edge_depth(a, d));
                let j = pre.edge_idx(a, d);
                assert(pre.closure@[j].depth >= 0 && (pre.closure@[j].depth == 0 <==> a == d));
            }
        }
        assert forall|d: i64| #[trigger] post.decks@.contains_key(d) implies post.has_edge(
            d,
            d,
        ) by {
            assert(pre.has_edge(d, d));
            assert((pre.has_edge(d, d) && (!pre.has_edge(deck_id, d) || pre.has_edge(deck_id, d)))
                || (pre.has_edge(d, parent_id) && pre.has_edge(deck_id, d)));
        }
    }

    /// Whether `deck_id` has a direct parent: an incoming edge at depth one.
    pub fn has_parent(&self, deck_id: i64) -> (r: bool)
        requires
            self.closure_unique(),
        ensures
            r == exists|a: i64|
                #[trigger] self.has_edge(a, deck_id) && self.edge_depth(a, deck_id) == 1,
    {
        let n = self.closure.len();
        let mut i: usize = 0;
        while i < n
            invariant
                0 <= i <= n,
                forall|j: int|
                    0 <= j < i ==> !((#[trigger] self.closure@[j]).descendant == deck_id
                        && self.closure@[j].depth == 1),
            decreases n - i,
        {
            if self.closure[i].descendant == deck_id && self.closure[i].depth == 1 {
                proof {
                    self.lemma_edge_at(i as int);
                }
                return true;
            }
            i += 1;
        }
        proof {
            assert forall|a: i64|
                #[trigger] self.has_edge(a, deck_id) implies self.edge_depth(a, deck_id) != 1 by {
                self.lemma_edge(a, deck_id);
            }
        }
        false
    }

    /// The direct parent of `deck_id`; fails exactly when there is none.
    pub fn get_parent(&self, deck_id: i64) -> (r: Result<i64, StoreError>)
        requires
            self.closure_unique(),
        ensures
            (match r {
                Ok(p) => self.has_edge(p, deck_id) && self.edge_depth(p, deck_id) == 1,
                Err(e) => e == StoreError::NotFound && !exists|a: i64|
                    #[trigger] self.has_edge(a, deck_id) && self.edge_depth(a, deck_id) == 1,
            }),
    {
        let n = self.closure.len();
        let mut i: usize = 0;
        while i < n
            invariant
                0 <= i <= n,
                forall|j: int|
                    0 <= j < i ==> !((#[trigger] self.closure@[j]).descendant == deck_id
                        && self.closure@[j].depth == 1),
            decreases n - i,
        {
            if self.closure[i].descendant == deck_id && self.closure[i].depth == 1 {
                proof {
                    self.lemma_edge_at(i as int);
                }
                return Ok(self.closure[i].ancestor);
            }
            i += 1;
        }
        proof {
            assert forall|a: i64|
                #[trigger] self.has_edge(a, deck_id) implies self.edge_depth(a, deck_id) != 1 by {
                self.lemma_edge(a, deck_id);
            }
        }
        Err(StoreError::NotFound)
    }
    /// The card belongs to the deck itself or to one of its descendants.
    pub open spec fn in_deck_subtree(self, deck_id: i64, c: i64) -> bool {
        self.cards@.contains_key(c) && self.has_edge(deck_id, self.cards@[c].deck)
    }

    /// Every card of the subtree rooted at `deck_id`, each once.
    pub fn descendant_card_ids(&self, deck_id: i64) -> (r: Vec<i64>)
        requires
            self.wf(),
        ensures
            forall|t: int| 0 <= t < r@.len() ==> self.in_deck_subtree(deck_id, #[trigger] r@[t]),
            forall|c: i64| #[trigger] self.in_deck_subtree(deck_id, c) ==> r@.contains(c),
            forall|t: int, u: int|
                #![trigger r@[t], r@[u]]
                0 <= t < u < r@.len() ==> r@[t] != r@[u],
    {
        let n = self.cards.len();
        let mut out: Vec<i64> = Vec::new();
        let mut i: usize = 0;
        while i < n
            invariant
                0 <= i <= n,
                n == self.cards.rows@.len(),
                forall|t: int|
                    0 <= t < out@.len() ==> self.in_deck_subtree(deck_id, #[trigger] out@[t])
                        && exists|j: int|
                        0 <= j < i && (#[trigger] self.cards.rows@[j]).0 == out@[t],
                forall|j: int|
                    0 <= j < i && self.has_edge(deck_id, (#[trigger] self.cards.rows@[j]).1.deck)
                        ==> out@.contains(self.cards.rows@[j].0),
                forall|t: int, u: int|
                    #![trigger out@[t], out@[u]]
                    0 <= t < u < out@.len() ==> out@[t] != out@[u],
            decreases n - i,
        {
            let cid = self.cards.rows[i].0;
            if self.edge_exists(deck_id, self.cards.rows[i].1.deck) {
                proof {
                    self.cards.lemma_index(i as int);
                    assert forall|t: int| 0 <= t < out@.len() implies (#[trigger] out@[t])
                        != cid by {
                        let j = choose|j: int|
                            0 <= j < i && (#[trigger] self.cards.rows@[j]).0 == out@[t];
                        assert(self.cards.rows@[j].0 != self.cards.rows@[i as int].0);
                    }
                }
                let ghost oldout = out@;
                out.push(cid);
                proof {
                    assert((#[trigger] self.cards.rows@[i as int]).0 == cid);
                    assert(out@[out@.len() - 1] == cid);
                    assert(out@.contains(cid));
                    assert forall|j: int|
                        0 <= j < i + 1 && self.has_edge(
                            deck_id,
                            (#[trigger] self.cards.rows@[j]).1.deck,
                        ) implies out@.contains(self.cards.rows@[j].0) by {
                        if j < i as int {
                            assert(oldout.contains(self.cards.rows@[j].0));
                            let t = choose|t: int|
                                0 <= t < oldout.len() && oldout[t] == self.cards.rows@[j].0;
                            assert(out@[t] == self.cards.rows@[j].0);
                        }
                    }
                }
            }
            i += 1;
        }
        proof {
            assert forall|c: i64| #[trigger] self.in_deck_subtree(deck_id, c) implies
                out@.contains(c) by {
                self.cards.lemma_contains(c);
                let j = self.cards.index_of(c);
                assert(self.has_edge(deck_id, (#[trigger] self.cards.rows@[j]).1.deck));
            }
        }
        out
    }

    /// Whether the card belongs to the deck's subtree (the deck itself
    /// included).
    pub fn deck_has_card(&self, deck_id: i64, card_id: i64) -> (r: bool)
        requires
            self.wf(),
        ensures
            r == self.in_deck_subtree(deck_id, card_id),
    {
        match self.cards.get(card_id) {
            Some(card) => self.edge_exists(deck_id, card.deck),
            None => false,
        }
    }

    /// How many cards the deck's subtree holds.
    pub fn count_cards_by_deck(&self, deck_id: i64) -> (r: usize)
        requires
            self.wf(),
        ensures
            r == self.cards.rows@.filter(
                (|row: (i64, CardRow)| self.has_edge(deck_id, row.1.deck)),
            ).len(),
    {
        let ghost pred = |row: (i64, CardRow)| self.has_edge(deck_id, row.1.deck);
        let n = self.cards.len();
        let mut count: usize = 0;
        let mut i: usize = 0;
        while i < n
            invariant
                0 <= i <= n,
                n == self.cards.rows@.len(),
                count == self.cards.rows@.take(i as int).filter(pred).len(),
            decreases n - i,
        {
            proof {
                assert(self.cards.rows@.take(i + 1) =~= self.cards.rows@.take(i as int).push(
                    self.cards.rows@[i as int],
                ));
                crate::table::lemma_filter_push(
                    self.cards.rows@.take(i as int),
                    self.cards.rows@[i as int],
                    pred,
                );
            }
            if self.edge_exists(deck_id, self.cards.rows[i].1.deck) {
                count += 1;
            }
            i += 1;
        }
        proof {
            assert(self.cards.rows@.take(n as int) =~= self.cards.rows@);
        }
        count
    }

    /// How many cards the stash holds.
    pub fn count_cards_by_stash(&self, stash_id: i64) -> (r: usize)
        ensures
            r == self.stash_cards@.filter((|row: StashCardRow| row.stash == stash_id)).len(),
    {
        let ghost pred = |row: StashCardRow| row.stash == stash_id;
        let n = self.stash_cards.len();
        let mut count: usize = 0;
        let mut i: usize = 0;
        while i < n
            invariant
                0 <= i <= n,
                n == self.stash_cards@.len(),
                count == self.stash_cards@.take(i as int).filter(pred).len(),
            decreases n - i,
        {
            proof {
                assert(self.stash_cards@.take(i + 1) =~= self.stash_cards@.take(i as int).push(
                    self.stash_cards@[i as int],
                ));
                crate::table::lemma_filter_push(
                    self.stash_cards@.take(i as int),
                    self.stash_cards@[i as int],
                    pred,
                );
            }
            if self.stash_cards[i].stash == stash_id {
                count += 1;
            }
            i += 1;
        }
        proof {
            assert(self.stash_cards@.take(n as int) =~= self.stash_cards@);
        }
        count
    }

    /// A deck created fresh is a root: the only closure edge touching it is
    /// its own self-edge, so its ancestor sequence is empty.
    pub proof fn lemma_fresh_deck_is_root(pre: Store, post: Store, id: i64, ids: Seq<i64>)
        requires
            pre.wf(),
            !pre.decks@.contains_key(id),
            post.closure@ == pre.closure@.push(
                (ClosureEdge { ancestor: id, descendant: id, depth: 0 }),
            ),
            post.ancestors_post(id, ids),
        ensures
            ids == Seq::<i64>::empty(),
            post.has_edge(id, id),
            forall|a: i64, d: i64|
                #[trigger] post.has_edge(a, d) && (a == id || d == id) ==> a == id && d == id,
    {
        let n = pre.closure@.len() as int;
        assert(post.closure@[n].ancestor == id && post.closure@[n].descendant == id);
        assert(post.has_edge(id, id));
        assert forall|a: i64, d: i64|
            #[trigger] post.has_edge(a, d) && (a == id || d == id) implies a == id && d
            == id by {
            let t = post.edge_idx(a, d);
            post.lemma_edge(a, d);
            if t < n {
                assert(post.closure@[t] == pre.closure@[t]);
                assert(pre.decks@.contains_key((#[trigger] pre.closure@[t]).ancestor));
                assert(pre.decks@.contains_key(pre.closure@[t].descendant));
            }
        }
        if ids.len() > 0 {
            assert(post.has_edge(ids[0], id) && ids[0] != id);
        }
        assert(ids =~= Seq::<i64>::empty());
    }

    /// A freshly reparented deck's ancestor chain is its new parent followed
    /// by the parent's own chain, and every member of its subtree keeps its
    /// place under the deck. The hypotheses ask for a well-shaped hierarchy:
    /// no cycle through the subtree, and the parent's ancestors at pairwise
    /// distinct depths.
    #[verifier::rlimit(100)]
    pub proof fn lemma_reparented_ancestors(
        pre: Store,
        post: Store,
        deck_id: i64,
        parent_id: i64,
        panc: Seq<i64>,
        danc: Seq<i64>,
    )
        requires
            pre.wf(),
            post.wf(),
            pre.decks@.contains_key(deck_id),
            pre.decks@.contains_key(parent_id),
            forall|a: i64| #[trigger] pre.has_edge(a, parent_id) ==> !pre.has_edge(deck_id, a),
            forall|a: i64|
                #[trigger] pre.has_edge(a, deck_id) ==> (pre.has_edge(deck_id, a) ==> a
                    == deck_id),
            forall|a1: i64, a2: i64|
                #![trigger pre.has_edge(a1, parent_id), pre.has_edge(a2, parent_id)]
                pre.has_edge(a1, parent_id) && pre.has_edge(a2, parent_id) && a1 != a2
                    ==> pre.edge_depth(a1, parent_id) != pre.edge_depth(a2, parent_id),
            Store::connect_post(pre, post, deck_id, parent_id),
            pre.ancestors_post(parent_id, panc),
            post.ancestors_post(deck_id, danc),
        ensures
            danc == seq![parent_id] + panc,
            forall|x: i64|
                #[trigger] pre.has_edge(deck_id, x) ==> post.has_edge(deck_id, x)
                    && post.edge_depth(deck_id, x) == pre.edge_depth(deck_id, x),
    {
        // self-edges have depth zero
        assert forall|d: i64| #[trigger] pre.decks@.contains_key(d) implies pre.has_edge(d, d)
            && pre.edge_depth(d, d) == 0 by {
            pre.lemma_edge(d, d);
            let j = pre.edge_idx(d, d);
            assert((#[trigger] pre.closure@[j]).depth == 0);
        }
        // the subtree keeps its shape
        assert forall|x: i64| #[trigger] pre.has_edge(deck_id, x) implies post.has_edge(
            deck_id,
            x,
        ) && post.edge_depth(deck_id, x) == pre.edge_depth(deck_id, x) by {
            pre.lemma_edge(deck_id, x);
            assert(pre.decks@.contains_key(deck_id));
            assert(pre.has_edge(deck_id, deck_id));
            assert(!pre.has_edge(deck_id, parent_id));
        }
        // the new incoming edges of the deck are the parent's ancestor set
        assert forall|x: i64| #[trigger] post.has_edge(x, deck_id) && x != deck_id implies
            pre.has_edge(x, parent_id) by {
            assert(pre.has_edge(deck_id, deck_id));
            if pre.has_edge(x, deck_id) && pre.has_edge(deck_id, x) {
                assert(x == deck_id);
            }
        }
        assert forall|x: i64| #[trigger] pre.has_edge(x, parent_id) implies post.has_edge(
            x,
            deck_id,
        ) && x != deck_id && post.edge_depth(x, deck_id) == pre.edge_depth(x, parent_id) + 1 by {
            assert(pre.has_edge(deck_id, deck_id));
            assert(!pre.has_edge(deck_id, x));
            assert(pre.edge_depth(deck_id, deck_id) == 0);
            pre.lemma_edge(x, parent_id);
        }
        let key = |x: i64| post.edge_depth(x, deck_id) as int;
        let s2 = seq![parent_id] + panc;
        assert(pre.has_edge(parent_id, parent_id));
        assert(post.edge_depth(parent_id, deck_id) == 1);
        // membership of the two sequences agrees
        assert forall|x: i64| danc.contains(x) <==> s2.contains(x) by {
            if danc.contains(x) {
                let i = choose|i: int| 0 <= i < danc.len() && danc[i] == x;
                assert(post.has_edge(danc[i], deck_id) && danc[i] != deck_id);
                assert(pre.has_edge(x, parent_id));
                if x == parent_id {
                    assert(s2[0] == x);
                } else {
                    assert(panc.contains(x));
                    let j = choose|j: int| 0 <= j < panc.len() && panc[j] == x;
                    assert(s2[j + 1] == x);
                }
            }
            if s2.contains(x) {
                let i = choose|i: int| 0 <= i < s2.len() && s2[i] == x;
                if i == 0 {
                    assert(x == parent_id);
                    assert(post.has_edge(x, deck_id) && x != deck_id);
                } else {
                    assert(panc[i - 1] == x);
                    assert(pre.has_edge(x, parent_id) && x != parent_id);
                    assert(post.has_edge(x, deck_id) && x != deck_id);
                }
                assert(danc.contains(x));
            }
        }
        // both are sorted by the new depth, with pairwise distinct keys
        assert forall|i: int, j: int|
            #![trigger s2[i], s2[j]]
            0 <= i < j < s2.len() implies s2[i] != s2[j] && key(s2[i]) <= key(s2[j]) by {
            if i == 0 {
                assert(s2[0] == parent_id);
                assert(panc[j - 1] == s2[j]);
                assert(pre.has_edge(s2[j], parent_id) && s2[j] != parent_id);
                assert(pre.edge_depth(s2[j], parent_id) >= 1) by {
                    pre.lemma_edge(s2[j], parent_id);
                    let t = pre.edge_idx(s2[j], parent_id);
                    assert((#[trigger] pre.closure@[t]).depth >= 0);
                    assert(pre.closure@[t].depth == 0 ==> s2[j] == parent_id);
                }
                assert(post.edge_depth(s2[j], deck_id) == pre.edge_depth(s2[j], parent_id) + 1);
            } else {
                assert(panc[i - 1] == s2[i] && panc[j - 1] == s2[j]);
                assert(pre.has_edge(s2[i], parent_id) && pre.has_edge(s2[j], parent_id));
            }
        }
        assert forall|x: i64, y: i64|
            danc.contains(x) && danc.contains(y) && x != y implies key(x) != key(y) by {
            assert(pre.has_edge(x, parent_id) && pre.has_edge(y, parent_id));
        }
        lemma_sorted_unique_eq(danc, s2, key);
    }

}

/// Two duplicate-free sequences with the same members, both ordered by a key
/// that is injective on those members, are equal.
proof fn lemma_sorted_unique_eq(s1: Seq<i64>, s2: Seq<i64>, key: spec_fn(i64) -> int)
    requires
        forall|i: int, j: int| #![trigger s1[i], s1[j]] 0 <= i < j < s1.len() ==> s1[i] != s1[j],
        forall|i: int, j: int| #![trigger s2[i], s2[j]] 0 <= i < j < s2.len() ==> s2[i] != s2[j],
        forall|x: i64| s1.contains(x) <==> s2.contains(x),
        forall|i: int, j: int|
            #![trigger s1[i], s1[j]]
            0 <= i < j < s1.len() ==> key(s1[i]) <= key(s1[j]),
        forall|i: int, j: int|
            #![trigger s2[i], s2[j]]
            0 <= i < j < s2.len() ==> key(s2[i]) <= key(s2[j]),
        forall|x: i64, y: i64|
            s1.contains(x) && s1.contains(y) && x != y ==> key(x) != key(y),
    ensures
        s1 == s2,
    decreases s1.len(),
{
    if s1.len() == 0 {
        if s2.len() > 0 {
            assert(s2.contains(s2[0]));
            assert(s1.contains(s2[0]));
        }
        assert(s1 =~= s2);
    } else {
        assert(s1.contains(s1[0]));
        assert(s2.len() > 0) by {
            assert(s2.contains(s1[0]));
        }
        assert(s2.contains(s2[0]) && s1.contains(s2[0]));
        // the heads carry the minimal key of the shared member set
        assert(key(s1[0]) <= key(s2[0])) by {
            let i = choose|i: int| 0 <= i < s1.len() && s1[i] == s2[0];
            if i > 0 {
                assert(key(s1[0]) <= key(s1[i]));
            }
        }
        assert(key(s2[0]) <= key(s1[0])) by {
            let i = choose|i: int| 0 <= i < s2.len() && s2[i] == s1[0];
            if i > 0 {
                assert(key(s2[0]) <= key(s2[i]));
            }
        }
        assert(s1[0] == s2[0]) by {
            if s1[0] != s2[0] {
                assert(s1.contains(s1[0]) && s1.contains(s2[0]));
                assert(key(s1[0]) != key(s2[0]));
            }
        }
        let t1 = s1.drop_first();
        let t2 = s2.drop_first();
        assert forall|x: i64| t1.contains(x) <==> t2.contains(x) by {
            if t1.contains(x) {
                let i = choose|i: int| 0 <= i < t1.len() && t1[i] == x;
                assert(s1[i + 1] == x);
                assert(s1.contains(x));
                assert(x != s1[0]);
                assert(s2.contains(x));
                let j = choose|j: int| 0 <= j < s2.len() && s2[j] == x;
                assert(j != 0);
                assert(t2[j - 1] == x);
            }
            if t2.contains(x) {
                let i = choose|i: int| 0 <= i < t2.len() && t2[i] == x;
                assert(s2[i + 1] == x);
                assert(s2.contains(x));
                assert(x != s2[0]);
                assert(s1.contains(x));
                let j = choose|j: int| 0 <= j < s1.len() && s1[j] == x;
                assert(j != 0);
                assert(t1[j - 1] == x);
            }
        }
        assert forall|x: i64, y: i64|
            t1.contains(x) && t1.contains(y) && x != y implies key(x) != key(y) by {
            let i = choose|i: int| 0 <= i < t1.len() && t1[i] == x;
            let j = choose|j: int| 0 <= j < t1.len() && t1[j] == y;
            assert(s1[i + 1] == x && s1[j + 1] == y);
            assert(s1.contains(x) && s1.contains(y));
        }
        lemma_sorted_unique_eq(t1, t2, key);
        assert(s1.len() == s2.len());
        assert forall|i: int| 0 <= i < s1.len() implies s1[i] == s2[i] by {
            if i > 0 {
                assert(t1[i - 1] == s1[i]);
                assert(t2[i - 1] == s2[i]);
                assert(t1[i - 1] == t2[i - 1]);
            }
        }
        assert(s1 =~= s2);
    }
}

} // verus!
