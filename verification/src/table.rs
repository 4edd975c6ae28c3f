//! An in-memory relational table keyed by an `i64` primary key.
//!
//! Rows are kept in a vector of `(key, value)` pairs whose keys are unique;
//! the table's view is the finite map from keys to values. Every operation's
//! contract is stated over that map.

use vstd::prelude::*;

verus! {

/// A table with an `i64` primary key, the in-memory analogue of a relational
/// table. The key vector order carries no meaning; the view is a map.
pub struct Table<V> {
    pub rows: Vec<(i64, V)>,
}

impl<V> View for Table<V> {
    type V = Map<i64, V>;

    open spec fn view(&self) -> Map<i64, V> {
        Map::new(|k: i64| self.contains_spec(k), |k: i64| self.spec_get(k))
    }
}

impl<V> Table<V> {
    /// The primary-key property: no two rows share a key.
    pub open spec fn wf(self) -> bool {
        forall|i: int, j: int|
            0 <= i < j < self.rows@.len() ==> (#[trigger] self.rows@[i]).0 != (
            #[trigger] self.rows@[j]).0
    }

    pub open spec fn contains_spec(self, k: i64) -> bool {
        exists|i: int| 0 <= i < self.rows@.len() && (#[trigger] self.rows@[i]).0 == k
    }

    pub open spec fn index_of(self, k: i64) -> int {
        choose|i: int| 0 <= i < self.rows@.len() && (#[trigger] self.rows@[i]).0 == k
    }

    pub open spec fn spec_get(self, k: i64) -> V {
        self.rows@[self.index_of(k)].1
    }

    /// Ties a row position to the map view: the row at `i` is the one the
    /// view holds under its key.
    pub proof fn lemma_index(self, i: int)
        requires
            self.wf(),
            0 <= i < self.rows@.len(),
        ensures
            self@.contains_key(self.rows@[i].0),
            self@[self.rows@[i].0] == self.rows@[i].1,
            self.index_of(self.rows@[i].0) == i,
    {
        let k = self.rows@[i].0;
        assert(self.contains_spec(k));
        let j = self.index_of(k);
        assert(0 <= j < self.rows@.len() && self.rows@[j].0 == k);
        if i < j {
            assert(self.rows@[i].0 != self.rows@[j].0);
        } else if j < i {
            assert(self.rows@[j].0 != self.rows@[i].0);
        }
    }

    /// A key the view holds stands at the row `index_of` names.
    pub proof fn lemma_contains(self, k: i64)
        requires
            self@.contains_key(k),
        ensures
            0 <= self.index_of(k) < self.rows@.len(),
            self.rows@[self.index_of(k)].0 == k,
            self.rows@[self.index_of(k)].1 == self@[k],
    {
        assert(self.contains_spec(k));
    }

    pub fn new() -> (t: Table<V>)
        ensures
            t@ == Map::<i64, V>::empty(),
            t.wf(),
            t.rows@.len() == 0,
    {
        let t = Table { rows: Vec::new() };
        proof {
            assert(t@ =~= Map::<i64, V>::empty());
        }
        t
    }

    pub fn contains_key(&self, k: i64) -> (r: bool)
        ensures
            r == self@.contains_key(k),
    {
        let n = self.rows.len();
        let mut i: usize = 0;
        while i < n
            invariant
                n == self.rows@.len(),
                0 <= i <= n,
                forall|j: int| 0 <= j < i ==> (#[trigger] self.rows@[j]).0 != k,
            decreases n - i,
        {
            if self.rows[i].0 == k {
                return true;
            }
            i += 1;
        }
        false
    }

    pub fn get(&self, k: i64) -> (r: Option<&V>)
        requires
            self.wf(),
        ensures
            (match r {
                Some(v) => self@.contains_key(k) && *v == self@[k],
                None => !self@.contains_key(k),
            }),
    {
        let n = self.rows.len();
        let mut i: usize = 0;
        while i < n
            invariant
                self.wf(),
                n == self.rows@.len(),
                0 <= i <= n,
                forall|j: int| 0 <= j < i ==> (#[trigger] self.rows@[j]).0 != k,
            decreases n - i,
        {
            if self.rows[i].0 == k {
                proof {
                    self.lemma_index(i as int);
                }
                return Some(&self.rows[i].1);
            }
            i += 1;
        }
        None
    }

    /// Removes the row keyed `k`, if any, and hands its value back.
    pub fn remove(&mut self, k: i64) -> (r: Option<V>)
        requires
            old(self).wf(),
        ensures
            final(self).wf(),
            (match r {
                Some(v) => old(self)@.contains_key(k) && v == old(self)@[k],
                None => !old(self)@.contains_key(k) && *final(self) == *old(self),
            }),
            final(self)@ == old(self)@.remove(k),
            !final(self).contains_spec(k),
            final(self).rows@.len() <= old(self).rows@.len(),
    {
        let ghost pre = *self;
        let n = self.rows.len();
        let mut i: usize = 0;
        while i < n
            invariant
                self.wf(),
                *self == pre,
                n == self.rows@.len(),
                0 <= i <= n,
                forall|j: int| 0 <= j < i ==> (#[trigger] self.rows@[j]).0 != k,
            decreases n - i,
        {
            if self.rows[i].0 == k {
                proof {
                    self.lemma_index(i as int);
                }
                let pair = self.rows.remove(i);
                proof {
                    assert forall|p: int, q: int|
                        0 <= p < q < self.rows@.len() implies (#[trigger] self.rows@[p]).0 != (
                    #[trigger] self.rows@[q]).0 by {
                        let p0: int = if p < i as int { p } else { p + 1 };
                        let q0: int = if q < i as int { q } else { q + 1 };
                        assert(self.rows@[p] == pre.rows@[p0]);
                        assert(self.rows@[q] == pre.rows@[q0]);
                    }
                    assert forall|x: i64| x != k && pre.contains_spec(x) implies self.contains_spec(
                        x,
                    ) && self.spec_get(x) == pre.spec_get(x) by {
                        let j = pre.index_of(x);
                        pre.lemma_contains(x);
                        let j1: int = if j < i as int { j } else { j - 1 };
                        assert(self.rows@[j1] == pre.rows@[j]);
                        self.lemma_index(j1);
                    }
                    assert forall|x: i64| self.contains_spec(x) implies x != k
                        && pre.contains_spec(x) by {
                        let j1 = self.index_of(x);
                        self.lemma_contains(x);
                        let j0: int = if j1 < i as int { j1 } else { j1 + 1 };
                        assert(self.rows@[j1] == pre.rows@[j0]);
                        pre.lemma_index(j0);
                    }
                    assert(self@ =~= pre@.remove(k));
                }
                return Some(pair.1);
            }
            i += 1;
        }
        proof {
            assert(!pre.contains_spec(k));
            assert(self@ =~= pre@.remove(k));
        }
        None
    }

    /// Inserts a row under a key the table does not hold yet.
    pub fn insert_new(&mut self, k: i64, v: V)
        requires
            old(self).wf(),
            !old(self)@.contains_key(k),
        ensures
            final(self).wf(),
            final(self)@ == old(self)@.insert(k, v),
            final(self).rows@ == old(self).rows@.push((k, v)),
    {
        let ghost pre = *self;
        self.rows.push((k, v));
        proof {
            let n = pre.rows@.len() as int;
            assert forall|p: int, q: int|
                0 <= p < q < self.rows@.len() implies (#[trigger] self.rows@[p]).0 != (
            #[trigger] self.rows@[q]).0 by {
                if q < n {
                    assert(pre.rows@[p] == self.rows@[p]);
                    assert(pre.rows@[q] == self.rows@[q]);
                } else {
                    assert(self.rows@[q] == (k, v));
                    if pre.contains_spec(self.rows@[p].0) {
                    }
                    assert(pre.rows@[p] == self.rows@[p]);
                    assert(pre.contains_spec(self.rows@[p].0));
                }
            }
            assert forall|x: i64| x != k && pre.contains_spec(x) implies self.contains_spec(x)
                && self.spec_get(x) == pre.spec_get(x) by {
                let j = pre.index_of(x);
                pre.lemma_contains(x);
                assert(self.rows@[j] == pre.rows@[j]);
                self.lemma_index(j);
            }
            assert(self.rows@[n] == (k, v));
            self.lemma_index(n);
            assert forall|x: i64| self.contains_spec(x) implies x == k || pre.contains_spec(x) by {
                let j = self.index_of(x);
                self.lemma_contains(x);
                if j < n {
                    assert(self.rows@[j] == pre.rows@[j]);
                    pre.lemma_index(j);
                }
            }
            assert(self@ =~= pre@.insert(k, v));
        }
    }

    /// Inserts or replaces: the single-row-per-key upsert.
    pub fn upsert(&mut self, k: i64, v: V)
        requires
            old(self).wf(),
        ensures
            final(self).wf(),
            final(self)@ == old(self)@.insert(k, v),
    {
        let ghost pre = *self;
        self.remove(k);
        self.insert_new(k, v);
        proof {
            assert(self@ =~= pre@.insert(k, v));
        }
    }

    pub fn len(&self) -> (n: usize)
        ensures
            n == self.rows@.len(),
    {
        self.rows.len()
    }
}

/// What filtering a table's rows does to its map view: keys whose rows
/// satisfy the predicate survive with their values; the rest are gone.
pub proof fn lemma_filtered_view<V>(pre: Table<V>, post: Table<V>, p: spec_fn((i64, V)) -> bool)
    requires
        pre.wf(),
        post.rows@ == pre.rows@.filter(p),
    ensures
        post.wf(),
        forall|k: i64|
            #[trigger] post@.contains_key(k) <==> (pre@.contains_key(k) && p((k, pre@[k]))),
        forall|k: i64| #[trigger] post@.contains_key(k) ==> post@[k] == pre@[k],
{
    lemma_filter_elems(pre.rows@, p);
    lemma_filter_nodup(pre.rows@, p, |x: (i64, V), y: (i64, V)| x.0 == y.0);
    assert forall|i: int, j: int|
        0 <= i < j < post.rows@.len() implies (#[trigger] post.rows@[i]).0 != (
    #[trigger] post.rows@[j]).0 by {
        let same = |x: (i64, V), y: (i64, V)| x.0 == y.0;
        assert(!same(pre.rows@.filter(p)[i], pre.rows@.filter(p)[j]));
    }
    assert forall|k: i64| #[trigger] post@.contains_key(k) implies (pre@.contains_key(k) && p(
        (k, pre@[k]),
    )) && post@[k] == pre@[k] by {
        post.lemma_contains(k);
        let i = post.index_of(k);
        assert(p(post.rows@[i]) && pre.rows@.contains(post.rows@[i]));
        let j = choose|j: int| 0 <= j < pre.rows@.len() && pre.rows@[j] == post.rows@[i];
        pre.lemma_index(j);
    }
    assert forall|k: i64| pre@.contains_key(k) && p((k, pre@[k])) implies post@.contains_key(
        k,
    ) by {
        pre.lemma_contains(k);
        let j = pre.index_of(k);
        assert(pre.rows@[j] == (k, pre@[k]));
        assert(p(pre.rows@[j]));
        assert(pre.rows@.filter(p).contains(pre.rows@[j]));
        let i = choose|i: int|
            0 <= i < pre.rows@.filter(p).len() && pre.rows@.filter(p)[i] == pre.rows@[j];
        assert(post.rows@[i].0 == k);
    }
}

/// Filtering commutes with appending one element.
pub proof fn lemma_filter_push<A>(s: Seq<A>, x: A, p: spec_fn(A) -> bool)
    ensures
        s.push(x).filter(p) == (if p(x) {
            s.filter(p).push(x)
        } else {
            s.filter(p)
        }),
{
    reveal(Seq::filter);
    assert(s.push(x).drop_last() =~= s);
    assert(s.push(x).last() == x);
}

/// What a filtered sequence holds: exactly the elements of the original that
/// satisfy the predicate.
pub proof fn lemma_filter_elems<A>(s: Seq<A>, p: spec_fn(A) -> bool)
    ensures
        forall|i: int|
            0 <= i < s.filter(p).len() ==> p(#[trigger] s.filter(p)[i]) && s.contains(
                s.filter(p)[i],
            ),
        forall|j: int| 0 <= j < s.len() && p(#[trigger] s[j]) ==> s.filter(p).contains(s[j]),
    decreases s.len(),
{
    reveal(Seq::filter);
    if s.len() == 0 {
    } else {
        let t = s.drop_last();
        lemma_filter_elems(t, p);
        assert forall|i: int|
            0 <= i < s.filter(p).len() implies p(#[trigger] s.filter(p)[i]) && s.contains(
            s.filter(p)[i],
        ) by {
            if i < t.filter(p).len() {
                assert(s.filter(p)[i] == t.filter(p)[i]);
                let j = choose|j: int| 0 <= j < t.len() && t[j] == t.filter(p)[i];
                assert(s[j] == s.filter(p)[i]);
            } else {
                assert(s.filter(p)[i] == s.last());
                assert(s[s.len() - 1] == s.last());
            }
        }
        assert forall|j: int| 0 <= j < s.len() && p(#[trigger] s[j]) implies s.filter(p).contains(
            s[j],
        ) by {
            if j < s.len() - 1 {
                assert(t[j] == s[j]);
                assert(t.filter(p).contains(t[j]));
                let i = choose|i: int| 0 <= i < t.filter(p).len() && t.filter(p)[i] == t[j];
                assert(s.filter(p)[i] == s[j]);
            } else {
                assert(s[j] == s.last());
                assert(s.filter(p).last() == s.last());
            }
        }
    }
}

/// Filtering keeps rows pairwise distinct under any key reading: if no two
/// rows of the original share a key, no two rows of the filtered sequence do.
pub proof fn lemma_filter_nodup<A>(s: Seq<A>, p: spec_fn(A) -> bool, same: spec_fn(A, A) -> bool)
    requires
        forall|i: int, j: int| 0 <= i < j < s.len() ==> !same(#[trigger] s[i], #[trigger] s[j]),
        forall|x: A, y: A| #[trigger] same(x, y) ==> same(y, x),
    ensures
        forall|i: int, j: int|
            0 <= i < j < s.filter(p).len() ==> !same(
                #[trigger] s.filter(p)[i],
                #[trigger] s.filter(p)[j],
            ),
    decreases s.len(),
{
    reveal(Seq::filter);
    if s.len() == 0 {
    } else {
        let t = s.drop_last();
        lemma_filter_nodup(t, p, same);
        lemma_filter_elems(t, p);
        assert forall|i: int, j: int| 0 <= i < j < s.filter(p).len() implies !same(
            #[trigger] s.filter(p)[i],
            #[trigger] s.filter(p)[j],
        ) by {
            if j < t.filter(p).len() {
                assert(s.filter(p)[i] == t.filter(p)[i]);
                assert(s.filter(p)[j] == t.filter(p)[j]);
            } else {
                assert(s.filter(p)[j] == s.last());
                assert(s.filter(p)[i] == t.filter(p)[i]);
                let j0 = choose|j0: int| 0 <= j0 < t.len() && t[j0] == t.filter(p)[i];
                assert(s[j0] == s.filter(p)[i]);
                assert(!same(s[j0], s[s.len() - 1]));
            }
        }
    }
}

} // verus!
