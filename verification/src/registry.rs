//! Dense registry storage: contiguous identifier-indexed containers.
//!
//! A `Storage<V, I>` holds one value of type `V` for every identifier in
//! `[0, n)`; it is built once per content-reload cycle from a set of
//! `(Id<I>, V)` pairs and is read-only afterwards. Construction fails if the
//! identifiers are duplicated, leave a gap, or do not start at zero: such an
//! input indicates a content-authoring bug that must not silently produce
//! wrong gameplay data.
use vstd::prelude::*;

verus! {

/// A typed dense identifier: a zero-based index into the registry of
/// category `I`. The type parameter exists purely to prevent cross-category
/// identifier confusion; it has no runtime behaviour.
#[derive(Debug)]
pub struct Id<I> {
    key: u32,
    category: core::marker::PhantomData<I>,
}

impl<I> Id<I> {
    /// The index this identifier denotes, as a mathematical integer.
    pub closed spec fn idx(self) -> int {
        self.key as int
    }

    pub fn new(key: u32) -> (r: Id<I>)
        ensures
            r.idx() == key as int,
    {
        Id { key, category: core::marker::PhantomData }
    }

    /// The raw 32-bit index this identifier denotes.
    pub fn raw(&self) -> (r: u32)
        ensures
            r as int == self.idx(),
    {
        self.key
    }

    /// The index this identifier denotes.
    pub fn index(&self) -> (r: usize)
        ensures
            r as int == self.idx(),
            0 <= self.idx() <= u32::MAX,
    {
        self.key as usize
    }
}

impl<I> Clone for Id<I> {
    fn clone(&self) -> (r: Self)
        ensures
            r == *self,
    {
        Id { key: self.key, category: core::marker::PhantomData }
    }
}

impl<I> Copy for Id<I> {

}

/// Why a registry could not be built from a pair set.
#[derive(Clone, Copy, Debug, PartialEq, Eq, Structural)]
pub enum RegistryError {
    /// Some identifier occurred on two pairs.
    DuplicateId,
    /// Some identifier was skipped: an identifier lies at or beyond the pair
    /// count, or an inner identifier is missing.
    SkippedId,
    /// Identifier zero is missing, so the set does not start at zero.
    NonZeroStart,
}

/// The identifiers of a pair sequence, as mathematical integers.
pub open spec fn ids_of<V, I>(pairs: Seq<(Id<I>, V)>) -> Seq<int> {
    pairs.map_values(|p: (Id<I>, V)| p.0.idx())
}

/// Some identifier occurs on two distinct pairs.
pub open spec fn has_duplicate(ids: Seq<int>) -> bool {
    exists|i: int, j: int| 0 <= i < j < ids.len() && ids[i] == ids[j]
}

/// Every identifier lies below `n`.
pub open spec fn all_in_range(ids: Seq<int>, n: int) -> bool {
    forall|i: int| 0 <= i < ids.len() ==> 0 <= #[trigger] ids[i] < n
}

/// Every index below `n` occurs among the identifiers.
pub open spec fn all_present(ids: Seq<int>, n: int) -> bool {
    forall|k: int| 0 <= k < n ==> ids.contains(k)
}

/// The identifiers are exactly `{0, ..., n-1}`, each exactly once.
pub open spec fn contiguous(ids: Seq<int>, n: int) -> bool {
    &&& !has_duplicate(ids)
    &&& all_in_range(ids, n)
    &&& all_present(ids, n)
}

/// A `Storage` holds one value for every identifier in `[0, n)`, addressed
/// by `Id<I>` in O(1).
pub struct Storage<V, I> {
    values: Vec<V>,
    category: core::marker::PhantomData<I>,
}

impl<V, I> View for Storage<V, I> {
    type V = Seq<V>;

    closed spec fn view(&self) -> Seq<V> {
        self.values@
    }
}

impl<V, I> Storage<V, I> {
    /// Builds a storage from `(identifier, value)` pairs given in any order.
    ///
    /// Succeeds exactly when the identifiers are `{0, ..., n-1}` with no
    /// duplicate and no gap; the value registered under identifier `k` then
    /// sits at index `k`. Otherwise the offending condition is reported, so
    /// the reload can be aborted: a duplicated identifier first, then a
    /// missing identifier zero, then any other skipped identifier.
    #[verifier::rlimit(60)]
    pub fn from_pairs(pairs: Vec<(Id<I>, V)>) -> (r: Result<Storage<V, I>, RegistryError>)
        requires
            pairs@.len() <= u32::MAX,
        ensures
            r is Ok <==> contiguous(ids_of(pairs@), pairs@.len() as int),
            r matches Ok(s) ==> {
                &&& s@.len() == pairs@.len()
                &&& forall|j: int|
                    0 <= j < pairs@.len() ==> s@[#[trigger] pairs@[j].0.idx()] == pairs@[j].1
            },
            r matches Err(e) && e == RegistryError::DuplicateId <==> has_duplicate(ids_of(pairs@)),
            r matches Err(e) && e == RegistryError::NonZeroStart <==> !has_duplicate(
                ids_of(pairs@),
            ) && pairs@.len() > 0 && !ids_of(pairs@).contains(0),
            r matches Err(e) && e == RegistryError::SkippedId <==> !has_duplicate(ids_of(pairs@))
                && (pairs@.len() == 0 || ids_of(pairs@).contains(0)) && !contiguous(
                ids_of(pairs@),
                pairs@.len() as int,
            ),
    {
        let ghost all = pairs@;
        let ghost gids = ids_of(all);
        let n = pairs.len();

        let mut j: usize = 0;
        while j < n
            invariant
                n == all.len(),
                gids == ids_of(all),
                gids.len() == n,
                n == pairs@.len(),
                pairs@ == all,
                0 <= j <= n,
                !has_duplicate(gids.subrange(0, j as int)),
            decreases n - j,
        {
            let idx = pairs[j].0.index();
            let mut m: usize = 0;
            while m < j
                invariant
                    n == all.len(),
                    gids == ids_of(all),
                    pairs@ == all,
                    0 <= m <= j < n,
                    forall|q: int| 0 <= q < m ==> gids[q] != gids[j as int],
                decreases j - m,
            {
                if pairs[m].0.index() == idx {
                    proof {
                        assert(gids[m as int] == gids[j as int]);
                        assert(has_duplicate(gids));
                    }
                    return Err(RegistryError::DuplicateId);
                }
                m = m + 1;
            }
            proof {
                let next = gids.subrange(0, j + 1 as int);
                assert forall|a: int, b: int| 0 <= a < b < next.len() implies next[a] != next[
                b] by {
                    assert(next[a] == gids[a] && next[b] == gids[b]);
                    if b < j {
                        assert(!has_duplicate(gids.subrange(0, j as int)));
                        assert(gids.subrange(0, j as int)[a] == gids[a]);
                        assert(gids.subrange(0, j as int)[b] == gids[b]);
                    }
                }
            }
            j = j + 1;
        }
        proof {
            assert(gids.subrange(0, n as int) =~= gids);
            assert(!has_duplicate(gids));
        }

        if n > 0 {
            let mut j: usize = 0;
            let mut found_zero = false;
            while j < n
                invariant
                    n == all.len(),
                    gids == ids_of(all),
                    pairs@ == all,
                    0 <= j <= n,
                    found_zero ==> gids.contains(0),
                    !found_zero ==> forall|q: int| 0 <= q < j ==> gids[q] != 0,
                decreases n - j,
            {
                if pairs[j].0.index() == 0 {
                    found_zero = true;
                    proof {
                        assert(gids[j as int] == 0);
                    }
                }
                j = j + 1;
            }
            if !found_zero {
                proof {
                    if gids.contains(0) {
                        let q = choose|q: int| 0 <= q < gids.len() && gids[q] == 0;
                        assert(gids[q] != 0);
                    }
                    assert(!all_present(gids, n as int));
                }
                return Err(RegistryError::NonZeroStart);
            }
        }

        let mut slots: Vec<Option<V>> = Vec::new();
        let mut k: usize = 0;
        while k < n
            invariant
                slots@.len() == k <= n,
                forall|m: int| 0 <= m < k ==> slots@[m] is None,
            decreases n - k,
        {
            slots.push(None);
            k = k + 1;
        }

        let mut work = pairs;
        let mut j: usize = 0;
        while j < n
            invariant
                n == all.len(),
                gids == ids_of(all),
                gids.len() == n,
                work@ == all.subrange(j as int, n as int),
                slots@.len() == n,
                0 <= j <= n,
                !has_duplicate(gids),
                forall|m: int|
                    0 <= m < n ==> (slots@[m] is Some <==> gids.subrange(0, j as int).contains(m)),
                forall|p: int|
                    0 <= p < j && 0 <= #[trigger] gids[p] < n ==> slots@[gids[p]] == Some(all[p].1),
                all_in_range(gids.subrange(0, j as int), n as int),
            decreases n - j,
        {
            let ghost prefix = gids.subrange(0, j as int);
            let pair = work.remove(0);
            proof {
                assert(pair == all[j as int]);
                assert(all.subrange(j as int, n as int).remove(0) =~= all.subrange(
                    j + 1 as int,
                    n as int,
                ));
                assert(pair.0.idx() == gids[j as int]);
            }
            let idx = pair.0.index();
            if idx >= n {
                proof {
                    assert(gids[j as int] >= n);
                    assert(!all_in_range(gids, n as int));
                }
                return Err(RegistryError::SkippedId);
            }
            proof {
                assert(!prefix.contains(idx as int)) by {
                    if prefix.contains(idx as int) {
                        let p = choose|p: int| 0 <= p < prefix.len() && prefix[p] == idx as int;
                        assert(gids[p] == gids[j as int]);
                        assert(has_duplicate(gids));
                    }
                }
            }
            let ghost pre = slots@;
            slots[idx] = Some(pair.1);
            proof {
                assert(slots@ == pre.update(idx as int, Some(pair.1)));
                let next = gids.subrange(0, j + 1 as int);
                assert forall|m: int| 0 <= m < n implies (slots@[m] is Some <==> next.contains(
                    m,
                )) by {
                    if slots@[m] is Some {
                        if m == idx as int {
                            assert(next[j as int] == m);
                        } else {
                            assert(pre[m] is Some);
                            assert(prefix.contains(m));
                            let p = choose|p: int| 0 <= p < prefix.len() && prefix[p] == m;
                            assert(next[p] == m);
                        }
                    } else {
                        if next.contains(m) {
                            let p = choose|p: int| 0 <= p < next.len() && next[p] == m;
                            if p < j {
                                assert(prefix[p] == m);
                                assert(pre[m] is Some);
                            } else {
                                assert(m == idx as int);
                            }
                        }
                    }
                }
                assert forall|i: int| 0 <= i < next.len() implies 0 <= #[trigger] next[i]
                    < n by {
                    if i < j {
                        assert(prefix[i] == next[i]);
                    }
                }
            }
            j = j + 1;
        }
        proof {
            assert(gids.subrange(0, n as int) =~= gids);
        }

        let ghost full = slots@;
        let mut values: Vec<V> = Vec::new();
        let mut slots = slots;
        let mut k: usize = 0;
        while k < n
            invariant
                n == all.len(),
                gids == ids_of(all),
                gids.len() == n,
                full.len() == n,
                slots@ == full.subrange(k as int, n as int),
                values@.len() == k <= n,
                forall|m: int| 0 <= m < k ==> full[m] is Some,
                forall|m: int| 0 <= m < n ==> (full[m] is Some <==> gids.contains(m)),
                forall|p: int|
                    0 <= p < n && 0 <= #[trigger] gids[p] < n ==> full[gids[p]] == Some(all[p].1),
                forall|p: int|
                    0 <= p < n && 0 <= #[trigger] gids[p] < k ==> values@[gids[p]] == all[p].1,
                !has_duplicate(gids),
                all_in_range(gids, n as int),
            decreases n - k,
        {
            let slot = slots.remove(0);
            proof {
                assert(slot == full[k as int]);
                assert(full.subrange(k as int, n as int).remove(0) =~= full.subrange(
                    k + 1 as int,
                    n as int,
                ));
            }
            match slot {
                Some(v) => {
                    proof {
                        assert(gids.contains(k as int));
                        let p = choose|p: int| 0 <= p < gids.len() && gids[p] == k as int;
                        assert(full[gids[p]] == Some(all[p].1));
                        assert(v == all[p].1);
                        assert forall|p2: int|
                            0 <= p2 < n && 0 <= #[trigger] gids[p2] < k + 1 implies values@.push(
                            v,
                        )[gids[p2]] == all[p2].1 by {
                            if gids[p2] == k as int {
                                if p2 != p {
                                    assert(has_duplicate(gids));
                                }
                            }
                        }
                    }
                    values.push(v);
                },
                None => {
                    proof {
                        assert(!gids.contains(k as int));
                        assert(!all_present(gids, n as int));
                    }
                    return Err(RegistryError::SkippedId);
                },
            }
            k = k + 1;
        }
        proof {
            assert(all_present(gids, n as int)) by {
                assert forall|m: int| 0 <= m < n implies gids.contains(m) by {
                    assert(full[m] is Some <==> gids.contains(m));
                }
            }
            assert forall|j: int| 0 <= j < n implies values@[#[trigger] all[j].0.idx()]
                == all[j].1 by {
                assert(gids[j] == all[j].0.idx());
            }
        }
        Ok(Storage { values, category: core::marker::PhantomData })
    }


    /// The number of registered values.
    pub fn len(&self) -> (r: usize)
        ensures
            r == self@.len(),
    {
        self.values.len()
    }

    /// O(1) lookup, assumed pre-validated: an out-of-range identifier is a
    /// programmer error, not a recoverable condition.
    pub fn get(&self, id: Id<I>) -> (r: &V)
        requires
            0 <= id.idx() < self@.len(),
        ensures
            *r == self@[id.idx()],
    {
        &self.values[id.index()]
    }

    /// A cursor over the registered values in ascending identifier order.
    pub fn iter(&self) -> (r: StorageIter<'_, V, I>)
        requires
            self@.len() <= u32::MAX,
        ensures
            r.values() == self@,
            r.at() == 0,
            r.wf(),
    {
        StorageIter { values: &self.values, id: 0, category: core::marker::PhantomData }
    }
}

impl<V: Copy, I> Storage<V, I> {
    /// A copy of the storage; the values are `Copy`, so the copy holds
    /// exactly the same values.
    pub fn duplicate(&self) -> (r: Self)
        ensures
            r@ == self@,
    {
        let n = self.values.len();
        let mut values: Vec<V> = Vec::new();
        let mut i: usize = 0;
        while i < n
            invariant
                n == self.values@.len(),
                values@.len() == i <= n,
                forall|m: int| 0 <= m < i ==> values@[m] == self.values@[m],
            decreases n - i,
        {
            values.push(self.values[i]);
            i = i + 1;
        }
        proof {
            assert(values@ =~= self.values@);
        }
        Storage { values, category: core::marker::PhantomData }
    }
}

/// Yields `(Id<I>, &V)` pairs in ascending identifier order, deterministically.
pub struct StorageIter<'a, V, I> {
    values: &'a Vec<V>,
    id: u32,
    category: core::marker::PhantomData<I>,
}

impl<'a, V, I> StorageIter<'a, V, I> {
    /// The values the cursor walks.
    pub closed spec fn values(&self) -> Seq<V> {
        self.values@
    }

    /// How many pairs were yielded so far.
    pub closed spec fn at(&self) -> int {
        self.id as int
    }

    /// The cursor never leaves the identifier range.
    pub closed spec fn wf(&self) -> bool {
        self.values@.len() <= u32::MAX && self.id <= self.values@.len()
    }

    /// The next pair in ascending identifier order, if any remains.
    pub fn next(&mut self) -> (r: Option<(Id<I>, &'a V)>)
        requires
            old(self).wf(),
        ensures
            final(self).wf(),
            final(self).values() == old(self).values(),
            old(self).at() < old(self).values().len() ==> {
                &&& final(self).at() == old(self).at() + 1
                &&& r matches Some(p) && p.0.idx() == old(self).at() && *p.1 == old(
                    self,
                ).values()[old(self).at()]
            },
            old(self).at() >= old(self).values().len() ==> r is None && final(self).at() == old(
                self,
            ).at(),
    {
        if (self.id as usize) < self.values.len() {
            let out = (Id::new(self.id), &self.values[self.id as usize]);
            self.id = self.id + 1;
            Some(out)
        } else {
            None
        }
    }
}

} // verus!
