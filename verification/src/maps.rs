//! Small executable maps backed by key-unique vectors of pairs.
//!
//! The analyzer needs maps from temporaries to node labels, from global
//! resources to node labels, and label-renaming maps built during joins.
//! Each is a vector of pairs without duplicate keys, viewed as a
//! mathematical `Map`.  Iteration order is the insertion order, which keeps
//! the analysis deterministic.

use vstd::prelude::*;

verus! {

broadcast use vstd::seq_lib::seq_to_set_is_finite;

/// The keys of a pair sequence, in order.
pub open spec fn temp_key_seq(s: Seq<(usize, u64)>) -> Seq<usize> {
    s.map_values(|p: (usize, u64)| p.0)
}

/// The map that a pair sequence denotes; a later pair with the same key
/// would win, but well-formed maps have no duplicate keys.
pub open spec fn temp_assoc_view(s: Seq<(usize, u64)>) -> Map<usize, u64>
    decreases s.len(),
{
    if s.len() == 0 {
        Map::empty()
    } else {
        temp_assoc_view(s.drop_last()).insert(s.last().0, s.last().1)
    }
}

/// Characterization of the view of a key-unique pair sequence: the domain is
/// the set of keys and every pair is in the map.
pub proof fn lemma_temp_assoc_props(s: Seq<(usize, u64)>)
    requires
        temp_key_seq(s).no_duplicates(),
    ensures
        temp_assoc_view(s).dom() =~= temp_key_seq(s).to_set(),
        forall|i: int| 0 <= i < s.len() ==> temp_assoc_view(s)[s[i].0] == s[i].1,
        temp_assoc_view(s).dom().finite(),
    decreases s.len(),
{
    if s.len() > 0 {
        let rest = s.drop_last();
        assert(temp_key_seq(rest) =~= temp_key_seq(s).drop_last());
        assert(temp_key_seq(rest).no_duplicates());
        lemma_temp_assoc_props(rest);
        let k = s.last().0;
        assert(!temp_key_seq(rest).contains(k)) by {
            if temp_key_seq(rest).contains(k) {
                let j = choose|j: int|
                    0 <= j < temp_key_seq(rest).len() && temp_key_seq(rest)[j] == k;
                assert(temp_key_seq(s)[j] == k);
                assert(temp_key_seq(s)[s.len() - 1] == k);
            }
        }
        assert(temp_assoc_view(s).dom() =~= temp_key_seq(s).to_set()) by {
            assert(temp_key_seq(s) =~= temp_key_seq(rest).push(k));
            broadcast use vstd::prelude::Seq::lemma_push_to_set_commute;

        }
        assert forall|i: int| 0 <= i < s.len() implies temp_assoc_view(s)[s[i].0] == s[i].1 by {
            if i < s.len() - 1 {
                assert(temp_key_seq(s)[i] == s[i].0);
                assert(temp_key_seq(s)[s.len() - 1] == k);
                assert(s[i].0 != k);
                assert(rest[i] == s[i]);
            }
        }
    }
}

/// A map from temporaries to node labels.
pub struct TempMap {
    items: Vec<(usize, u64)>,
}

impl View for TempMap {
    type V = Map<usize, u64>;

    closed spec fn view(&self) -> Map<usize, u64> {
        temp_assoc_view(self.items@)
    }
}

impl TempMap {
    /// Well-formed: no duplicate keys.
    pub closed spec fn wf(self) -> bool {
        temp_key_seq(self.items@).no_duplicates()
    }

    /// The domain of a well-formed map is finite.
    pub proof fn lemma_finite(&self)
        requires
            self.wf(),
        ensures
            self@.dom().finite(),
    {
        lemma_temp_assoc_props(self.items@);
    }

    /// The empty map.
    pub fn new() -> (r: Self)
        ensures
            r.wf(),
            r@ == Map::<usize, u64>::empty(),
    {
        let r = TempMap { items: Vec::new() };
        proof {
            assert(r@ =~= Map::<usize, u64>::empty());
        }
        r
    }

    /// Whether `k` is in the domain.
    pub fn contains_key(&self, k: usize) -> (r: bool)
        requires
            self.wf(),
        ensures
            r == self@.dom().contains(k),
    {
        proof {
            lemma_temp_assoc_props(self.items@);
        }
        let mut i: usize = 0;
        while i < self.items.len()
            invariant
                i <= self.items.len(),
                self.wf(),
                forall|j: int| 0 <= j < i ==> (#[trigger] self.items@[j]).0 != k,
            decreases self.items.len() - i,
        {
            if self.items[i].0 == k {
                proof {
                    lemma_temp_assoc_props(self.items@);
                    assert(temp_key_seq(self.items@)[i as int] == k);
                    assert(temp_key_seq(self.items@).contains(k));
                }
                return true;
            }
            i += 1;
        }
        proof {
            assert(!temp_key_seq(self.items@).contains(k)) by {
                if temp_key_seq(self.items@).contains(k) {
                    let j = choose|j: int|
                        0 <= j < self.items@.len() && temp_key_seq(self.items@)[j] == k;
                    assert(self.items@[j].0 == k);
                }
            }
        }
        false
    }

    /// The label bound to `k`, if any.
    pub fn get(&self, k: usize) -> (r: Option<u64>)
        requires
            self.wf(),
        ensures
            r == if self@.dom().contains(k) {
                Some(self@[k])
            } else {
                None::<u64>
            },
    {
        proof {
            lemma_temp_assoc_props(self.items@);
        }
        let mut i: usize = 0;
        while i < self.items.len()
            invariant
                i <= self.items.len(),
                self.wf(),
                forall|j: int| 0 <= j < i ==> (#[trigger] self.items@[j]).0 != k,
            decreases self.items.len() - i,
        {
            if self.items[i].0 == k {
                proof {
                    lemma_temp_assoc_props(self.items@);
                    assert(temp_key_seq(self.items@)[i as int] == k);
                    assert(temp_key_seq(self.items@).contains(k));
                    assert(self@[self.items@[i as int].0] == self.items@[i as int].1);
                }
                return Some(self.items[i].1);
            }
            i += 1;
        }
        proof {
            assert(!temp_key_seq(self.items@).contains(k)) by {
                if temp_key_seq(self.items@).contains(k) {
                    let j = choose|j: int|
                        0 <= j < self.items@.len() && temp_key_seq(self.items@)[j] == k;
                    assert(self.items@[j].0 == k);
                }
            }
        }
        None
    }

    /// Removes the binding of `k`, if any.
    pub fn remove(&mut self, k: usize)
        requires
            old(self).wf(),
        ensures
            final(self).wf(),
            final(self)@ == old(self)@.remove(k),
    {
        proof {
            lemma_temp_assoc_props(self.items@);
        }
        let mut items: Vec<(usize, u64)> = Vec::new();
        let mut i: usize = 0;
        while i < self.items.len()
            invariant
                i <= self.items.len(),
                temp_key_seq(self.items@).no_duplicates(),
                temp_key_seq(items@).no_duplicates(),
                forall|p: (usize, u64)| #[trigger]
                    items@.contains(p) <==> (self.items@.take(i as int).contains(p) && p.0 != k),
            decreases self.items.len() - i,
        {
            let p = self.items[i];
            if p.0 != k {
                proof {
                    assert(!temp_key_seq(items@).contains(p.0)) by {
                        if temp_key_seq(items@).contains(p.0) {
                            let j = choose|j: int|
                                0 <= j < items@.len() && temp_key_seq(items@)[j] == p.0;
                            let q = items@[j];
                            assert(items@.contains(q));
                            assert(self.items@.take(i as int).contains(q));
                            let j2 = choose|j2: int|
                                0 <= j2 < i && self.items@.take(i as int)[j2] == q;
                            assert(self.items@[j2] == q);
                            assert(temp_key_seq(self.items@)[j2] == p.0);
                            assert(temp_key_seq(self.items@)[i as int] == p.0);
                        }
                    }
                    assert(temp_key_seq(items@.push(p)) =~= temp_key_seq(items@).push(p.0));
                }
                items.push(p);
            }
            proof {
                broadcast use vstd::seq_lib::lemma_seq_contains_after_push;

                assert(self.items@.take(i + 1) =~= self.items@.take(i as int).push(p));
            }
            i += 1;
        }
        proof {
            assert(self.items@.take(self.items@.len() as int) =~= self.items@);
            lemma_temp_assoc_props(items@);
            assert(temp_assoc_view(items@) =~= old(self)@.remove(k)) by {
                assert forall|k2: usize| temp_assoc_view(items@).dom().contains(
                    k2,
                ) implies old(self)@.remove(k).dom().contains(k2) && temp_assoc_view(items@)[k2]
                    == old(self)@[k2] by {
                    let j = choose|j: int| 0 <= j < items@.len() && temp_key_seq(items@)[j] == k2;
                    let p = items@[j];
                    assert(items@.contains(p));
                    assert(self.items@.contains(p));
                    let j2 = choose|j2: int|
                        0 <= j2 < self.items@.len() && self.items@[j2] == p;
                    assert(temp_key_seq(self.items@)[j2] == k2);
                    assert(temp_assoc_view(items@)[k2] == p.1);
                    assert(old(self)@[k2] == p.1);
                }
                assert forall|k2: usize| old(self)@.remove(k).dom().contains(
                    k2,
                ) implies temp_assoc_view(items@).dom().contains(k2) by {
                    let j = choose|j: int|
                        0 <= j < self.items@.len() && temp_key_seq(self.items@)[j] == k2;
                    let p = self.items@[j];
                    assert(self.items@.contains(p));
                    assert(items@.contains(p));
                    let j2 = choose|j2: int| 0 <= j2 < items@.len() && items@[j2] == p;
                    assert(temp_key_seq(items@)[j2] == k2);
                }
            }
        }
        self.items = items;
    }

    /// Binds `k` to `v`, replacing any previous binding.
    pub fn insert(&mut self, k: usize, v: u64)
        requires
            old(self).wf(),
        ensures
            final(self).wf(),
            final(self)@ == old(self)@.insert(k, v),
    {
        self.remove(k);
        proof {
            lemma_temp_assoc_props(self.items@);
            assert(!temp_key_seq(self.items@).contains(k)) by {
                if temp_key_seq(self.items@).contains(k) {
                    let j = choose|j: int|
                        0 <= j < self.items@.len() && temp_key_seq(self.items@)[j] == k;
                    assert(self.items@[j].0 == k);
                    assert(self@.dom().contains(k));
                }
            }
            assert(temp_key_seq(self.items@.push((k, v))) =~= temp_key_seq(self.items@).push(k));
        }
        let ghost pre = self.items@;
        self.items.push((k, v));
        proof {
            assert(self.items@.drop_last() =~= pre);
            assert(temp_assoc_view(self.items@) =~= old(self)@.insert(k, v));
        }
    }

    /// Read access to the bindings: key-unique pairs agreeing with the view.
    pub fn elems(&self) -> (r: &Vec<(usize, u64)>)
        requires
            self.wf(),
        ensures
            temp_key_seq(r@).no_duplicates(),
            temp_key_seq(r@).to_set() == self@.dom(),
            forall|i: int| 0 <= i < r@.len() ==> self@.dom().contains(#[trigger] r@[i].0)
                && self@[r@[i].0] == r@[i].1,
    {
        proof {
            lemma_temp_assoc_props(self.items@);
            assert forall|i: int| 0 <= i < self.items@.len() implies self@.dom().contains(
                #[trigger] self.items@[i].0,
            ) && self@[self.items@[i].0] == self.items@[i].1 by {
                assert(temp_key_seq(self.items@)[i] == self.items@[i].0);
            }
        }
        &self.items
    }

    /// The number of bindings.
    pub fn len(&self) -> (r: usize)
        requires
            self.wf(),
        ensures
            r == self@.dom().len(),
    {
        proof {
            lemma_temp_assoc_props(self.items@);
            temp_key_seq(self.items@).unique_seq_to_set();
        }
        self.items.len()
    }

    /// Whether the map is empty.
    pub fn is_empty(&self) -> (r: bool)
        requires
            self.wf(),
        ensures
            r == self@.dom().is_empty(),
    {
        proof {
            lemma_temp_assoc_props(self.items@);
            temp_key_seq(self.items@).unique_seq_to_set();
            if self.items@.len() == 0 {
                assert(self@.dom() =~= Set::<usize>::empty());
            }
        }
        self.items.len() == 0
    }

    /// An owned copy of the keys.
    pub fn keys_vec(&self) -> (r: Vec<usize>)
        requires
            self.wf(),
        ensures
            r@.no_duplicates(),
            r@.to_set() == self@.dom(),
    {
        proof {
            lemma_temp_assoc_props(self.items@);
        }
        let mut r: Vec<usize> = Vec::new();
        let mut i: usize = 0;
        while i < self.items.len()
            invariant
                i <= self.items.len(),
                self.wf(),
                r@ =~= temp_key_seq(self.items@).take(i as int),
            decreases self.items.len() - i,
        {
            r.push(self.items[i].0);
            proof {
                assert(temp_key_seq(self.items@).take(i + 1) =~= temp_key_seq(
                    self.items@,
                ).take(i as int).push(self.items@[i as int].0));
            }
            i += 1;
        }
        proof {
            lemma_temp_assoc_props(self.items@);
            assert(temp_key_seq(self.items@).take(self.items@.len() as int) =~= temp_key_seq(
                self.items@,
            ));
            assert(r@.no_duplicates()) by {
                assert(r@ =~= temp_key_seq(self.items@));
            }
        }
        r
    }

}

/// The keys of a pair sequence, in order.
pub open spec fn label_key_seq(s: Seq<(u64, u64)>) -> Seq<u64> {
    s.map_values(|p: (u64, u64)| p.0)
}

/// The map that a pair sequence denotes; a later pair with the same key
/// would win, but well-formed maps have no duplicate keys.
pub open spec fn label_assoc_view(s: Seq<(u64, u64)>) -> Map<u64, u64>
    decreases s.len(),
{
    if s.len() == 0 {
        Map::empty()
    } else {
        label_assoc_view(s.drop_last()).insert(s.last().0, s.last().1)
    }
}

/// Characterization of the view of a key-unique pair sequence: the domain is
/// the set of keys and every pair is in the map.
pub proof fn lemma_label_assoc_props(s: Seq<(u64, u64)>)
    requires
        label_key_seq(s).no_duplicates(),
    ensures
        label_assoc_view(s).dom() =~= label_key_seq(s).to_set(),
        forall|i: int| 0 <= i < s.len() ==> label_assoc_view(s)[s[i].0] == s[i].1,
        label_assoc_view(s).dom().finite(),
    decreases s.len(),
{
    if s.len() > 0 {
        let rest = s.drop_last();
        assert(label_key_seq(rest) =~= label_key_seq(s).drop_last());
        assert(label_key_seq(rest).no_duplicates());
        lemma_label_assoc_props(rest);
        let k = s.last().0;
        assert(!label_key_seq(rest).contains(k)) by {
            if label_key_seq(rest).contains(k) {
                let j = choose|j: int|
                    0 <= j < label_key_seq(rest).len() && label_key_seq(rest)[j] == k;
                assert(label_key_seq(s)[j] == k);
                assert(label_key_seq(s)[s.len() - 1] == k);
            }
        }
        assert(label_assoc_view(s).dom() =~= label_key_seq(s).to_set()) by {
            assert(label_key_seq(s) =~= label_key_seq(rest).push(k));
            broadcast use vstd::prelude::Seq::lemma_push_to_set_commute;

        }
        assert forall|i: int| 0 <= i < s.len() implies label_assoc_view(s)[s[i].0] == s[i].1 by {
            if i < s.len() - 1 {
                assert(label_key_seq(s)[i] == s[i].0);
                assert(label_key_seq(s)[s.len() - 1] == k);
                assert(s[i].0 != k);
                assert(rest[i] == s[i]);
            }
        }
    }
}

/// A map from one set of 64-bit identifiers to node labels: used for the
/// global-resource map and for label renamings during joins.
pub struct LabelMap {
    items: Vec<(u64, u64)>,
}

impl View for LabelMap {
    type V = Map<u64, u64>;

    closed spec fn view(&self) -> Map<u64, u64> {
        label_assoc_view(self.items@)
    }
}

impl LabelMap {
    /// Well-formed: no duplicate keys.
    pub closed spec fn wf(self) -> bool {
        label_key_seq(self.items@).no_duplicates()
    }

    /// The domain of a well-formed map is finite.
    pub proof fn lemma_finite(&self)
        requires
            self.wf(),
        ensures
            self@.dom().finite(),
    {
        lemma_label_assoc_props(self.items@);
    }

    /// The empty map.
    pub fn new() -> (r: Self)
        ensures
            r.wf(),
            r@ == Map::<u64, u64>::empty(),
    {
        let r = LabelMap { items: Vec::new() };
        proof {
            assert(r@ =~= Map::<u64, u64>::empty());
        }
        r
    }

    /// Whether `k` is in the domain.
    pub fn contains_key(&self, k: u64) -> (r: bool)
        requires
            self.wf(),
        ensures
            r == self@.dom().contains(k),
    {
        proof {
            lemma_label_assoc_props(self.items@);
        }
        let mut i: usize = 0;
        while i < self.items.len()
            invariant
                i <= self.items.len(),
                self.wf(),
                forall|j: int| 0 <= j < i ==> (#[trigger] self.items@[j]).0 != k,
            decreases self.items.len() - i,
        {
            if self.items[i].0 == k {
                proof {
                    lemma_label_assoc_props(self.items@);
                    assert(label_key_seq(self.items@)[i as int] == k);
                    assert(label_key_seq(self.items@).contains(k));
                }
                return true;
            }
            i += 1;
        }
        proof {
            assert(!label_key_seq(self.items@).contains(k)) by {
                if label_key_seq(self.items@).contains(k) {
                    let j = choose|j: int|
                        0 <= j < self.items@.len() && label_key_seq(self.items@)[j] == k;
                    assert(self.items@[j].0 == k);
                }
            }
        }
        false
    }

    /// The label bound to `k`, if any.
    pub fn get(&self, k: u64) -> (r: Option<u64>)
        requires
            self.wf(),
        ensures
            r == if self@.dom().contains(k) {
                Some(self@[k])
            } else {
                None::<u64>
            },
    {
        proof {
            lemma_label_assoc_props(self.items@);
        }
        let mut i: usize = 0;
        while i < self.items.len()
            invariant
                i <= self.items.len(),
                self.wf(),
                forall|j: int| 0 <= j < i ==> (#[trigger] self.items@[j]).0 != k,
            decreases self.items.len() - i,
        {
            if self.items[i].0 == k {
                proof {
                    lemma_label_assoc_props(self.items@);
                    assert(label_key_seq(self.items@)[i as int] == k);
                    assert(label_key_seq(self.items@).contains(k));
                    assert(self@[self.items@[i as int].0] == self.items@[i as int].1);
                }
                return Some(self.items[i].1);
            }
            i += 1;
        }
        proof {
            assert(!label_key_seq(self.items@).contains(k)) by {
                if label_key_seq(self.items@).contains(k) {
                    let j = choose|j: int|
                        0 <= j < self.items@.len() && label_key_seq(self.items@)[j] == k;
                    assert(self.items@[j].0 == k);
                }
            }
        }
        None
    }

    /// Removes the binding of `k`, if any.
    pub fn remove(&mut self, k: u64)
        requires
            old(self).wf(),
        ensures
            final(self).wf(),
            final(self)@ == old(self)@.remove(k),
    {
        proof {
            lemma_label_assoc_props(self.items@);
        }
        let mut items: Vec<(u64, u64)> = Vec::new();
        let mut i: usize = 0;
        while i < self.items.len()
            invariant
                i <= self.items.len(),
                label_key_seq(self.items@).no_duplicates(),
                label_key_seq(items@).no_duplicates(),
                forall|p: (u64, u64)| #[trigger]
                    items@.contains(p) <==> (self.items@.take(i as int).contains(p) && p.0 != k),
            decreases self.items.len() - i,
        {
            let p = self.items[i];
            if p.0 != k {
                proof {
                    assert(!label_key_seq(items@).contains(p.0)) by {
                        if label_key_seq(items@).contains(p.0) {
                            let j = choose|j: int|
                                0 <= j < items@.len() && label_key_seq(items@)[j] == p.0;
                            let q = items@[j];
                            assert(items@.contains(q));
                            assert(self.items@.take(i as int).contains(q));
                            let j2 = choose|j2: int|
                                0 <= j2 < i && self.items@.take(i as int)[j2] == q;
                            assert(self.items@[j2] == q);
                            assert(label_key_seq(self.items@)[j2] == p.0);
                            assert(label_key_seq(self.items@)[i as int] == p.0);
                        }
                    }
                    assert(label_key_seq(items@.push(p)) =~= label_key_seq(items@).push(p.0));
                }
                items.push(p);
            }
            proof {
                broadcast use vstd::seq_lib::lemma_seq_contains_after_push;

                assert(self.items@.take(i + 1) =~= self.items@.take(i as int).push(p));
            }
            i += 1;
        }
        proof {
            assert(self.items@.take(self.items@.len() as int) =~= self.items@);
            lemma_label_assoc_props(items@);
            assert(label_assoc_view(items@) =~= old(self)@.remove(k)) by {
                assert forall|k2: u64| label_assoc_view(items@).dom().contains(
                    k2,
                ) implies old(self)@.remove(k).dom().contains(k2) && label_assoc_view(items@)[k2]
                    == old(self)@[k2] by {
                    let j = choose|j: int| 0 <= j < items@.len() && label_key_seq(items@)[j] == k2;
                    let p = items@[j];
                    assert(items@.contains(p));
                    assert(self.items@.contains(p));
                    let j2 = choose|j2: int|
                        0 <= j2 < self.items@.len() && self.items@[j2] == p;
                    assert(label_key_seq(self.items@)[j2] == k2);
                    assert(label_assoc_view(items@)[k2] == p.1);
                    assert(old(self)@[k2] == p.1);
                }
                assert forall|k2: u64| old(self)@.remove(k).dom().contains(
                    k2,
                ) implies label_assoc_view(items@).dom().contains(k2) by {
                    let j = choose|j: int|
                        0 <= j < self.items@.len() && label_key_seq(self.items@)[j] == k2;
                    let p = self.items@[j];
                    assert(self.items@.contains(p));
                    assert(items@.contains(p));
                    let j2 = choose|j2: int| 0 <= j2 < items@.len() && items@[j2] == p;
                    assert(label_key_seq(items@)[j2] == k2);
                }
            }
        }
        self.items = items;
    }

    /// Binds `k` to `v`, replacing any previous binding.
    pub fn insert(&mut self, k: u64, v: u64)
        requires
            old(self).wf(),
        ensures
            final(self).wf(),
            final(self)@ == old(self)@.insert(k, v),
    {
        self.remove(k);
        proof {
            lemma_label_assoc_props(self.items@);
            assert(!label_key_seq(self.items@).contains(k)) by {
                if label_key_seq(self.items@).contains(k) {
                    let j = choose|j: int|
                        0 <= j < self.items@.len() && label_key_seq(self.items@)[j] == k;
                    assert(self.items@[j].0 == k);
                    assert(self@.dom().contains(k));
                }
            }
            assert(label_key_seq(self.items@.push((k, v))) =~= label_key_seq(self.items@).push(k));
        }
        let ghost pre = self.items@;
        self.items.push((k, v));
        proof {
            assert(self.items@.drop_last() =~= pre);
            assert(label_assoc_view(self.items@) =~= old(self)@.insert(k, v));
        }
    }

    /// Read access to the bindings: key-unique pairs agreeing with the view.
    pub fn elems(&self) -> (r: &Vec<(u64, u64)>)
        requires
            self.wf(),
        ensures
            label_key_seq(r@).no_duplicates(),
            label_key_seq(r@).to_set() == self@.dom(),
            forall|i: int| 0 <= i < r@.len() ==> self@.dom().contains(#[trigger] r@[i].0)
                && self@[r@[i].0] == r@[i].1,
    {
        proof {
            lemma_label_assoc_props(self.items@);
            assert forall|i: int| 0 <= i < self.items@.len() implies self@.dom().contains(
                #[trigger] self.items@[i].0,
            ) && self@[self.items@[i].0] == self.items@[i].1 by {
                assert(label_key_seq(self.items@)[i] == self.items@[i].0);
            }
        }
        &self.items
    }

    /// The number of bindings.
    pub fn len(&self) -> (r: usize)
        requires
            self.wf(),
        ensures
            r == self@.dom().len(),
    {
        proof {
            lemma_label_assoc_props(self.items@);
            label_key_seq(self.items@).unique_seq_to_set();
        }
        self.items.len()
    }

    /// Whether the map is empty.
    pub fn is_empty(&self) -> (r: bool)
        requires
            self.wf(),
        ensures
            r == self@.dom().is_empty(),
    {
        proof {
            lemma_label_assoc_props(self.items@);
            label_key_seq(self.items@).unique_seq_to_set();
            if self.items@.len() == 0 {
                assert(self@.dom() =~= Set::<u64>::empty());
            }
        }
        self.items.len() == 0
    }
}


} // verus!
