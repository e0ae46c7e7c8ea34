//! Small executable sets backed by duplicate-free vectors.
//!
//! The borrow graph needs sets of node labels, of temporaries, of borrow
//! edges, and of memory locations.  Each is a vector without duplicates,
//! viewed as a mathematical `Set`.  Iteration order is the insertion order,
//! which keeps the analysis deterministic.

use crate::edge::BorrowEdge;
use crate::edge::MemLoc;
use vstd::prelude::*;

verus! {

broadcast use vstd::seq_lib::seq_to_set_is_finite;

/// A set of node labels.
pub struct LabelSet {
    items: Vec<u64>,
}

impl View for LabelSet {
    type V = Set<u64>;

    closed spec fn view(&self) -> Set<u64> {
        self.items@.to_set()
    }
}

impl LabelSet {
    /// Well-formed: the backing vector holds no duplicates, so its length is
    /// the set's cardinality.
    pub closed spec fn wf(self) -> bool {
        self.items@.no_duplicates()
    }

    /// The view of a well-formed set is always finite.
    pub proof fn lemma_finite(&self)
        ensures
            self@.finite(),
    {
    }

    /// The empty set.
    pub fn new() -> (r: Self)
        ensures
            r.wf(),
            r@ == Set::<u64>::empty(),
    {
        let r = LabelSet { items: Vec::new() };
        proof {
            assert(r.items@.to_set() =~= Set::<u64>::empty());
        }
        r
    }

    /// The set holding exactly `x`.
    pub fn singleton(x: u64) -> (r: Self)
        ensures
            r.wf(),
            r@ == Set::<u64>::empty().insert(x),
    {
        let mut items: Vec<u64> = Vec::new();
        items.push(x);
        let r = LabelSet { items };
        proof {
            broadcast use vstd::prelude::Seq::lemma_push_to_set_commute;

            assert(r.items@ =~= Seq::<u64>::empty().push(x));
            assert(Seq::<u64>::empty().to_set() =~= Set::<u64>::empty());
            assert(r.items@.to_set() =~= Set::<u64>::empty().insert(x));
        }
        r
    }

    /// Membership.
    pub fn contains(&self, x: u64) -> (r: bool)
        ensures
            r == self@.contains(x),
    {
        let mut i: usize = 0;
        while i < self.items.len()
            invariant
                i <= self.items.len(),
                forall|j: int| 0 <= j < i ==> self.items@[j] != x,
            decreases self.items.len() - i,
        {
            if self.items[i] == x {
                return true;
            }
            i += 1;
        }
        proof {
            assert(!self.items@.contains(x));
        }
        false
    }

    /// Inserts `x`; a no-op if it is already present.
    pub fn insert(&mut self, x: u64)
        requires
            old(self).wf(),
        ensures
            final(self).wf(),
            final(self)@ == old(self)@.insert(x),
    {
        if !self.contains(x) {
            self.items.push(x);
            proof {
                assert(self.items@.to_set() =~= old(self).items@.to_set().insert(x)) by {
                    broadcast use vstd::prelude::Seq::lemma_push_to_set_commute;

                }
            }
        } else {
            proof {
                assert(self.items@.to_set() =~= self.items@.to_set().insert(x));
            }
        }
    }

    /// Cardinality.
    pub fn len(&self) -> (r: usize)
        requires
            self.wf(),
        ensures
            r == self@.len(),
    {
        proof {
            self.items@.unique_seq_to_set();
        }
        self.items.len()
    }

    /// Whether the set is empty.
    pub fn is_empty(&self) -> (r: bool)
        requires
            self.wf(),
        ensures
            r == self@.is_empty(),
    {
        proof {
            self.items@.unique_seq_to_set();
            if self.items@.len() == 0 {
                assert(self@ =~= Set::<u64>::empty());
            }
        }
        self.items.len() == 0
    }

    /// Read access to the elements, without duplicates.
    pub fn elems(&self) -> (r: &Vec<u64>)
        requires
            self.wf(),
        ensures
            r@.no_duplicates(),
            r@.to_set() == self@,
    {
        &self.items
    }

    /// Adds every element of `other`; reports whether anything was new.
    pub fn union_with(&mut self, other: &Self) -> (changed: bool)
        requires
            old(self).wf(),
            other.wf(),
        ensures
            final(self).wf(),
            final(self)@ == old(self)@.union(other@),
            changed == !other@.subset_of(old(self)@),
    {
        let mut changed = false;
        let mut i: usize = 0;
        let other_items = other.elems();
        while i < other_items.len()
            invariant
                i <= other_items.len(),
                self.wf(),
                other_items@.to_set() == other@,
                self@ == old(self)@.union(other_items@.take(i as int).to_set()),
                changed == !other_items@.take(i as int).to_set().subset_of(old(self)@),
            decreases other_items.len() - i,
        {
            let x = other_items[i];
            if !self.contains(x) {
                self.insert(x);
                changed = true;
            }
            proof {
                assert(other_items@.take(i + 1).drop_last() =~= other_items@.take(i as int));
                assert(other_items@.take(i + 1).to_set() =~= other_items@.take(
                    i as int,
                ).to_set().insert(x)) by {
                    broadcast use vstd::prelude::Seq::lemma_push_to_set_commute;

                    assert(other_items@.take(i + 1) =~= other_items@.take(i as int).push(x));
                }
                assert(self@ =~= old(self)@.union(other_items@.take(i + 1).to_set()));
            }
            i += 1;
        }
        proof {
            assert(other_items@.take(other_items@.len() as int) =~= other_items@);
        }
        changed
    }

    /// Set equality.
    pub fn set_eq(&self, other: &Self) -> (r: bool)
        requires
            self.wf(),
            other.wf(),
        ensures
            r == (self@ == other@),
    {
        if self.len() != other.len() {
            proof {
                if self@ =~= other@ {
                    assert(self@.len() == other@.len());
                }
            }
            return false;
        }
        let mut i: usize = 0;
        while i < self.items.len()
            invariant
                i <= self.items.len(),
                forall|j: int| 0 <= j < i ==> other@.contains(#[trigger] self.items@[j]),
            decreases self.items.len() - i,
        {
            if !other.contains(self.items[i]) {
                proof {
                    assert(self@.contains(self.items@[i as int]));
                }
                return false;
            }
            i += 1;
        }
        proof {
            assert forall|x: u64| self@.contains(x) implies other@.contains(x) by {
                let j = choose|j: int| 0 <= j < self.items@.len() && self.items@[j] == x;
                assert(other@.contains(self.items@[j]));
            }
            self.items@.unique_seq_to_set();
            other.items@.unique_seq_to_set();
            vstd::set_lib::lemma_subset_equality(self@, other@);
        }
        true
    }

    /// Whether the two sets share no element.
    pub fn disjoint_from(&self, other: &Self) -> (r: bool)
        ensures
            r == self@.disjoint(other@),
    {
        let mut i: usize = 0;
        while i < self.items.len()
            invariant
                i <= self.items.len(),
                forall|j: int| 0 <= j < i ==> !other@.contains(#[trigger] self.items@[j]),
            decreases self.items.len() - i,
        {
            if other.contains(self.items[i]) {
                proof {
                    assert(self@.contains(self.items@[i as int]));
                }
                return false;
            }
            i += 1;
        }
        proof {
            assert forall|x: u64| self@.contains(x) implies !other@.contains(x) by {
                let j = choose|j: int| 0 <= j < self.items@.len() && self.items@[j] == x;
            }
        }
        true
    }

    /// An owned copy of the elements.
    pub fn to_vec(&self) -> (r: Vec<u64>)
        requires
            self.wf(),
        ensures
            r@.no_duplicates(),
            r@.to_set() == self@,
    {
        let mut r: Vec<u64> = Vec::new();
        let mut i: usize = 0;
        while i < self.items.len()
            invariant
                i <= self.items.len(),
                self.wf(),
                r@ =~= self.items@.take(i as int),
            decreases self.items.len() - i,
        {
            r.push(self.items[i]);
            proof {
                assert(self.items@.take(i + 1) =~= self.items@.take(i as int).push(
                    self.items@[i as int],
                ));
            }
            i += 1;
        }
        proof {
            assert(self.items@.take(self.items@.len() as int) =~= self.items@);
            assert(r@.no_duplicates()) by {
                assert(r@ =~= self.items@);
            }
        }
        r
    }

    /// An owned copy of the whole set.
    pub fn duplicate(&self) -> (r: Self)
        requires
            self.wf(),
        ensures
            r.wf(),
            r@ == self@,
    {
        let r = LabelSet { items: self.to_vec() };
        proof {
            assert(r.items@.to_set() =~= self@);
        }
        r
    }

}


/// A set of temporaries (local indices).
pub struct TempSet {
    items: Vec<usize>,
}

impl View for TempSet {
    type V = Set<usize>;

    closed spec fn view(&self) -> Set<usize> {
        self.items@.to_set()
    }
}

impl TempSet {
    /// Well-formed: the backing vector holds no duplicates.
    pub closed spec fn wf(self) -> bool {
        self.items@.no_duplicates()
    }

    /// The view of a set is always finite.
    pub proof fn lemma_finite(&self)
        ensures
            self@.finite(),
    {
    }

    /// The empty set.
    pub fn new() -> (r: Self)
        ensures
            r.wf(),
            r@ == Set::<usize>::empty(),
    {
        let r = TempSet { items: Vec::new() };
        proof {
            assert(r.items@.to_set() =~= Set::<usize>::empty());
        }
        r
    }

    /// Membership.
    pub fn contains(&self, x: usize) -> (r: bool)
        ensures
            r == self@.contains(x),
    {
        let mut i: usize = 0;
        while i < self.items.len()
            invariant
                i <= self.items.len(),
                forall|j: int| 0 <= j < i ==> self.items@[j] != x,
            decreases self.items.len() - i,
        {
            if self.items[i] == x {
                return true;
            }
            i += 1;
        }
        proof {
            assert(!self.items@.contains(x));
        }
        false
    }

    /// Inserts `x`; a no-op if it is already present.
    pub fn insert(&mut self, x: usize)
        requires
            old(self).wf(),
        ensures
            final(self).wf(),
            final(self)@ == old(self)@.insert(x),
    {
        if !self.contains(x) {
            self.items.push(x);
            proof {
                assert(self.items@.to_set() =~= old(self).items@.to_set().insert(x)) by {
                    broadcast use vstd::prelude::Seq::lemma_push_to_set_commute;

                }
            }
        } else {
            proof {
                assert(self.items@.to_set() =~= self.items@.to_set().insert(x));
            }
        }
    }

    /// Cardinality.
    pub fn len(&self) -> (r: usize)
        requires
            self.wf(),
        ensures
            r == self@.len(),
    {
        proof {
            self.items@.unique_seq_to_set();
        }
        self.items.len()
    }

    /// Whether the set is empty.
    pub fn is_empty(&self) -> (r: bool)
        requires
            self.wf(),
        ensures
            r == self@.is_empty(),
    {
        proof {
            self.items@.unique_seq_to_set();
            if self.items@.len() == 0 {
                assert(self@ =~= Set::<usize>::empty());
            }
        }
        self.items.len() == 0
    }

    /// Read access to the elements, without duplicates.
    pub fn elems(&self) -> (r: &Vec<usize>)
        requires
            self.wf(),
        ensures
            r@.no_duplicates(),
            r@.to_set() == self@,
    {
        &self.items
    }

    /// Adds every element of `other`; reports whether anything was new.
    pub fn union_with(&mut self, other: &Self) -> (changed: bool)
        requires
            old(self).wf(),
            other.wf(),
        ensures
            final(self).wf(),
            final(self)@ == old(self)@.union(other@),
            changed == !other@.subset_of(old(self)@),
    {
        let mut changed = false;
        let mut i: usize = 0;
        let other_items = other.elems();
        while i < other_items.len()
            invariant
                i <= other_items.len(),
                self.wf(),
                other_items@.to_set() == other@,
                self@ == old(self)@.union(other_items@.take(i as int).to_set()),
                changed == !other_items@.take(i as int).to_set().subset_of(old(self)@),
            decreases other_items.len() - i,
        {
            let x = other_items[i];
            if !self.contains(x) {
                self.insert(x);
                changed = true;
            }
            proof {
                assert(other_items@.take(i + 1).to_set() =~= other_items@.take(
                    i as int,
                ).to_set().insert(x)) by {
                    broadcast use vstd::prelude::Seq::lemma_push_to_set_commute;

                    assert(other_items@.take(i + 1) =~= other_items@.take(i as int).push(x));
                }
                assert(self@ =~= old(self)@.union(other_items@.take(i + 1).to_set()));
            }
            i += 1;
        }
        proof {
            assert(other_items@.take(other_items@.len() as int) =~= other_items@);
        }
        changed
    }

    /// The set of elements present in both `self` and `other`.
    pub fn intersect(&self, other: &Self) -> (r: Self)
        requires
            self.wf(),
            other.wf(),
        ensures
            r.wf(),
            r@ == self@.intersect(other@),
    {
        let mut items: Vec<usize> = Vec::new();
        let mut i: usize = 0;
        while i < self.items.len()
            invariant
                i <= self.items.len(),
                self.items@.no_duplicates(),
                items@.no_duplicates(),
                forall|x: usize| items@.contains(x) <==> (self.items@.take(i as int).contains(x)
                    && other@.contains(x)),
            decreases self.items.len() - i,
        {
            let x = self.items[i];
            if other.contains(x) {
                proof {
                    assert(!self.items@.take(i as int).contains(x));
                    assert(!items@.contains(x));
                }
                items.push(x);
            }
            proof {
                broadcast use vstd::seq_lib::lemma_seq_contains_after_push;

                assert(self.items@.take(i + 1) =~= self.items@.take(i as int).push(x));
            }
            i += 1;
        }
        let r = TempSet { items };
        proof {
            assert(self.items@.take(self.items@.len() as int) =~= self.items@);
            assert(r.items@.to_set() =~= self@.intersect(other@)) by {
                assert forall|x: usize| r.items@.to_set().contains(x) implies self@.intersect(
                    other@,
                ).contains(x) by {
                    assert(r.items@.contains(x));
                }
                assert forall|x: usize| self@.intersect(other@).contains(x) implies r.items@.to_set(
                ).contains(x) by {
                    assert(self.items@.contains(x));
                    assert(r.items@.contains(x));
                }
            }
        }
        r
    }

    /// An owned copy of the elements.
    pub fn to_vec(&self) -> (r: Vec<usize>)
        requires
            self.wf(),
        ensures
            r@.no_duplicates(),
            r@.to_set() == self@,
    {
        let mut r: Vec<usize> = Vec::new();
        let mut i: usize = 0;
        while i < self.items.len()
            invariant
                i <= self.items.len(),
                self.wf(),
                r@ =~= self.items@.take(i as int),
            decreases self.items.len() - i,
        {
            r.push(self.items[i]);
            proof {
                assert(self.items@.take(i + 1) =~= self.items@.take(i as int).push(
                    self.items@[i as int],
                ));
            }
            i += 1;
        }
        proof {
            assert(self.items@.take(self.items@.len() as int) =~= self.items@);
            assert(r@.no_duplicates()) by {
                assert(r@ =~= self.items@);
            }
        }
        r
    }

    /// An owned copy of the whole set.
    pub fn duplicate(&self) -> (r: Self)
        requires
            self.wf(),
        ensures
            r.wf(),
            r@ == self@,
    {
        let r = TempSet { items: self.to_vec() };
        proof {
            assert(r.items@.to_set() =~= self@);
        }
        r
    }

}

/// A set of borrow edges: the outgoing edges of a graph node.
pub struct EdgeSet {
    items: Vec<BorrowEdge>,
}

impl View for EdgeSet {
    type V = Set<BorrowEdge>;

    closed spec fn view(&self) -> Set<BorrowEdge> {
        self.items@.to_set()
    }
}

impl EdgeSet {
    /// Well-formed: the backing vector holds no duplicates.
    pub closed spec fn wf(self) -> bool {
        self.items@.no_duplicates()
    }

    /// The view of a set is always finite.
    pub proof fn lemma_finite(&self)
        ensures
            self@.finite(),
    {
    }

    /// The empty set.
    pub fn new() -> (r: Self)
        ensures
            r.wf(),
            r@ == Set::<BorrowEdge>::empty(),
    {
        let r = EdgeSet { items: Vec::new() };
        proof {
            assert(r.items@.to_set() =~= Set::<BorrowEdge>::empty());
        }
        r
    }

    /// Membership.
    pub fn contains(&self, x: BorrowEdge) -> (r: bool)
        ensures
            r == self@.contains(x),
    {
        let mut i: usize = 0;
        while i < self.items.len()
            invariant
                i <= self.items.len(),
                forall|j: int| 0 <= j < i ==> self.items@[j] != x,
            decreases self.items.len() - i,
        {
            if self.items[i] == x {
                return true;
            }
            i += 1;
        }
        proof {
            assert(!self.items@.contains(x));
        }
        false
    }

    /// Inserts `x`; a no-op if it is already present.
    pub fn insert(&mut self, x: BorrowEdge)
        requires
            old(self).wf(),
        ensures
            final(self).wf(),
            final(self)@ == old(self)@.insert(x),
    {
        if !self.contains(x) {
            self.items.push(x);
            proof {
                assert(self.items@.to_set() =~= old(self).items@.to_set().insert(x)) by {
                    broadcast use vstd::prelude::Seq::lemma_push_to_set_commute;

                }
            }
        } else {
            proof {
                assert(self.items@.to_set() =~= self.items@.to_set().insert(x));
            }
        }
    }

    /// Cardinality.
    pub fn len(&self) -> (r: usize)
        requires
            self.wf(),
        ensures
            r == self@.len(),
    {
        proof {
            self.items@.unique_seq_to_set();
        }
        self.items.len()
    }

    /// Whether the set is empty.
    pub fn is_empty(&self) -> (r: bool)
        requires
            self.wf(),
        ensures
            r == self@.is_empty(),
    {
        proof {
            self.items@.unique_seq_to_set();
            if self.items@.len() == 0 {
                assert(self@ =~= Set::<BorrowEdge>::empty());
            }
        }
        self.items.len() == 0
    }

    /// Read access to the elements, without duplicates.
    pub fn elems(&self) -> (r: &Vec<BorrowEdge>)
        requires
            self.wf(),
        ensures
            r@.no_duplicates(),
            r@.to_set() == self@,
    {
        &self.items
    }

    /// Adds every element of `other`; reports whether anything was new.
    pub fn union_with(&mut self, other: &Self) -> (changed: bool)
        requires
            old(self).wf(),
            other.wf(),
        ensures
            final(self).wf(),
            final(self)@ == old(self)@.union(other@),
            changed == !other@.subset_of(old(self)@),
    {
        let mut changed = false;
        let mut i: usize = 0;
        let other_items = other.elems();
        while i < other_items.len()
            invariant
                i <= other_items.len(),
                self.wf(),
                other_items@.to_set() == other@,
                self@ == old(self)@.union(other_items@.take(i as int).to_set()),
                changed == !other_items@.take(i as int).to_set().subset_of(old(self)@),
            decreases other_items.len() - i,
        {
            let x = other_items[i];
            if !self.contains(x) {
                self.insert(x);
                changed = true;
            }
            proof {
                assert(other_items@.take(i + 1).to_set() =~= other_items@.take(
                    i as int,
                ).to_set().insert(x)) by {
                    broadcast use vstd::prelude::Seq::lemma_push_to_set_commute;

                    assert(other_items@.take(i + 1) =~= other_items@.take(i as int).push(x));
                }
                assert(self@ =~= old(self)@.union(other_items@.take(i + 1).to_set()));
            }
            i += 1;
        }
        proof {
            assert(other_items@.take(other_items@.len() as int) =~= other_items@);
        }
        changed
    }

    /// Removes every edge whose child is `target`.
    pub fn retain_not_target(&mut self, target: u64)
        requires
            old(self).wf(),
        ensures
            final(self).wf(),
            final(self)@ == old(self)@.filter(|e: BorrowEdge| e.target != target),
    {
        let mut items: Vec<BorrowEdge> = Vec::new();
        let mut i: usize = 0;
        while i < self.items.len()
            invariant
                i <= self.items.len(),
                self.items@.no_duplicates(),
                items@.no_duplicates(),
                forall|x: BorrowEdge| items@.contains(x) <==> (self.items@.take(
                    i as int,
                ).contains(x) && x.target != target),
            decreases self.items.len() - i,
        {
            let x = self.items[i];
            if x.target != target {
                proof {
                    assert(!self.items@.take(i as int).contains(x));
                    assert(!items@.contains(x));
                }
                items.push(x);
            }
            proof {
                broadcast use vstd::seq_lib::lemma_seq_contains_after_push;

                assert(self.items@.take(i + 1) =~= self.items@.take(i as int).push(x));
            }
            i += 1;
        }
        proof {
            assert(self.items@.take(self.items@.len() as int) =~= self.items@);
            assert(items@.to_set() =~= self@.filter(|e: BorrowEdge| e.target != target)) by {
                assert forall|x: BorrowEdge| items@.to_set().contains(x) implies self@.filter(
                    |e: BorrowEdge| e.target != target,
                ).contains(x) by {
                    assert(items@.contains(x));
                }
                assert forall|x: BorrowEdge|
                    self@.filter(|e: BorrowEdge| e.target != target).contains(
                        x,
                    ) implies items@.to_set().contains(x) by {
                    assert(self.items@.contains(x));
                    assert(items@.contains(x));
                }
            }
        }
        self.items = items;
    }

    /// An owned copy of the elements.
    pub fn to_vec(&self) -> (r: Vec<BorrowEdge>)
        requires
            self.wf(),
        ensures
            r@.no_duplicates(),
            r@.to_set() == self@,
    {
        let mut r: Vec<BorrowEdge> = Vec::new();
        let mut i: usize = 0;
        while i < self.items.len()
            invariant
                i <= self.items.len(),
                self.wf(),
                r@ =~= self.items@.take(i as int),
            decreases self.items.len() - i,
        {
            r.push(self.items[i]);
            proof {
                assert(self.items@.take(i + 1) =~= self.items@.take(i as int).push(
                    self.items@[i as int],
                ));
            }
            i += 1;
        }
        proof {
            assert(self.items@.take(self.items@.len() as int) =~= self.items@);
            assert(r@.no_duplicates()) by {
                assert(r@ =~= self.items@);
            }
        }
        r
    }

    /// An owned copy of the whole set.
    pub fn duplicate(&self) -> (r: Self)
        requires
            self.wf(),
        ensures
            r.wf(),
            r@ == self@,
    {
        let r = EdgeSet { items: self.to_vec() };
        proof {
            assert(r.items@.to_set() =~= self@);
        }
        r
    }

}

/// A set of memory locations: the roots that a graph node stands for.
pub struct LocSet {
    items: Vec<MemLoc>,
}

impl View for LocSet {
    type V = Set<MemLoc>;

    closed spec fn view(&self) -> Set<MemLoc> {
        self.items@.to_set()
    }
}

impl LocSet {
    /// Well-formed: the backing vector holds no duplicates.
    pub closed spec fn wf(self) -> bool {
        self.items@.no_duplicates()
    }

    /// The view of a set is always finite.
    pub proof fn lemma_finite(&self)
        ensures
            self@.finite(),
    {
    }

    /// The empty set.
    pub fn new() -> (r: Self)
        ensures
            r.wf(),
            r@ == Set::<MemLoc>::empty(),
    {
        let r = LocSet { items: Vec::new() };
        proof {
            assert(r.items@.to_set() =~= Set::<MemLoc>::empty());
        }
        r
    }

    /// The set holding exactly `x`.
    pub fn singleton(x: MemLoc) -> (r: Self)
        ensures
            r.wf(),
            r@ == Set::<MemLoc>::empty().insert(x),
    {
        let mut items: Vec<MemLoc> = Vec::new();
        items.push(x);
        let r = LocSet { items };
        proof {
            broadcast use vstd::prelude::Seq::lemma_push_to_set_commute;

            assert(r.items@ =~= Seq::<MemLoc>::empty().push(x));
            assert(Seq::<MemLoc>::empty().to_set() =~= Set::<MemLoc>::empty());
            assert(r.items@.to_set() =~= Set::<MemLoc>::empty().insert(x));
        }
        r
    }

    /// Membership.
    pub fn contains(&self, x: MemLoc) -> (r: bool)
        ensures
            r == self@.contains(x),
    {
        let mut i: usize = 0;
        while i < self.items.len()
            invariant
                i <= self.items.len(),
                forall|j: int| 0 <= j < i ==> self.items@[j] != x,
            decreases self.items.len() - i,
        {
            if self.items[i] == x {
                return true;
            }
            i += 1;
        }
        proof {
            assert(!self.items@.contains(x));
        }
        false
    }

    /// Inserts `x`; a no-op if it is already present.
    pub fn insert(&mut self, x: MemLoc)
        requires
            old(self).wf(),
        ensures
            final(self).wf(),
            final(self)@ == old(self)@.insert(x),
    {
        if !self.contains(x) {
            self.items.push(x);
            proof {
                assert(self.items@.to_set() =~= old(self).items@.to_set().insert(x)) by {
                    broadcast use vstd::prelude::Seq::lemma_push_to_set_commute;

                }
            }
        } else {
            proof {
                assert(self.items@.to_set() =~= self.items@.to_set().insert(x));
            }
        }
    }

    /// Read access to the elements, without duplicates.
    pub fn elems(&self) -> (r: &Vec<MemLoc>)
        requires
            self.wf(),
        ensures
            r@.no_duplicates(),
            r@.to_set() == self@,
    {
        &self.items
    }

    /// Adds every element of `other`; reports whether anything was new.
    pub fn union_with(&mut self, other: &Self) -> (changed: bool)
        requires
            old(self).wf(),
            other.wf(),
        ensures
            final(self).wf(),
            final(self)@ == old(self)@.union(other@),
            changed == !other@.subset_of(old(self)@),
    {
        let mut changed = false;
        let mut i: usize = 0;
        let other_items = other.elems();
        while i < other_items.len()
            invariant
                i <= other_items.len(),
                self.wf(),
                other_items@.to_set() == other@,
                self@ == old(self)@.union(other_items@.take(i as int).to_set()),
                changed == !other_items@.take(i as int).to_set().subset_of(old(self)@),
            decreases other_items.len() - i,
        {
            let x = other_items[i];
            if !self.contains(x) {
                self.insert(x);
                changed = true;
            }
            proof {
                assert(other_items@.take(i + 1).to_set() =~= other_items@.take(
                    i as int,
                ).to_set().insert(x)) by {
                    broadcast use vstd::prelude::Seq::lemma_push_to_set_commute;

                    assert(other_items@.take(i + 1) =~= other_items@.take(i as int).push(x));
                }
                assert(self@ =~= old(self)@.union(other_items@.take(i + 1).to_set()));
            }
            i += 1;
        }
        proof {
            assert(other_items@.take(other_items@.len() as int) =~= other_items@);
        }
        changed
    }

    /// An owned copy of the elements.
    pub fn to_vec(&self) -> (r: Vec<MemLoc>)
        requires
            self.wf(),
        ensures
            r@.no_duplicates(),
            r@.to_set() == self@,
    {
        let mut r: Vec<MemLoc> = Vec::new();
        let mut i: usize = 0;
        while i < self.items.len()
            invariant
                i <= self.items.len(),
                self.wf(),
                r@ =~= self.items@.take(i as int),
            decreases self.items.len() - i,
        {
            r.push(self.items[i]);
            proof {
                assert(self.items@.take(i + 1) =~= self.items@.take(i as int).push(
                    self.items@[i as int],
                ));
            }
            i += 1;
        }
        proof {
            assert(self.items@.take(self.items@.len() as int) =~= self.items@);
            assert(r@.no_duplicates()) by {
                assert(r@ =~= self.items@);
            }
        }
        r
    }

    /// An owned copy of the whole set.
    pub fn duplicate(&self) -> (r: Self)
        requires
            self.wf(),
        ensures
            r.wf(),
            r@ == self@,
    {
        let r = LocSet { items: self.to_vec() };
        proof {
            assert(r.items@.to_set() =~= self@);
        }
        r
    }

}

} // verus!
