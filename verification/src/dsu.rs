//! A union-find structure over hashable values.

use std::collections::HashMap;
use std::hash::Hash;
use vstd::prelude::*;
use vstd::std_specs::hash::obeys_key_model;

verus! {

/// What a union-find structure over values of `T` shows: the slot of each value, and for
/// each slot the slot that stands for its class.
#[verifier::reject_recursive_types(T)]
pub struct Forest<T> {
    pub slots: Map<T, nat>,
    pub roots: Seq<nat>,
}

impl<T> Forest<T> {
    /// No value and no slot.
    pub open spec fn empty() -> Self {
        Forest { slots: Map::empty(), roots: Seq::empty() }
    }

    /// Finitely many values, each with a slot, and each slot with one that stands for itself.
    pub open spec fn wf(self) -> bool {
        &&& self.slots.dom().finite()
        &&& forall|v: T| self.slots.contains_key(v) ==> #[trigger] self.slots[v] < self.roots.len()
        &&& forall|i: int|
            0 <= i < self.roots.len() ==> (#[trigger] self.roots[i]) < self.roots.len()
                && self.roots[self.roots[i] as int] == self.roots[i]
    }

    /// Whether the value has a slot.
    pub open spec fn contains(self, v: T) -> bool {
        self.slots.contains_key(v)
    }

    /// The slot that stands for the class of `v`.
    pub open spec fn root_of(self, v: T) -> nat {
        self.roots[self.slots[v] as int]
    }

    /// A new slot, in a class of its own, which is from now on the slot of `v`.
    pub open spec fn add_unchecked(self, v: T) -> Self {
        Forest {
            slots: self.slots.insert(v, self.roots.len()),
            roots: self.roots.push(self.roots.len()),
        }
    }

    /// `v` gets a slot if it has none.
    pub open spec fn add(self, v: T) -> Self {
        if self.contains(v) {
            self
        } else {
            self.add_unchecked(v)
        }
    }

    /// The class of the slot `from` joins that of the slot `into`.
    pub open spec fn link(self, from: nat, into: nat) -> Self {
        Forest {
            slots: self.slots,
            roots: Seq::new(
                self.roots.len(),
                |i: int|
                    if self.roots[i] == from {
                        into
                    } else {
                        self.roots[i]
                    },
            ),
        }
    }

    /// Both values get a slot if they have none, and the class of `x` joins that of `y`.
    pub open spec fn union(self, x: T, y: T) -> Self {
        let both = self.add(x).add(y);
        both.link(both.root_of(x), both.root_of(y))
    }

    /// After a union the two values have one root: to find the one and then the other adds
    /// nothing, and gives the same slot twice.
    pub proof fn law_union_joins(self, x: T, y: T)
        requires
            self.wf(),
        ensures
            self.union(x, y).wf(),
            self.union(x, y).contains(x),
            self.union(x, y).contains(y),
            self.union(x, y).add(x) == self.union(x, y),
            self.union(x, y).add(x).add(y) == self.union(x, y),
            self.union(x, y).add(x).root_of(x) == self.union(x, y).add(x).add(y).root_of(y),
    {
        self.law_add_keeps(x);
        self.add(x).law_add_keeps(y);
        let both = self.add(x).add(y);
        both.law_link_keeps(both.root_of(x), both.root_of(y));
    }

    /// A value is added once: after that it is there, and adding it again changes nothing,
    /// its root included.
    pub proof fn law_add_once(self, v: T)
        requires
            self.wf(),
        ensures
            self.add(v).contains(v),
            self.add(v).add(v) == self.add(v),
            self.add(v).add(v).root_of(v) == self.add(v).root_of(v),
    {
    }

    /// No operation takes a value away.
    pub proof fn law_values_stay(self, w: T, x: T, y: T)
        requires
            self.contains(w),
        ensures
            self.add(x).contains(w),
            self.add_unchecked(x).contains(w),
            self.union(x, y).contains(w),
            forall|from: nat, into: nat| (#[trigger] self.link(from, into)).contains(w),
    {
    }

    /// Adding keeps the structure well-formed, the values that are there, and their roots; a
    /// value that is there is not added again.
    pub proof fn law_add_keeps(self, v: T)
        requires
            self.wf(),
        ensures
            self.add(v).wf(),
            self.add(v).contains(v),
            self.contains(v) ==> self.add(v) == self,
            self.add(v).add(v) == self.add(v),
            forall|w: T| self.contains(w) ==> self.add(v).contains(w),
            forall|w: T| self.contains(w) ==> self.add(v).root_of(w) == self.root_of(w),
            !self.contains(v) ==> self.add(v).root_of(v) == self.roots.len(),
    {
        let next = self.add(v);
        if !self.contains(v) {
            assert forall|i: int| 0 <= i < next.roots.len() implies (#[trigger] next.roots[i])
                < next.roots.len() && next.roots[next.roots[i] as int] == next.roots[i] by {
                if i < self.roots.len() {
                    assert(self.roots[i] < self.roots.len());
                }
            }
            assert forall|w: T| self.contains(w) implies next.root_of(w) == self.root_of(w) by {
                assert(self.slots[w] < self.roots.len());
            }
        }
    }

    /// Linking the classes of two slots that stand for themselves keeps the structure
    /// well-formed and the values that are there; the roots that were `from` are `into`.
    pub proof fn law_link_keeps(self, from: nat, into: nat)
        requires
            self.wf(),
            from < self.roots.len(),
            into < self.roots.len(),
            self.roots[from as int] == from,
            self.roots[into as int] == into,
        ensures
            self.link(from, into).wf(),
            self.link(from, into).slots == self.slots,
            from == into ==> self.link(from, into) == self,
            forall|w: T|
                self.contains(w) ==> self.link(from, into).root_of(w) == if self.root_of(w)
                    == from {
                    into
                } else {
                    self.root_of(w)
                },
    {
        let next = self.link(from, into);
        assert forall|i: int| 0 <= i < next.roots.len() implies (#[trigger] next.roots[i])
            < next.roots.len() && next.roots[next.roots[i] as int] == next.roots[i] by {
            assert(self.roots[i] < self.roots.len());
            assert(self.roots[self.roots[i] as int] == self.roots[i]);
        }
        if from == into {
            assert(next.roots =~= self.roots);
        }
        assert forall|w: T| self.contains(w) implies next.root_of(w) == if self.root_of(w)
            == from {
            into
        } else {
            self.root_of(w)
        } by {
            assert(self.slots[w] < self.roots.len());
        }
    }
}

/// A slot: the value that it was made for, and its parent.
#[allow(dead_code)]
struct DSUEntry<T> {
    val: T,
    parent: usize,
}

/// A union-find structure over hashable values, which grows as values are named, with path
/// compression and without balancing.
#[verifier::reject_recursive_types(T)]
pub struct DSU<T> where T: Eq + Hash + Clone {
    entries: Vec<DSUEntry<T>>,
    indices: HashMap<T, usize>,
    forest: Ghost<Forest<T>>,
    rank: Ghost<Seq<nat>>,
    bound: Ghost<nat>,
}

impl<T> View for DSU<T> where T: Eq + Hash + Clone {
    type V = Forest<T>;

    /// The forest that the structure shows.
    closed spec fn view(&self) -> Forest<T> {
        self.forest@
    }
}

impl<T> DSU<T> where T: Eq + Hash + Clone {
    /// What the invariant says of the slot `i`: its parent is a slot; where it is its own
    /// parent it stands for itself, and else its parent has the same root and is nearer to it.
    spec fn slot_ok(&self, i: int) -> bool {
        let parent = self.entries@[i].parent as int;
        let roots = self.forest@.roots;
        &&& parent < self.entries@.len()
        &&& self.rank@[i] <= self.bound@
        &&& roots[i] < roots.len()
        &&& roots[roots[i] as int] == roots[i]
        &&& if parent == i {
            roots[i] == i
        } else {
            roots[parent] == roots[i] && self.rank@[i] < self.rank@[parent] && roots[i] != i
        }
    }

    /// The invariant of the type: the values can serve as keys; the table of slots is the one
    /// shown; and the parents lead from each slot, without a cycle, to the slot that stands
    /// for its class.
    pub closed spec fn wf(&self) -> bool {
        &&& obeys_key_model::<T>()
        &&& self.entries@.len() == self.forest@.roots.len()
        &&& self.rank@.len() == self.forest@.roots.len()
        &&& self.indices@.dom() == self.forest@.slots.dom()
        &&& forall|v: T| #[trigger]
            self.indices@.contains_key(v) ==> self.indices@[v] == self.forest@.slots[v]
                && self.indices@[v] < self.entries@.len()
        &&& forall|i: int| 0 <= i < self.entries@.len() ==> #[trigger] self.slot_ok(i)
    }

    /// A bound on the number of parents between the slot and the one that stands for it.
    pub closed spec fn way_up(&self, slot: nat) -> nat {
        (self.bound@ - self.rank@[slot as int]) as nat
    }

    /// The parent of a slot; the slot itself where it stands for its class.
    pub closed spec fn parent(&self, slot: nat) -> nat {
        self.entries@[slot as int].parent as nat
    }

    /// Whether `s` lies on the way that the parents lead from `x`: `x` itself, its parent,
    /// and so on up to the slot that stands for the class.
    pub closed spec fn on_way(&self, x: nat, s: nat) -> bool
        decreases self.way_up(x),
        when self.wf() && x < self@.roots.len()
        via Self::on_way_ends
    {
        s == x || (self.parent(x) != x && self.on_way(self.parent(x), s))
    }

    /// The way ends: a parent is nearer to the slot that stands for the class.
    #[via_fn]
    proof fn on_way_ends(&self, x: nat, s: nat) {
        assert(self.slot_ok(x as int));
        assert(self.slot_ok(self.parent(x) as int));
    }

    /// The parents lead within the class: a slot that stands for itself is its own parent,
    /// and every other slot has another of its class. The way from a slot goes through the
    /// slot itself and on from its parent.
    pub proof fn lemma_way(&self, x: nat, s: nat)
        requires
            self.wf(),
            x < self@.roots.len(),
        ensures
            self.parent(x) < self@.roots.len(),
            self@.roots[self.parent(x) as int] == self@.roots[x as int],
            self.parent(x) == x <==> self@.roots[x as int] == x,
            self.on_way(x, s) <==> s == x || (self.parent(x) != x && self.on_way(
                self.parent(x),
                s,
            )),
            self.on_way(x, s) ==> s < self@.roots.len() && self@.roots[s as int]
                == self@.roots[x as int],
            self.on_way(x, self@.roots[x as int]),
        decreases self.way_up(x),
    {
        assert(self.slot_ok(x as int));
        assert(self.slot_ok(self.parent(x) as int));
        if self.parent(x) != x {
            self.lemma_way(self.parent(x), s);
            self.lemma_way(self.parent(x), self@.roots[x as int]);
        }
    }

    /// A way goes on along the ways of the slots that lie on it.
    proof fn lemma_way_goes_on(&self, x: nat, y: nat, s: nat)
        requires
            self.wf(),
            x < self@.roots.len(),
            y < self@.roots.len(),
            self.on_way(x, y),
            self.on_way(y, s),
        ensures
            self.on_way(x, s),
        decreases self.way_up(x),
    {
        self.lemma_way(x, y);
        self.lemma_way(x, s);
        if y != x {
            assert(self.slot_ok(x as int));
            assert(self.slot_ok(self.parent(x) as int));
            self.lemma_way_goes_on(self.parent(x), y, s);
        }
    }

    /// The ways after the way from `x` was shortened: the way from `y` holds no slot that it
    /// did not hold, and still every slot of it that did not lie on the way from `x`.
    proof fn lemma_way_after(&self, after: &Self, x: nat, y: nat, s: nat)
        requires
            self.wf(),
            after.wf(),
            after@ == self@,
            x < self@.roots.len(),
            y < self@.roots.len(),
            forall|z: nat|
                z < self@.roots.len() ==> #[trigger] after.parent(z) == if self.on_way(x, z) {
                    self@.roots[z as int]
                } else {
                    self.parent(z)
                },
        ensures
            after.on_way(y, s) ==> self.on_way(y, s),
            self.on_way(y, s) && !self.on_way(x, s) ==> after.on_way(y, s),
        decreases self.way_up(y),
    {
        self.lemma_way(y, s);
        after.lemma_way(y, s);
        assert(after.parent(y) == if self.on_way(x, y) {
            self@.roots[y as int]
        } else {
            self.parent(y)
        });
        if s != y {
            if self.on_way(x, y) {
                if self.on_way(y, s) {
                    self.lemma_way_goes_on(x, y, s);
                }
                if after.on_way(y, s) {
                    let root = self@.roots[y as int];
                    after.lemma_way(root, s);
                    assert(s == root);
                }
            } else if self.parent(y) != y {
                assert(self.slot_ok(y as int));
                assert(self.slot_ok(self.parent(y) as int));
                self.lemma_way_after(after, x, self.parent(y), s);
            }
        }
    }

    /// A new slot changes no way between the slots that were there.
    proof fn lemma_way_kept(&self, after: &Self, x: nat, s: nat)
        requires
            self.wf(),
            after.wf(),
            x < self@.roots.len(),
            self@.roots.len() <= after@.roots.len(),
            forall|z: nat| z < self@.roots.len() ==> #[trigger] after.parent(z) == self.parent(z),
        ensures
            after.on_way(x, s) == self.on_way(x, s),
        decreases self.way_up(x),
    {
        self.lemma_way(x, s);
        after.lemma_way(x, s);
        assert(after.parent(x) == self.parent(x));
        if s != x && self.parent(x) != x {
            assert(self.slot_ok(x as int));
            assert(self.slot_ok(self.parent(x) as int));
            self.lemma_way_kept(after, self.parent(x), s);
        }
    }

    /// A well-formed structure shows a well-formed forest, for a type of values that can
    /// serve as keys.
    pub proof fn lemma_view(&self)
        requires
            self.wf(),
        ensures
            self@.wf(),
            obeys_key_model::<T>(),
    {
        let f = self@;
        assert forall|v: T| f.slots.contains_key(v) implies #[trigger] f.slots[v]
            < f.roots.len() by {
            assert(self.indices@.contains_key(v));
        }
        assert forall|i: int| 0 <= i < f.roots.len() implies (#[trigger] f.roots[i])
            < f.roots.len() && f.roots[f.roots[i] as int] == f.roots[i] by {
            assert(self.slot_ok(i));
        }
    }

    /// A structure without values.
    pub fn new() -> (s: Self)
        requires
            obeys_key_model::<T>(),
        ensures
            s.wf(),
            s@ == Forest::<T>::empty(),
    {
        Self {
            entries: Vec::new(),
            indices: HashMap::new(),
            forest: Ghost(Forest::empty()),
            rank: Ghost(Seq::empty()),
            bound: Ghost(0),
        }
    }

    /// Gives `val` a new slot, in a class of its own, whether or not it has one. A slot that
    /// it had stays in its class, and no value leads to it any more.
    pub fn add_unchecked(&mut self, val: T) -> (slot: usize)
        requires
            old(self).wf(),
        ensures
            final(self).wf(),
            final(self)@ == old(self)@.add_unchecked(val),
            slot == old(self)@.roots.len(),
            final(self).parent(slot as nat) == slot,
            forall|s: nat|
                s < old(self)@.roots.len() ==> #[trigger] final(self).parent(s) == old(
                    self,
                ).parent(s),
            forall|x: nat, s: nat|
                x < old(self)@.roots.len() ==> #[trigger] final(self).on_way(x, s) == old(
                    self,
                ).on_way(x, s),
    {
        let i = self.entries.len();
        let ghost next = self.forest@.add_unchecked(val);
        self.entries.push(DSUEntry { val: val.clone(), parent: i });
        self.indices.insert(val, i);
        self.forest = Ghost(next);
        self.rank = Ghost(self.rank@.push(0));
        proof {
            assert(self.indices@.dom() =~= self.forest@.slots.dom());
            assert forall|j: int| 0 <= j < self.entries@.len() implies #[trigger] self.slot_ok(
                j,
            ) by {
                if j < i {
                    assert(old(self).slot_ok(j));
                    assert(self.entries@[j] == old(self).entries@[j]);
                }
            }
            assert forall|v: T| #[trigger] self.indices@.contains_key(v) implies self.indices@[v]
                == self.forest@.slots[v] && self.indices@[v] < self.entries@.len() by {
                if v != val {
                    assert(old(self).indices@.contains_key(v));
                }
            }
            assert forall|x: nat, s: nat| x < old(self)@.roots.len() implies #[trigger] self.on_way(
                x,
                s,
            ) == old(self).on_way(x, s) by {
                old(self).lemma_way_kept(self, x, s);
            }
        }
        i
    }

    /// Gives `val` a slot, in a class of its own, if it has none, and says whether it did.
    pub fn add(&mut self, val: T) -> (added: bool)
        requires
            old(self).wf(),
        ensures
            final(self).wf(),
            final(self)@ == old(self)@.add(val),
            added == !old(self)@.contains(val),
            forall|s: nat|
                s < old(self)@.roots.len() ==> #[trigger] final(self).parent(s) == old(
                    self,
                ).parent(s),
    {
        if self.indices.contains_key(&val) {
            false
        } else {
            self.add_unchecked(val);
            true
        }
    }

    /// The slot of `val`, which is new if it had none.
    fn index(&mut self, val: T) -> (slot: usize)
        requires
            old(self).wf(),
        ensures
            final(self).wf(),
            final(self)@ == old(self)@.add(val),
            slot == final(self)@.slots[val],
            slot < final(self).entries@.len(),
            !old(self)@.contains(val) ==> final(self).parent(slot as nat) == slot,
            forall|s: nat|
                s < old(self)@.roots.len() ==> #[trigger] final(self).parent(s) == old(
                    self,
                ).parent(s),
            forall|x: nat, s: nat|
                x < old(self)@.roots.len() ==> #[trigger] final(self).on_way(x, s) == old(
                    self,
                ).on_way(x, s),
    {
        proof {
            assert forall|v: T| old(self)@.contains(v) implies #[trigger] old(self).indices@.contains_key(v) by {}
        }
        match self.indices.get(&val) {
            Some(i) => *i,
            None => self.add_unchecked(val),
        }
    }

    /// The slot that stands for the class of the slot `x`; every slot on the way is linked
    /// directly to it.
    fn find_by_index(&mut self, x: usize) -> (root: usize)
        requires
            old(self).wf(),
            x < old(self).entries@.len(),
        ensures
            final(self).wf(),
            final(self).forest == old(self).forest,
            final(self).rank == old(self).rank,
            final(self).bound == old(self).bound,
            root == old(self).forest@.roots[x as int],
            root < final(self).entries@.len(),
            old(self).rank@[x as int] <= old(self).rank@[root as int],
            forall|s: nat|
                s < old(self)@.roots.len() ==> #[trigger] final(self).parent(s) == if old(
                    self,
                ).on_way(x as nat, s) {
                    old(self)@.roots[s as int]
                } else {
                    old(self).parent(s)
                },
        decreases old(self).bound@ - old(self).rank@[x as int],
    {
        let px = self.entries[x].parent;
        proof {
            assert(self.slot_ok(x as int));
            assert(self.slot_ok(px as int));
        }
        if px == x {
            proof {
                assert forall|s: nat| s < old(self)@.roots.len() implies #[trigger] self.parent(s)
                    == if old(self).on_way(x as nat, s) {
                    old(self)@.roots[s as int]
                } else {
                    old(self).parent(s)
                } by {
                    old(self).lemma_way(x as nat, s);
                }
            }
            px
        } else {
            let root = self.find_by_index(px);
            let ghost before = *self;
            self.entries[x].parent = root;
            proof {
                assert(before.slot_ok(x as int));
                assert(before.slot_ok(root as int));
                assert forall|j: int| 0 <= j < self.entries@.len() implies #[trigger] self.slot_ok(
                    j,
                ) by {
                    assert(before.slot_ok(j));
                    if j != x {
                        assert(self.entries@[j] == before.entries@[j]);
                    }
                }
                assert forall|s: nat| s < old(self)@.roots.len() implies #[trigger] self.parent(s)
                    == if old(self).on_way(x as nat, s) {
                    old(self)@.roots[s as int]
                } else {
                    old(self).parent(s)
                } by {
                    old(self).lemma_way(x as nat, s);
                    assert(before.parent(s) == if old(self).on_way(px as nat, s) {
                        old(self)@.roots[s as int]
                    } else {
                        old(self).parent(s)
                    });
                    if s != x {
                        assert(self.entries@[s as int] == before.entries@[s as int]);
                    }
                }
            }
            root
        }
    }

    /// The slot that stands for the class of `val`, which must have a slot.
    pub fn find_unchecked(&mut self, val: T) -> (root: usize)
        requires
            old(self).wf(),
            old(self)@.contains(val),
        ensures
            final(self).wf(),
            final(self)@ == old(self)@,
            root == old(self)@.root_of(val),
            forall|s: nat|
                s < old(self)@.roots.len() ==> #[trigger] final(self).parent(s) == if old(
                    self,
                ).on_way(old(self)@.slots[val], s) {
                    old(self)@.roots[s as int]
                } else {
                    old(self).parent(s)
                },
    {
        let x = match self.indices.get(&val) {
            Some(i) => *i,
            None => 0,
        };
        proof {
            assert(self.indices@.contains_key(val));
        }
        self.find_by_index(x)
    }

    /// The slot that stands for the class of `val`, which gets a slot if it has none.
    pub fn find(&mut self, val: T) -> (root: usize)
        requires
            old(self).wf(),
        ensures
            final(self).wf(),
            final(self)@ == old(self)@.add(val),
            root == final(self)@.root_of(val),
            forall|s: nat|
                s < old(self)@.roots.len() ==> #[trigger] final(self).parent(s) == if old(
                    self,
                )@.contains(val) && old(self).on_way(old(self)@.slots[val], s) {
                    old(self)@.roots[s as int]
                } else {
                    old(self).parent(s)
                },
            !old(self)@.contains(val) ==> final(self).parent(root as nat) == root,
            !old(self)@.contains(val) ==> forall|x: nat, s: nat|
                x < old(self)@.roots.len() ==> #[trigger] final(self).on_way(x, s) == old(
                    self,
                ).on_way(x, s),
    {
        let x = self.index(val);
        let ghost mid = *self;
        let root = self.find_by_index(x);
        proof {
            old(self).lemma_view();
            mid.lemma_view();
            assert forall|s: nat| s < old(self)@.roots.len() implies #[trigger] self.parent(s)
                == if old(self)@.contains(val) && old(self).on_way(old(self)@.slots[val], s) {
                old(self)@.roots[s as int]
            } else {
                old(self).parent(s)
            } by {
                assert(self.parent(s) == if mid.on_way(x as nat, s) {
                    mid@.roots[s as int]
                } else {
                    mid.parent(s)
                });
                assert(mid.parent(s) == old(self).parent(s));
                if old(self)@.contains(val) {
                    assert(mid.on_way(x as nat, s) == old(self).on_way(x as nat, s));
                } else {
                    mid.lemma_way(x as nat, s);
                }
            }
            if !old(self)@.contains(val) {
                mid.lemma_way(x as nat, x as nat);
                assert forall|a: nat, s: nat| a < old(self)@.roots.len() implies #[trigger] self.on_way(
                    a,
                    s,
                ) == old(self).on_way(a, s) by {
                    assert forall|z: nat| z < mid@.roots.len() implies #[trigger] self.parent(z)
                        == mid.parent(z) by {
                        mid.lemma_way(x as nat, z);
                        mid.lemma_way(z, z);
                    }
                    mid.lemma_way_kept(self, a, s);
                    assert(mid.on_way(a, s) == old(self).on_way(a, s));
                }
            }
        }
        root
    }

    /// Sets the root `px` under the root `py`.
    fn attach(&mut self, px: usize, py: usize)
        requires
            old(self).wf(),
            px < old(self).entries@.len(),
            py < old(self).entries@.len(),
            old(self).forest@.roots[px as int] == px,
            old(self).forest@.roots[py as int] == py,
        ensures
            final(self).wf(),
            final(self)@ == old(self)@.link(px as nat, py as nat),
            final(self).parent(px as nat) == py,
            forall|s: nat|
                s < old(self)@.roots.len() && s != px ==> #[trigger] final(self).parent(s) == old(
                    self,
                ).parent(s),
    {
        let ghost before = *self;
        let ghost ranks = self.rank@;
        let ghost top: nat = if px == py || ranks[py as int] > ranks[px as int] {
            ranks[py as int]
        } else {
            ranks[px as int] + 1
        };
        proof {
            assert(before.slot_ok(px as int));
            assert(before.slot_ok(py as int));
        }
        self.entries[px].parent = py;
        self.forest = Ghost(self.forest@.link(px as nat, py as nat));
        self.rank = Ghost(ranks.update(py as int, top));
        self.bound = Ghost(if self.bound@ > top { self.bound@ } else { top });
        proof {
            assert forall|j: int| 0 <= j < self.entries@.len() implies #[trigger] self.slot_ok(
                j,
            ) by {
                assert(before.slot_ok(j));
                assert(before.slot_ok(before.entries@[j].parent as int));
                assert(before.slot_ok(before.forest@.roots[j] as int));
                if j != px {
                    assert(self.entries@[j] == before.entries@[j]);
                }
            }
            assert forall|v: T| #[trigger] self.indices@.contains_key(v) implies self.indices@[v]
                == self.forest@.slots[v] && self.indices@[v] < self.entries@.len() by {
                assert(before.indices@.contains_key(v));
            }
            assert forall|s: nat| s < before@.roots.len() && s != px implies #[trigger] self.parent(
                s,
            ) == before.parent(s) by {
                assert(self.entries@[s as int] == before.entries@[s as int]);
            }
        }
    }

    /// Sets the class of `val_x` under that of `val_y`, and says whether they were two. Both
    /// values must have slots.
    pub fn union_unchecked(&mut self, val_x: T, val_y: T) -> (joined: bool)
        requires
            old(self).wf(),
            old(self)@.contains(val_x),
            old(self)@.contains(val_y),
        ensures
            final(self).wf(),
            final(self)@ == old(self)@.link(old(self)@.root_of(val_x), old(self)@.root_of(val_y)),
            joined == (old(self)@.root_of(val_x) != old(self)@.root_of(val_y)),
            forall|s: nat|
                s < old(self)@.roots.len() ==> #[trigger] final(self).parent(s) == if old(
                    self,
                )@.roots[s as int] == s {
                    final(self)@.roots[s as int]
                } else if old(self).on_way(old(self)@.slots[val_x], s) || old(self).on_way(
                    old(self)@.slots[val_y],
                    s,
                ) {
                    old(self)@.roots[s as int]
                } else {
                    old(self).parent(s)
                },
    {
        proof {
            self.lemma_view();
        }
        let ghost slot_x = self@.slots[val_x];
        let ghost slot_y = self@.slots[val_y];
        let px = self.find_unchecked(val_x);
        let ghost first = *self;
        let py = self.find_unchecked(val_y);
        let ghost second = *self;
        self.attach(px, py);
        proof {
            assert forall|s: nat| s < old(self)@.roots.len() implies #[trigger] self.parent(s)
                == if old(self)@.roots[s as int] == s {
                self@.roots[s as int]
            } else if old(self).on_way(slot_x, s) || old(self).on_way(slot_y, s) {
                old(self)@.roots[s as int]
            } else {
                old(self).parent(s)
            } by {
                old(self).lemma_way_after(&first, slot_x, slot_y, s);
                old(self).lemma_way(s, s);
                assert(first.parent(s) == if old(self).on_way(slot_x, s) {
                    old(self)@.roots[s as int]
                } else {
                    old(self).parent(s)
                });
                assert(second.parent(s) == if first.on_way(slot_y, s) {
                    first@.roots[s as int]
                } else {
                    first.parent(s)
                });
            }
        }
        px != py
    }

    /// Sets the class of `val_x` under that of `val_y`, and says whether they were two. A
    /// value without a slot gets one first.
    pub fn union(&mut self, val_x: T, val_y: T) -> (joined: bool)
        requires
            old(self).wf(),
        ensures
            final(self).wf(),
            final(self)@ == old(self)@.union(val_x, val_y),
            joined == (old(self)@.add(val_x).add(val_y).root_of(val_x) != old(self)@.add(
                val_x,
            ).add(val_y).root_of(val_y)),
            forall|s: nat|
                s < final(self)@.roots.len() ==> #[trigger] final(self).parent(s) == if s >= old(
                    self,
                )@.roots.len() || old(self)@.roots[s as int] == s {
                    final(self)@.roots[s as int]
                } else if (old(self)@.contains(val_x) && old(self).on_way(
                    old(self)@.slots[val_x],
                    s,
                )) || (old(self)@.contains(val_y) && old(self).on_way(old(self)@.slots[val_y], s)) {
                    old(self)@.roots[s as int]
                } else {
                    old(self).parent(s)
                },
    {
        proof {
            self.lemma_view();
            self@.law_add_keeps(val_x);
            self@.add(val_x).law_add_keeps(val_y);
        }
        let ghost slot_x = self@.slots[val_x];
        let ghost slot_y = self@.slots[val_y];
        let px = self.find(val_x);
        let ghost first = *self;
        let py = self.find(val_y);
        let ghost second = *self;
        proof {
            self.lemma_view();
            first.lemma_view();
        }
        self.attach(px, py);
        proof {
            let len = old(self)@.roots.len();
            assert forall|s: nat| s < self@.roots.len() implies #[trigger] self.parent(s) == if s
                >= len || old(self)@.roots[s as int] == s {
                self@.roots[s as int]
            } else if (old(self)@.contains(val_x) && old(self).on_way(slot_x, s)) || (old(
                self,
            )@.contains(val_y) && old(self).on_way(slot_y, s)) {
                old(self)@.roots[s as int]
            } else {
                old(self).parent(s)
            } by {
                if s < len {
                    old(self).lemma_way(s, s);
                    assert(first.parent(s) == if old(self)@.contains(val_x) && old(self).on_way(
                        slot_x,
                        s,
                    ) {
                        old(self)@.roots[s as int]
                    } else {
                        old(self).parent(s)
                    });
                    assert(second.parent(s) == if first@.contains(val_y) && first.on_way(
                        first@.slots[val_y],
                        s,
                    ) {
                        first@.roots[s as int]
                    } else {
                        first.parent(s)
                    });
                    if old(self)@.contains(val_x) {
                        if old(self)@.contains(val_y) {
                            old(self).lemma_way_after(&first, slot_x, slot_y, s);
                        }
                    } else {
                        if old(self)@.contains(val_y) {
                            assert(first.on_way(slot_y, s) == old(self).on_way(slot_y, s));
                        } else if first@.contains(val_y) {
                            first.lemma_way(first@.slots[val_y], s);
                        }
                    }
                } else {
                    if s < first@.roots.len() {
                        first.lemma_way(s, s);
                        assert(first.parent(s) == s);
                        assert(second.parent(s) == if first@.contains(val_y) && first.on_way(
                            first@.slots[val_y],
                            s,
                        ) {
                            first@.roots[s as int]
                        } else {
                            first.parent(s)
                        });
                    } else {
                        second.lemma_way(s, s);
                    }
                }
            }
        }
        px != py
    }
}

} // verus!
