//! A union-find structure over ids, with union by size.

use std::collections::HashMap;
use vstd::prelude::*;
use vstd::std_specs::iter::IteratorSpec;

verus! {

/// Whether `r` stands for itself in the partition `p`, which maps each id to the id that
/// stands for its class.
pub open spec fn is_root(p: Map<usize, usize>, r: usize) -> bool {
    p.contains_key(r) && p[r] == r
}

/// A partition of finitely many ids: each id is mapped to one that stands for itself.
pub open spec fn is_partition(p: Map<usize, usize>) -> bool {
    &&& p.dom().finite()
    &&& forall|x: usize| p.contains_key(x) ==> is_root(p, #[trigger] p[x])
}

/// The ids for which `r` stands.
pub open spec fn class_of(p: Map<usize, usize>, r: usize) -> Set<usize> {
    Set::new(|x: usize| p.contains_key(x) && p[x] == r)
}

/// The partition in which the class of `from` has joined that of `into`.
pub open spec fn merged(p: Map<usize, usize>, from: usize, into: usize) -> Map<usize, usize> {
    Map::new(
        |x: usize| p.contains_key(x),
        |x: usize|
            if p[x] == from {
                into
            } else {
                p[x]
            },
    )
}

/// The partition after the classes of `x` and `y` were united: the strictly smaller class
/// joins the other, and of two classes of one size that of `y` joins that of `x`.
pub open spec fn united(p: Map<usize, usize>, x: usize, y: usize) -> Map<usize, usize> {
    if p[x] == p[y] {
        p
    } else if class_of(p, p[x]).len() < class_of(p, p[y]).len() {
        merged(p, p[x], p[y])
    } else {
        merged(p, p[y], p[x])
    }
}

/// Whether `r` stands for a class that no other exceeds in size.
pub open spec fn is_largest_root(p: Map<usize, usize>, r: usize) -> bool {
    &&& is_root(p, r)
    &&& forall|s: usize| #[trigger] is_root(p, s) ==> class_of(p, s).len() <= class_of(p, r).len()
}

/// The classes of a partition are finite and lie in its domain; two of them are disjoint and
/// together no larger than the domain.
pub proof fn lemma_classes(p: Map<usize, usize>, r: usize, s: usize)
    requires
        is_partition(p),
    ensures
        class_of(p, r).finite(),
        class_of(p, r).len() <= p.dom().len(),
        is_root(p, r) ==> class_of(p, r).contains(r),
        r != s ==> class_of(p, r).len() + class_of(p, s).len() == (class_of(p, r) + class_of(
            p,
            s,
        )).len(),
        r != s ==> class_of(p, r).len() + class_of(p, s).len() <= p.dom().len(),
{
    let a = class_of(p, r);
    let b = class_of(p, s);
    assert(a.subset_of(p.dom()));
    assert(b.subset_of(p.dom()));
    vstd::set_lib::lemma_set_subset_finite(p.dom(), a);
    vstd::set_lib::lemma_set_subset_finite(p.dom(), b);
    vstd::set_lib::lemma_len_subset(a, p.dom());
    if r != s {
        assert(a.disjoint(b));
        vstd::set_lib::lemma_set_disjoint_lens(a, b);
        assert((a + b).subset_of(p.dom()));
        vstd::set_lib::lemma_len_subset(a + b, p.dom());
    }
}

/// What merging two classes does to the classes.
pub proof fn lemma_merged(p: Map<usize, usize>, from: usize, into: usize)
    requires
        is_partition(p),
        is_root(p, from),
        is_root(p, into),
        from != into,
    ensures
        is_partition(merged(p, from, into)),
        merged(p, from, into).dom() == p.dom(),
        class_of(merged(p, from, into), into) == class_of(p, into) + class_of(p, from),
        class_of(merged(p, from, into), into).len() == class_of(p, into).len() + class_of(
            p,
            from,
        ).len(),
        forall|s: usize|
            s != from && s != into ==> #[trigger] class_of(merged(p, from, into), s) == class_of(
                p,
                s,
            ),
        forall|s: usize| is_root(merged(p, from, into), s) <==> is_root(p, s) && s != from,
{
    let q = merged(p, from, into);
    assert(q.dom() =~= p.dom());
    assert forall|x: usize| q.contains_key(x) implies is_root(q, #[trigger] q[x]) by {
        assert(is_root(p, p[x]));
    }
    assert(class_of(q, into) =~= class_of(p, into) + class_of(p, from));
    lemma_classes(p, into, from);
    assert forall|s: usize| s != from && s != into implies #[trigger] class_of(q, s) == class_of(
        p,
        s,
    ) by {
        assert(class_of(q, s) =~= class_of(p, s));
    }
}

/// What a new id, standing for itself, does to the classes.
pub proof fn lemma_inserted(p: Map<usize, usize>, x: usize)
    requires
        is_partition(p),
        !p.contains_key(x),
    ensures
        is_partition(p.insert(x, x)),
        class_of(p.insert(x, x), x).len() == 1,
        forall|s: usize| s != x ==> #[trigger] class_of(p.insert(x, x), s) == class_of(p, s),
{
    let q = p.insert(x, x);
    assert forall|z: usize| q.contains_key(z) implies is_root(q, #[trigger] q[z]) by {
        if z != x {
            assert(is_root(p, p[z]));
        }
    }
    assert(class_of(q, x) =~= set![x]) by {
        assert forall|z: usize| class_of(q, x).contains(z) implies z == x by {
            if z != x {
                assert(is_root(p, p[z]));
            }
        }
    }
    assert forall|s: usize| s != x implies #[trigger] class_of(q, s) == class_of(p, s) by {
        assert(class_of(q, s) =~= class_of(p, s));
    }
}

/// The partition after the listed ids were added, one after the other, to none.
pub open spec fn singletons(ids: Seq<usize>) -> Map<usize, usize>
    decreases ids.len(),
{
    if ids.len() == 0 {
        Map::empty()
    } else {
        singletons(ids.drop_last()).insert(ids.last(), ids.last())
    }
}

/// Each of the listed ids stands for itself.
proof fn lemma_singletons(ids: Seq<usize>)
    ensures
        singletons(ids) == Map::new(|x: usize| ids.contains(x), |x: usize| x),
    decreases ids.len(),
{
    let shape = Map::new(|x: usize| ids.contains(x), |x: usize| x);
    if ids.len() == 0 {
        assert(singletons(ids) =~= shape);
    } else {
        let rest = ids.drop_last();
        lemma_singletons(rest);
        crate::adjacency::lemma_push_members(rest, ids.last());
        assert(ids == rest.push(ids.last()));
        assert forall|z: usize| singletons(ids).contains_key(z) <==> shape.contains_key(z) by {
            assert(rest.push(ids.last()).contains(z) <==> rest.contains(z) || z == ids.last());
        }
        assert(singletons(ids) =~= shape);
    }
}

/// The partition after the first `links` unions of a chain: of the first id with the second,
/// of the second with the third, and so on.
pub open spec fn chained(p: Map<usize, usize>, ids: Seq<usize>, links: nat) -> Map<usize, usize>
    decreases links,
{
    if links == 0 {
        p
    } else {
        united(chained(p, ids, (links - 1) as nat), ids[links - 1], ids[links as int])
    }
}

/// Uniting distinct ids, each in a class of its own, in a chain leaves one class more with
/// each union: after `links` unions the first id stands for the first `links + 1` ids, and
/// each other id for itself.
pub proof fn law_chain_prefix(ids: Seq<usize>, links: nat)
    requires
        ids.no_duplicates(),
        links < ids.len(),
    ensures
        is_partition(chained(singletons(ids), ids, links)),
        chained(singletons(ids), ids, links) == Map::new(
            |x: usize| ids.contains(x),
            |x: usize|
                if ids.take(links as int + 1).contains(x) {
                    ids[0]
                } else {
                    x
                },
        ),
        class_of(chained(singletons(ids), ids, links), ids[0]) == ids.take(links as int + 1).to_set(),
        class_of(chained(singletons(ids), ids, links), ids[0]).len() == links + 1,
    decreases links,
{
    lemma_singletons(ids);
    let p = chained(singletons(ids), ids, links);
    let seen = ids.take(links as int + 1);
    let shape = Map::new(
        |x: usize| ids.contains(x),
        |x: usize|
            if seen.contains(x) {
                ids[0]
            } else {
                x
            },
    );
    assert(seen[0] == ids[0]);
    assert(ids.contains(ids[0]));
    vstd::seq_lib::seq_to_set_is_finite(ids);
    assert(shape.dom() =~= ids.to_set());
    assert forall|x: usize| seen.contains(x) implies ids.contains(x) by {
        let k = choose|k: int| 0 <= k < seen.len() && seen[k] == x;
        assert(ids[k] == x);
    }
    if links == 0 {
        assert(seen =~= seq![ids[0]]);
        assert(p =~= shape) by {
            assert forall|x: usize| ids.contains(x) implies p[x] == shape[x] by {
                if seen.contains(x) {
                    let k = choose|k: int| 0 <= k < seen.len() && seen[k] == x;
                }
            }
        }
    } else {
        let before = (links - 1) as nat;
        law_chain_prefix(ids, before);
        let q = chained(singletons(ids), ids, before);
        let head = ids.take(links as int);
        let x = ids[links - 1];
        let y = ids[links as int];
        assert(head[links - 1] == x);
        assert(ids.contains(y));
        assert(!head.contains(y)) by {
            if head.contains(y) {
                let k = choose|k: int| 0 <= k < head.len() && head[k] == y;
                assert(ids[k] == ids[links as int]);
            }
        }
        assert(q[x] == ids[0] && q[y] == y);
        assert(y != ids[0]) by {
            assert(head[0] == ids[0]);
        }
        assert(class_of(q, y) =~= set![y]) by {
            assert forall|z: usize| class_of(q, y).contains(z) implies z == y by {}
        }
        lemma_merged(q, y, ids[0]);
        assert(p == merged(q, y, ids[0]));
        assert(seen == head.push(y));
        assert(p =~= shape) by {
            assert forall|z: usize| ids.contains(z) implies p[z] == shape[z] by {
                if head.contains(z) {
                    let k = choose|k: int| 0 <= k < head.len() && head[k] == z;
                    assert(seen[k] == z);
                }
                if z == y {
                    assert(seen[links as int] == y);
                }
                if seen.contains(z) {
                    let k = choose|k: int| 0 <= k < seen.len() && seen[k] == z;
                    if k < links {
                        assert(head[k] == z);
                    }
                }
            }
        }
    }
    assert(class_of(shape, ids[0]) =~= seen.to_set()) by {
        assert forall|z: usize| class_of(shape, ids[0]).contains(z) implies seen.contains(z) by {
            if !seen.contains(z) {
                assert(z == ids[0]);
            }
        }
    }
    assert(seen.no_duplicates()) by {
        assert forall|i: int, j: int| 0 <= i < seen.len() && 0 <= j < seen.len() && i
            != j implies seen[i] != seen[j] by {
            assert(seen[i] == ids[i] && seen[j] == ids[j]);
        }
    }
    seen.unique_seq_to_set();
    assert forall|z: usize| shape.contains_key(z) implies is_root(shape, #[trigger] shape[z]) by {}
}

/// Uniting `k` distinct ids, each in a class of its own, in a chain leaves one class of size
/// `k`, and every class of the greatest size is that one: a map of the largest class marks
/// all ids.
pub proof fn law_chain(ids: Seq<usize>)
    requires
        ids.no_duplicates(),
        ids.len() > 0,
    ensures
        ({
            let p = chained(singletons(ids), ids, (ids.len() - 1) as nat);
            &&& is_partition(p)
            &&& p.dom() == ids.to_set()
            &&& class_of(p, ids[0]).len() == ids.len()
            &&& forall|r: usize, x: usize| is_largest_root(p, r) && p.contains_key(x) ==> p[x] == r
        }),
{
    let links = (ids.len() - 1) as nat;
    let p = chained(singletons(ids), ids, links);
    law_chain_prefix(ids, links);
    assert(ids.take(links as int + 1) == ids);
    assert(p.dom() =~= ids.to_set());
    assert(ids.contains(ids[0]));
    assert forall|r: usize, x: usize| is_largest_root(p, r) && p.contains_key(x) implies p[x]
        == r by {}
}

/// What the table holds under an id: the size of the class it stands for, or the id that it
/// is linked to.
#[derive(Clone, Copy)]
pub enum FastDSUEntry {
    Root(usize),
    Linked(usize),
}

/// A union-find structure on ids, with union by size and path compression. Its view is the
/// partition: the map from each id to the id that stands for its class.
pub struct FastDSU {
    parent: HashMap<usize, FastDSUEntry>,
    roots: Ghost<Map<usize, usize>>,
    rank: Ghost<Map<usize, nat>>,
    bound: Ghost<nat>,
}

impl View for FastDSU {
    type V = Map<usize, usize>;

    /// The partition that the structure shows.
    closed spec fn view(&self) -> Map<usize, usize> {
        self.roots@
    }
}

impl FastDSU {
    /// The invariant of the type: the links lead from each id, without a cycle, to the id
    /// that stands for its class, and that id holds the size of the class.
    pub closed spec fn wf(&self) -> bool {
        &&& self.parent@.dom() == self.roots@.dom()
        &&& is_partition(self.roots@)
        &&& forall|x: usize| self.parent@.contains_key(x) ==> #[trigger] self.entry_ok(x)
    }

    /// What the invariant says of the id `x`: where it stands for itself it holds the size of
    /// its class, and else it is linked to an id of its class that is nearer to the one that
    /// stands for the class.
    spec fn entry_ok(&self, x: usize) -> bool {
        &&& self.rank@.contains_key(x)
        &&& self.rank@[x] <= self.bound@
        &&& match self.parent@[x] {
            FastDSUEntry::Root(size) => self.roots@[x] == x && size == class_of(
                self.roots@,
                x,
            ).len(),
            FastDSUEntry::Linked(p) => self.parent@.contains_key(p) && self.roots@[p]
                == self.roots@[x] && self.rank@[x] < self.rank@[p] && self.roots@[x] != x,
        }
    }

    /// A bound on the number of links between `x` and the id that stands for its class.
    pub closed spec fn way_up(&self, x: usize) -> nat {
        (self.bound@ - self.rank@[x]) as nat
    }

    /// The id that `x` is linked to; `x` itself where it stands for its class.
    pub closed spec fn parent_of(&self, x: usize) -> usize {
        match self.parent@[x] {
            FastDSUEntry::Linked(p) => p,
            FastDSUEntry::Root(_) => x,
        }
    }

    /// Whether `s` lies on the way that the links lead from `x`: `x` itself, the id that it
    /// is linked to, and so on up to the id that stands for the class.
    pub closed spec fn on_way(&self, x: usize, s: usize) -> bool
        decreases self.way_up(x),
        when self.wf() && self@.contains_key(x)
        via Self::on_way_ends
    {
        s == x || match self.parent@[x] {
            FastDSUEntry::Linked(p) => self.on_way(p, s),
            FastDSUEntry::Root(_) => false,
        }
    }

    /// The way ends: a link leads nearer to the id that stands for the class.
    #[via_fn]
    proof fn on_way_ends(&self, x: usize, s: usize) {
        assert(self.entry_ok(x));
        if let FastDSUEntry::Linked(p) = self.parent@[x] {
            assert(self.entry_ok(p));
        }
    }

    /// A well-formed structure shows a partition.
    pub proof fn lemma_view(&self)
        requires
            self.wf(),
        ensures
            is_partition(self@),
    {
    }

    /// The links lead within the class: an id that stands for itself is linked to itself,
    /// and every other id to another of its class. The way from an id goes through the id
    /// itself and on from the one it is linked to.
    pub proof fn lemma_way(&self, x: usize, s: usize)
        requires
            self.wf(),
            self@.contains_key(x),
        ensures
            self@.contains_key(self.parent_of(x)),
            self@[self.parent_of(x)] == self@[x],
            self.parent_of(x) == x <==> self@[x] == x,
            self.on_way(x, s) <==> s == x || (self.parent_of(x) != x && self.on_way(
                self.parent_of(x),
                s,
            )),
            self.on_way(x, s) ==> self@.contains_key(s) && self@[s] == self@[x],
            self.on_way(x, self@[x]),
        decreases self.way_up(x),
    {
        assert(self.entry_ok(x));
        match self.parent@[x] {
            FastDSUEntry::Linked(p) => {
                assert(self.entry_ok(p));
                self.lemma_way(p, s);
                self.lemma_way(p, self@[x]);
            },
            FastDSUEntry::Root(_) => {},
        }
    }

    /// A way goes on along the ways of the ids that lie on it.
    proof fn lemma_way_goes_on(&self, x: usize, y: usize, s: usize)
        requires
            self.wf(),
            self@.contains_key(x),
            self@.contains_key(y),
            self.on_way(x, y),
            self.on_way(y, s),
        ensures
            self.on_way(x, s),
        decreases self.way_up(x),
    {
        self.lemma_way(x, y);
        self.lemma_way(x, s);
        if y != x {
            assert(self.entry_ok(x));
            assert(self.entry_ok(self.parent_of(x)));
            self.lemma_way_goes_on(self.parent_of(x), y, s);
        }
    }

    /// The ways after the way from `x` was shortened: the way from `y` holds no id that it
    /// did not hold, and still every id of it that did not lie on the way from `x`.
    proof fn lemma_way_after(&self, after: &Self, x: usize, y: usize, s: usize)
        requires
            self.wf(),
            after.wf(),
            after.roots == self.roots,
            after.rank == self.rank,
            after.bound == self.bound,
            self@.contains_key(x),
            self@.contains_key(y),
            forall|z: usize|
                self@.contains_key(z) ==> #[trigger] after.parent_of(z) == if self.on_way(x, z) {
                    self@[z]
                } else {
                    self.parent_of(z)
                },
        ensures
            after.on_way(y, s) ==> self.on_way(y, s),
            self.on_way(y, s) && !self.on_way(x, s) ==> after.on_way(y, s),
        decreases self.way_up(y),
    {
        self.lemma_way(y, s);
        after.lemma_way(y, s);
        assert(after.parent_of(y) == if self.on_way(x, y) {
            self@[y]
        } else {
            self.parent_of(y)
        });
        if s != y {
            if self.on_way(x, y) {
                if self.on_way(y, s) {
                    self.lemma_way_goes_on(x, y, s);
                }
                if after.on_way(y, s) {
                    // the way from `y` now leads straight to the root
                    let root = self@[y];
                    after.lemma_way(root, s);
                    assert(s == root);
                }
            } else if self.parent_of(y) != y {
                assert(self.entry_ok(y));
                assert(self.entry_ok(self.parent_of(y)));
                self.lemma_way_after(after, x, self.parent_of(y), s);
            }
        }
    }

    /// A structure without ids.
    pub fn new() -> (s: Self)
        ensures
            s.wf(),
            s@ == Map::<usize, usize>::empty(),
    {
        Self {
            parent: HashMap::new(),
            roots: Ghost(Map::empty()),
            rank: Ghost(Map::empty()),
            bound: Ghost(0),
        }
    }

    /// Adds the id `x`, in a class of its own.
    pub fn add(&mut self, x: usize)
        requires
            old(self).wf(),
            !old(self)@.contains_key(x),
        ensures
            final(self).wf(),
            final(self)@ == old(self)@.insert(x, x),
            forall|s: usize|
                old(self)@.contains_key(s) ==> #[trigger] final(self).parent_of(s) == old(
                    self,
                ).parent_of(s),
    {
        proof {
            lemma_inserted(self.roots@, x);
        }
        self.parent.insert(x, FastDSUEntry::Root(1));
        self.roots = Ghost(self.roots@.insert(x, x));
        self.rank = Ghost(self.rank@.insert(x, 0));
        proof {
            assert(self.parent@.dom() =~= self.roots@.dom());
            assert forall|z: usize| self.parent@.contains_key(z) implies #[trigger] self.entry_ok(
                z,
            ) by {
                if z != x {
                    assert(old(self).entry_ok(z));
                    assert(class_of(self.roots@, z) == class_of(old(self).roots@, z));
                }
            }
            assert forall|s: usize| old(self)@.contains_key(s) implies #[trigger] self.parent_of(s)
                == old(self).parent_of(s) by {
                assert(old(self).entry_ok(s));
            }
        }
    }

    /// The id that stands for the class of `x`. Nothing is changed.
    pub fn find(&self, x: &usize) -> (r: usize)
        requires
            self.wf(),
            self@.contains_key(*x),
        ensures
            r == self@[*x],
        decreases self.way_up(*x),
    {
        proof {
            assert(self.entry_ok(*x));
            if let FastDSUEntry::Linked(p) = self.parent@[*x] {
                assert(self.entry_ok(p));
            }
        }
        match self.parent.get(x) {
            Some(FastDSUEntry::Linked(p)) => self.find(p),
            _ => *x,
        }
    }

    /// Finds the id that stands for the class of `x`, and the size of the class, and links
    /// every id on the way directly to it.
    fn compress(&mut self, x: usize) -> (r: (usize, usize))
        requires
            old(self).wf(),
            old(self)@.contains_key(x),
        ensures
            final(self).wf(),
            final(self).roots == old(self).roots,
            final(self).rank == old(self).rank,
            final(self).bound == old(self).bound,
            r.0 == old(self).roots@[x],
            r.1 == class_of(old(self).roots@, r.0).len(),
            final(self).parent@[r.0] == FastDSUEntry::Root(r.1),
            old(self).rank@[x] <= old(self).rank@[r.0],
            forall|z: usize|
                old(self)@.contains_key(z) ==> #[trigger] final(self).parent_of(z) == if old(
                    self,
                ).on_way(x, z) {
                    old(self)@[z]
                } else {
                    old(self).parent_of(z)
                },
        decreases old(self).bound@ - old(self).rank@[x],
    {
        proof {
            assert(self.entry_ok(x));
            if let FastDSUEntry::Linked(p) = self.parent@[x] {
                assert(self.entry_ok(p));
            }
        }
        let entry = self.parent.get(&x);
        match entry {
            Some(FastDSUEntry::Linked(p)) => {
                let p = *p;
                let (root, size) = self.compress(p);
                let ghost before = *self;
                self.parent.insert(x, FastDSUEntry::Linked(root));
                proof {
                    assert(is_root(self.roots@, self.roots@[x]));
                    assert(before.entry_ok(x));
                    assert(before.entry_ok(root));
                    assert(self.parent@.dom() =~= self.roots@.dom());
                    assert forall|z: usize| self.parent@.contains_key(z) implies #[trigger] self.entry_ok(
                        z,
                    ) by {
                        assert(before.entry_ok(z));
                    }
                    assert forall|z: usize| old(self)@.contains_key(z) implies #[trigger] self.parent_of(
                        z,
                    ) == if old(self).on_way(x, z) {
                        old(self)@[z]
                    } else {
                        old(self).parent_of(z)
                    } by {
                        old(self).lemma_way(x, z);
                        assert(before.parent_of(z) == if old(self).on_way(p, z) {
                            old(self)@[z]
                        } else {
                            old(self).parent_of(z)
                        });
                    }
                }
                (root, size)
            },
            Some(FastDSUEntry::Root(size)) => {
                proof {
                    assert forall|z: usize| old(self)@.contains_key(z) implies #[trigger] self.parent_of(
                        z,
                    ) == if old(self).on_way(x, z) {
                        old(self)@[z]
                    } else {
                        old(self).parent_of(z)
                    } by {
                        old(self).lemma_way(x, z);
                    }
                }
                (x, *size)
            },
            None => (x, 0),
        }
    }

    /// The id that stands for the class of `x`, and the size of the class. The partition
    /// stays as it is; every id on the way from `x` is linked directly to that id.
    pub fn find_all(&mut self, x: usize) -> (r: (usize, usize))
        requires
            old(self).wf(),
            old(self)@.contains_key(x),
        ensures
            final(self).wf(),
            final(self)@ == old(self)@,
            r.0 == old(self)@[x],
            r.1 == class_of(old(self)@, r.0).len(),
            forall|s: usize|
                old(self)@.contains_key(s) ==> #[trigger] final(self).parent_of(s) == if old(
                    self,
                ).on_way(x, s) {
                    old(self)@[s]
                } else {
                    old(self).parent_of(s)
                },
    {
        self.compress(x)
    }

    /// Unites the classes of `x` and `y`, and says whether they were two.
    pub fn union(&mut self, x: usize, y: usize) -> (b: bool)
        requires
            old(self).wf(),
            old(self)@.contains_key(x),
            old(self)@.contains_key(y),
        ensures
            final(self).wf(),
            final(self)@ == united(old(self)@, x, y),
            b == (old(self)@[x] != old(self)@[y]),
            forall|s: usize|
                old(self)@.contains_key(s) ==> #[trigger] final(self).parent_of(s) == if old(
                    self,
                )@[s] == s {
                    final(self)@[s]
                } else if old(self).on_way(x, s) || old(self).on_way(y, s) {
                    old(self)@[s]
                } else {
                    old(self).parent_of(s)
                },
    {
        let (root_x, x_num) = self.compress(x);
        let ghost first = *self;
        let (root_y, y_num) = self.compress(y);
        let ghost second = *self;
        proof {
            assert forall|s: usize| old(self)@.contains_key(s) implies #[trigger] second.parent_of(
                s,
            ) == if old(self)@[s] == s {
                s
            } else if old(self).on_way(x, s) || old(self).on_way(y, s) {
                old(self)@[s]
            } else {
                old(self).parent_of(s)
            } by {
                old(self).lemma_way_after(&first, x, y, s);
                old(self).lemma_way(s, s);
                assert(first.parent_of(s) == if old(self).on_way(x, s) {
                    old(self)@[s]
                } else {
                    old(self).parent_of(s)
                });
            }
        }
        if root_x != root_y {
            let ghost p = self.roots@;
            proof {
                assert(is_root(p, root_x) && is_root(p, root_y));
                lemma_classes(p, root_x, root_y);
                let len = self.parent.len();
                assert(p.dom().len() == len);
            }
            if x_num < y_num {
                self.link(root_x, root_y, x_num + y_num);
            } else {
                self.link(root_y, root_x, x_num + y_num);
            }
            proof {
                assert forall|s: usize| old(self)@.contains_key(s) implies #[trigger] self.parent_of(
                    s,
                ) == if old(self)@[s] == s {
                    self@[s]
                } else if old(self).on_way(x, s) || old(self).on_way(y, s) {
                    old(self)@[s]
                } else {
                    old(self).parent_of(s)
                } by {
                    assert(second.parent_of(s) == if old(self)@[s] == s {
                        s
                    } else if old(self).on_way(x, s) || old(self).on_way(y, s) {
                        old(self)@[s]
                    } else {
                        old(self).parent_of(s)
                    });
                }
            }
            true
        } else {
            false
        }
    }

    /// Links the root `from` under the root `into`, which then stands for `size` ids.
    fn link(&mut self, from: usize, into: usize, size: usize)
        requires
            old(self).wf(),
            is_root(old(self).roots@, from),
            is_root(old(self).roots@, into),
            from != into,
            size == class_of(old(self).roots@, from).len() + class_of(old(self).roots@, into).len(),
        ensures
            final(self).wf(),
            final(self).roots@ == merged(old(self).roots@, from, into),
            final(self).parent_of(from) == into,
            forall|z: usize|
                old(self)@.contains_key(z) && z != from ==> #[trigger] final(self).parent_of(z)
                    == old(self).parent_of(z),
    {
        let ghost p = self.roots@;
        let ghost q = merged(p, from, into);
        let ghost before = *self;
        let ghost ranks = self.rank@;
        let ghost top: nat = if ranks[into] > ranks[from] {
            ranks[into]
        } else {
            ranks[from] + 1
        };
        proof {
            lemma_merged(p, from, into);
            assert(before.entry_ok(from) && before.entry_ok(into));
        }
        self.parent.insert(from, FastDSUEntry::Linked(into));
        self.parent.insert(into, FastDSUEntry::Root(size));
        self.roots = Ghost(q);
        self.rank = Ghost(ranks.insert(into, top));
        self.bound = Ghost(if self.bound@ > top { self.bound@ } else { top });
        proof {
            assert(self.parent@.dom() =~= self.roots@.dom());
            assert forall|z: usize| self.parent@.contains_key(z) implies #[trigger] self.entry_ok(
                z,
            ) by {
                assert(before.entry_ok(z));
                if z != from && z != into {
                    match before.parent@[z] {
                        FastDSUEntry::Root(_) => {
                            assert(class_of(q, z) == class_of(p, z));
                        },
                        FastDSUEntry::Linked(up) => {
                            assert(before.entry_ok(up));
                            assert(is_root(p, p[z]));
                        },
                    }
                }
            }
        }
    }

    /// The ids, each once, in no particular order.
    pub fn ids(&self) -> (list: Vec<usize>)
        ensures
            list@.no_duplicates(),
            self.wf() ==> list@.to_set() == self@.dom(),
    {
        let mut list: Vec<usize> = Vec::new();
        let ghost walk = self.parent.keys().remaining().unref();
        for k in it: self.parent.keys()
            invariant
                walk == it.seq().unref(),
                list@ == walk.take(it.index()),
        {
            list.push(*k);
        }
        assert(list@ == walk);
        list
    }

    /// For each id, whether it lies in the largest class. Of several classes of the greatest
    /// size, one is taken.
    pub fn retain_map(&self) -> (map: HashMap<usize, bool>)
        requires
            self.wf(),
            self@.len() > 0,
        ensures
            map@.dom() == self@.dom(),
            exists|r: usize| #[trigger]
                is_largest_root(self@, r) && forall|x: usize|
                    self@.contains_key(x) ==> map@[x] == (self@[x] == r),
    {
        let ids = self.ids();
        let count = ids.len();
        let mut root: usize = 0;
        let mut size: usize = 0;
        let mut found = false;
        let mut i: usize = 0;
        while i < count
            invariant
                i <= count,
                count == ids@.len(),
                self.wf(),
                ids@.to_set() == self.roots@.dom(),
                found ==> is_root(self.roots@, root) && size == class_of(self.roots@, root).len(),
                forall|j: int|
                    0 <= j < i && is_root(self.roots@, #[trigger] ids@[j]) ==> found && class_of(
                        self.roots@,
                        ids@[j],
                    ).len() <= size,
            decreases count - i,
        {
            let k = ids[i];
            proof {
                assert(ids@.to_set().contains(ids@[i as int]));
                assert(self.entry_ok(k));
            }
            match self.parent.get(&k) {
                Some(FastDSUEntry::Root(num)) => {
                    if !found || *num >= size {
                        root = k;
                        size = *num;
                        found = true;
                    }
                },
                _ => {},
            }
            i += 1;
        }
        proof {
            assert forall|s: usize| #[trigger] is_root(self.roots@, s) implies found && class_of(
                self.roots@,
                s,
            ).len() <= size by {
                assert(ids@.to_set().contains(s));
                let j = choose|j: int| 0 <= j < ids@.len() && ids@[j] == s;
                assert(is_root(self.roots@, ids@[j]));
            }
            assert(self.roots@.dom().len() > 0);
            let some = self.roots@.dom().choose();
            assert(self.roots@.contains_key(some));
            assert(is_root(self.roots@, self.roots@[some]));
            assert(is_largest_root(self.roots@, root));
        }
        let mut map: HashMap<usize, bool> = HashMap::new();
        let mut i: usize = 0;
        while i < count
            invariant
                i <= count,
                count == ids@.len(),
                self.wf(),
                ids@.to_set() == self.roots@.dom(),
                map@.dom() == ids@.take(i as int).to_set(),
                forall|x: usize| #[trigger]
                    map@.contains_key(x) ==> map@[x] == (self.roots@[x] == root),
            decreases count - i,
        {
            let k = ids[i];
            proof {
                assert(ids@.to_set().contains(ids@[i as int]));
                assert(ids@.take(i + 1) == ids@.take(i as int).push(k));
                ids@.take(i as int).lemma_push_to_set_commute(k);
            }
            let inside = self.find(&k) == root;
            map.insert(k, inside);
            i += 1;
        }
        proof {
            assert(ids@.take(count as int) == ids@);
        }
        map
    }
}

} // verus!
