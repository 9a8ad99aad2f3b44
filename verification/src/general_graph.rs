//! The sparse form of a graph, and its largest connected component.

use crate::connectivity::{
    component_of, in_largest_component, lemma_connected_refl, lemma_tracks_components,
    lemma_tracks_union, tracks,
};
use crate::fast_dsu::{class_of, is_largest_root, is_root, FastDSU};
use core::cmp::Ordering;
use std::collections::BTreeSet;
use std::collections::HashSet;
use vstd::prelude::*;
use vstd::std_specs::cmp::OrdSpec;
use vstd::std_specs::iter::IteratorSpec;

verus! {

/// A sparse undirected graph: arbitrary node labels, and each edge once, smaller end first.
pub struct GeneralUndiGraph {
    pub name: String,
    pub nodes: HashSet<usize>,
    pub edges: BTreeSet<(usize, usize)>,
}

/// The stored form of the edge between `u` and `v`.
pub open spec fn canonical(u: usize, v: usize) -> (usize, usize) {
    if u < v {
        (u, v)
    } else {
        (v, u)
    }
}

/// An edge is stored in one form, whichever end is named first, and smaller end first.
pub proof fn law_canonical(u: usize, v: usize)
    ensures
        canonical(u, v) == canonical(v, u),
        canonical(u, v).0 <= canonical(u, v).1,
        canonical(u, v) == (u, v) || canonical(u, v) == (v, u),
{
}

/// Lexicographic order on pairs.
pub open spec fn lex_less(a: (usize, usize), b: (usize, usize)) -> bool {
    a.0 < b.0 || (a.0 == b.0 && a.1 < b.1)
}

/// Strictly ascending in lexicographic order.
pub open spec fn lex_ascending(s: Seq<(usize, usize)>) -> bool {
    forall|i: int, j: int| 0 <= i < j < s.len() ==> lex_less(#[trigger] s[i], #[trigger] s[j])
}

/// `order` lists the members of `edges`, each once, in lexicographic order.
pub open spec fn enumerates(order: Seq<(usize, usize)>, edges: Set<(usize, usize)>) -> bool {
    lex_ascending(order) && order.to_set() == edges
}

/// The members of a finite set of pairs in lexicographic order.
pub open spec fn edge_order(edges: Set<(usize, usize)>) -> Seq<(usize, usize)> {
    choose|order: Seq<(usize, usize)>| enumerates(order, edges)
}

/// A set of pairs has at most one enumeration.
pub proof fn lemma_enumeration_unique(
    a: Seq<(usize, usize)>,
    b: Seq<(usize, usize)>,
    edges: Set<(usize, usize)>,
)
    requires
        enumerates(a, edges),
        enumerates(b, edges),
    ensures
        a == b,
    decreases a.len(),
{
    if a.len() == 0 {
        if b.len() > 0 {
            assert(b.to_set().contains(b[0]));
            assert(a.contains(b[0]));
        }
        assert(a =~= b);
    } else {
        let x = a.last();
        assert(a.to_set().contains(x));
        assert(b.contains(x));
        let k = choose|k: int| 0 <= k < b.len() && b[k] == x;
        let y = b.last();
        assert(b.to_set().contains(y));
        assert(a.contains(y));
        let l = choose|l: int| 0 <= l < a.len() && a[l] == y;
        // x is the greatest member on both sides
        assert(k == b.len() - 1) by {
            if k < b.len() - 1 {
                assert(lex_less(b[k], b[b.len() - 1]));
                if l < a.len() - 1 {
                    assert(lex_less(a[l], a[a.len() - 1]));
                }
            }
        }
        let a0 = a.drop_last();
        let b0 = b.drop_last();
        let rest = edges.remove(x);
        assert(a0.to_set() =~= rest) by {
            assert forall|e: (usize, usize)| a0.to_set().contains(e) <==> rest.contains(e) by {
                if a0.contains(e) {
                    let i = choose|i: int| 0 <= i < a0.len() && a0[i] == e;
                    assert(a[i] == e);
                    assert(lex_less(a[i], a[a.len() - 1]));
                    assert(a.to_set().contains(e));
                }
                if rest.contains(e) {
                    assert(a.contains(e));
                    let i = choose|i: int| 0 <= i < a.len() && a[i] == e;
                    assert(a0[i] == e);
                }
            }
        }
        assert(b0.to_set() =~= rest) by {
            assert forall|e: (usize, usize)| b0.to_set().contains(e) <==> rest.contains(e) by {
                if b0.contains(e) {
                    let i = choose|i: int| 0 <= i < b0.len() && b0[i] == e;
                    assert(b[i] == e);
                    assert(lex_less(b[i], b[b.len() - 1]));
                    assert(b.to_set().contains(e));
                }
                if rest.contains(e) {
                    assert(b.contains(e));
                    let i = choose|i: int| 0 <= i < b.len() && b[i] == e;
                    assert(b0[i] == e);
                }
            }
        }
        lemma_enumeration_unique(a0, b0, rest);
        assert(a =~= a0.push(x));
        assert(b =~= b0.push(x));
    }
}

/// Where `x` belongs in the list: the place of the first pair, from `from` on, that is not
/// before `x`; the length of the list if there is none.
pub open spec fn place_of(order: Seq<(usize, usize)>, x: (usize, usize), from: int) -> int
    decreases order.len() - from,
{
    if from >= order.len() {
        order.len() as int
    } else if !lex_less(order[from], x) {
        from
    } else {
        place_of(order, x, from + 1)
    }
}

/// The place of `x` lies within the list; the pairs before it are before `x`, and the pair
/// at it is not.
proof fn lemma_place_of(order: Seq<(usize, usize)>, x: (usize, usize), from: int)
    requires
        0 <= from <= order.len(),
    ensures
        from <= place_of(order, x, from) <= order.len(),
        forall|i: int| from <= i < place_of(order, x, from) ==> lex_less(order[i], x),
        place_of(order, x, from) < order.len() ==> !lex_less(order[place_of(order, x, from)], x),
    decreases order.len() - from,
{
    if from < order.len() && lex_less(order[from], x) {
        lemma_place_of(order, x, from + 1);
    }
}

/// Every finite set of pairs has an enumeration, which is its order.
pub proof fn law_edge_order(edges: Set<(usize, usize)>)
    requires
        edges.finite(),
    ensures
        enumerates(edge_order(edges), edges),
        edge_order(edges).len() == edges.len(),
        edge_order(edges).no_duplicates(),
    decreases edges.len(),
{
    if edges.len() == 0 {
        let none = Seq::<(usize, usize)>::empty();
        assert(edges =~= Set::<(usize, usize)>::empty());
        assert(none.to_set() =~= edges);
        assert(enumerates(none, edges));
    } else {
        let x = edges.choose();
        let rest = edges.remove(x);
        law_edge_order(rest);
        let before = edge_order(rest);
        lemma_place_of(before, x, 0);
        let k = place_of(before, x, 0);
        let order = before.take(k).push(x) + before.skip(k);
        assert forall|i: int| k <= i < before.len() implies lex_less(x, before[i]) by {
            assert(before.to_set().contains(before[i]));
            assert(before[i] != x);
            if k < i {
                assert(lex_less(before[k], before[i]));
            }
        }
        assert forall|i: int, j: int| 0 <= i < j < order.len() implies lex_less(
            #[trigger] order[i],
            #[trigger] order[j],
        ) by {
            if j < k {
                assert(lex_less(before[i], before[j]));
            } else if j == k {
            } else if i < k {
                assert(lex_less(before[i], before[j - 1]));
            } else if i == k {
            } else {
                assert(lex_less(before[i - 1], before[j - 1]));
            }
        }
        assert(order.to_set() =~= edges) by {
            assert forall|e: (usize, usize)| order.to_set().contains(e) <==> edges.contains(e) by {
                if order.contains(e) {
                    let i = choose|i: int| 0 <= i < order.len() && order[i] == e;
                    if i < k {
                        assert(before.to_set().contains(before[i]));
                    } else if i > k {
                        assert(before.to_set().contains(before[i - 1]));
                    }
                }
                if edges.contains(e) {
                    if e == x {
                        assert(order[k] == e);
                    } else {
                        assert(before.to_set().contains(e));
                        let i = choose|i: int| 0 <= i < before.len() && before[i] == e;
                        if i < k {
                            assert(order[i] == e);
                        } else {
                            assert(order[i + 1] == e);
                        }
                    }
                }
            }
        }
        assert(enumerates(order, edges));
    }
    let order = edge_order(edges);
    assert forall|i: int, j: int| 0 <= i < order.len() && 0 <= j < order.len() && i
        != j implies order[i] != order[j] by {
        if i < j {
            assert(lex_less(order[i], order[j]));
        } else {
            assert(lex_less(order[j], order[i]));
        }
    }
    order.unique_seq_to_set();
}

/// What a `BTreeSet` of pairs hands out is in lexicographic order.
proof fn lemma_walk_is_ascending(refs: Seq<&(usize, usize)>)
    requires
        vstd::std_specs::btree::increasing_seq(refs),
    ensures
        lex_ascending(refs.unref()),
{
    assert(vstd::laws_cmp::obeys_cmp::<usize>());
    assert(vstd::laws_cmp::obeys_cmp::<(usize, usize)>());
    assert(vstd::laws_cmp::obeys_cmp::<&(usize, usize)>());
    let s = refs.unref();
    assert forall|i: int, j: int| 0 <= i < j < s.len() implies lex_less(
        #[trigger] s[i],
        #[trigger] s[j],
    ) by {
        assert(OrdSpec::cmp_spec(&refs[i], &refs[j]) == Ordering::Less);
    }
}

impl GeneralUndiGraph {
    /// The invariant of the type: finitely many nodes and edges, each edge stored smaller end
    /// first, without loops, and between nodes of the graph.
    pub open spec fn wf(&self) -> bool {
        &&& self.nodes@.finite()
        &&& self.edges@.finite()
        &&& forall|u: usize, v: usize| #[trigger]
            self.edges@.contains((u, v)) ==> u < v && self.nodes@.contains(u)
                && self.nodes@.contains(v)
    }

    /// Whether an edge joins `u` and `v`.
    pub open spec fn adjacent(&self, u: usize, v: usize) -> bool {
        self.edges@.contains((u, v)) || self.edges@.contains((v, u))
    }

    /// Whether the labels are exactly `0..n` for the number `n` of nodes.
    pub open spec fn dense(&self) -> bool {
        self.nodes@ == Set::<usize>::range(0, self.nodes@.len() as usize)
    }

    /// A graph of that name without nodes.
    pub fn new(name: String) -> (g: Self)
        ensures
            g.name@ == name@,
            g.nodes@ == Set::<usize>::empty(),
            g.edges@ == Set::<(usize, usize)>::empty(),
            g.wf(),
    {
        Self { name, nodes: HashSet::new(), edges: BTreeSet::new() }
    }

    /// The number of nodes.
    pub fn num_nodes(&self) -> (n: usize)
        ensures
            n == self.nodes@.len(),
    {
        self.nodes.len()
    }

    /// The number of edges.
    pub fn num_edges(&self) -> (m: usize)
        ensures
            m == self.edges@.len(),
    {
        self.edges.len()
    }

    /// Adds the edge between `u` and `v`, and both as nodes; a loop is ignored.
    pub fn add_edge(&mut self, u: usize, v: usize)
        ensures
            final(self).name == old(self).name,
            u == v ==> final(self).nodes@ == old(self).nodes@ && final(self).edges@ == old(
                self,
            ).edges@,
            u != v ==> final(self).nodes@ == old(self).nodes@.insert(u).insert(v),
            u != v ==> final(self).edges@ == old(self).edges@.insert(canonical(u, v)),
            old(self).wf() ==> final(self).wf(),
    {
        if u == v {
            return ;
        }
        self.nodes.insert(u);
        self.nodes.insert(v);
        if u < v {
            self.edges.insert((u, v));
        } else {
            self.edges.insert((v, u));
        }
    }

    /// The edges in lexicographic order.
    pub fn edge_list(&self) -> (list: Vec<(usize, usize)>)
        ensures
            enumerates(list@, self.edges@),
            list@ == edge_order(self.edges@),
            list@.no_duplicates(),
            self.edges@.finite() ==> list@.len() == self.edges@.len(),
    {
        let mut list: Vec<(usize, usize)> = Vec::new();
        let ghost refs = self.edges.iter().remaining();
        for e in it: self.edges.iter()
            invariant
                refs == it.seq(),
                list@ == refs.unref().take(it.index()),
        {
            list.push(*e);
        }
        proof {
            assert(list@ == refs.unref());
            lemma_walk_is_ascending(refs);
            lemma_enumeration_unique(list@, edge_order(self.edges@), self.edges@);
            list@.unique_seq_to_set();
        }
        list
    }

    /// Whether the labels are exactly `0..n`: whether the greatest label is `n - 1`.
    pub fn has_dense_labels(&self) -> (b: bool)
        requires
            self.nodes@.finite(),
        ensures
            b == self.dense(),
    {
        let n = self.nodes.len();
        let mut max: usize = 0;
        let ghost walk = self.nodes.iter().remaining().unref();
        for u in it: self.nodes.iter()
            invariant
                walk == it.seq().unref(),
                forall|k: int| 0 <= k < it.index() ==> walk[k] <= max,
                max == 0 || walk.contains(max),
        {
            if *u > max {
                max = *u;
            }
        }
        proof {
            let range = Set::<usize>::range(0, n);
            vstd::set_lib::range_set_properties::<usize>(0, n);
            assert forall|u: usize| self.nodes@.contains(u) implies u <= max by {
                assert(walk.to_set().contains(u));
                let k = choose|k: int| 0 <= k < walk.len() && walk[k] == u;
                assert(walk[k] <= max);
            }
            if n > 0 && max == n - 1 {
                assert(self.nodes@.subset_of(range));
                vstd::set_lib::lemma_subset_equality(self.nodes@, range);
            }
            if self.dense() && n > 0 {
                assert(range.contains(0));
                assert(range.contains((n - 1) as usize));
                if max != 0 {
                    assert(walk.to_set().contains(max));
                }
                assert(self.nodes@.contains(max));
            }
            if n == 0 {
                assert(self.nodes@ =~= Set::<usize>::empty());
                assert(range =~= Set::<usize>::empty());
            }
        }
        n == 0 || max == n - 1
    }

    /// The largest connected component: the nodes of one component that no other exceeds in
    /// size, and the edges between them.
    pub fn lcc(self) -> (r: Self)
        requires
            self.wf(),
            self.nodes@.len() > 0,
        ensures
            r.wf(),
            r.name@ == self.name@,
            exists|a: usize| #[trigger]
                in_largest_component(self.nodes@, self.edges@, a) && r.nodes@ == component_of(
                    self.nodes@,
                    self.edges@,
                    a,
                ),
            r.edges@ == self.edges@.filter(
                |e: (usize, usize)| r.nodes@.contains(e.0) && r.nodes@.contains(e.1),
            ),
    {
        let node_list = self.node_list();
        let order = self.edge_list();
        let mut dsu = FastDSU::new();
        let mut i: usize = 0;
        while i < node_list.len()
            invariant
                i <= node_list@.len(),
                node_list@.no_duplicates(),
                dsu.wf(),
                dsu@.dom() == node_list@.take(i as int).to_set(),
                forall|z: usize| dsu@.contains_key(z) ==> #[trigger] dsu@[z] == z,
            decreases node_list@.len() - i,
        {
            let u = node_list[i];
            proof {
                let seen = node_list@.take(i as int);
                if seen.contains(u) {
                    let k = choose|k: int| 0 <= k < seen.len() && seen[k] == u;
                    assert(node_list@[k] == node_list@[i as int]);
                }
                assert(node_list@.take(i + 1) == seen.push(u));
                seen.lemma_push_to_set_commute(u);
            }
            dsu.add(u);
            i += 1;
        }
        let ghost nodes = self.nodes@;
        proof {
            assert(node_list@.take(node_list@.len() as int) == node_list@);
            assert(order@.take(0).to_set() =~= Set::<(usize, usize)>::empty());
            dsu.lemma_view();
            assert forall|z: usize| nodes.contains(z) implies crate::connectivity::connected(
                Set::<(usize, usize)>::empty(),
                z,
                #[trigger] dsu@[z],
            ) by {
                lemma_connected_refl(Set::<(usize, usize)>::empty(), z);
            }
        }
        let mut i: usize = 0;
        while i < order.len()
            invariant
                i <= order@.len(),
                self.wf(),
                nodes == self.nodes@,
                order@.to_set() == self.edges@,
                dsu.wf(),
                tracks(dsu@, nodes, order@.take(i as int).to_set()),
            decreases order@.len() - i,
        {
            let (u, v) = order[i];
            proof {
                let seen = order@.take(i as int);
                assert(order@.to_set().contains(order@[i as int]));
                assert(self.edges@.contains((u, v)));
                assert(order@.take(i + 1) == seen.push((u, v)));
                seen.lemma_push_to_set_commute((u, v));
                lemma_tracks_union(dsu@, nodes, seen.to_set(), u, v);
            }
            dsu.union(u, v);
            i += 1;
        }
        proof {
            assert(order@.take(order@.len() as int) == order@);
        }
        let rmap = dsu.retain_map();
        let ghost p = dsu@;
        let ghost top = choose|r: usize| #[trigger]
            is_largest_root(p, r) && forall|x: usize|
                p.contains_key(x) ==> rmap@[x] == (p[x] == r);
        proof {
            lemma_tracks_components(p, nodes, self.edges@, top);
            assert forall|b: usize| #[trigger] nodes.contains(b) implies component_of(
                nodes,
                self.edges@,
                b,
            ).len() <= component_of(nodes, self.edges@, top).len() by {
                lemma_tracks_components(p, nodes, self.edges@, b);
                assert(is_root(p, p[b]));
            }
            assert(in_largest_component(nodes, self.edges@, top));
            assert(class_of(p, top) =~= Set::new(|x: usize| nodes.contains(x) && rmap@[x]));
        }
        let GeneralUndiGraph { name, nodes: mut kept_nodes, edges: mut kept_edges } = self;
        let ghost all_edges = kept_edges@;
        let mut i: usize = 0;
        while i < node_list.len()
            invariant
                i <= node_list@.len(),
                node_list@.to_set() == nodes,
                nodes.finite(),
                rmap@.dom() == nodes,
                kept_nodes@ == nodes.filter(
                    |x: usize| rmap@[x] || !node_list@.take(i as int).contains(x),
                ),
            decreases node_list@.len() - i,
        {
            let u = node_list[i];
            proof {
                assert(node_list@.to_set().contains(node_list@[i as int]));
                assert(node_list@.take(i + 1) == node_list@.take(i as int).push(u));
                crate::adjacency::lemma_push_members(node_list@.take(i as int), u);
            }
            let keep = match rmap.get(&u) {
                Some(b) => *b,
                None => false,
            };
            if !keep {
                kept_nodes.remove(&u);
            }
            proof {
                assert(kept_nodes@ =~= nodes.filter(
                    |x: usize| rmap@[x] || !node_list@.take(i + 1).contains(x),
                ));
            }
            i += 1;
        }
        proof {
            assert(node_list@.take(node_list@.len() as int) == node_list@);
            assert(kept_nodes@ =~= component_of(nodes, all_edges, top));
        }
        let mut i: usize = 0;
        while i < order.len()
            invariant
                i <= order@.len(),
                order@.to_set() == all_edges,
                all_edges.finite(),
                rmap@.dom() == nodes,
                forall|u: usize, v: usize| #[trigger]
                    all_edges.contains((u, v)) ==> u < v && nodes.contains(u) && nodes.contains(v),
                kept_edges@ == all_edges.filter(
                    |e: (usize, usize)|
                        (rmap@[e.0] && rmap@[e.1]) || !order@.take(i as int).contains(e),
                ),
            decreases order@.len() - i,
        {
            let (u, v) = order[i];
            proof {
                assert(order@.to_set().contains(order@[i as int]));
                assert(all_edges.contains((u, v)));
                assert(order@.take(i + 1) == order@.take(i as int).push((u, v)));
                assert forall|e: (usize, usize)|
                    order@.take(i + 1).contains(e) <==> order@.take(i as int).contains(e) || e == (
                        u,
                        v,
                    ) by {
                    let shorter = order@.take(i as int);
                    let longer = order@.take(i + 1);
                    if shorter.contains(e) {
                        let k = choose|k: int| 0 <= k < shorter.len() && shorter[k] == e;
                        assert(longer[k] == e);
                    }
                    if e == (u, v) {
                        assert(longer[i as int] == e);
                    }
                    if longer.contains(e) {
                        let k = choose|k: int| 0 <= k < longer.len() && longer[k] == e;
                        if k < i {
                            assert(shorter[k] == e);
                        }
                    }
                }
            }
            let keep_u = match rmap.get(&u) {
                Some(b) => *b,
                None => false,
            };
            let keep_v = match rmap.get(&v) {
                Some(b) => *b,
                None => false,
            };
            if !(keep_u && keep_v) {
                kept_edges.remove(&(u, v));
            }
            proof {
                assert(kept_edges@ =~= all_edges.filter(
                    |e: (usize, usize)|
                        (rmap@[e.0] && rmap@[e.1]) || !order@.take(i + 1).contains(e),
                ));
            }
            i += 1;
        }
        proof {
            assert(order@.take(order@.len() as int) == order@);
            assert(kept_edges@ =~= all_edges.filter(
                |e: (usize, usize)| kept_nodes@.contains(e.0) && kept_nodes@.contains(e.1),
            )) by {
                assert forall|e: (usize, usize)| all_edges.contains(e) implies order@.contains(
                    e,
                ) && nodes.contains(e.0) && nodes.contains(e.1) by {
                    assert(order@.to_set().contains(e));
                    assert(all_edges.contains((e.0, e.1)));
                }
            }
        }
        Self { name, nodes: kept_nodes, edges: kept_edges }
    }

    /// The nodes, each once, in no particular order.
    pub fn node_list(&self) -> (list: Vec<usize>)
        ensures
            list@.no_duplicates(),
            list@.to_set() == self.nodes@,
            self.nodes@.finite() ==> list@.len() == self.nodes@.len(),
    {
        let mut list: Vec<usize> = Vec::new();
        let ghost full = self.nodes.iter().remaining().unref();
        for u in it: self.nodes.iter()
            invariant
                full == it.seq().unref(),
                list@ == full.take(it.index()),
        {
            list.push(*u);
        }
        proof {
            assert(list@ == full);
            list@.unique_seq_to_set();
        }
        list
    }
}

} // verus!
