//! The compact form of a graph.

use crate::adjacency::{
    adjacency_lists, is_adjacency, joins, linked, lists_of, simple_edges, total_len,
};
use crate::general_graph::{
    edge_order, enumerates, lemma_enumeration_unique, lex_less, GeneralUndiGraph,
};
use std::collections::HashMap;
use vstd::prelude::*;
use vstd::string::StringExecFns;

verus! {

/// A compact undirected graph on the nodes `0..n`: one ascending list of neighbours per node.
pub struct NormalUndiGraph {
    pub name: String,
    pub n: usize,
    pub m: usize,
    pub adjs: Vec<Vec<usize>>,
}

/// The ids after `label` was seen: a new label gets the next free id.
pub open spec fn assign_id(ids: Map<usize, usize>, label: usize) -> Map<usize, usize> {
    if ids.contains_key(label) {
        ids
    } else {
        ids.insert(label, ids.len() as usize)
    }
}

/// The ids that a walk through `edges` hands out: each label gets, when it is first seen, the
/// number of labels seen before it; of an edge the first end is seen first.
pub open spec fn first_seen_ids(edges: Seq<(usize, usize)>) -> Map<usize, usize>
    decreases edges.len(),
{
    if edges.len() == 0 {
        Map::empty()
    } else {
        assign_id(assign_id(first_seen_ids(edges.drop_last()), edges.last().0), edges.last().1)
    }
}

/// The edges with each end replaced by its id.
pub open spec fn relabel(edges: Seq<(usize, usize)>, ids: Map<usize, usize>) -> Seq<(usize, usize)> {
    Seq::new(edges.len(), |i: int| (ids[edges[i].0], ids[edges[i].1]))
}

/// The labels that occur as an end of an edge.
pub open spec fn endpoints(edges: Seq<(usize, usize)>) -> Set<usize> {
    Set::new(
        |a: usize| exists|i: int| 0 <= i < edges.len() && (edges[i].0 == a || edges[i].1 == a),
    )
}

/// The ids of the compact graph: the labels themselves where they are dense, else the ids in
/// the order in which the edges show the labels.
pub open spec fn compact_ids(dense: bool, edges: Seq<(usize, usize)>) -> Map<usize, usize> {
    if dense {
        Map::new(|a: usize| true, |a: usize| a)
    } else {
        first_seen_ids(edges)
    }
}

impl NormalUndiGraph {
    /// The adjacency lists as plain sequences.
    pub open spec fn lists(&self) -> Seq<Seq<usize>> {
        lists_of(self.adjs@)
    }

    /// Whether `v` stands in the adjacency list of `u`.
    pub open spec fn has_edge(&self, u: usize, v: usize) -> bool {
        linked(self.lists(), u, v)
    }

    /// The invariant of the type: `n` adjacency lists of a simple undirected graph, and `m`
    /// its number of edges, each of which stands in two lists.
    pub open spec fn wf(&self) -> bool {
        &&& self.adjs@.len() == self.n
        &&& is_adjacency(self.lists())
        &&& total_len(self.lists()) == 2 * self.m
    }
}

} // verus!

verus! {

/// First-seen ids number the ends of the edges without gaps: each end has an id below the
/// number of ends, and no two ends share one.
pub proof fn lemma_first_seen_ids(edges: Seq<(usize, usize)>, nodes: Set<usize>)
    requires
        nodes.finite(),
        nodes.len() <= usize::MAX,
        forall|i: int|
            0 <= i < edges.len() ==> nodes.contains((#[trigger] edges[i]).0) && nodes.contains(
                edges[i].1,
            ),
    ensures
        first_seen_ids(edges).dom().finite(),
        first_seen_ids(edges).dom() == endpoints(edges),
        first_seen_ids(edges).dom().subset_of(nodes),
        first_seen_ids(edges).len() <= nodes.len(),
        forall|a: usize| #[trigger]
            first_seen_ids(edges).contains_key(a) ==> first_seen_ids(edges)[a]
                < first_seen_ids(edges).len(),
        forall|a: usize, b: usize|
            first_seen_ids(edges).contains_key(a) && first_seen_ids(edges).contains_key(b)
                && first_seen_ids(edges)[a] == first_seen_ids(edges)[b] ==> a == b,
    decreases edges.len(),
{
    let ids = first_seen_ids(edges);
    if edges.len() == 0 {
        assert(ids.dom() =~= endpoints(edges));
    } else {
        let rest = edges.drop_last();
        let e = edges.last();
        assert forall|i: int| 0 <= i < rest.len() implies nodes.contains((#[trigger] rest[i]).0)
            && nodes.contains(rest[i].1) by {
            assert(rest[i] == edges[i]);
        }
        lemma_first_seen_ids(rest, nodes);
        let ids0 = first_seen_ids(rest);
        let ids1 = assign_id(ids0, e.0);
        lemma_assign_id(ids0, e.0, nodes);
        lemma_assign_id(ids1, e.1, nodes);
        assert(ids.dom() =~= endpoints(edges)) by {
            assert forall|a: usize| ids.dom().contains(a) <==> endpoints(edges).contains(a) by {
                if endpoints(rest).contains(a) {
                    let i = choose|i: int|
                        0 <= i < rest.len() && (rest[i].0 == a || rest[i].1 == a);
                    assert(edges[i] == rest[i]);
                }
                if a == e.0 || a == e.1 {
                    assert(edges[edges.len() - 1] == e);
                }
                if endpoints(edges).contains(a) {
                    let i = choose|i: int|
                        0 <= i < edges.len() && (edges[i].0 == a || edges[i].1 == a);
                    if i < rest.len() {
                        assert(edges[i] == rest[i]);
                    }
                }
            }
        }
    }
}

/// One more label keeps a numbering without gaps.
proof fn lemma_assign_id(ids: Map<usize, usize>, label: usize, nodes: Set<usize>)
    requires
        nodes.finite(),
        nodes.len() <= usize::MAX,
        nodes.contains(label),
        ids.dom().finite(),
        ids.dom().subset_of(nodes),
        forall|a: usize| #[trigger] ids.contains_key(a) ==> ids[a] < ids.len(),
        forall|a: usize, b: usize|
            ids.contains_key(a) && ids.contains_key(b) && ids[a] == ids[b] ==> a == b,
    ensures
        assign_id(ids, label).dom().finite(),
        assign_id(ids, label).dom() == ids.dom().insert(label),
        assign_id(ids, label).dom().subset_of(nodes),
        assign_id(ids, label).len() <= nodes.len(),
        forall|a: usize| #[trigger]
            assign_id(ids, label).contains_key(a) ==> assign_id(ids, label)[a] < assign_id(
                ids,
                label,
            ).len(),
        forall|a: usize, b: usize|
            assign_id(ids, label).contains_key(a) && assign_id(ids, label).contains_key(b)
                && assign_id(ids, label)[a] == assign_id(ids, label)[b] ==> a == b,
        forall|a: usize| ids.contains_key(a) ==> assign_id(ids, label)[a] == ids[a],
{
    let next = assign_id(ids, label);
    vstd::set_lib::lemma_len_subset(ids.dom(), nodes);
    if ids.contains_key(label) {
        assert(next.dom() =~= ids.dom().insert(label));
    } else {
        vstd::set_lib::lemma_len_subset(ids.dom(), nodes.remove(label));
        assert(next.dom() =~= ids.dom().insert(label));
        vstd::set_lib::lemma_len_subset(next.dom(), nodes);
    }
}

/// The ids of a prefix stay as they are when more edges follow.
pub proof fn lemma_first_seen_ids_grow(edges: Seq<(usize, usize)>, k: int)
    requires
        0 <= k <= edges.len(),
    ensures
        forall|a: usize| #[trigger]
            first_seen_ids(edges.take(k)).contains_key(a) ==> first_seen_ids(edges).contains_key(
                a,
            ) && first_seen_ids(edges)[a] == first_seen_ids(edges.take(k))[a],
    decreases edges.len(),
{
    if k == edges.len() {
        assert(edges.take(k) == edges);
    } else {
        let rest = edges.drop_last();
        assert(rest.take(k) == edges.take(k));
        lemma_first_seen_ids_grow(rest, k);
    }
}

/// The compact form of a graph is the graph with ids in place of labels: the ids of two
/// labels are joined exactly if the labels are, no two labels that an edge names share an
/// id, and the ids are below the number of nodes.
pub proof fn law_compact_form(g: &GeneralUndiGraph, order: Seq<(usize, usize)>, x: usize, y: usize)
    requires
        g.wf(),
        enumerates(order, g.edges@),
        endpoints(order).contains(x),
        endpoints(order).contains(y),
    ensures
        order == edge_order(g.edges@),
        ({
            let ids = compact_ids(g.dense(), order);
            &&& joins(relabel(order, ids), ids[x], ids[y]) <==> g.adjacent(x, y)
            &&& ids[x] == ids[y] ==> x == y
            &&& ids[x] < g.nodes@.len()
        }),
{
    lemma_enumeration_unique(order, edge_order(g.edges@), g.edges@);
    assert(g.nodes@.len() == g.nodes.len());
    let ids = compact_ids(g.dense(), order);
    let edges = relabel(order, ids);
    assert forall|i: int| 0 <= i < order.len() implies g.nodes@.contains((#[trigger] order[i]).0)
        && g.nodes@.contains(order[i].1) by {
        assert(order.to_set().contains(order[i]));
        assert(g.edges@.contains((order[i].0, order[i].1)));
    }
    assert(g.nodes@.contains(x) && g.nodes@.contains(y));
    if g.dense() {
        vstd::set_lib::range_set_properties::<usize>(0, g.nodes@.len() as usize);
    } else {
        lemma_first_seen_ids(order, g.nodes@);
    }
    assert forall|a: usize, b: usize| endpoints(order).contains(a) && endpoints(order).contains(b)
        implies (edges.contains((ids[a], ids[b])) <==> order.contains((a, b))) by {
        if edges.contains((ids[a], ids[b])) {
            let k = choose|k: int| 0 <= k < edges.len() && edges[k] == (ids[a], ids[b]);
            assert(endpoints(order).contains(order[k].0));
            assert(endpoints(order).contains(order[k].1));
            assert(order[k] == (a, b));
        }
        if order.contains((a, b)) {
            let k = choose|k: int| 0 <= k < order.len() && order[k] == (a, b);
            assert(edges[k] == (ids[a], ids[b]));
        }
    }
    assert(order.contains((x, y)) <==> g.edges@.contains((x, y))) by {
        assert(order.to_set().contains((x, y)) <==> order.contains((x, y)));
    }
    assert(order.contains((y, x)) <==> g.edges@.contains((y, x))) by {
        assert(order.to_set().contains((y, x)) <==> order.contains((y, x)));
    }
}

/// The id of `label`, which is new if none was assigned yet.
fn id_of(ids: &mut HashMap<usize, usize>, label: usize) -> (id: usize)
    ensures
        final(ids)@ == assign_id(old(ids)@, label),
        id == final(ids)@[label],
{
    let next = ids.len();
    match ids.get(&label) {
        Some(id) => *id,
        None => {
            ids.insert(label, next);
            next
        },
    }
}

/// The edges of `g` with first-seen ids in place of the labels.
fn renumbered(g: &GeneralUndiGraph, order: &Vec<(usize, usize)>) -> (edges: Vec<(usize, usize)>)
    requires
        g.wf(),
        enumerates(order@, g.edges@),
    ensures
        edges@ == relabel(order@, first_seen_ids(order@)),
        simple_edges(g.nodes@.len(), edges@),
{
    let n = g.nodes.len();
    let count = order.len();
    let ghost ids = first_seen_ids(order@);
    proof {
        assert forall|i: int| 0 <= i < order@.len() implies g.nodes@.contains(
            (#[trigger] order@[i]).0,
        ) && g.nodes@.contains(order@[i].1) && order@[i].0 < order@[i].1 by {
            assert(order@.to_set().contains(order@[i]));
            assert(g.edges@.contains((order@[i].0, order@[i].1)));
        }
        lemma_first_seen_ids(order@, g.nodes@);
    }
    let mut o2n: HashMap<usize, usize> = HashMap::new();
    let mut edges: Vec<(usize, usize)> = Vec::with_capacity(count);
    let mut i: usize = 0;
    assert(order@.take(0) =~= Seq::empty());
    while i < count
        invariant
            count == order@.len(),
            i <= count,
            ids == first_seen_ids(order@),
            o2n@ == first_seen_ids(order@.take(i as int)),
            edges@.len() == i,
            forall|k: int|
                0 <= k < i ==> #[trigger] edges@[k] == (ids[order@[k].0], ids[order@[k].1]),
        decreases count - i,
    {
        let (u, v) = order[i];
        let ghost seen = o2n@;
        let a = id_of(&mut o2n, u);
        let b = id_of(&mut o2n, v);
        proof {
            let longer = order@.take(i + 1);
            assert(longer.drop_last() == order@.take(i as int));
            assert(longer.last() == order@[i as int]);
            assert(o2n@ == first_seen_ids(longer));
            lemma_first_seen_ids_grow(order@, i + 1);
            assert(assign_id(seen, u).contains_key(u));
            assert(o2n@.contains_key(u) && o2n@[u] == a);
            assert(o2n@.contains_key(v) && o2n@[v] == b);
        }
        edges.push((a, b));
        i += 1;
    }
    proof {
        assert(edges@ =~= relabel(order@, ids));
        assert forall|i: int| 0 <= i < edges@.len() implies (#[trigger] edges@[i]).0 < n
            && edges@[i].1 < n && edges@[i].0 != edges@[i].1 by {
            assert(endpoints(order@).contains(order@[i].0));
            assert(endpoints(order@).contains(order@[i].1));
        }
        assert forall|i: int, j: int| 0 <= i < j < edges@.len() implies #[trigger] edges@[i]
            != #[trigger] edges@[j] && edges@[i] != (edges@[j].1, edges@[j].0) by {
            assert(endpoints(order@).contains(order@[i].0));
            assert(endpoints(order@).contains(order@[i].1));
            assert(endpoints(order@).contains(order@[j].0));
            assert(endpoints(order@).contains(order@[j].1));
            assert(lex_less(order@[i], order@[j]));
        }
    }
    edges
}

impl NormalUndiGraph {
    /// The degree of each node: the length of its list.
    pub fn degrees(&self) -> (degs: Vec<usize>)
        ensures
            degs@.len() == self.adjs@.len(),
            forall|u: int| 0 <= u < degs@.len() ==> degs@[u] == (#[trigger] self.lists()[u]).len(),
    {
        let mut degs: Vec<usize> = Vec::with_capacity(self.adjs.len());
        let mut u: usize = 0;
        while u < self.adjs.len()
            invariant
                u <= self.adjs@.len(),
                degs@.len() == u,
                forall|w: int| 0 <= w < u ==> degs@[w] == (#[trigger] self.lists()[w]).len(),
            decreases self.adjs@.len() - u,
        {
            degs.push(self.adjs[u].len());
            u += 1;
        }
        degs
    }

    /// The compact form of a sparse graph. Dense labels are kept; otherwise the labels get
    /// ids in the order in which the edges, taken in lexicographic order, show them. A graph
    /// without nodes gives the empty graph, under a name of its own.
    pub fn from_general(g: &GeneralUndiGraph) -> (r: Self)
        requires
            g.wf(),
        ensures
            r.wf(),
            r.n == g.nodes@.len(),
            r.m == g.edges@.len(),
            r.n == 0 ==> r.name@ == "EmptyGraph"@,
            r.n != 0 ==> r.name@ == g.name@,
            enumerates(edge_order(g.edges@), g.edges@),
            forall|u: usize, v: usize|
                r.has_edge(u, v) <==> joins(
                    relabel(edge_order(g.edges@), compact_ids(g.dense(), edge_order(g.edges@))),
                    u,
                    v,
                ),
    {
        let n = g.num_nodes();
        if n == 0 {
            proof {
                assert(g.nodes@ =~= Set::<usize>::empty());
                assert(g.edges@ =~= Set::<(usize, usize)>::empty()) by {
                    assert forall|e: (usize, usize)| !g.edges@.contains(e) by {
                        if g.edges@.contains((e.0, e.1)) {
                            assert(g.nodes@.contains(e.0));
                        }
                    }
                }
            }
            proof {
                let none = Seq::<(usize, usize)>::empty();
                assert(none.to_set() =~= g.edges@);
                assert(enumerates(none, g.edges@));
                lemma_enumeration_unique(none, edge_order(g.edges@), g.edges@);
            }
            return Self { name: String::from_str("EmptyGraph"), n: 0, m: 0, adjs: Vec::new() };
        }
        let order = g.edge_list();
        let dense = g.has_dense_labels();
        let edges = if dense {
            proof {
                assert forall|i: int| 0 <= i < order@.len() implies (#[trigger] order@[i]).0 < n
                    && order@[i].1 < n && order@[i].0 != order@[i].1 by {
                    assert(order@.to_set().contains(order@[i]));
                    assert(g.edges@.contains((order@[i].0, order@[i].1)));
                }
                assert forall|i: int, j: int| 0 <= i < j < order@.len() implies #[trigger] order@[i]
                    != #[trigger] order@[j] && order@[i] != (order@[j].1, order@[j].0) by {
                    assert(order@.to_set().contains(order@[i]));
                    assert(g.edges@.contains((order@[i].0, order@[i].1)));
                    assert(order@.to_set().contains(order@[j]));
                    assert(g.edges@.contains((order@[j].0, order@[j].1)));
                    assert(lex_less(order@[i], order@[j]));
                }
                assert(order@ =~= relabel(order@, compact_ids(true, order@)));
            }
            order
        } else {
            renumbered(g, &order)
        };
        let adjs = adjacency_lists(n, &edges);
        Self { name: g.name.clone(), n, m: g.num_edges(), adjs }
    }
}

} // verus!
