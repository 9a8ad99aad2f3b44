//! Walks, connected nodes and connected components.

use crate::fast_dsu::{class_of, is_partition, is_root, merged, united};
use vstd::prelude::*;

verus! {

/// Whether an edge of the set joins `a` and `b`, in either direction.
pub open spec fn adjacent_in(edges: Set<(usize, usize)>, a: usize, b: usize) -> bool {
    edges.contains((a, b)) || edges.contains((b, a))
}

/// A walk: at least one node, and an edge from each to the next.
pub open spec fn is_walk(edges: Set<(usize, usize)>, walk: Seq<usize>) -> bool {
    &&& walk.len() > 0
    &&& forall|i: int|
        0 <= i < walk.len() - 1 ==> adjacent_in(edges, #[trigger] walk[i], walk[i + 1])
}

/// Whether a walk leads from `a` to `b`.
pub open spec fn connected(edges: Set<(usize, usize)>, a: usize, b: usize) -> bool {
    exists|walk: Seq<usize>| #[trigger]
        is_walk(edges, walk) && walk.first() == a && walk.last() == b
}

/// The nodes that a walk from `a` reaches.
pub open spec fn component_of(nodes: Set<usize>, edges: Set<(usize, usize)>, a: usize) -> Set<
    usize,
> {
    Set::new(|b: usize| nodes.contains(b) && connected(edges, a, b))
}

/// Whether `a` lies in a connected component that no other exceeds in size.
pub open spec fn in_largest_component(
    nodes: Set<usize>,
    edges: Set<(usize, usize)>,
    a: usize,
) -> bool {
    &&& nodes.contains(a)
    &&& forall|b: usize| #[trigger]
        nodes.contains(b) ==> component_of(nodes, edges, b).len() <= component_of(
            nodes,
            edges,
            a,
        ).len()
}

/// Every node is connected to itself.
pub proof fn lemma_connected_refl(edges: Set<(usize, usize)>, a: usize)
    ensures
        connected(edges, a, a),
{
    let walk = seq![a];
    assert(is_walk(edges, walk) && walk.first() == a && walk.last() == a);
}

/// The two ends of an edge are connected.
pub proof fn lemma_connected_edge(edges: Set<(usize, usize)>, a: usize, b: usize)
    requires
        adjacent_in(edges, a, b),
    ensures
        connected(edges, a, b),
{
    let walk = seq![a, b];
    assert(is_walk(edges, walk) && walk.first() == a && walk.last() == b);
}

/// A walk can be gone backwards.
pub proof fn lemma_connected_sym(edges: Set<(usize, usize)>, a: usize, b: usize)
    requires
        connected(edges, a, b),
    ensures
        connected(edges, b, a),
{
    let walk = choose|walk: Seq<usize>| #[trigger]
        is_walk(edges, walk) && walk.first() == a && walk.last() == b;
    let back = walk.reverse();
    assert forall|i: int| 0 <= i < back.len() - 1 implies adjacent_in(
        edges,
        #[trigger] back[i],
        back[i + 1],
    ) by {
        let k = walk.len() - 2 - i;
        assert(adjacent_in(edges, walk[k], walk[k + 1]));
    }
    assert(is_walk(edges, back) && back.first() == b && back.last() == a);
}

/// Two walks that meet make one.
pub proof fn lemma_connected_trans(edges: Set<(usize, usize)>, a: usize, b: usize, c: usize)
    requires
        connected(edges, a, b),
        connected(edges, b, c),
    ensures
        connected(edges, a, c),
{
    let first = choose|walk: Seq<usize>| #[trigger]
        is_walk(edges, walk) && walk.first() == a && walk.last() == b;
    let second = choose|walk: Seq<usize>| #[trigger]
        is_walk(edges, walk) && walk.first() == b && walk.last() == c;
    let whole = first + second.drop_first();
    assert forall|i: int| 0 <= i < whole.len() - 1 implies adjacent_in(
        edges,
        #[trigger] whole[i],
        whole[i + 1],
    ) by {
        if i < first.len() - 1 {
            assert(adjacent_in(edges, first[i], first[i + 1]));
        } else {
            let k = i - (first.len() - 1);
            assert(adjacent_in(edges, second[k], second[k + 1]));
        }
    }
    assert(is_walk(edges, whole) && whole.first() == a && whole.last() == c);
}

/// More edges connect at least as much.
pub proof fn lemma_connected_mono(
    fewer: Set<(usize, usize)>,
    more: Set<(usize, usize)>,
    a: usize,
    b: usize,
)
    requires
        fewer.subset_of(more),
        connected(fewer, a, b),
    ensures
        connected(more, a, b),
{
    let walk = choose|walk: Seq<usize>| #[trigger]
        is_walk(fewer, walk) && walk.first() == a && walk.last() == b;
    assert forall|i: int| 0 <= i < walk.len() - 1 implies adjacent_in(
        more,
        #[trigger] walk[i],
        walk[i + 1],
    ) by {
        assert(adjacent_in(fewer, walk[i], walk[i + 1]));
    }
    assert(is_walk(more, walk));
}

/// A labelling that agrees on the two ends of every edge agrees along every walk.
pub proof fn lemma_walk_keeps_label(
    edges: Set<(usize, usize)>,
    label: Map<usize, usize>,
    walk: Seq<usize>,
)
    requires
        is_walk(edges, walk),
        forall|a: usize, b: usize| #[trigger] edges.contains((a, b)) ==> label[a] == label[b],
    ensures
        label[walk.first()] == label[walk.last()],
    decreases walk.len(),
{
    if walk.len() > 1 {
        let rest = walk.drop_last();
        assert forall|i: int| 0 <= i < rest.len() - 1 implies adjacent_in(
            edges,
            #[trigger] rest[i],
            rest[i + 1],
        ) by {
            assert(adjacent_in(edges, walk[i], walk[i + 1]));
        }
        lemma_walk_keeps_label(edges, label, rest);
        let k = walk.len() - 2;
        assert(adjacent_in(edges, walk[k], walk[k + 1]));
    }
}

/// Whether the partition `p` of the nodes is that into the connected components of the
/// graph: each node is connected to the one that stands for it, and the two ends of an edge
/// have the same one.
pub open spec fn tracks(p: Map<usize, usize>, nodes: Set<usize>, edges: Set<(usize, usize)>) -> bool {
    &&& is_partition(p)
    &&& p.dom() == nodes
    &&& forall|z: usize| nodes.contains(z) ==> connected(edges, z, #[trigger] p[z])
    &&& forall|a: usize, b: usize| #[trigger]
        edges.contains((a, b)) ==> nodes.contains(a) && nodes.contains(b) && p[a] == p[b]
}

/// Uniting the classes of the two ends of a new edge keeps track of the components.
pub proof fn lemma_tracks_union(
    p: Map<usize, usize>,
    nodes: Set<usize>,
    edges: Set<(usize, usize)>,
    u: usize,
    v: usize,
)
    requires
        tracks(p, nodes, edges),
        nodes.contains(u),
        nodes.contains(v),
    ensures
        tracks(united(p, u, v), nodes, edges.insert((u, v))),
{
    let q = united(p, u, v);
    let more = edges.insert((u, v));
    assert(is_root(p, p[u]) && is_root(p, p[v]));
    if p[u] != p[v] {
        if class_of(p, p[u]).len() < class_of(p, p[v]).len() {
            crate::fast_dsu::lemma_merged(p, p[u], p[v]);
        } else {
            crate::fast_dsu::lemma_merged(p, p[v], p[u]);
        }
    }
    assert(q.dom() == nodes);
    lemma_connected_edge(more, u, v);
    lemma_connected_sym(more, u, v);
    lemma_connected_mono(edges, more, u, p[u]);
    lemma_connected_mono(edges, more, v, p[v]);
    lemma_connected_sym(more, u, p[u]);
    lemma_connected_sym(more, v, p[v]);
    // the two roots are connected, both ways
    lemma_connected_trans(more, p[u], u, v);
    lemma_connected_trans(more, p[u], v, p[v]);
    lemma_connected_trans(more, p[v], v, u);
    lemma_connected_trans(more, p[v], u, p[u]);
    assert forall|z: usize| nodes.contains(z) implies connected(more, z, #[trigger] q[z]) by {
        lemma_connected_mono(edges, more, z, p[z]);
        if q[z] != p[z] {
            if p[z] == p[u] {
                lemma_connected_trans(more, z, p[u], p[v]);
            } else {
                lemma_connected_trans(more, z, p[v], p[u]);
            }
        }
    }
    assert forall|a: usize, b: usize| #[trigger] more.contains((a, b)) implies nodes.contains(a)
        && nodes.contains(b) && q[a] == q[b] by {
        if edges.contains((a, b)) {
            assert(p[a] == p[b]);
        }
    }
}

/// Where a partition tracks the components, its classes are the components.
pub proof fn lemma_tracks_components(
    p: Map<usize, usize>,
    nodes: Set<usize>,
    edges: Set<(usize, usize)>,
    a: usize,
)
    requires
        tracks(p, nodes, edges),
        nodes.contains(a),
    ensures
        class_of(p, p[a]) == component_of(nodes, edges, a),
{
    assert forall|b: usize| class_of(p, p[a]).contains(b) <==> component_of(
        nodes,
        edges,
        a,
    ).contains(b) by {
        if nodes.contains(b) && p[b] == p[a] {
            lemma_connected_sym(edges, b, p[b]);
            lemma_connected_trans(edges, a, p[a], b);
        }
        if nodes.contains(b) && connected(edges, a, b) {
            let walk = choose|walk: Seq<usize>| #[trigger]
                is_walk(edges, walk) && walk.first() == a && walk.last() == b;
            lemma_walk_keeps_label(edges, p, walk);
        }
    }
    assert(class_of(p, p[a]) =~= component_of(nodes, edges, a));
}

} // verus!
