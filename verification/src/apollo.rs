//! The Apollonian network.

use crate::adjacency::{
    edge_lists, in_birth_order, is_adjacency, lemma_edge_lists, lemma_edge_lists_more_nodes,
    lemma_edge_lists_push, link, lists_of, total_len,
};
use crate::decimal::{decimal, numbered};
use crate::normal_graph::NormalUndiGraph;
use crate::power::{checked_power, power};
use vstd::prelude::*;

verus! {

/// The number of active faces of the Apollonian network after `g` generations.
pub open spec fn apollo_face_count(g: nat) -> nat {
    (4 * power(3, g)) as nat
}

/// The number of its nodes after `g` generations.
pub open spec fn apollo_node_count(g: nat) -> nat {
    (2 * power(3, g) + 2) as nat
}

/// The number of its edges after `g` generations.
pub open spec fn apollo_edge_count(g: nat) -> nat {
    (6 * power(3, g)) as nat
}

/// A corner of a face.
pub open spec fn corner(f: (usize, usize, usize), k: int) -> usize {
    if k == 0 {
        f.0
    } else if k == 1 {
        f.1
    } else {
        f.2
    }
}

/// One of the three faces that take the place of `f` when the node `n` is set into it.
pub open spec fn child_face(f: (usize, usize, usize), n: usize, k: int) -> (usize, usize, usize) {
    if k == 0 {
        (f.0, f.1, n)
    } else if k == 1 {
        (f.0, f.2, n)
    } else {
        (f.1, f.2, n)
    }
}

/// The active faces after `g` generations: at first the four faces of the complete graph on
/// four nodes; in each generation the faces are taken in order, face `i` gets the node
/// numbered `i` after those that exist, and its three child faces take its place.
pub open spec fn apollo_faces(g: nat) -> Seq<(usize, usize, usize)>
    decreases g,
{
    if g == 0 {
        seq![(0, 1, 2), (0, 1, 3), (0, 2, 3), (1, 2, 3)]
    } else {
        let prev = apollo_faces((g - 1) as nat);
        let base = apollo_node_count((g - 1) as nat);
        Seq::new(3 * prev.len(), |k: int| child_face(prev[k / 3], (base + k / 3) as usize, k % 3))
    }
}

/// The edges that generation `g` adds: from each corner of each face to the face's new node.
pub open spec fn apollo_new_edges(g: nat) -> Seq<(usize, usize)>
    recommends
        g > 0,
{
    let prev = apollo_faces((g - 1) as nat);
    let base = apollo_node_count((g - 1) as nat);
    Seq::new(3 * prev.len(), |k: int| (corner(prev[k / 3], k % 3), (base + k / 3) as usize))
}

/// The edges after `g` generations, in the order in which the network gets them.
pub open spec fn apollo_edges(g: nat) -> Seq<(usize, usize)>
    decreases g,
{
    if g == 0 {
        seq![(0, 1), (0, 2), (1, 2), (0, 3), (1, 3), (2, 3)]
    } else {
        apollo_edges((g - 1) as nat) + apollo_new_edges(g)
    }
}

/// The counts grow with the generations.
pub proof fn lemma_apollo_counts_grow(g: nat, h: nat)
    requires
        g <= h,
    ensures
        power(3, g) >= 1,
        power(3, g) <= power(3, h),
        apollo_node_count(g) <= apollo_node_count(h),
        apollo_node_count(h) <= apollo_edge_count(h),
        apollo_face_count(h) <= apollo_edge_count(h),
    decreases h,
{
    if h == 0 {
    } else if g == h {
        lemma_apollo_counts_grow((g - 1) as nat, (h - 1) as nat);
    } else {
        lemma_apollo_counts_grow(g, (h - 1) as nat);
    }
}

/// The active faces are as many as the count says; each has its corners in ascending order
/// and among the nodes.
pub proof fn lemma_apollo_faces(g: nat)
    requires
        apollo_edge_count(g) <= usize::MAX,
    ensures
        apollo_faces(g).len() == apollo_face_count(g),
        forall|i: int|
            0 <= i < apollo_faces(g).len() ==> (#[trigger] apollo_faces(g)[i]).0 < apollo_faces(
                g,
            )[i].1 < apollo_faces(g)[i].2 < apollo_node_count(g),
    decreases g,
{
    if g > 0 {
        let h = (g - 1) as nat;
        lemma_apollo_counts_grow(h, g);
        lemma_apollo_faces(h);
        let prev = apollo_faces(h);
        let base = apollo_node_count(h);
        assert forall|i: int| 0 <= i < apollo_faces(g).len() implies (#[trigger] apollo_faces(
            g,
        )[i]).0 < apollo_faces(g)[i].1 < apollo_faces(g)[i].2 < apollo_node_count(g) by {
            let f = prev[i / 3];
            assert(f.0 < f.1 < f.2 < base);
            assert(apollo_faces(g)[i] == child_face(f, (base + i / 3) as usize, i % 3));
        }
    }
}

/// The edges are as many as the count says and stand in birth order.
pub proof fn lemma_apollo_edges(g: nat)
    requires
        apollo_edge_count(g) <= usize::MAX,
    ensures
        apollo_edges(g).len() == apollo_edge_count(g),
        in_birth_order(apollo_node_count(g), apollo_edges(g)),
    decreases g,
{
    let edges = apollo_edges(g);
    if g > 0 {
        let h = (g - 1) as nat;
        lemma_apollo_counts_grow(h, g);
        lemma_apollo_edges(h);
        lemma_apollo_faces(h);
        let old = apollo_edges(h);
        let new = apollo_new_edges(g);
        let prev = apollo_faces(h);
        let base = apollo_node_count(h);
        let n = apollo_node_count(g);
        assert forall|k: int| 0 <= k < new.len() implies (#[trigger] new[k]).0 < base && new[k].1
            == base + k / 3 by {
            let f = prev[k / 3];
            assert(f.0 < f.1 < f.2 < base);
        }
        assert forall|i: int| 0 <= i < edges.len() implies (#[trigger] edges[i]).0 < edges[i].1
            < n by {
            if i < old.len() {
                assert(edges[i] == old[i]);
            } else {
                assert(edges[i] == new[i - old.len()]);
            }
        }
        assert forall|i: int, j: int| 0 <= i < j < edges.len() implies (#[trigger] edges[i]).1 < (
        #[trigger] edges[j]).1 || (edges[i].1 == edges[j].1 && edges[i].0 < edges[j].0) by {
            if j < old.len() {
                assert(edges[i] == old[i] && edges[j] == old[j]);
            } else if i < old.len() {
                assert(edges[i] == old[i] && edges[j] == new[j - old.len()]);
            } else {
                let k = i - old.len();
                let l = j - old.len();
                assert(edges[i] == new[k] && edges[j] == new[l]);
                let f = prev[k / 3];
                assert(f.0 < f.1 < f.2 < base);
            }
        }
    } else {
    }
}

/// The Apollonian network is a simple graph with the counted numbers of nodes and edges.
pub proof fn lemma_apollo_graph(g: nat)
    requires
        apollo_edge_count(g) <= usize::MAX,
    ensures
        edge_lists(apollo_node_count(g), apollo_edges(g)).len() == apollo_node_count(g),
        is_adjacency(edge_lists(apollo_node_count(g), apollo_edges(g))),
        total_len(edge_lists(apollo_node_count(g), apollo_edges(g))) == 2 * apollo_edge_count(g),
{
    lemma_apollo_edges(g);
    lemma_edge_lists(apollo_node_count(g), apollo_edges(g));
}

/// What the `i`-th face of generation `g` adds to the faces and to the edges of the next.
proof fn lemma_apollo_face_step(g: nat, i: int)
    requires
        apollo_edge_count(g + 1) <= usize::MAX,
        0 <= i < apollo_faces(g).len(),
    ensures
        ({
            let f = apollo_faces(g)[i];
            let n = (apollo_node_count(g) + i) as usize;
            let faces = apollo_faces(g + 1);
            let edges = apollo_new_edges(g + 1);
            &&& faces.len() == 3 * apollo_faces(g).len()
            &&& edges.len() == 3 * apollo_faces(g).len()
            &&& n == apollo_node_count(g) + i
            &&& faces.take(3 * (i + 1)) == faces.take(3 * i).push((f.0, f.1, n)).push(
                (f.0, f.2, n),
            ).push((f.1, f.2, n))
            &&& edges.take(3 * (i + 1)) == edges.take(3 * i).push((f.0, n)).push((f.1, n)).push(
                (f.2, n),
            )
        }),
{
    lemma_apollo_counts_grow(g, g + 1);
    lemma_apollo_faces(g);
    let f = apollo_faces(g)[i];
    let n = (apollo_node_count(g) + i) as usize;
    let faces = apollo_faces(g + 1);
    let edges = apollo_new_edges(g + 1);
    assert(faces[3 * i] == (f.0, f.1, n));
    assert(faces[3 * i + 1] == (f.0, f.2, n));
    assert(faces[3 * i + 2] == (f.1, f.2, n));
    assert(edges[3 * i] == (f.0, n));
    assert(edges[3 * i + 1] == (f.1, n));
    assert(edges[3 * i + 2] == (f.2, n));
    assert(faces.take(3 * (i + 1)) =~= faces.take(3 * i).push((f.0, f.1, n)).push(
        (f.0, f.2, n),
    ).push((f.1, f.2, n)));
    assert(edges.take(3 * (i + 1)) =~= edges.take(3 * i).push((f.0, n)).push((f.1, n)).push(
        (f.2, n),
    ));
}

/// The ends of the edges up to the `i`-th face of the next generation are among the nodes
/// that exist by then.
proof fn lemma_apollo_ends(g: nat, i: int)
    requires
        apollo_edge_count(g + 1) <= usize::MAX,
        0 <= i <= apollo_faces(g).len(),
    ensures
        forall|k: int|
            0 <= k < (apollo_edges(g) + apollo_new_edges(g + 1).take(3 * i)).len() ==> (
            #[trigger] (apollo_edges(g) + apollo_new_edges(g + 1).take(3 * i))[k]).0
                < apollo_node_count(g) + i && (apollo_edges(g) + apollo_new_edges(g + 1).take(
                3 * i,
            ))[k].1 < apollo_node_count(g) + i,
{
    lemma_apollo_counts_grow(g, g + 1);
    lemma_apollo_faces(g);
    lemma_apollo_edges(g);
    let old_edges = apollo_edges(g);
    let new_edges = apollo_new_edges(g + 1);
    let seen = old_edges + new_edges.take(3 * i);
    let base = apollo_node_count(g);
    assert forall|k: int| 0 <= k < seen.len() implies (#[trigger] seen[k]).0 < base + i
        && seen[k].1 < base + i by {
        if k < old_edges.len() {
            assert(seen[k] == old_edges[k]);
        } else {
            let l = k - old_edges.len();
            assert(seen[k] == new_edges[l]);
            let f = apollo_faces(g)[l / 3];
            assert(f.0 < f.1 < f.2 < base);
        }
    }
}

/// The lists after a new node was set into the face `(x, y, z)`.
proof fn lemma_apollo_lists_step(n: nat, seen: Seq<(usize, usize)>, x: usize, y: usize, z: usize)
    requires
        n < usize::MAX,
        forall|k: int| 0 <= k < seen.len() ==> (#[trigger] seen[k]).0 < n && seen[k].1 < n,
    ensures
        edge_lists(n + 1, seen.push((x, n as usize)).push((y, n as usize)).push((z, n as usize)))
            == link(
            link(
                link(edge_lists(n, seen).push(Seq::<usize>::empty()), (x, n as usize)),
                (y, n as usize),
            ),
            (z, n as usize),
        ),
        edge_lists(n, seen).len() == n,
{
    let m = n as usize;
    lemma_edge_lists_more_nodes(n, seen);
    lemma_edge_lists_push(n + 1, seen, (x, m));
    lemma_edge_lists_push(n + 1, seen.push((x, m)), (y, m));
    lemma_edge_lists_push(n + 1, seen.push((x, m)).push((y, m)), (z, m));
}

/// Sets a new node into the face `(x, y, z)`: it is linked to the three corners.
fn set_node(adjs: &mut Vec<Vec<usize>>, x: usize, y: usize, z: usize)
    requires
        x < y < z < old(adjs)@.len(),
    ensures
        final(adjs)@.len() == old(adjs)@.len() + 1,
        lists_of(final(adjs)@) == link(
            link(
                link(lists_of(old(adjs)@).push(Seq::<usize>::empty()), (x, old(adjs)@.len() as usize)),
                (y, old(adjs)@.len() as usize),
            ),
            (z, old(adjs)@.len() as usize),
        ),
{
    let n = adjs.len();
    adjs[x].push(n);
    adjs[y].push(n);
    adjs[z].push(n);
    adjs.push(vec![x, y, z]);
    proof {
        let wide = lists_of(old(adjs)@).push(Seq::<usize>::empty());
        let grown = link(link(link(wide, (x, n)), (y, n)), (z, n));
        assert(adjs@[n as int]@ =~= seq![x, y, z]);
        assert(lists_of(adjs@) =~~= grown);
    }
}

/// The numbers of nodes and of edges of the Apollonian network after `g` generations, if
/// they fit.
pub fn apollo_counts(g: usize) -> (r: Option<(usize, usize)>)
    ensures
        r is Some <==> apollo_edge_count(g as nat) <= usize::MAX,
        r matches Some((n, m)) ==> n == apollo_node_count(g as nat) && m == apollo_edge_count(
            g as nat,
        ),
{
    proof {
        lemma_apollo_counts_grow(g as nat, g as nat);
    }
    match checked_power(3, g) {
        None => None,
        Some(p) => match p.checked_mul(6) {
            None => None,
            Some(m) => Some((2 * p + 2, m)),
        },
    }
}

impl NormalUndiGraph {
    /// The Apollonian network after `g` generations: the complete graph on four nodes, in
    /// whose faces new nodes are set generation by generation.
    pub fn from_apollo(g: usize) -> (r: Self)
        requires
            apollo_edge_count(g as nat) <= usize::MAX,
        ensures
            r.wf(),
            r.n == apollo_node_count(g as nat),
            r.m == apollo_edge_count(g as nat),
            r.lists() == edge_lists(r.n as nat, apollo_edges(g as nat)),
            r.name@ == "Apollo_"@ + decimal(g as nat),
    {
        let mut active: Vec<(usize, usize, usize)> = vec![(0, 1, 2), (0, 1, 3), (0, 2, 3), (1, 2, 3)];
        let nodes = match apollo_counts(g) {
            Some((nodes, _)) => nodes,
            None => 4,
        };
        let mut adjs: Vec<Vec<usize>> = Vec::with_capacity(nodes);
        adjs.push(vec![1, 2, 3]);
        adjs.push(vec![0, 2, 3]);
        adjs.push(vec![0, 1, 3]);
        adjs.push(vec![0, 1, 2]);
        let mut n: usize = 4;
        let mut m: usize = 6;
        let mut gen: usize = 0;
        proof {
            assert(active@ =~= apollo_faces(0));
            let e = apollo_edges(0);
            reveal_with_fuel(edge_lists, 7);
            assert(e.drop_last() =~= seq![(0usize, 1usize), (0, 2), (1, 2), (0, 3), (1, 3)]);
            assert(e.drop_last().drop_last() =~= seq![(0usize, 1usize), (0, 2), (1, 2), (0, 3)]);
            assert(e.drop_last().drop_last().drop_last() =~= seq![(0usize, 1usize), (0, 2), (1, 2)]);
            assert(e.drop_last().drop_last().drop_last().drop_last() =~= seq![
                (0usize, 1usize),
                (0, 2),
            ]);
            assert(e.drop_last().drop_last().drop_last().drop_last().drop_last() =~= seq![
                (0usize, 1usize),
            ]);
            assert(lists_of(adjs@) =~~= edge_lists(4, e));
        }
        while gen < g
            invariant
                gen <= g,
                apollo_edge_count(g as nat) <= usize::MAX,
                active@ == apollo_faces(gen as nat),
                n == apollo_node_count(gen as nat),
                m == apollo_edge_count(gen as nat),
                adjs@.len() == n,
                lists_of(adjs@) == edge_lists(n as nat, apollo_edges(gen as nat)),
            decreases g - gen,
        {
            let count = active.len();
            let ghost base = n;
            let ghost old_edges = apollo_edges(gen as nat);
            let ghost new_edges = apollo_new_edges((gen + 1) as nat);
            let ghost new_faces = apollo_faces((gen + 1) as nat);
            proof {
                lemma_apollo_counts_grow(gen as nat, (gen + 1) as nat);
                lemma_apollo_counts_grow((gen + 1) as nat, g as nat);
                lemma_apollo_faces(gen as nat);
                assert(new_edges.take(0) =~= Seq::empty());
                assert(new_faces.take(0) =~= Seq::empty());
                assert(old_edges + new_edges.take(0) =~= old_edges);
            }
            let mut fresh: Vec<(usize, usize, usize)> = Vec::with_capacity(3 * count);
            let mut i: usize = 0;
            while i < count
                invariant
                    i <= count,
                    count == active@.len(),
                    active@ == apollo_faces(gen as nat),
                    base == apollo_node_count(gen as nat),
                    apollo_edge_count((gen + 1) as nat) <= usize::MAX,
                    base + count <= usize::MAX,
                    old_edges == apollo_edges(gen as nat),
                    new_edges == apollo_new_edges((gen + 1) as nat),
                    new_faces == apollo_faces((gen + 1) as nat),
                    n == base + i,
                    adjs@.len() == n,
                    fresh@ == new_faces.take(3 * i),
                    lists_of(adjs@) == edge_lists(n as nat, old_edges + new_edges.take(3 * i)),
                decreases count - i,
            {
                let (x, y, z) = active[i];
                proof {
                    lemma_apollo_faces(gen as nat);
                    lemma_apollo_face_step(gen as nat, i as int);
                    lemma_apollo_ends(gen as nat, i as int);
                    lemma_apollo_lists_step(
                        n as nat,
                        old_edges + new_edges.take(3 * i),
                        x,
                        y,
                        z,
                    );
                    assert(old_edges + new_edges.take(3 * (i + 1)) =~= (old_edges
                        + new_edges.take(3 * i)).push((x, n)).push((y, n)).push((z, n)));
                }
                fresh.push((x, y, n));
                fresh.push((x, z, n));
                fresh.push((y, z, n));
                set_node(&mut adjs, x, y, z);
                n += 1;
                i += 1;
            }
            proof {
                lemma_apollo_face_step(gen as nat, 0);
                assert(new_edges.take(3 * count) =~= new_edges);
                assert(new_faces.take(3 * count) =~= new_faces);
            }
            m += fresh.len();
            active = fresh;
            gen += 1;
        }
        proof {
            lemma_apollo_graph(g as nat);
        }
        Self { name: numbered("Apollo_", g), n, m, adjs }
    }
}

} // verus!
