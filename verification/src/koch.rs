//! The Koch network.

use crate::adjacency::{
    edge_lists, empty_lists, in_birth_order, is_adjacency, lemma_edge_lists,
    lemma_edge_lists_push, link, lists_of, total_len,
};
use crate::apollo::corner;
use crate::decimal::{decimal, numbered};
use crate::normal_graph::NormalUndiGraph;
use crate::power::{checked_power, power};
use vstd::prelude::*;

verus! {

/// The number of triangles of the Koch network after `g` generations.
pub open spec fn koch_triangle_count(g: nat) -> nat {
    power(3, g)
}

/// The number of its nodes after `g` generations.
pub open spec fn koch_node_count(g: nat) -> nat {
    3 * power(3, g)
}

/// The number of its edges after `g` generations: three for each triangle.
pub open spec fn koch_edge_count(g: nat) -> nat {
    3 * power(3, g)
}

/// The triangles after `g` generations: at first the one triangle on the nodes 0, 1, 2; in
/// each generation the triangles are taken in order, each gets six new nodes, numbered on
/// from those that exist, and three new triangles take its place: one at each corner, in the
/// order of the corners, with the next two of the new nodes.
pub open spec fn koch_triangles(g: nat) -> Seq<(usize, usize, usize)>
    decreases g,
{
    if g == 0 {
        seq![(0, 1, 2)]
    } else {
        let prev = koch_triangles((g - 1) as nat);
        let base = koch_node_count((g - 1) as nat);
        Seq::new(
            3 * prev.len(),
            |k: int| (corner(prev[k / 3], k % 3), (base + 2 * k) as usize, (base + 2 * k + 1) as usize),
        )
    }
}

/// The three sides of each triangle, triangle by triangle.
pub open spec fn triangle_edges(triangles: Seq<(usize, usize, usize)>) -> Seq<(usize, usize)> {
    Seq::new(
        3 * triangles.len(),
        |k: int|
            if k % 3 == 0 {
                (triangles[k / 3].0, triangles[k / 3].1)
            } else if k % 3 == 1 {
                (triangles[k / 3].0, triangles[k / 3].2)
            } else {
                (triangles[k / 3].1, triangles[k / 3].2)
            },
    )
}

/// The edges of the Koch network after `g` generations.
pub open spec fn koch_edges(g: nat) -> Seq<(usize, usize)> {
    triangle_edges(koch_triangles(g))
}

/// Triangles on the nodes `0..n` whose corners ascend, each triangle's two greater corners
/// above all corners of the triangles before it.
pub open spec fn triangles_in_order(n: nat, triangles: Seq<(usize, usize, usize)>) -> bool {
    &&& forall|i: int|
        0 <= i < triangles.len() ==> (#[trigger] triangles[i]).0 < triangles[i].1 < triangles[i].2
            < n
    &&& forall|i: int, j: int|
        0 <= i < j < triangles.len() ==> (#[trigger] triangles[i]).2 < (#[trigger] triangles[j]).1
}

/// The counts grow with the generations.
pub proof fn lemma_koch_counts_grow(g: nat, h: nat)
    requires
        g <= h,
    ensures
        power(3, g) >= 1,
        power(3, g) <= power(3, h),
    decreases h,
{
    if h == 0 {
    } else if g == h {
        lemma_koch_counts_grow((g - 1) as nat, (h - 1) as nat);
    } else {
        lemma_koch_counts_grow(g, (h - 1) as nat);
    }
}

/// The sides of triangles in order stand in birth order.
pub proof fn lemma_triangle_edges(n: nat, triangles: Seq<(usize, usize, usize)>)
    requires
        triangles_in_order(n, triangles),
    ensures
        in_birth_order(n, triangle_edges(triangles)),
{
    let edges = triangle_edges(triangles);
    assert forall|i: int| 0 <= i < edges.len() implies (#[trigger] edges[i]).0 < edges[i].1 < n by {
        let t = triangles[i / 3];
        assert(t.0 < t.1 < t.2 < n);
    }
    assert forall|i: int, j: int| 0 <= i < j < edges.len() implies (#[trigger] edges[i]).1 < (
    #[trigger] edges[j]).1 || (edges[i].1 == edges[j].1 && edges[i].0 < edges[j].0) by {
        let s = triangles[i / 3];
        let t = triangles[j / 3];
        assert(s.0 < s.1 < s.2 < n);
        assert(t.0 < t.1 < t.2 < n);
        if i / 3 < j / 3 {
            assert(s.2 < t.1);
        }
    }
}

/// The triangles are as many as the count says, and in order.
pub proof fn lemma_koch_triangles(g: nat)
    requires
        koch_node_count(g) <= usize::MAX,
    ensures
        koch_triangles(g).len() == koch_triangle_count(g),
        triangles_in_order(koch_node_count(g), koch_triangles(g)),
    decreases g,
{
    let triangles = koch_triangles(g);
    if g > 0 {
        let h = (g - 1) as nat;
        lemma_koch_counts_grow(h, g);
        lemma_koch_triangles(h);
        let prev = koch_triangles(h);
        let base = koch_node_count(h);
        assert forall|i: int| 0 <= i < triangles.len() implies (#[trigger] triangles[i]).0
            < triangles[i].1 < triangles[i].2 < koch_node_count(g) by {
            let t = prev[i / 3];
            assert(t.0 < t.1 < t.2 < base);
        }
        assert forall|i: int, j: int| 0 <= i < j < triangles.len() implies (
        #[trigger] triangles[i]).2 < (#[trigger] triangles[j]).1 by {}
    }
}

/// The Koch network is a simple graph with the counted numbers of nodes and edges.
pub proof fn lemma_koch_graph(g: nat)
    requires
        koch_node_count(g) <= usize::MAX,
    ensures
        koch_edges(g).len() == koch_edge_count(g),
        edge_lists(koch_node_count(g), koch_edges(g)).len() == koch_node_count(g),
        is_adjacency(edge_lists(koch_node_count(g), koch_edges(g))),
        total_len(edge_lists(koch_node_count(g), koch_edges(g))) == 2 * koch_edge_count(g),
{
    lemma_koch_triangles(g);
    lemma_triangle_edges(koch_node_count(g), koch_triangles(g));
    lemma_edge_lists(koch_node_count(g), koch_edges(g));
}

/// Links the three corners of a triangle with each other.
fn link_triangle(adjs: &mut Vec<Vec<usize>>, x: usize, y: usize, z: usize)
    requires
        x < y < z < old(adjs)@.len(),
    ensures
        final(adjs)@.len() == old(adjs)@.len(),
        lists_of(final(adjs)@) == link(link(link(lists_of(old(adjs)@), (x, y)), (x, z)), (y, z)),
{
    adjs[x].push(y);
    adjs[x].push(z);
    adjs[y].push(x);
    adjs[y].push(z);
    adjs[z].push(x);
    adjs[z].push(y);
    assert(lists_of(adjs@) =~~= link(link(link(lists_of(old(adjs)@), (x, y)), (x, z)), (y, z)));
}

/// What the `i`-th triangle adds to the sides.
proof fn lemma_triangle_edges_step(n: nat, triangles: Seq<(usize, usize, usize)>, i: int)
    requires
        0 <= i < triangles.len(),
    ensures
        ({
            let t = triangles[i];
            let edges = triangle_edges(triangles);
            edge_lists(n, edges.take(3 * (i + 1))) == link(
                link(link(edge_lists(n, edges.take(3 * i)), (t.0, t.1)), (t.0, t.2)),
                (t.1, t.2),
            )
        }),
{
    let t = triangles[i];
    let edges = triangle_edges(triangles);
    let seen = edges.take(3 * i);
    assert(edges[3 * i] == (t.0, t.1));
    assert(edges[3 * i + 1] == (t.0, t.2));
    assert(edges[3 * i + 2] == (t.1, t.2));
    assert(edges.take(3 * (i + 1)) =~= seen.push((t.0, t.1)).push((t.0, t.2)).push((t.1, t.2)));
    lemma_edge_lists_push(n, seen, (t.0, t.1));
    lemma_edge_lists_push(n, seen.push((t.0, t.1)), (t.0, t.2));
    lemma_edge_lists_push(n, seen.push((t.0, t.1)).push((t.0, t.2)), (t.1, t.2));
}

/// What the `i`-th triangle of generation `g` adds to the triangles of the next.
proof fn lemma_koch_triangle_step(g: nat, i: int)
    requires
        koch_node_count(g + 1) <= usize::MAX,
        0 <= i < koch_triangles(g).len(),
    ensures
        ({
            let t = koch_triangles(g)[i];
            let n = (koch_node_count(g) + 6 * i) as usize;
            let next = koch_triangles(g + 1);
            &&& next.len() == 3 * koch_triangles(g).len()
            &&& n + 5 < koch_node_count(g + 1)
            &&& next.take(3 * (i + 1)) == next.take(3 * i).push((t.0, n, (n + 1) as usize)).push(
                (t.1, (n + 2) as usize, (n + 3) as usize),
            ).push((t.2, (n + 4) as usize, (n + 5) as usize))
        }),
{
    lemma_koch_counts_grow(g, g + 1);
    lemma_koch_triangles(g);
    let t = koch_triangles(g)[i];
    let n = (koch_node_count(g) + 6 * i) as usize;
    let next = koch_triangles(g + 1);
    assert(next[3 * i] == (t.0, n, (n + 1) as usize));
    assert(next[3 * i + 1] == (t.1, (n + 2) as usize, (n + 3) as usize));
    assert(next[3 * i + 2] == (t.2, (n + 4) as usize, (n + 5) as usize));
    assert(next.take(3 * (i + 1)) =~= next.take(3 * i).push((t.0, n, (n + 1) as usize)).push(
        (t.1, (n + 2) as usize, (n + 3) as usize),
    ).push((t.2, (n + 4) as usize, (n + 5) as usize)));
}

/// The numbers of nodes and of edges of the Koch network after `g` generations, if they fit.
pub fn koch_counts(g: usize) -> (r: Option<(usize, usize)>)
    ensures
        r is Some <==> koch_node_count(g as nat) <= usize::MAX,
        r matches Some((n, m)) ==> n == koch_node_count(g as nat) && m == koch_edge_count(g as nat),
{
    match checked_power(3, g) {
        None => None,
        Some(p) => match p.checked_mul(3) {
            None => None,
            Some(n) => Some((n, n)),
        },
    }
}

impl NormalUndiGraph {
    /// The Koch network after `g` generations: a triangle, each of whose triangles gives way,
    /// generation by generation, to three new ones at its corners.
    pub fn from_koch(g: usize) -> (r: Self)
        requires
            koch_node_count(g as nat) <= usize::MAX,
        ensures
            r.wf(),
            r.n == koch_node_count(g as nat),
            r.m == koch_edge_count(g as nat),
            r.lists() == edge_lists(r.n as nat, koch_edges(g as nat)),
            r.name@ == "Koch_"@ + decimal(g as nat),
    {
        let mut triangles: Vec<(usize, usize, usize)> = vec![(0, 1, 2)];
        let mut n: usize = 3;
        let mut gen: usize = 0;
        proof {
            assert(triangles@ =~= koch_triangles(0));
        }
        while gen < g
            invariant
                gen <= g,
                koch_node_count(g as nat) <= usize::MAX,
                triangles@ == koch_triangles(gen as nat),
                n == koch_node_count(gen as nat),
            decreases g - gen,
        {
            let count = triangles.len();
            let ghost base = n;
            let ghost next = koch_triangles((gen + 1) as nat);
            proof {
                lemma_koch_counts_grow((gen + 1) as nat, g as nat);
                lemma_koch_triangles(gen as nat);
                assert(next.take(0) =~= Seq::empty());
            }
            let mut fresh: Vec<(usize, usize, usize)> = Vec::with_capacity(3 * count);
            let mut i: usize = 0;
            while i < count
                invariant
                    i <= count,
                    count == triangles@.len(),
                    count == koch_triangle_count(gen as nat),
                    triangles@ == koch_triangles(gen as nat),
                    base == koch_node_count(gen as nat),
                    koch_node_count((gen + 1) as nat) <= usize::MAX,
                    next == koch_triangles((gen + 1) as nat),
                    n == base + 6 * i,
                    fresh@ == next.take(3 * i),
                decreases count - i,
            {
                let (x, y, z) = triangles[i];
                proof {
                    lemma_koch_triangle_step(gen as nat, i as int);
                }
                fresh.push((x, n, n + 1));
                fresh.push((y, n + 2, n + 3));
                fresh.push((z, n + 4, n + 5));
                n += 6;
                i += 1;
            }
            proof {
                lemma_koch_triangles((gen + 1) as nat);
                assert(next.take(3 * count) =~= next);
            }
            triangles = fresh;
            gen += 1;
        }
        let count = triangles.len();
        let mut adjs = empty_lists(n);
        let ghost edges = koch_edges(g as nat);
        proof {
            lemma_koch_triangles(g as nat);
            assert(edges.take(0) =~= Seq::empty());
        }
        let mut i: usize = 0;
        while i < count
            invariant
                i <= count,
                count == triangles@.len(),
                triangles@ == koch_triangles(g as nat),
                triangles_in_order(n as nat, triangles@),
                edges == koch_edges(g as nat),
                adjs@.len() == n,
                lists_of(adjs@) == edge_lists(n as nat, edges.take(3 * i)),
            decreases count - i,
        {
            let (x, y, z) = triangles[i];
            proof {
                assert(triangles@[i as int] == (x, y, z));
                lemma_triangle_edges_step(n as nat, triangles@, i as int);
            }
            link_triangle(&mut adjs, x, y, z);
            i += 1;
        }
        proof {
            assert(edges.take(3 * count) =~= edges);
            lemma_koch_graph(g as nat);
        }
        Self { name: numbered("Koch_", g), n, m: 3 * count, adjs }
    }
}

} // verus!
