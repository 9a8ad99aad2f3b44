//! The pseudofractal network and its extension.

use crate::adjacency::{
    edge_lists, empty_lists, in_birth_order, is_adjacency, lemma_edge_lists,
    lemma_edge_lists_push, link_edge, lists_of, total_len,
};
use crate::decimal::{decimal, numbered};
use crate::normal_graph::NormalUndiGraph;
use crate::power::{checked_power, lemma_power_grows, power};
use vstd::prelude::*;
use vstd::string::StringExecFns;

verus! {

/// The number of edges of the extended pseudofractal network with `m` bridging nodes for
/// each edge, after `g` generations: each generation keeps an edge and adds `2 * m` for it.
pub open spec fn pseudo_edge_count(m: nat, g: nat) -> nat {
    3 * power(2 * m + 1, g)
}

/// The number of its nodes after `g` generations: each generation adds `m` for each edge.
pub open spec fn pseudo_node_count(m: nat, g: nat) -> nat
    decreases g,
{
    if g == 0 {
        3
    } else {
        pseudo_node_count(m, (g - 1) as nat) + m * pseudo_edge_count(m, (g - 1) as nat)
    }
}

/// An end of an edge.
pub open spec fn end(e: (usize, usize), k: int) -> usize {
    if k == 0 {
        e.0
    } else {
        e.1
    }
}

/// The edges that a generation adds to the edges `prev` on the nodes `0..base`: the edges
/// are taken in order, each gets `m` new nodes, numbered on from those that exist, and each
/// new node is joined to the first and then to the second end of its edge.
pub open spec fn bridges(prev: Seq<(usize, usize)>, m: nat, base: nat) -> Seq<(usize, usize)> {
    Seq::new(2 * (m * prev.len()), |k: int| (end(prev[(k / 2) / (m as int)], k % 2), (base + k / 2) as usize))
}

/// The edges after `g` generations, in the order in which the network gets them: at first
/// those of the triangle on the nodes 0, 1, 2.
pub open spec fn pseudo_edges(m: nat, g: nat) -> Seq<(usize, usize)>
    decreases g,
{
    if g == 0 {
        seq![(0, 1), (0, 2), (1, 2)]
    } else {
        pseudo_edges(m, (g - 1) as nat) + bridges(
            pseudo_edges(m, (g - 1) as nat),
            m,
            pseudo_node_count(m, (g - 1) as nat),
        )
    }
}

/// The counts grow with the generations, and twice the nodes are three more than the edges.
pub proof fn lemma_pseudo_counts(m: nat, g: nat, h: nat)
    requires
        g <= h,
    ensures
        power(2 * m + 1, g) >= 1,
        pseudo_edge_count(m, g) <= pseudo_edge_count(m, h),
        pseudo_node_count(m, g) <= pseudo_node_count(m, h),
        2 * pseudo_node_count(m, h) == pseudo_edge_count(m, h) + 3,
        h > 0 ==> pseudo_edge_count(m, h) == pseudo_edge_count(m, (h - 1) as nat) + 2 * (m
            * pseudo_edge_count(m, (h - 1) as nat)),
    decreases h,
{
    if h == 0 {
    } else {
        let p = power(2 * m + 1, (h - 1) as nat);
        assert((2 * m + 1) * p == p + 2 * (m * p)) by (nonlinear_arith);
        assert(3 * ((2 * m + 1) * p) == 3 * p + 2 * (m * (3 * p))) by (nonlinear_arith);
        assert(m * (3 * p) >= 0) by (nonlinear_arith);
        assert(m * p >= 0) by (nonlinear_arith);
        if g == h {
            lemma_pseudo_counts(m, (g - 1) as nat, (h - 1) as nat);
        } else {
            lemma_pseudo_counts(m, g, (h - 1) as nat);
        }
    }
}

/// The `t`-th new node of a generation bridges the edge numbered `j` if it is that edge's
/// `c`-th new node.
proof fn lemma_bridge(prev: Seq<(usize, usize)>, m: nat, base: nat, j: int, c: int)
    requires
        0 <= j < prev.len(),
        0 <= c < m,
        base + m * prev.len() <= usize::MAX,
    ensures
        ({
            let t = m * j + c;
            let new = bridges(prev, m, base);
            let n = (base + t) as usize;
            &&& 0 <= t < m * prev.len()
            &&& n == base + t
            &&& new.len() == 2 * (m * prev.len())
            &&& new.take(2 * (t + 1)) == new.take(2 * t).push((prev[j].0, n)).push((prev[j].1, n))
        }),
{
    let t = m * j + c;
    let new = bridges(prev, m, base);
    let n = (base + t) as usize;
    assert(0 <= t && t < m * prev.len()) by (nonlinear_arith)
        requires
            0 <= j < prev.len(),
            0 <= c < m,
            t == m * j + c,
    ;
    assert(m * j == j * m) by (nonlinear_arith);
    vstd::arithmetic::div_mod::lemma_fundamental_div_mod_converse(t, m as int, j, c);
    assert((2 * t) / 2 == t && (2 * t + 1) / 2 == t);
    assert(new[2 * t] == (prev[j].0, n));
    assert(new[2 * t + 1] == (prev[j].1, n));
    assert(new.take(2 * (t + 1)) =~= new.take(2 * t).push((prev[j].0, n)).push((prev[j].1, n)));
}

/// Bridges over edges in birth order keep the birth order.
proof fn lemma_bridges_in_order(prev: Seq<(usize, usize)>, m: nat, base: nat)
    requires
        in_birth_order(base, prev),
        base + m * prev.len() <= usize::MAX,
    ensures
        in_birth_order(base + m * prev.len(), prev + bridges(prev, m, base)),
{
    let new = bridges(prev, m, base);
    let edges = prev + new;
    let n = base + m * prev.len();
    assert(m * prev.len() >= 0) by (nonlinear_arith);
    assert forall|k: int| 0 <= k < new.len() implies (#[trigger] new[k]).0 < base && new[k].1
        == base + k / 2 && ((k / 2) / (m as int)) < prev.len() && 0 <= ((k / 2) / (m as int)) by {
        assert(m > 0) by (nonlinear_arith)
            requires
                0 <= k < 2 * (m * prev.len()),
        ;
        vstd::arithmetic::div_mod::lemma_multiply_divide_lt(k / 2, m as int, prev.len() as int);
        vstd::arithmetic::div_mod::lemma_div_pos_is_pos(k / 2, m as int);
        let e = prev[(k / 2) / (m as int)];
        assert(e.0 < e.1 < base);
    }
    assert forall|i: int| 0 <= i < edges.len() implies (#[trigger] edges[i]).0 < edges[i].1 < n by {
        if i < prev.len() {
            assert(edges[i] == prev[i]);
        } else {
            assert(edges[i] == new[i - prev.len()]);
        }
    }
    assert forall|i: int, j: int| 0 <= i < j < edges.len() implies (#[trigger] edges[i]).1 < (
    #[trigger] edges[j]).1 || (edges[i].1 == edges[j].1 && edges[i].0 < edges[j].0) by {
        if j < prev.len() {
            assert(edges[i] == prev[i] && edges[j] == prev[j]);
        } else if i < prev.len() {
            assert(edges[i] == prev[i] && edges[j] == new[j - prev.len()]);
        } else {
            let k = i - prev.len();
            let l = j - prev.len();
            assert(edges[i] == new[k] && edges[j] == new[l]);
            if k / 2 == l / 2 {
                let e = prev[(k / 2) / (m as int)];
                assert(e.0 < e.1 < base);
            }
        }
    }
}

/// The edges are as many as the count says and stand in birth order.
pub proof fn lemma_pseudo_edges(m: nat, g: nat)
    requires
        pseudo_edge_count(m, g) <= usize::MAX,
    ensures
        pseudo_edges(m, g).len() == pseudo_edge_count(m, g),
        in_birth_order(pseudo_node_count(m, g), pseudo_edges(m, g)),
    decreases g,
{
    if g > 0 {
        let h = (g - 1) as nat;
        lemma_pseudo_counts(m, h, g);
        lemma_pseudo_edges(m, h);
        lemma_bridges_in_order(pseudo_edges(m, h), m, pseudo_node_count(m, h));
    }
}

/// The network is a simple graph with the counted numbers of nodes and edges.
pub proof fn lemma_pseudo_graph(m: nat, g: nat)
    requires
        pseudo_edge_count(m, g) <= usize::MAX,
    ensures
        edge_lists(pseudo_node_count(m, g), pseudo_edges(m, g)).len() == pseudo_node_count(m, g),
        is_adjacency(edge_lists(pseudo_node_count(m, g), pseudo_edges(m, g))),
        total_len(edge_lists(pseudo_node_count(m, g), pseudo_edges(m, g))) == 2
            * pseudo_edge_count(m, g),
{
    lemma_pseudo_edges(m, g);
    lemma_edge_lists(pseudo_node_count(m, g), pseudo_edges(m, g));
}

/// The numbers of nodes and of edges of the extended pseudofractal network with `m`
/// bridging nodes for each edge, after `g` generations, if they fit.
pub fn pseudo_counts(m: usize, g: usize) -> (r: Option<(usize, usize)>)
    ensures
        r is Some <==> pseudo_edge_count(m as nat, g as nat) <= usize::MAX,
        r matches Some((nodes, edges)) ==> nodes == pseudo_node_count(m as nat, g as nat) && edges
            == pseudo_edge_count(m as nat, g as nat),
{
    proof {
        lemma_pseudo_counts(m as nat, g as nat, g as nat);
    }
    if g == 0 {
        return Some((3, 3));
    }
    if m > (usize::MAX - 1) / 2 {
        proof {
            lemma_power_grows((2 * m + 1) as nat, 1, g as nat);
            assert(power((2 * m + 1) as nat, 1) == 2 * m + 1) by {
                reveal_with_fuel(power, 2);
            }
        }
        return None;
    }
    match checked_power(2 * m + 1, g) {
        None => None,
        Some(p) => match p.checked_mul(3) {
            None => None,
            Some(edges) => Some(((edges - 1) / 2 + 2, edges)),
        },
    }
}

impl NormalUndiGraph {
    /// The network under the given name.
    fn _from_pseudo_ext(m: usize, g: usize, name: String) -> (r: Self)
        requires
            pseudo_edge_count(m as nat, g as nat) <= usize::MAX,
        ensures
            r.wf(),
            r.n == pseudo_node_count(m as nat, g as nat),
            r.m == pseudo_edge_count(m as nat, g as nat),
            r.lists() == edge_lists(r.n as nat, pseudo_edges(m as nat, g as nat)),
            r.name == name,
    {
        let size = match pseudo_counts(m, g) {
            Some((_, size)) => size,
            None => 3,
        };
        let mut edges: Vec<(usize, usize)> = Vec::with_capacity(size);
        edges.push((0, 1));
        edges.push((0, 2));
        edges.push((1, 2));
        let mut n: usize = 3;
        let mut gen: usize = 0;
        proof {
            assert(edges@ =~= pseudo_edges(m as nat, 0));
        }
        while gen < g
            invariant
                gen <= g,
                pseudo_edge_count(m as nat, g as nat) <= usize::MAX,
                edges@ == pseudo_edges(m as nat, gen as nat),
                n == pseudo_node_count(m as nat, gen as nat),
            decreases g - gen,
        {
            let count = edges.len();
            let ghost base = n;
            let ghost prev = edges@;
            let ghost new = bridges(prev, m as nat, base as nat);
            proof {
                lemma_pseudo_counts(m as nat, gen as nat, (gen + 1) as nat);
                lemma_pseudo_counts(m as nat, (gen + 1) as nat, g as nat);
                lemma_pseudo_edges(m as nat, gen as nat);
                assert(new.take(0) =~= Seq::empty());
                assert(m * 0 == 0) by (nonlinear_arith);
                assert(2 * (m * count) <= usize::MAX);
                assert(m * count >= 0) by (nonlinear_arith);
                assert(2 * m <= 2 * (m * count)) by (nonlinear_arith)
                    requires
                        count >= 3,
                ;
                assert(2 * m * count == 2 * (m * count)) by (nonlinear_arith);
            }
            let mut fresh: Vec<(usize, usize)> = Vec::with_capacity(2 * m * count);
            let mut j: usize = 0;
            while j < count
                invariant
                    j <= count,
                    count == prev.len(),
                    edges@ == prev,
                    new == bridges(prev, m as nat, base as nat),
                    base + m * count <= usize::MAX,
                    n == base + m * j,
                    fresh@ == new.take(2 * (m * j)),
                decreases count - j,
            {
                let (u, v) = edges[j];
                let mut c: usize = 0;
                while c < m
                    invariant
                        c <= m,
                        j < count,
                        count == prev.len(),
                        prev[j as int] == (u, v),
                        new == bridges(prev, m as nat, base as nat),
                        base + m * count <= usize::MAX,
                        n == base + m * j + c,
                        fresh@ == new.take(2 * (m * j + c)),
                    decreases m - c,
                {
                    proof {
                        lemma_bridge(prev, m as nat, base as nat, j as int, c as int);
                    }
                    fresh.push((u, n));
                    fresh.push((v, n));
                    n += 1;
                    c += 1;
                }
                proof {
                    assert(m * (j + 1) == m * j + m) by (nonlinear_arith);
                }
                j += 1;
            }
            proof {
                assert(new.take(2 * (m * count)) =~= new);
            }
            edges.append(&mut fresh);
            gen += 1;
        }
        let count = edges.len();
        let mut adjs = empty_lists(n);
        proof {
            lemma_pseudo_edges(m as nat, g as nat);
            assert(edges@.take(0) =~= Seq::empty());
        }
        let mut i: usize = 0;
        while i < count
            invariant
                i <= count,
                count == edges@.len(),
                in_birth_order(n as nat, edges@),
                adjs@.len() == n,
                lists_of(adjs@) == edge_lists(n as nat, edges@.take(i as int)),
            decreases count - i,
        {
            let (u, v) = edges[i];
            proof {
                assert(edges@[i as int] == (u, v));
                assert(edges@.take(i + 1) =~= edges@.take(i as int).push((u, v)));
                lemma_edge_lists_push(n as nat, edges@.take(i as int), (u, v));
            }
            link_edge(&mut adjs, u, v);
            i += 1;
        }
        proof {
            assert(edges@.take(count as int) =~= edges@);
            lemma_pseudo_graph(m as nat, g as nat);
        }
        Self { name, n, m: count, adjs }
    }

    /// The extended pseudofractal network with `m` bridging nodes for each edge, after `g`
    /// generations.
    pub fn from_pseudo_ext(m: usize, g: usize) -> (r: Self)
        requires
            pseudo_edge_count(m as nat, g as nat) <= usize::MAX,
        ensures
            r.wf(),
            r.n == pseudo_node_count(m as nat, g as nat),
            r.m == pseudo_edge_count(m as nat, g as nat),
            r.lists() == edge_lists(r.n as nat, pseudo_edges(m as nat, g as nat)),
            r.name@ == "PseudoExt_"@ + decimal(m as nat) + "_"@ + decimal(g as nat),
    {
        let mut name = numbered("PseudoExt_", m);
        name.append("_");
        crate::decimal::push_decimal(&mut name, g);
        Self::_from_pseudo_ext(m, g, name)
    }

    /// The pseudofractal network after `g` generations: one bridging node for each edge.
    pub fn from_pseudofractal(g: usize) -> (r: Self)
        requires
            pseudo_edge_count(1, g as nat) <= usize::MAX,
        ensures
            r.wf(),
            r.n == pseudo_node_count(1, g as nat),
            r.m == pseudo_edge_count(1, g as nat),
            r.lists() == edge_lists(r.n as nat, pseudo_edges(1, g as nat)),
            r.name@ == "Pseudofractal_"@ + decimal(g as nat),
    {
        Self::_from_pseudo_ext(1, g, numbered("Pseudofractal_", g))
    }
}

} // verus!
