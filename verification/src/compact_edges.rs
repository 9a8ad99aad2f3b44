//! The edges of a compact graph, each once.

use crate::adjacency::{ascending, is_adjacency, linked, lists_of, total_len};
use crate::normal_graph::NormalUndiGraph;
use vstd::prelude::*;

verus! {

/// Where a search by halving between `lo` and `hi` ends that goes on above an entry that is
/// not above `u`, and below one that is.
pub open spec fn bisect(list: Seq<usize>, u: usize, lo: int, hi: int) -> int
    decreases hi - lo,
{
    if lo >= hi {
        lo
    } else {
        let mid = lo + (hi - lo) / 2;
        if list[mid] <= u {
            bisect(list, u, mid + 1, hi)
        } else {
            bisect(list, u, lo, mid)
        }
    }
}

/// Where the list is cut in two for `u`. In an ascending list this is the place of the first
/// entry above `u`, or the length of the list if there is none.
pub open spec fn cut_point(list: Seq<usize>, u: usize) -> int {
    bisect(list, u, 0, list.len() as int)
}

/// The search ends within its bounds; and in an ascending list, if no entry before the
/// bounds is above `u` and every entry after them is, the same holds of the place where the
/// search ends.
pub proof fn lemma_bisect(list: Seq<usize>, u: usize, lo: int, hi: int)
    requires
        0 <= lo <= hi <= list.len(),
    ensures
        lo <= bisect(list, u, lo, hi) <= hi,
        ascending(list) && (forall|i: int| 0 <= i < lo ==> list[i] <= u) && (forall|i: int|
            hi <= i < list.len() ==> list[i] > u) ==> (forall|i: int|
            0 <= i < bisect(list, u, lo, hi) ==> list[i] <= u) && (forall|i: int|
            bisect(list, u, lo, hi) <= i < list.len() ==> list[i] > u),
    decreases hi - lo,
{
    if lo < hi {
        let mid = lo + (hi - lo) / 2;
        if list[mid] <= u {
            lemma_bisect(list, u, mid + 1, hi);
            if ascending(list) {
                assert forall|i: int| 0 <= i < mid + 1 implies list[i] <= u by {
                    if i < mid {
                        assert(list[i] < list[mid]);
                    }
                }
            }
        } else {
            lemma_bisect(list, u, lo, mid);
            if ascending(list) {
                assert forall|i: int| mid <= i < list.len() implies list[i] > u by {
                    if mid < i {
                        assert(list[mid] < list[i]);
                    }
                }
            }
        }
    }
}

/// Where the list is cut in two for `u`, found by halving.
pub fn find_cut(list: &Vec<usize>, u: usize) -> (at: usize)
    ensures
        at == cut_point(list@, u),
        at <= list@.len(),
{
    let mut lo: usize = 0;
    let mut hi: usize = list.len();
    while lo < hi
        invariant
            lo <= hi <= list@.len(),
            bisect(list@, u, lo as int, hi as int) == cut_point(list@, u),
        decreases hi - lo,
    {
        let mid = lo + (hi - lo) / 2;
        if list[mid] <= u {
            lo = mid + 1;
        } else {
            hi = mid;
        }
    }
    lo
}

/// The edges from `u` to the entries of its list from the cut on.
pub open spec fn upper_part(list: Seq<usize>, u: usize) -> Seq<(usize, usize)> {
    list.skip(cut_point(list, u)).map_values(|v: usize| (u, v))
}

/// The edges of a compact graph, each once, smaller end first: node by node, and for each
/// node in the order of its list.
pub open spec fn upper_edges(lists: Seq<Seq<usize>>) -> Seq<(usize, usize)>
    decreases lists.len(),
{
    if lists.len() == 0 {
        Seq::empty()
    } else {
        upper_edges(lists.drop_last()) + upper_part(lists.last(), (lists.len() - 1) as usize)
    }
}

/// The edges from `u` to the entries of its list before the cut.
pub open spec fn lower_part(list: Seq<usize>, u: usize) -> Seq<(usize, usize)> {
    list.take(cut_point(list, u)).map_values(|v: usize| (u, v))
}

/// The edges of a compact graph, each once, greater end first.
pub open spec fn lower_edges(lists: Seq<Seq<usize>>) -> Seq<(usize, usize)>
    decreases lists.len(),
{
    if lists.len() == 0 {
        Seq::empty()
    } else {
        lower_edges(lists.drop_last()) + lower_part(lists.last(), (lists.len() - 1) as usize)
    }
}

/// Lists that ascend, none with its own node in it.
pub open spec fn tidy(lists: Seq<Seq<usize>>) -> bool {
    forall|u: int|
        0 <= u < lists.len() ==> ascending(#[trigger] lists[u]) && !lists[u].contains(u as usize)
}

/// What the two parts of a tidy list hold: no pair twice, the lower part the entries below
/// `u`, the upper part those above.
proof fn lemma_parts(list: Seq<usize>, u: usize)
    requires
        ascending(list),
        !list.contains(u),
    ensures
        lower_part(list, u).len() + upper_part(list, u).len() == list.len(),
        lower_part(list, u).no_duplicates(),
        upper_part(list, u).no_duplicates(),
        forall|a: usize, b: usize|
            lower_part(list, u).contains((a, b)) <==> a == u && list.contains(b) && b < u,
        forall|a: usize, b: usize|
            upper_part(list, u).contains((a, b)) <==> a == u && list.contains(b) && b > u,
{
    lemma_bisect(list, u, 0, list.len() as int);
    let cut = cut_point(list, u);
    let lower = lower_part(list, u);
    let upper = upper_part(list, u);
    assert forall|i: int| 0 <= i < list.len() implies list[i] != u by {
        assert(list.contains(list[i]));
    }
    assert forall|a: usize, b: usize| lower.contains((a, b)) <==> a == u && list.contains(b) && b
        < u by {
        if lower.contains((a, b)) {
            let k = choose|k: int| 0 <= k < lower.len() && lower[k] == (a, b);
            assert(list[k] == b);
        }
        if a == u && list.contains(b) && b < u {
            let i = choose|i: int| 0 <= i < list.len() && list[i] == b;
            assert(lower[i] == (a, b));
        }
    }
    assert forall|a: usize, b: usize| upper.contains((a, b)) <==> a == u && list.contains(b) && b
        > u by {
        if upper.contains((a, b)) {
            let k = choose|k: int| 0 <= k < upper.len() && upper[k] == (a, b);
            assert(list[cut + k] == b);
        }
        if a == u && list.contains(b) && b > u {
            let i = choose|i: int| 0 <= i < list.len() && list[i] == b;
            assert(upper[i - cut] == (a, b));
        }
    }
    assert forall|i: int, j: int| 0 <= i < lower.len() && 0 <= j < lower.len() && i
        != j implies lower[i] != lower[j] by {
        assert(list[i] != list[j]);
    }
    assert forall|i: int, j: int| 0 <= i < upper.len() && 0 <= j < upper.len() && i
        != j implies upper[i] != upper[j] by {
        assert(list[cut + i] != list[cut + j]);
    }
}

/// What two lists of pairs hold together.
proof fn lemma_joined_lists(a: Seq<(usize, usize)>, b: Seq<(usize, usize)>)
    ensures
        forall|e: (usize, usize)| (a + b).contains(e) <==> a.contains(e) || b.contains(e),
        a.no_duplicates() && b.no_duplicates() && (forall|e: (usize, usize)|
            !(a.contains(e) && b.contains(e))) ==> (a + b).no_duplicates(),
{
    let c = a + b;
    assert forall|e: (usize, usize)| c.contains(e) <==> a.contains(e) || b.contains(e) by {
        if a.contains(e) {
            let k = choose|k: int| 0 <= k < a.len() && a[k] == e;
            assert(c[k] == e);
        }
        if b.contains(e) {
            let k = choose|k: int| 0 <= k < b.len() && b[k] == e;
            assert(c[a.len() + k] == e);
        }
        if c.contains(e) {
            let k = choose|k: int| 0 <= k < c.len() && c[k] == e;
            if k < a.len() {
                assert(a[k] == e);
            } else {
                assert(b[k - a.len()] == e);
            }
        }
    }
    if a.no_duplicates() && b.no_duplicates() && (forall|e: (usize, usize)|
        !(a.contains(e) && b.contains(e))) {
        assert forall|i: int, j: int| 0 <= i < c.len() && 0 <= j < c.len() && i != j implies c[i]
            != c[j] by {
            if i < a.len() {
                assert(a.contains(a[i]));
            } else {
                assert(b.contains(b[i - a.len()]));
            }
            if j < a.len() {
                assert(a.contains(a[j]));
            } else {
                assert(b.contains(b[j - a.len()]));
            }
        }
    }
}

/// The edges of tidy lists: no pair twice; the upper edges are the entries above the node of
/// their list, the lower edges those below; and each entry is one or the other.
proof fn lemma_edges_of_tidy_lists(lists: Seq<Seq<usize>>)
    requires
        tidy(lists),
        lists.len() <= usize::MAX,
    ensures
        upper_edges(lists).no_duplicates(),
        lower_edges(lists).no_duplicates(),
        forall|u: usize, v: usize| #[trigger]
            upper_edges(lists).contains((u, v)) <==> linked(lists, u, v) && u < v,
        forall|u: usize, v: usize| #[trigger]
            lower_edges(lists).contains((u, v)) <==> linked(lists, u, v) && v < u,
        total_len(lists) == upper_edges(lists).len() + lower_edges(lists).len(),
    decreases lists.len(),
{
    if lists.len() > 0 {
        let rest = lists.drop_last();
        let list = lists.last();
        let u = (lists.len() - 1) as usize;
        assert(lists[u as int] == list);
        assert forall|w: int| 0 <= w < rest.len() implies ascending(#[trigger] rest[w])
            && !rest[w].contains(w as usize) by {
            assert(rest[w] == lists[w]);
        }
        lemma_edges_of_tidy_lists(rest);
        lemma_parts(list, u);
        assert forall|e: (usize, usize)|
            !(upper_edges(rest).contains(e) && upper_part(list, u).contains(e)) && !(lower_edges(
                rest,
            ).contains(e) && lower_part(list, u).contains(e)) by {
            if upper_edges(rest).contains(e) || lower_edges(rest).contains(e) {
                assert(upper_edges(rest).contains((e.0, e.1)) || lower_edges(rest).contains(
                    (e.0, e.1),
                ));
                assert(linked(rest, e.0, e.1));
                assert(!upper_part(list, u).contains((e.0, e.1)));
                assert(!lower_part(list, u).contains((e.0, e.1)));
            }
        }
        lemma_joined_lists(upper_edges(rest), upper_part(list, u));
        lemma_joined_lists(lower_edges(rest), lower_part(list, u));
        assert forall|a: usize, b: usize| linked(lists, a, b) <==> linked(rest, a, b) || (a == u
            && list.contains(b)) by {
            if a < rest.len() {
                assert(rest[a as int] == lists[a as int]);
            }
        }
        assert forall|a: usize, b: usize|
            lower_edges(lists).contains((a, b)) <==> linked(lists, a, b) && b < a by {
            assert(lower_edges(lists).contains((a, b)) <==> lower_edges(rest).contains((a, b))
                || lower_part(list, u).contains((a, b)));
            assert(lower_edges(rest).contains((a, b)) <==> linked(rest, a, b) && b < a);
            assert(lower_part(list, u).contains((a, b)) <==> a == u && list.contains(b) && b < u);
        }
        assert forall|a: usize, b: usize|
            upper_edges(lists).contains((a, b)) <==> linked(lists, a, b) && a < b by {
            assert(upper_edges(lists).contains((a, b)) <==> upper_edges(rest).contains((a, b))
                || upper_part(list, u).contains((a, b)));
            assert(upper_edges(rest).contains((a, b)) <==> linked(rest, a, b) && a < b);
            assert(upper_part(list, u).contains((a, b)) <==> a == u && list.contains(b) && b > u);
        }
    }
}

/// Each edge of a graph stands in two lists: the total length of the adjacency lists is
/// twice the number of the edges that are listed smaller end first, and these are the pairs
/// of adjacent nodes, each once.
pub proof fn law_handshake(lists: Seq<Seq<usize>>)
    requires
        is_adjacency(lists),
        lists.len() <= usize::MAX,
    ensures
        total_len(lists) == 2 * upper_edges(lists).len(),
        upper_edges(lists).no_duplicates(),
        forall|u: usize, v: usize|
            upper_edges(lists).contains((u, v)) <==> linked(lists, u, v) && u < v,
{
    assert forall|u: int| 0 <= u < lists.len() implies ascending(#[trigger] lists[u])
        && !lists[u].contains(u as usize) by {
        if lists[u].contains(u as usize) {
            assert(linked(lists, u as usize, u as usize));
        }
    }
    lemma_edges_of_tidy_lists(lists);
    let upper = upper_edges(lists);
    let lower = lower_edges(lists);
    let swap = |e: (usize, usize)| (e.1, e.0);
    assert(upper.to_set().map(swap) =~= lower.to_set()) by {
        assert forall|e: (usize, usize)| upper.to_set().map(swap).contains(e)
            <==> lower.to_set().contains(e) by {
            if upper.to_set().map(swap).contains(e) {
                let d = choose|d: (usize, usize)| upper.to_set().contains(d) && swap(d) == e;
                assert(upper.contains((d.0, d.1)));
                assert(linked(lists, d.0, d.1));
                assert(lower.contains((e.0, e.1)));
            }
            if lower.to_set().contains(e) {
                assert(lower.contains((e.0, e.1)));
                assert(linked(lists, e.0, e.1));
                assert(upper.contains((e.1, e.0)));
                assert(upper.to_set().contains((e.1, e.0)));
                assert(swap((e.1, e.0)) == e);
            }
        }
    }
    vstd::seq_lib::seq_to_set_is_finite(upper);
    assert(vstd::relations::injective_on(swap, upper.to_set()));
    vstd::set_lib::lemma_map_size(upper.to_set(), lower.to_set(), swap);
    upper.unique_seq_to_set();
    lower.unique_seq_to_set();
}

impl NormalUndiGraph {
    /// The list of the edges of a graph holds `m` edges: each pair of adjacent nodes once,
    /// smaller end first.
    pub proof fn law_edge_count(&self)
        requires
            self.wf(),
        ensures
            upper_edges(self.lists()).len() == self.m,
            upper_edges(self.lists()).no_duplicates(),
            forall|u: usize, v: usize|
                upper_edges(self.lists()).contains((u, v)) <==> self.has_edge(u, v) && u < v,
    {
        assert(self.lists().len() == self.adjs.len());
        law_handshake(self.lists());
    }

    /// The edges, each once, smaller end first: node by node, and for each node in the order
    /// of its list.
    pub fn edge_list(&self) -> (edges: Vec<(usize, usize)>)
        ensures
            edges@ == upper_edges(self.lists()),
    {
        let ghost lists = self.lists();
        let mut edges: Vec<(usize, usize)> = Vec::new();
        let mut u: usize = 0;
        assert(lists.take(0) =~= Seq::empty());
        while u < self.adjs.len()
            invariant
                u <= self.adjs@.len(),
                lists == lists_of(self.adjs@),
                edges@ == upper_edges(lists.take(u as int)),
            decreases self.adjs@.len() - u,
        {
            let list = &self.adjs[u];
            let ghost done = edges@;
            let cut = find_cut(list, u);
            let mut k: usize = cut;
            proof {
                assert(lists.take(u + 1).drop_last() == lists.take(u as int));
                assert(lists.take(u + 1).last() == list@);
                assert(upper_part(list@, u).take(0) =~= Seq::empty());
            }
            while k < list.len()
                invariant
                    cut <= k <= list@.len(),
                    cut == cut_point(list@, u),
                    edges@ == done + upper_part(list@, u).take(k - cut),
                decreases list@.len() - k,
            {
                edges.push((u, list[k]));
                proof {
                    let upper = upper_part(list@, u);
                    assert(upper.take(k - cut + 1) =~= upper.take(k - cut).push((u, list@[k as int])));
                }
                k += 1;
            }
            proof {
                let upper = upper_part(list@, u);
                assert(upper.take(list@.len() - cut) =~= upper);
            }
            u += 1;
        }
        assert(lists.take(self.adjs@.len() as int) == lists);
        edges
    }
}

} // verus!
