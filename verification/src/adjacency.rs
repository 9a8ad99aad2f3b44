//! Adjacency lists: what they are of, how edges fill them, and when they are those of a
//! simple graph.

use vstd::prelude::*;

verus! {

/// Strictly ascending: sorted, and no value twice.
pub open spec fn ascending(s: Seq<usize>) -> bool {
    forall|i: int, j: int| 0 <= i < j < s.len() ==> s[i] < s[j]
}

/// The adjacency lists as plain sequences.
pub open spec fn lists_of(adjs: Seq<Vec<usize>>) -> Seq<Seq<usize>> {
    Seq::new(adjs.len(), |u: int| adjs[u]@)
}

/// The total length of the lists.
pub open spec fn total_len(lists: Seq<Seq<usize>>) -> nat
    decreases lists.len(),
{
    if lists.len() == 0 {
        0
    } else {
        total_len(lists.drop_last()) + lists.last().len()
    }
}

/// Whether `v` stands in the list of `u`.
pub open spec fn linked(lists: Seq<Seq<usize>>, u: usize, v: usize) -> bool {
    u < lists.len() && lists[u as int].contains(v)
}

/// Adjacency lists of a simple undirected graph on the nodes `0..lists.len()`: each list
/// strictly ascending, every entry a node other than the list's own, and `v` in the list of
/// `u` exactly if `u` is in the list of `v`.
pub open spec fn is_adjacency(lists: Seq<Seq<usize>>) -> bool {
    &&& forall|u: int| 0 <= u < lists.len() ==> ascending(#[trigger] lists[u])
    &&& forall|u: usize, v: usize| #[trigger]
        linked(lists, u, v) ==> v < lists.len() && v != u && linked(lists, v, u)
}

/// Whether the list of edges joins `u` and `v`, in either direction.
pub open spec fn joins(edges: Seq<(usize, usize)>, u: usize, v: usize) -> bool {
    edges.contains((u, v)) || edges.contains((v, u))
}

/// A list of undirected edges on the nodes `0..n`: ends in range, no loop, and no pair
/// twice, in either direction.
pub open spec fn simple_edges(n: nat, edges: Seq<(usize, usize)>) -> bool {
    &&& forall|i: int|
        0 <= i < edges.len() ==> (#[trigger] edges[i]).0 < n && edges[i].1 < n && edges[i].0
            != edges[i].1
    &&& forall|i: int, j: int|
        0 <= i < j < edges.len() ==> #[trigger] edges[i] != #[trigger] edges[j] && edges[i] != (
            edges[j].1,
            edges[j].0,
        )
}

/// The lists after one more edge: each end goes to the end of the other's list.
pub open spec fn link(lists: Seq<Seq<usize>>, e: (usize, usize)) -> Seq<Seq<usize>> {
    let one = lists.update(e.0 as int, lists[e.0 as int].push(e.1));
    one.update(e.1 as int, one[e.1 as int].push(e.0))
}

/// The lists that `n` empty lists become when the edges are linked in order.
pub open spec fn edge_lists(n: nat, edges: Seq<(usize, usize)>) -> Seq<Seq<usize>>
    decreases edges.len(),
{
    if edges.len() == 0 {
        Seq::new(n, |u: int| Seq::<usize>::empty())
    } else {
        link(edge_lists(n, edges.drop_last()), edges.last())
    }
}

/// Edges on the nodes `0..n` in the order in which a growing graph gets them: smaller end
/// first, ascending by the larger end and, between edges with the same larger end, by the
/// smaller one.
pub open spec fn in_birth_order(n: nat, edges: Seq<(usize, usize)>) -> bool {
    &&& forall|i: int| 0 <= i < edges.len() ==> (#[trigger] edges[i]).0 < edges[i].1 < n
    &&& forall|i: int, j: int|
        0 <= i < j < edges.len() ==> (#[trigger] edges[i]).1 < (#[trigger] edges[j]).1 || (
        edges[i].1 == edges[j].1 && edges[i].0 < edges[j].0)
}

/// What another list in the place of one does to the total length.
pub proof fn lemma_total_len_update(lists: Seq<Seq<usize>>, u: int, list: Seq<usize>)
    requires
        0 <= u < lists.len(),
    ensures
        total_len(lists.update(u, list)) == total_len(lists) - lists[u].len() + list.len(),
    decreases lists.len(),
{
    if u == lists.len() - 1 {
        assert(lists.update(u, list).drop_last() == lists.drop_last());
    } else {
        lemma_total_len_update(lists.drop_last(), u, list);
        assert(lists.update(u, list).drop_last() == lists.drop_last().update(u, list));
    }
}

/// Empty lists have no length.
pub proof fn lemma_total_len_empty(n: nat)
    ensures
        total_len(Seq::new(n, |u: int| Seq::<usize>::empty())) == 0,
    decreases n,
{
    let lists = Seq::new(n, |u: int| Seq::<usize>::empty());
    if n > 0 {
        lemma_total_len_empty((n - 1) as nat);
        assert(lists.drop_last() == Seq::new((n - 1) as nat, |u: int| Seq::<usize>::empty()));
    }
}

/// What a list of simple edges joins lies in range, is no loop, and is joined both ways.
pub proof fn lemma_joined_ends(n: nat, edges: Seq<(usize, usize)>, u: usize, v: usize)
    requires
        simple_edges(n, edges),
        joins(edges, u, v),
    ensures
        u < n,
        v < n,
        u != v,
        joins(edges, v, u),
{
    if edges.contains((u, v)) {
        let k = choose|k: int| 0 <= k < edges.len() && edges[k] == (u, v);
        assert(edges[k].0 == u);
    } else {
        let k = choose|k: int| 0 <= k < edges.len() && edges[k] == (v, u);
        assert(edges[k].0 == v);
    }
}

/// What one more edge at the end of a list changes in what the list joins.
pub proof fn lemma_joins_push(edges: Seq<(usize, usize)>, e: (usize, usize), u: usize, v: usize)
    ensures
        joins(edges.push(e), u, v) <==> joins(edges, u, v) || e == (u, v) || e == (v, u),
{
    let longer = edges.push(e);
    assert(longer[edges.len() as int] == e);
    assert forall|x: (usize, usize)| longer.contains(x) <==> edges.contains(x) || e == x by {
        if edges.contains(x) {
            let k = choose|k: int| 0 <= k < edges.len() && edges[k] == x;
            assert(longer[k] == x);
        }
        if longer.contains(x) {
            let k = choose|k: int| 0 <= k < longer.len() && longer[k] == x;
            if k < edges.len() {
                assert(edges[k] == x);
            }
        }
    }
}

/// What one more value at the end of a list changes.
pub proof fn lemma_push_members(list: Seq<usize>, a: usize)
    ensures
        forall|x: usize| list.push(a).contains(x) <==> list.contains(x) || x == a,
        list.no_duplicates() && !list.contains(a) ==> list.push(a).no_duplicates(),
        ascending(list) && (forall|x: usize| list.contains(x) ==> x < a) ==> ascending(
            list.push(a),
        ),
{
    let longer = list.push(a);
    assert forall|x: usize| longer.contains(x) <==> list.contains(x) || x == a by {
        if list.contains(x) {
            let k = choose|k: int| 0 <= k < list.len() && list[k] == x;
            assert(longer[k] == x);
        }
        if x == a {
            assert(longer[list.len() as int] == x);
        }
        if longer.contains(x) {
            let k = choose|k: int| 0 <= k < longer.len() && longer[k] == x;
            if k < list.len() {
                assert(list[k] == x);
            }
        }
    }
    if list.no_duplicates() && !list.contains(a) {
        assert forall|i: int, j: int|
            0 <= i < longer.len() && 0 <= j < longer.len() && i != j implies longer[i]
            != longer[j] by {
            if i < list.len() {
                assert(list[i] == longer[i]);
            }
            if j < list.len() {
                assert(list[j] == longer[j]);
            }
        }
    }
    if ascending(list) && (forall|x: usize| list.contains(x) ==> x < a) {
        assert forall|i: int, j: int| 0 <= i < j < longer.len() implies longer[i] < longer[j] by {
            assert(list[i] == longer[i]);
            assert(list.contains(list[i]));
            if j < list.len() {
                assert(list[j] == longer[j]);
            }
        }
    }
}

/// Linking edges in birth order gives adjacency lists: those of the graph with these edges.
pub proof fn lemma_edge_lists(n: nat, edges: Seq<(usize, usize)>)
    requires
        in_birth_order(n, edges),
    ensures
        edge_lists(n, edges).len() == n,
        is_adjacency(edge_lists(n, edges)),
        total_len(edge_lists(n, edges)) == 2 * edges.len(),
        forall|u: usize, v: usize| linked(edge_lists(n, edges), u, v) <==> joins(edges, u, v),
    decreases edges.len(),
{
    let lists = edge_lists(n, edges);
    if edges.len() == 0 {
        lemma_total_len_empty(n);
        assert forall|u: usize, v: usize| !linked(lists, u, v) && !joins(edges, u, v) by {}
    } else {
        let rest = edges.drop_last();
        let e = edges.last();
        let last = edges.len() - 1;
        assert(edges[last] == e);
        assert(edges =~= rest.push(e));
        assert(in_birth_order(n, rest)) by {
            assert forall|i: int| 0 <= i < rest.len() implies (#[trigger] rest[i]).0 < rest[i].1
                < n by {
                assert(rest[i] == edges[i]);
            }
            assert forall|i: int, j: int| 0 <= i < j < rest.len() implies (#[trigger] rest[i]).1
                < (#[trigger] rest[j]).1 || (rest[i].1 == rest[j].1 && rest[i].0 < rest[j].0) by {
                assert(rest[i] == edges[i] && rest[j] == edges[j]);
            }
        }
        lemma_edge_lists(n, rest);
        let before = edge_lists(n, rest);
        let one = before.update(e.0 as int, before[e.0 as int].push(e.1));
        assert(lists == one.update(e.1 as int, one[e.1 as int].push(e.0)));
        assert(lists[e.0 as int] == before[e.0 as int].push(e.1));
        assert(lists[e.1 as int] == before[e.1 as int].push(e.0));
        lemma_total_len_update(before, e.0 as int, before[e.0 as int].push(e.1));
        lemma_total_len_update(one, e.1 as int, one[e.1 as int].push(e.0));
        lemma_push_members(before[e.0 as int], e.1);
        lemma_push_members(before[e.1 as int], e.0);
        assert forall|u: usize, v: usize| linked(lists, u, v) <==> joins(edges, u, v) by {
            lemma_joins_push(rest, e, u, v);
            assert(linked(before, u, v) <==> joins(rest, u, v));
            if u < n && u != e.0 && u != e.1 {
                assert(lists[u as int] == before[u as int]);
            }
        }
        // every earlier neighbour of an end of `e` is smaller than the other end
        assert forall|x: usize| before[e.0 as int].contains(x) implies x < e.1 by {
            assert(linked(before, e.0, x));
            assert(joins(rest, e.0, x));
            if rest.contains((e.0, x)) {
                let k = choose|k: int| 0 <= k < rest.len() && rest[k] == (e.0, x);
                assert(edges[k] == rest[k]);
                assert(edges[k].1 < edges[last].1 || (edges[k].1 == edges[last].1 && edges[k].0
                    < edges[last].0));
            } else {
                let k = choose|k: int| 0 <= k < rest.len() && rest[k] == (x, e.0);
                assert(edges[k] == rest[k]);
                assert(edges[k].0 < edges[k].1);
            }
        }
        assert forall|x: usize| before[e.1 as int].contains(x) implies x < e.0 by {
            assert(linked(before, e.1, x));
            assert(joins(rest, e.1, x));
            if rest.contains((e.1, x)) {
                let k = choose|k: int| 0 <= k < rest.len() && rest[k] == (e.1, x);
                assert(edges[k] == rest[k]);
                assert(edges[k].0 < edges[k].1);
                assert(edges[k].1 < edges[last].1 || (edges[k].1 == edges[last].1 && edges[k].0
                    < edges[last].0));
            } else {
                let k = choose|k: int| 0 <= k < rest.len() && rest[k] == (x, e.1);
                assert(edges[k] == rest[k]);
                assert(edges[k].1 < edges[last].1 || (edges[k].1 == edges[last].1 && edges[k].0
                    < edges[last].0));
            }
        }
        assert forall|u: int| 0 <= u < lists.len() implies ascending(#[trigger] lists[u]) by {
            if u != e.0 && u != e.1 {
                assert(lists[u] == before[u]);
            }
        }
        assert forall|u: usize, v: usize| #[trigger] linked(lists, u, v) implies v < lists.len()
            && v != u && linked(lists, v, u) by {
            lemma_joins_push(rest, e, u, v);
            lemma_joins_push(rest, e, v, u);
            assert(linked(before, u, v) <==> joins(rest, u, v));
            assert(linked(before, v, u) <==> joins(rest, v, u));
            assert(linked(lists, v, u) <==> joins(edges, v, u));
        }
    }
}

/// With one more node, the same edges give the same lists and an empty one for the new node.
pub proof fn lemma_edge_lists_more_nodes(n: nat, edges: Seq<(usize, usize)>)
    requires
        forall|i: int| 0 <= i < edges.len() ==> (#[trigger] edges[i]).0 < n && edges[i].1 < n,
    ensures
        edge_lists(n + 1, edges) == edge_lists(n, edges).push(Seq::<usize>::empty()),
        edge_lists(n, edges).len() == n,
    decreases edges.len(),
{
    if edges.len() == 0 {
        assert(edge_lists(n + 1, edges) =~= edge_lists(n, edges).push(Seq::<usize>::empty()));
    } else {
        let rest = edges.drop_last();
        assert forall|i: int| 0 <= i < rest.len() implies (#[trigger] rest[i]).0 < n && rest[i].1
            < n by {
            assert(rest[i] == edges[i]);
        }
        lemma_edge_lists_more_nodes(n, rest);
        let e = edges.last();
        assert(edges[edges.len() - 1] == e);
        assert(edge_lists(n + 1, edges) =~= edge_lists(n, edges).push(Seq::<usize>::empty()));
    }
}

/// The lists of a longer list of edges.
pub proof fn lemma_edge_lists_push(n: nat, edges: Seq<(usize, usize)>, e: (usize, usize))
    ensures
        edge_lists(n, edges.push(e)) == link(edge_lists(n, edges), e),
{
    assert(edges.push(e).drop_last() == edges);
}

/// Sorts with `sort_unstable` of slices: the list comes out in ascending order and holds what
/// it held, each value as often as before.
#[verifier::external_body]
fn sort_ascending(list: &mut Vec<usize>)
    ensures
        final(list)@.to_multiset() == old(list)@.to_multiset(),
        forall|i: int, j: int|
            0 <= i <= j < final(list)@.len() ==> final(list)@[i] <= final(list)@[j],
{
    list.sort_unstable();
}

/// A sorted list without duplicates is strictly ascending, and a permutation of a list
/// without duplicates has none and the same members.
proof fn lemma_sorted_permutation(before: Seq<usize>, after: Seq<usize>)
    requires
        before.no_duplicates(),
        after.to_multiset() == before.to_multiset(),
        forall|i: int, j: int| 0 <= i <= j < after.len() ==> after[i] <= after[j],
    ensures
        ascending(after),
        after.len() == before.len(),
        forall|x: usize| after.contains(x) <==> before.contains(x),
{
    before.to_multiset_ensures();
    after.to_multiset_ensures();
    before.lemma_multiset_has_no_duplicates();
    after.lemma_multiset_has_no_duplicates_conv();
    assert forall|x: usize| after.contains(x) <==> before.contains(x) by {
        vstd::seq_lib::to_multiset_contains(after, x);
        vstd::seq_lib::to_multiset_contains(before, x);
    }
}

/// `n` empty lists.
pub fn empty_lists(n: usize) -> (adjs: Vec<Vec<usize>>)
    ensures
        adjs@.len() == n,
        lists_of(adjs@) == edge_lists(n as nat, Seq::empty()),
{
    let mut adjs: Vec<Vec<usize>> = Vec::with_capacity(n);
    let mut u: usize = 0;
    while u < n
        invariant
            u <= n,
            adjs@.len() == u,
            forall|w: int| 0 <= w < u ==> (#[trigger] adjs@[w])@.len() == 0,
        decreases n - u,
    {
        adjs.push(Vec::new());
        u += 1;
    }
    assert(lists_of(adjs@) =~~= edge_lists(n as nat, Seq::empty()));
    adjs
}

/// Appends each end of the edge to the list of the other.
pub fn link_edge(adjs: &mut Vec<Vec<usize>>, u: usize, v: usize)
    requires
        u < old(adjs)@.len(),
        v < old(adjs)@.len(),
    ensures
        final(adjs)@.len() == old(adjs)@.len(),
        lists_of(final(adjs)@) == link(lists_of(old(adjs)@), (u, v)),
{
    adjs[u].push(v);
    adjs[v].push(u);
    assert(lists_of(adjs@) =~= link(lists_of(old(adjs)@), (u, v)));
}

/// The adjacency lists of the graph on `0..n` with the given edges, each list ascending.
pub fn adjacency_lists(n: usize, edges: &Vec<(usize, usize)>) -> (adjs: Vec<Vec<usize>>)
    requires
        simple_edges(n as nat, edges@),
    ensures
        adjs@.len() == n,
        is_adjacency(lists_of(adjs@)),
        forall|u: usize, v: usize| linked(lists_of(adjs@), u, v) <==> joins(edges@, u, v),
        total_len(lists_of(adjs@)) == 2 * edges@.len(),
{
    let count = edges.len();
    let mut degs: Vec<usize> = vec![0usize; n];
    let mut i: usize = 0;
    while i < count
        invariant
            count == edges@.len(),
            simple_edges(n as nat, edges@),
            degs@.len() == n,
            i <= count,
            forall|w: int| 0 <= w < n ==> #[trigger] degs@[w] <= i,
        decreases count - i,
    {
        let (u, v) = edges[i];
        degs[u] += 1;
        degs[v] += 1;
        i += 1;
    }
    let mut adjs: Vec<Vec<usize>> = Vec::with_capacity(n);
    let mut u: usize = 0;
    while u < n
        invariant
            degs@.len() == n,
            u <= n,
            adjs@.len() == u,
            forall|w: int| 0 <= w < u ==> (#[trigger] adjs@[w])@.len() == 0,
        decreases n - u,
    {
        adjs.push(Vec::with_capacity(degs[u]));
        u += 1;
    }
    proof {
        assert(lists_of(adjs@) =~~= Seq::new(n as nat, |u: int| Seq::<usize>::empty()));
        lemma_total_len_empty(n as nat);
        assert forall|w: usize, x: usize| !linked(lists_of(adjs@), w, x) && !joins(
            edges@.take(0),
            w,
            x,
        ) by {}
    }
    let mut i: usize = 0;
    while i < count
        invariant
            count == edges@.len(),
            simple_edges(n as nat, edges@),
            adjs@.len() == n,
            i <= count,
            forall|w: int| 0 <= w < n ==> (#[trigger] adjs@[w])@.no_duplicates(),
            forall|w: usize, x: usize|
                linked(lists_of(adjs@), w, x) <==> joins(edges@.take(i as int), w, x),
            total_len(lists_of(adjs@)) == 2 * i,
        decreases count - i,
    {
        let (u, v) = edges[i];
        let ghost before = lists_of(adjs@);
        let ghost seen = edges@.take(i as int);
        proof {
            assert(edges@.take(i + 1) == seen.push(edges@[i as int]));
            assert(!joins(seen, u, v)) by {
                if seen.contains((u, v)) {
                    let k = choose|k: int| 0 <= k < i && seen[k] == (u, v);
                    assert(edges@[k] == edges@[i as int]);
                }
                if seen.contains((v, u)) {
                    let k = choose|k: int| 0 <= k < i && seen[k] == (v, u);
                    assert(edges@[k] == (edges@[i as int].1, edges@[i as int].0));
                }
            }
            assert(joins(seen, v, u) == joins(seen, u, v));
            assert(linked(before, u, v) == joins(seen, u, v));
            assert(linked(before, v, u) == joins(seen, v, u));
        }
        link_edge(&mut adjs, u, v);
        proof {
            let after = lists_of(adjs@);
            let one = before.update(u as int, before[u as int].push(v));
            assert(after == one.update(v as int, one[v as int].push(u)));
            lemma_total_len_update(before, u as int, before[u as int].push(v));
            lemma_total_len_update(one, v as int, one[v as int].push(u));
            lemma_push_members(before[u as int], v);
            lemma_push_members(before[v as int], u);
            assert forall|w: int| 0 <= w < n implies (#[trigger] adjs@[w])@.no_duplicates() by {
                assert(adjs@[w]@ == after[w]);
                if w != u && w != v {
                    assert(after[w] == before[w]);
                }
            }
            assert forall|w: usize, x: usize| linked(after, w, x) <==> joins(
                edges@.take(i + 1),
                w,
                x,
            ) by {
                lemma_joins_push(seen, edges@[i as int], w, x);
                assert(linked(before, w, x) <==> joins(seen, w, x));
                if w < n && w != u && w != v {
                    assert(after[w as int] == before[w as int]);
                }
            }
        }
        i += 1;
    }
    assert(edges@.take(count as int) == edges@);
    let ghost filled = lists_of(adjs@);
    let mut u: usize = 0;
    while u < n
        invariant
            adjs@.len() == n,
            filled.len() == n,
            u <= n,
            forall|w: int| 0 <= w < n ==> (#[trigger] filled[w]).no_duplicates(),
            forall|w: int| 0 <= w < u ==> ascending(#[trigger] lists_of(adjs@)[w]),
            forall|w: usize, x: usize| linked(lists_of(adjs@), w, x) <==> linked(filled, w, x),
            forall|w: usize, x: usize| linked(filled, w, x) <==> joins(edges@, w, x),
            forall|w: int| u <= w < n ==> adjs@[w]@ == filled[w],
            total_len(lists_of(adjs@)) == total_len(filled),
        decreases n - u,
    {
        let ghost before = lists_of(adjs@);
        sort_ascending(&mut adjs[u]);
        proof {
            let after = lists_of(adjs@);
            assert(after =~= before.update(u as int, adjs@[u as int]@));
            lemma_sorted_permutation(filled[u as int], after[u as int]);
            lemma_total_len_update(before, u as int, after[u as int]);
            assert forall|w: usize, x: usize| linked(after, w, x) <==> linked(filled, w, x) by {
                assert(linked(before, w, x) <==> linked(filled, w, x));
                if w < n && w != u {
                    assert(after[w as int] == before[w as int]);
                }
            }
        }
        u += 1;
    }
    proof {
        let lists = lists_of(adjs@);
        assert forall|w: usize, x: usize| linked(lists, w, x) <==> joins(edges@, w, x) by {
            assert(linked(lists, w, x) <==> linked(filled, w, x));
            assert(linked(filled, w, x) <==> joins(edges@, w, x));
        }
        assert forall|w: usize, x: usize| #[trigger] linked(lists, w, x) implies x < lists.len()
            && x != w && linked(lists, x, w) by {
            assert(linked(filled, w, x));
            lemma_joined_ends(n as nat, edges@, w, x);
            assert(linked(filled, x, w));
        }
    }
    adjs
}

} // verus!
