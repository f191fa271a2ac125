//! The mathematical model of the connectivity graph.
//!
//! A graph over `n` points is a map from a point's index to the sequence of
//! its neighbours' indices. A point with no neighbour has no entry.

use vstd::prelude::*;

verus! {

/// The neighbours of point `k`: its entry, or nothing where it has none.
pub open spec fn neighbors(graph: Map<usize, Seq<usize>>, k: usize) -> Seq<usize> {
    if graph.contains_key(k) {
        graph[k]
    } else {
        Seq::empty()
    }
}

/// Whether `j` is listed as a neighbour of `i`.
pub open spec fn has_edge(graph: Map<usize, Seq<usize>>, i: usize, j: usize) -> bool {
    neighbors(graph, i).contains(j)
}

/// Strictly increasing: in particular, nothing occurs twice.
pub open spec fn ascending(list: Seq<usize>) -> bool {
    forall|a: int, b: int| 0 <= a < b < list.len() ==> list[a] < list[b]
}

/// What holds of the graph of a mesh of `n` points at all times:
/// every entry belongs to a point of the store and lists at least one
/// neighbour, in increasing order; an edge joins two different points of the
/// store, and is listed at both of its ends.
pub open spec fn well_formed(graph: Map<usize, Seq<usize>>, n: nat) -> bool {
    &&& forall|k: usize| #[trigger]
        graph.contains_key(k) ==> k < n && graph[k].len() > 0 && ascending(graph[k])
    &&& forall|i: usize, j: usize| #[trigger]
        has_edge(graph, i, j) ==> i < n && j < n && i != j && has_edge(graph, j, i)
}

/// How many of the points `0 .. i` have an entry in the graph.
pub open spec fn keys_below(graph: Map<usize, Seq<usize>>, i: nat) -> nat
    decreases i,
{
    if i == 0 {
        0
    } else {
        keys_below(graph, (i - 1) as nat) + if graph.contains_key((i - 1) as usize) {
            1nat
        } else {
            0nat
        }
    }
}

/// The sum of the lengths of the entries of the points `0 .. i`.
pub open spec fn degrees_below(graph: Map<usize, Seq<usize>>, i: nat) -> nat
    decreases i,
{
    if i == 0 {
        0
    } else {
        degrees_below(graph, (i - 1) as nat) + neighbors(graph, (i - 1) as usize).len()
    }
}

/// The index that point `i` has once every point without an entry has been
/// taken out of the store and the others have moved up, keeping their order.
pub open spec fn compacted(graph: Map<usize, Seq<usize>>, i: usize) -> usize {
    keys_below(graph, i as nat) as usize
}

/// A neighbour list with every index replaced by its compacted index.
pub open spec fn renumbered(graph: Map<usize, Seq<usize>>, list: Seq<usize>) -> Seq<usize> {
    list.map_values(|j: usize| compacted(graph, j))
}

/// `new_points` and `new_graph` are what remains of `points` and `graph`
/// when the points without an entry leave: the others keep their order and
/// their neighbours, under compacted indices.
pub open spec fn pruned<P>(
    points: Seq<P>,
    graph: Map<usize, Seq<usize>>,
    new_points: Seq<P>,
    new_graph: Map<usize, Seq<usize>>,
) -> bool {
    &&& new_points.len() == keys_below(graph, points.len())
    &&& forall|k: usize| #[trigger] new_graph.contains_key(k) <==> k < new_points.len()
    &&& forall|i: usize|
        i < points.len() && #[trigger] graph.contains_key(i) ==> {
            &&& new_points[compacted(graph, i) as int] == points[i as int]
            &&& new_graph[compacted(graph, i)] == renumbered(graph, graph[i])
        }
}

/// The entries counted so far are never more than the points looked at, and
/// the count never falls.
pub proof fn lemma_keys_below_bounds(graph: Map<usize, Seq<usize>>, i: nat, j: nat)
    requires
        i <= j,
    ensures
        keys_below(graph, i) <= keys_below(graph, j),
        keys_below(graph, j) <= j,
        keys_below(graph, j) - keys_below(graph, i) <= j - i,
    decreases j,
{
    if j > 0 {
        if i < j {
            lemma_keys_below_bounds(graph, i, (j - 1) as nat);
        } else {
            lemma_keys_below_bounds(graph, (j - 1) as nat, (j - 1) as nat);
        }
    }
}

/// Compaction keeps the order of the points that stay: of two, the later one
/// gets the larger index.
pub proof fn lemma_compacted_increasing(graph: Map<usize, Seq<usize>>, i: usize, j: usize)
    requires
        i < j,
        graph.contains_key(i),
    ensures
        keys_below(graph, i as nat) < keys_below(graph, j as nat),
{
    lemma_keys_below_bounds(graph, (i + 1) as nat, j as nat);
}

/// The points among `0 .. i` that have an entry.
pub open spec fn keys_under(graph: Map<usize, Seq<usize>>, i: nat) -> Set<usize> {
    Set::new(|k: usize| k < i && graph.contains_key(k))
}

/// `keys_below` counts `keys_under`.
pub proof fn lemma_keys_below_counts(graph: Map<usize, Seq<usize>>, i: nat)
    requires
        i <= usize::MAX,
    ensures
        keys_under(graph, i).finite(),
        keys_under(graph, i).len() == keys_below(graph, i),
    decreases i,
{
    if i == 0 {
        assert(keys_under(graph, i) =~= Set::<usize>::empty());
    } else {
        let last = (i - 1) as usize;
        lemma_keys_below_counts(graph, (i - 1) as nat);
        if graph.contains_key(last) {
            assert(keys_under(graph, i) =~= keys_under(graph, (i - 1) as nat).insert(last));
        } else {
            assert(keys_under(graph, i) =~= keys_under(graph, (i - 1) as nat));
        }
    }
}

/// In a well-formed graph over `n` points, `keys_below` at `n` is the number
/// of entries.
pub proof fn lemma_entries_counted(graph: Map<usize, Seq<usize>>, n: nat)
    requires
        n <= usize::MAX,
        well_formed(graph, n),
    ensures
        graph.dom().finite(),
        graph.dom().len() == keys_below(graph, n),
        graph.dom().len() <= n,
{
    lemma_keys_below_counts(graph, n);
    lemma_keys_below_bounds(graph, n, n);
    assert(keys_under(graph, n) =~= graph.dom());
}

/// Every compacted index below the number of entries belongs to a point that
/// has an entry.
pub proof fn lemma_compacted_onto(graph: Map<usize, Seq<usize>>, n: nat, k: nat) -> (i: usize)
    requires
        n <= usize::MAX,
        k < keys_below(graph, n),
    ensures
        i < n,
        graph.contains_key(i),
        keys_below(graph, i as nat) == k,
    decreases n,
{
    if graph.contains_key((n - 1) as usize) && keys_below(graph, (n - 1) as nat) == k {
        (n - 1) as usize
    } else {
        lemma_compacted_onto(graph, (n - 1) as nat, k)
    }
}

/// Pruning a well-formed graph leaves a well-formed graph, over the points
/// that remain.
pub proof fn lemma_pruned_well_formed<P>(
    points: Seq<P>,
    graph: Map<usize, Seq<usize>>,
    new_points: Seq<P>,
    new_graph: Map<usize, Seq<usize>>,
)
    requires
        points.len() <= usize::MAX,
        well_formed(graph, points.len()),
        pruned(points, graph, new_points, new_graph),
    ensures
        well_formed(new_graph, new_points.len()),
{
    let n = points.len();
    let m = new_points.len();
    lemma_keys_below_bounds(graph, n, n);
    assert forall|k: usize| #[trigger] new_graph.contains_key(k) implies k < m && new_graph[k].len()
        > 0 && ascending(new_graph[k]) by {
        let i = lemma_compacted_onto(graph, n, k as nat);
        assert(compacted(graph, i) == k);
        let list = graph[i];
        assert(new_graph[k] == renumbered(graph, list));
        assert forall|a: int, b: int| 0 <= a < b < new_graph[k].len() implies new_graph[k][a]
            < new_graph[k][b] by {
            assert(list.contains(list[a]));
            assert(has_edge(graph, i, list[a]));
            assert(has_edge(graph, list[a], i));
            assert(list.contains(list[b]));
            assert(has_edge(graph, i, list[b]));
            lemma_keys_below_bounds(graph, list[b] as nat, n);
            lemma_compacted_increasing(graph, list[a], list[b]);
        }
    }
    assert forall|a: usize, b: usize| #[trigger] has_edge(new_graph, a, b) implies a < m && b < m
        && a != b && has_edge(new_graph, b, a) by {
        assert(new_graph.contains_key(a));
        let i = lemma_compacted_onto(graph, n, a as nat);
        assert(compacted(graph, i) == a);
        let list = graph[i];
        assert(new_graph[a] == renumbered(graph, list));
        let at = choose|at: int| 0 <= at < new_graph[a].len() && new_graph[a][at] == b;
        let j = list[at];
        assert(list.contains(j));
        assert(has_edge(graph, i, j));
        assert(has_edge(graph, j, i));
        assert(graph.contains_key(j));
        assert(b == compacted(graph, j));
        lemma_keys_below_bounds(graph, j as nat, n);
        lemma_keys_below_bounds(graph, (j + 1) as nat, n);
        if i < j {
            lemma_compacted_increasing(graph, i, j);
        } else {
            lemma_compacted_increasing(graph, j, i);
        }
        let back = choose|back: int| 0 <= back < graph[j].len() && graph[j][back] == i;
        assert(new_graph[b] == renumbered(graph, graph[j]));
        assert(new_graph[b][back] == a);
        assert(new_graph[b].contains(a));
    }
}

/// After pruning, no point is without a neighbour: the graph has as many
/// entries as the store has points.
pub proof fn lemma_pruned_none_isolated<P>(
    points: Seq<P>,
    graph: Map<usize, Seq<usize>>,
    new_points: Seq<P>,
    new_graph: Map<usize, Seq<usize>>,
)
    requires
        new_points.len() <= usize::MAX,
        pruned(points, graph, new_points, new_graph),
    ensures
        new_graph.dom().finite(),
        new_graph.dom().len() == new_points.len(),
        keys_below(new_graph, new_points.len()) == new_points.len(),
{
    let m = new_points.len();
    lemma_keys_below_full(new_graph, m, m);
    lemma_keys_below_counts(new_graph, m);
    assert(keys_under(new_graph, m) =~= new_graph.dom());
}

/// Where every point has an entry, compaction moves nothing.
pub proof fn lemma_keys_below_full(graph: Map<usize, Seq<usize>>, n: nat, i: nat)
    requires
        n <= usize::MAX,
        i <= n,
        forall|k: usize| k < n ==> graph.contains_key(k),
    ensures
        keys_below(graph, i) == i,
    decreases i,
{
    if i > 0 {
        lemma_keys_below_full(graph, n, (i - 1) as nat);
    }
}

/// Where no point has an entry, compaction leaves nothing.
pub proof fn lemma_keys_below_none(graph: Map<usize, Seq<usize>>, i: nat)
    requires
        forall|k: usize| !graph.contains_key(k),
    ensures
        keys_below(graph, i) == 0,
    decreases i,
{
    if i > 0 {
        lemma_keys_below_none(graph, (i - 1) as nat);
    }
}

/// Pruning a mesh in which every point has a neighbour changes nothing:
/// neither the points nor the graph.
pub proof fn lemma_prune_keeps_connected<P>(
    points: Seq<P>,
    graph: Map<usize, Seq<usize>>,
    new_points: Seq<P>,
    new_graph: Map<usize, Seq<usize>>,
)
    requires
        points.len() <= usize::MAX,
        well_formed(graph, points.len()),
        forall|k: usize| k < points.len() ==> graph.contains_key(k),
        pruned(points, graph, new_points, new_graph),
    ensures
        new_points == points,
        new_graph == graph,
{
    let n = points.len();
    lemma_keys_below_full(graph, n, n);
    assert forall|i: usize| i < n implies compacted(graph, i) == i by {
        lemma_keys_below_full(graph, n, i as nat);
    }
    assert forall|i: int| 0 <= i < n implies new_points[i] == points[i] by {
        assert(graph.contains_key(i as usize));
        assert(compacted(graph, i as usize) == i);
    }
    assert(new_points =~= points);
    assert forall|k: usize| graph.contains_key(k) implies #[trigger] new_graph[k] == graph[k] by {
        assert(compacted(graph, k) == k);
        assert forall|a: int| 0 <= a < graph[k].len() implies renumbered(graph, graph[k])[a]
            == graph[k][a] by {
            assert(graph[k].contains(graph[k][a]));
            assert(has_edge(graph, k, graph[k][a]));
        }
        assert(renumbered(graph, graph[k]) =~= graph[k]);
    }
    assert(new_graph =~= graph);
}

/// Pruning a mesh in which no point has a neighbour leaves no point at all.
pub proof fn lemma_prune_removes_unconnected<P>(
    points: Seq<P>,
    graph: Map<usize, Seq<usize>>,
    new_points: Seq<P>,
    new_graph: Map<usize, Seq<usize>>,
)
    requires
        forall|k: usize| !graph.contains_key(k),
        pruned(points, graph, new_points, new_graph),
    ensures
        new_points == Seq::<P>::empty(),
        new_graph == Map::<usize, Seq<usize>>::empty(),
{
    lemma_keys_below_none(graph, points.len());
    assert(new_points =~= Seq::<P>::empty());
    assert(new_graph =~= Map::<usize, Seq<usize>>::empty());
}

/// Two increasing lists with the same elements are the same list.
pub proof fn lemma_ascending_same_elements(first: Seq<usize>, second: Seq<usize>)
    requires
        ascending(first),
        ascending(second),
        forall|e: usize| first.contains(e) <==> second.contains(e),
    ensures
        first == second,
    decreases first.len(),
{
    if first.len() == 0 {
        if second.len() > 0 {
            assert(second.contains(second[0]));
        }
        assert(first =~= second);
    } else {
        assert(first.contains(first.last()));
        let at = choose|at: int| 0 <= at < second.len() && second[at] == first.last();
        assert(second.contains(second.last()));
        let back = choose|back: int| 0 <= back < first.len() && first[back] == second.last();
        assert(first.last() == second.last());
        let shorter_first = first.drop_last();
        let shorter_second = second.drop_last();
        assert forall|e: usize| shorter_first.contains(e) <==> shorter_second.contains(e) by {
            if shorter_first.contains(e) {
                let i = choose|i: int| 0 <= i < shorter_first.len() && shorter_first[i] == e;
                assert(first[i] == e);
                assert(first.contains(e));
                let j = choose|j: int| 0 <= j < second.len() && second[j] == e;
                assert(shorter_second[j] == e);
            }
            if shorter_second.contains(e) {
                let j = choose|j: int| 0 <= j < shorter_second.len() && shorter_second[j] == e;
                assert(second[j] == e);
                assert(second.contains(e));
                let i = choose|i: int| 0 <= i < first.len() && first[i] == e;
                assert(shorter_first[i] == e);
            }
        }
        lemma_ascending_same_elements(shorter_first, shorter_second);
        assert(first =~= shorter_first.push(first.last()));
        assert(second =~= shorter_second.push(second.last()));
    }
}

/// A well-formed graph is known by its edges: two well-formed graphs over
/// the same points in which the same pairs are connected are the same graph.
pub proof fn lemma_same_edges_same_graph(
    first: Map<usize, Seq<usize>>,
    second: Map<usize, Seq<usize>>,
    n: nat,
)
    requires
        well_formed(first, n),
        well_formed(second, n),
        forall|i: usize, j: usize| has_edge(first, i, j) <==> has_edge(second, i, j),
    ensures
        first == second,
{
    assert forall|k: usize| first.contains_key(k) <==> second.contains_key(k) by {
        if first.contains_key(k) {
            assert(first[k].contains(first[k][0]));
            assert(has_edge(first, k, first[k][0]));
            assert(has_edge(second, k, first[k][0]));
        }
        if second.contains_key(k) {
            assert(second[k].contains(second[k][0]));
            assert(has_edge(second, k, second[k][0]));
            assert(has_edge(first, k, second[k][0]));
        }
    }
    assert forall|k: usize| first.contains_key(k) implies #[trigger] first[k] == second[k] by {
        assert forall|e: usize| first[k].contains(e) <==> second[k].contains(e) by {
            assert(has_edge(first, k, e) <==> has_edge(second, k, e));
        }
        lemma_ascending_same_elements(first[k], second[k]);
    }
    assert(first =~= second);
}

} // verus!
