//! What holds of the mesh across its operations.

use crate::binary64::le;
use crate::graph::{
    has_edge, lemma_prune_keeps_connected, lemma_prune_removes_unconnected,
    lemma_same_edges_same_graph, pruned,
};
use crate::mesh::{connects, measured_within, relaxed};
use crate::point::Point3D;
use vstd::prelude::*;

verus! {

/// Whatever `distance` answers for a pair of `points`, lower index first,
/// falls on the same side of `radius`. A distance that has one answer only
/// for every pair, as a function of the coordinates has, is steady for
/// every radius.
pub open spec fn steady<F: Fn(&Point3D, &Point3D) -> u64>(
    distance: F,
    points: Seq<Point3D>,
    radius: u64,
) -> bool {
    forall|i: int, j: int, d1: u64, d2: u64|
        #![trigger call_ensures(distance, (&points[i], &points[j]), d1), call_ensures(distance, (&points[i], &points[j]), d2)]
        0 <= i < j < points.len() && call_ensures(distance, (&points[i], &points[j]), d1)
            && call_ensures(distance, (&points[i], &points[j]), d2) ==> le(d1, radius) == le(
            d2,
            radius,
        )
}

/// Building the connections again, over the same points and with the same
/// radius, gives the same graph again: the same points have entries, and
/// each has the same neighbours. This holds as long as `distance` is steady
/// on these points; where it may answer one pair on both sides of the
/// radius, two builds may differ.
pub proof fn lemma_connections_repeatable<F: Fn(&Point3D, &Point3D) -> u64>(
    points: Seq<Point3D>,
    first: Map<usize, Seq<usize>>,
    second: Map<usize, Seq<usize>>,
    distance: F,
    radius: u64,
)
    requires
        steady(distance, points, radius),
        connects(points, first, distance, radius),
        connects(points, second, distance, radius),
    ensures
        first == second,
{
    assert forall|i: usize, j: usize| has_edge(first, i, j) <==> has_edge(second, i, j) by {
        if i < j < points.len() {
            lemma_pair_settled_alike(points, first, second, distance, radius, i, j);
        } else if j < i < points.len() {
            lemma_pair_settled_alike(points, first, second, distance, radius, j, i);
            assert(has_edge(first, i, j) <==> has_edge(first, j, i));
            assert(has_edge(second, i, j) <==> has_edge(second, j, i));
        }
    }
    lemma_same_edges_same_graph(first, second, points.len());
}

/// Where `distance` puts every pair of at least two points within the
/// radius, every point has a neighbour.
pub proof fn lemma_all_near_all_connected<F: Fn(&Point3D, &Point3D) -> u64>(
    points: Seq<Point3D>,
    graph: Map<usize, Seq<usize>>,
    distance: F,
    radius: u64,
)
    requires
        points.len() >= 2,
        connects(points, graph, distance, radius),
        forall|i: usize, j: usize, d: u64|
            i < j < points.len() && #[trigger] call_ensures(
                distance,
                (&points[i as int], &points[j as int]),
                d,
            ) ==> le(d, radius),
    ensures
        forall|k: usize| k < points.len() ==> graph.contains_key(k),
{
    assert forall|k: usize| k < points.len() implies graph.contains_key(k) by {
        if k == 0 {
            assert(measured_within(
                distance,
                points[0],
                points[1],
                radius,
                has_edge(graph, 0, 1),
            ));
            assert(has_edge(graph, 0, 1));
        } else {
            assert(measured_within(
                distance,
                points[0],
                points[k as int],
                radius,
                has_edge(graph, 0, k),
            ));
            assert(has_edge(graph, 0, k));
            assert(has_edge(graph, k, 0));
        }
    }
}

/// Where `distance` puts no pair of points within the radius, no point has
/// a neighbour.
pub proof fn lemma_none_near_none_connected<F: Fn(&Point3D, &Point3D) -> u64>(
    points: Seq<Point3D>,
    graph: Map<usize, Seq<usize>>,
    distance: F,
    radius: u64,
)
    requires
        connects(points, graph, distance, radius),
        forall|i: usize, j: usize, d: u64|
            i < j < points.len() && #[trigger] call_ensures(
                distance,
                (&points[i as int], &points[j as int]),
                d,
            ) ==> !le(d, radius),
    ensures
        forall|k: usize| !graph.contains_key(k),
{
    assert forall|i: usize, j: usize| !has_edge(graph, i, j) by {
        if has_edge(graph, i, j) {
            if i < j {
                assert(measured_within(
                    distance,
                    points[i as int],
                    points[j as int],
                    radius,
                    has_edge(graph, i, j),
                ));
            } else {
                assert(has_edge(graph, j, i));
                assert(measured_within(
                    distance,
                    points[j as int],
                    points[i as int],
                    radius,
                    has_edge(graph, j, i),
                ));
            }
        }
    }
    assert forall|k: usize| !graph.contains_key(k) by {
        if graph.contains_key(k) {
            assert(graph[k].contains(graph[k][0]));
            assert(has_edge(graph, k, graph[k][0]));
        }
    }
}

/// Pruning after connecting with a radius that reaches from every point to
/// every other changes nothing, unless the store holds a single point (which
/// has nothing to be connected to, and goes).
pub proof fn lemma_prune_after_connecting_all<F: Fn(&Point3D, &Point3D) -> u64>(
    points: Seq<Point3D>,
    graph: Map<usize, Seq<usize>>,
    distance: F,
    radius: u64,
    new_points: Seq<Point3D>,
    new_graph: Map<usize, Seq<usize>>,
)
    requires
        points.len() <= usize::MAX,
        points.len() != 1,
        connects(points, graph, distance, radius),
        forall|i: usize, j: usize, d: u64|
            i < j < points.len() && #[trigger] call_ensures(
                distance,
                (&points[i as int], &points[j as int]),
                d,
            ) ==> le(d, radius),
        pruned(points, graph, new_points, new_graph),
    ensures
        new_points == points,
        new_graph == graph,
{
    if points.len() >= 2 {
        lemma_all_near_all_connected(points, graph, distance, radius);
    }
    lemma_prune_keeps_connected(points, graph, new_points, new_graph);
}

/// Pruning after connecting with a radius that reaches from no point to any
/// other (as radius zero does among points that are all apart) leaves an
/// empty mesh.
pub proof fn lemma_prune_after_connecting_none<F: Fn(&Point3D, &Point3D) -> u64>(
    points: Seq<Point3D>,
    graph: Map<usize, Seq<usize>>,
    distance: F,
    radius: u64,
    new_points: Seq<Point3D>,
    new_graph: Map<usize, Seq<usize>>,
)
    requires
        connects(points, graph, distance, radius),
        forall|i: usize, j: usize, d: u64|
            i < j < points.len() && #[trigger] call_ensures(
                distance,
                (&points[i as int], &points[j as int]),
                d,
            ) ==> !le(d, radius),
        pruned(points, graph, new_points, new_graph),
    ensures
        new_points == Seq::<Point3D>::empty(),
        new_graph == Map::<usize, Seq<usize>>::empty(),
{
    lemma_none_near_none_connected(points, graph, distance, radius);
    lemma_prune_removes_unconnected(points, graph, new_points, new_graph);
}

/// A relaxation step whose `relax` answers every point with the position it
/// already has moves nothing.
pub proof fn lemma_relaxation_at_rest<F: Fn(&Point3D, &Vec<Point3D>) -> (u64, u64, u64)>(
    relax: F,
    points: Seq<Point3D>,
    graph: Map<usize, Seq<usize>>,
    after: Seq<Point3D>,
)
    requires
        points.len() <= usize::MAX,
        after.len() == points.len(),
        forall|i: usize| i < points.len() ==> relaxed(relax, points, graph, i, after[i as int]),
        forall|p: Point3D, around: Vec<Point3D>, position: (u64, u64, u64)| #[trigger]
            call_ensures(relax, (&p, &around), position) ==> position == (p.x, p.y, p.z),
    ensures
        after == points,
{
    assert forall|i: int| 0 <= i < points.len() implies after[i] == points[i] by {
        assert(relaxed(relax, points, graph, i as usize, after[i]));
    }
    assert(after =~= points);
}

/// Two graphs that connect the same points by the same steady distance
/// agree on the pair `(i, j)`.
proof fn lemma_pair_settled_alike<F: Fn(&Point3D, &Point3D) -> u64>(
    points: Seq<Point3D>,
    first: Map<usize, Seq<usize>>,
    second: Map<usize, Seq<usize>>,
    distance: F,
    radius: u64,
    i: usize,
    j: usize,
)
    requires
        i < j < points.len(),
        steady(distance, points, radius),
        connects(points, first, distance, radius),
        connects(points, second, distance, radius),
    ensures
        has_edge(first, i, j) <==> has_edge(second, i, j),
{
    let a = points[i as int];
    let b = points[j as int];
    assert(measured_within(distance, a, b, radius, has_edge(first, i, j)));
    assert(measured_within(distance, a, b, radius, has_edge(second, i, j)));
    let d1 = choose|d: u64| #[trigger]
        call_ensures(distance, (&a, &b), d) && has_edge(first, i, j) == le(d, radius);
    let d2 = choose|d: u64| #[trigger]
        call_ensures(distance, (&a, &b), d) && has_edge(second, i, j) == le(d, radius);
    assert(le(d1, radius) == le(d2, radius));
}

} // verus!
