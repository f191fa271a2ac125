//! The mesh: a point store and the connectivity graph over it.
//!
//! Coordinates are opaque to the mesh. Whatever needs arithmetic on them (how
//! far two points are apart, where a point goes when it relaxes) is asked of
//! a function that the caller hands in; what the mesh makes of the answers
//! is stated here, over those answers.

use crate::binary64::{
    is_non_negative, is_positive, le, lt, negate, negated, non_negative, ordered_le, ordered_lt,
    positive,
};
use crate::error::MeshError;
use crate::graph::{
    ascending, compacted, degrees_below, has_edge, keys_below, lemma_compacted_increasing,
    lemma_entries_counted, lemma_keys_below_bounds, lemma_pruned_well_formed, neighbors, pruned,
    renumbered, well_formed,
};
use crate::point::Point3D;
use std::collections::HashMap;
use vstd::prelude::*;

verus! {

/// What a mesh holds, as mathematics.
pub struct MeshView {
    /// The points, in the order of their indices.
    pub points: Seq<Point3D>,
    /// The neighbours of every point that has any.
    pub graph: Map<usize, Seq<usize>>,
}

/// An average, kept exact as the two numbers it is the quotient of.
#[derive(Clone, Copy, Debug, PartialEq, Eq, Structural)]
pub struct Ratio {
    /// What is divided.
    pub numerator: u128,
    /// What it is divided by; never zero.
    pub denominator: usize,
}

/// A point store together with the graph that connects nearby points.
///
/// The two are only ever changed together, so that the graph never names an
/// index that the store does not have.
pub struct PointsMesh {
    points: Vec<Point3D>,
    connections: HashMap<usize, Vec<usize>>,
}

/// The graph that a map of neighbour lists stands for.
pub open spec fn graph_of(connections: Map<usize, Vec<usize>>) -> Map<usize, Seq<usize>> {
    connections.map_values(|list: Vec<usize>| list@)
}

impl View for PointsMesh {
    type V = MeshView;

    closed spec fn view(&self) -> MeshView {
        MeshView { points: self.points@, graph: graph_of(self.connections@) }
    }
}

/// `distance` can be asked about every pair of `points`, the point with the
/// lower index first.
pub open spec fn measurable<F: Fn(&Point3D, &Point3D) -> u64>(
    distance: F,
    points: Seq<Point3D>,
) -> bool {
    forall|i: int, j: int|
        0 <= i < j < points.len() ==> #[trigger] call_requires(distance, (&points[i], &points[j]))
}

/// `distance`, asked how far `a` is from `b`, gave an answer that is within
/// `radius` exactly if `outcome` says so.
pub open spec fn measured_within<F: Fn(&Point3D, &Point3D) -> u64>(
    distance: F,
    a: Point3D,
    b: Point3D,
    radius: u64,
    outcome: bool,
) -> bool {
    exists|d: u64| #[trigger] call_ensures(distance, (&a, &b), d) && outcome == le(d, radius)
}

/// `graph` connects exactly the pairs of `points` that `distance` found
/// within `radius` of each other.
pub open spec fn connects<F: Fn(&Point3D, &Point3D) -> u64>(
    points: Seq<Point3D>,
    graph: Map<usize, Seq<usize>>,
    distance: F,
    radius: u64,
) -> bool {
    &&& well_formed(graph, points.len())
    &&& forall|i: usize, j: usize|
        i < j < points.len() ==> measured_within(
            distance,
            points[i as int],
            points[j as int],
            radius,
            #[trigger] has_edge(graph, i, j),
        )
}

/// The points that `list` names, in the order of the list.
pub open spec fn neighbor_points(points: Seq<Point3D>, list: Seq<usize>) -> Seq<Point3D> {
    list.map_values(|j: usize| points[j as int])
}

/// `relax` can be asked about every point of `points` that has neighbours in
/// `graph`.
pub open spec fn relaxable<F: Fn(&Point3D, &Vec<Point3D>) -> (u64, u64, u64)>(
    relax: F,
    points: Seq<Point3D>,
    graph: Map<usize, Seq<usize>>,
) -> bool {
    forall|i: usize, around: Vec<Point3D>|
        i < points.len() && graph.contains_key(i) && around@ == neighbor_points(points, graph[i])
            ==> #[trigger] call_requires(relax, (&points[i as int], &around))
}

/// `after` is what one relaxation step makes of point `i`: the point itself
/// where it has no neighbour, and else the point moved to a position that
/// `relax` gave for it and its neighbours, as they were before the step.
pub open spec fn relaxed<F: Fn(&Point3D, &Vec<Point3D>) -> (u64, u64, u64)>(
    relax: F,
    points: Seq<Point3D>,
    graph: Map<usize, Seq<usize>>,
    i: usize,
    after: Point3D,
) -> bool {
    if graph.contains_key(i) {
        exists|around: Vec<Point3D>, position: (u64, u64, u64)|
            around@ == neighbor_points(points, graph[i]) && #[trigger] call_ensures(
                relax,
                (&points[i as int], &around),
                position,
            ) && after == points[i as int].moved_to(position)
    } else {
        after == points[i as int]
    }
}

/// A box and a range of breaking points that points can be drawn from: the
/// box reaches further than zero along every axis, and the range is not
/// empty.
pub open spec fn drawable(volume: (u64, u64, u64), breaking_range: (u64, u64)) -> bool {
    &&& positive(volume.0)
    &&& positive(volume.1)
    &&& positive(volume.2)
    &&& lt(breaking_range.0, breaking_range.1)
}

/// The draw `(x, y, z, breaking point)` lies in the box and the range: each
/// coordinate is at least the opposite of the box's reach along its axis and
/// less than the reach, and the breaking point is at least the low end of the
/// range and less than the high end.
pub open spec fn in_box(
    draw: (u64, u64, u64, u64),
    volume: (u64, u64, u64),
    breaking_range: (u64, u64),
) -> bool {
    &&& le(negated(volume.0), draw.0) && lt(draw.0, volume.0)
    &&& le(negated(volume.1), draw.1) && lt(draw.1, volume.1)
    &&& le(negated(volume.2), draw.2) && lt(draw.2, volume.2)
    &&& le(breaking_range.0, draw.3) && lt(draw.3, breaking_range.1)
}

/// There are `count` draws, and every one lies in the box and the range.
pub open spec fn all_in_box(
    draws: Seq<(u64, u64, u64, u64)>,
    count: nat,
    volume: (u64, u64, u64),
    breaking_range: (u64, u64),
) -> bool {
    &&& draws.len() == count
    &&& forall|i: int| 0 <= i < draws.len() ==> in_box(#[trigger] draws[i], volume, breaking_range)
}

/// Tells whether a draw lies in the box and the range.
pub fn is_in_box(
    draw: (u64, u64, u64, u64),
    volume: (u64, u64, u64),
    breaking_range: (u64, u64),
) -> (inside: bool)
    ensures
        inside == in_box(draw, volume, breaking_range),
{
    ordered_le(negate(volume.0), draw.0) && ordered_lt(draw.0, volume.0) && ordered_le(
        negate(volume.1),
        draw.1,
    ) && ordered_lt(draw.1, volume.1) && ordered_le(negate(volume.2), draw.2) && ordered_lt(
        draw.2,
        volume.2,
    ) && ordered_le(breaking_range.0, draw.3) && ordered_lt(draw.3, breaking_range.1)
}

impl PointsMesh {
    /// The invariant of the mesh: its graph is well formed over its store.
    #[verifier::type_invariant]
    pub open spec fn wf(&self) -> bool {
        well_formed(self@.graph, self@.points.len())
    }

    /// A mesh without points.
    pub fn new() -> (mesh: PointsMesh)
        ensures
            mesh@.points == Seq::<Point3D>::empty(),
            mesh@.graph == Map::<usize, Seq<usize>>::empty(),
    {
        let mesh = PointsMesh { points: Vec::new(), connections: HashMap::new() };
        assert(mesh@.graph =~= Map::<usize, Seq<usize>>::empty());
        mesh
    }

    /// Replaces the point store by `points`. No connection survives: the
    /// graph is empty afterwards.
    pub fn set_points(&mut self, points: Vec<Point3D>)
        ensures
            final(self)@.points == points@,
            final(self)@.graph == Map::<usize, Seq<usize>>::empty(),
    {
        let mesh = PointsMesh { points, connections: HashMap::new() };
        assert(mesh@.graph =~= Map::<usize, Seq<usize>>::empty());
        *self = mesh;
    }

    /// Replaces the point store by `num_points` fresh points at places drawn
    /// by `sample`. The sampler is asked for `num_points` draws from the box
    /// that reaches `volume` either side of the origin along each axis, with
    /// breaking points from `breaking_range`; each draw becomes one point, in
    /// the order of the draws. The graph is empty afterwards.
    ///
    /// A box or a range that nothing can be drawn from (see [`drawable`]) is
    /// refused without a draw. So are draws that are not `num_points` in
    /// number, or of which one lies outside the box or the range (see
    /// [`in_box`]). Either way the mesh is left as it was.
    pub fn create_points<S: FnOnce(usize, (u64, u64, u64), (u64, u64)) -> Vec<(u64, u64, u64, u64)>>(
        &mut self,
        num_points: usize,
        volume: (u64, u64, u64),
        breaking_range: (u64, u64),
        sample: S,
    ) -> (outcome: Result<(), MeshError>)
        requires
            drawable(volume, breaking_range) ==> call_requires(
                sample,
                (num_points, volume, breaking_range),
            ),
        ensures
            match outcome {
                Ok(_) => {
                    &&& drawable(volume, breaking_range)
                    &&& final(self)@.points.len() == num_points
                    &&& final(self)@.graph == Map::<usize, Seq<usize>>::empty()
                    &&& exists|draws: Vec<(u64, u64, u64, u64)>|
                        {
                            &&& #[trigger] call_ensures(
                                sample,
                                (num_points, volume, breaking_range),
                                draws,
                            )
                            &&& all_in_box(draws@, num_points as nat, volume, breaking_range)
                            &&& forall|i: int|
                                0 <= i < num_points ==> #[trigger] final(self)@.points[i]
                                    == (Point3D {
                                    x: draws@[i].0,
                                    y: draws@[i].1,
                                    z: draws@[i].2,
                                    energy: 0,
                                    broken: false,
                                    breaking_point: draws@[i].3,
                                })
                        }
                },
                Err(e) => {
                    &&& e == MeshError::InputInvalid
                    &&& final(self)@ == old(self)@
                    &&& !drawable(volume, breaking_range) || exists|draws: Vec<(u64, u64, u64, u64)>|
                        #[trigger] call_ensures(sample, (num_points, volume, breaking_range), draws)
                            && !all_in_box(draws@, num_points as nat, volume, breaking_range)
                },
            },
    {
        if !is_positive(volume.0) || !is_positive(volume.1) || !is_positive(volume.2)
            || !ordered_lt(breaking_range.0, breaking_range.1) {
            return Err(MeshError::InputInvalid);
        }
        let draws = sample(num_points, volume, breaking_range);
        if draws.len() != num_points {
            return Err(MeshError::InputInvalid);
        }
        let ghost before = self@;
        let mut points: Vec<Point3D> = Vec::new();
        let mut i: usize = 0;
        while i < num_points
            invariant
                i <= num_points,
                self@ == before,
                call_ensures(sample, (num_points, volume, breaking_range), draws),
                draws@.len() == num_points,
                points@.len() == i,
                forall|a: int| 0 <= a < i ==> in_box(#[trigger] draws@[a], volume, breaking_range),
                forall|a: int|
                    0 <= a < i ==> #[trigger] points@[a] == (Point3D {
                        x: draws@[a].0,
                        y: draws@[a].1,
                        z: draws@[a].2,
                        energy: 0,
                        broken: false,
                        breaking_point: draws@[a].3,
                    }),
            decreases num_points - i,
        {
            let draw = draws[i];
            if !is_in_box(draw, volume, breaking_range) {
                assert(!all_in_box(draws@, num_points as nat, volume, breaking_range)) by {
                    assert(!in_box(draws@[i as int], volume, breaking_range));
                }
                return Err(MeshError::InputInvalid);
            }
            points.push(Point3D::new(draw.0, draw.1, draw.2, draw.3));
            i += 1;
        }
        self.set_points(points);
        Ok(())
    }

    /// Empties the point store and the graph.
    pub fn clear(&mut self)
        ensures
            final(self)@.points == Seq::<Point3D>::empty(),
            final(self)@.graph == Map::<usize, Seq<usize>>::empty(),
    {
        *self = PointsMesh::new();
    }

    /// Rebuilds the graph from nothing: two different points are connected
    /// exactly if `distance` puts them within `radius` of each other. Every
    /// pair is measured once, the point with the lower index first.
    ///
    /// A `radius` that is negative or a NaN is refused, and the mesh is left
    /// as it was.
    pub fn establish_connections<F: Fn(&Point3D, &Point3D) -> u64>(
        &mut self,
        radius: u64,
        distance: F,
    ) -> (outcome: Result<(), MeshError>)
        requires
            measurable(distance, old(self)@.points),
        ensures
            final(self)@.points == old(self)@.points,
            match outcome {
                Ok(_) => non_negative(radius) && connects(
                    final(self)@.points,
                    final(self)@.graph,
                    distance,
                    radius,
                ),
                Err(e) => e == MeshError::InputInvalid && !non_negative(radius) && final(self)@
                    == old(self)@,
            },
    {
        if !is_non_negative(radius) {
            return Err(MeshError::InputInvalid);
        }
        let n = self.points.len();
        let ghost pts = self.points@;
        let mut connections: HashMap<usize, Vec<usize>> = HashMap::new();
        assert(graph_of(connections@) =~= Map::<usize, Seq<usize>>::empty());
        let mut i: usize = 0;
        while i < n
            invariant
                i <= n,
                n == pts.len(),
                self.points@ == pts,
                measurable(distance, pts),
                pairs_settled(pts, graph_of(connections@), distance, radius, i, 0),
            decreases n - i,
        {
            let mut j: usize = i + 1;
            while j < n
                invariant
                    i < n,
                    i < j <= n,
                    n == pts.len(),
                    self.points@ == pts,
                    measurable(distance, pts),
                    pairs_settled(pts, graph_of(connections@), distance, radius, i, j),
                decreases n - j,
            {
                let d = distance(&self.points[i], &self.points[j]);
                if ordered_le(d, radius) {
                    let ghost g0 = graph_of(connections@);
                    push_neighbor(&mut connections, i, j);
                    let ghost g1 = graph_of(connections@);
                    push_neighbor(&mut connections, j, i);
                    proof {
                        lemma_settle_near(pts, g0, g1, graph_of(connections@), distance, radius, i, j, d);
                    }
                } else {
                    proof {
                        lemma_settle_far(pts, graph_of(connections@), distance, radius, i, j, d);
                    }
                }
                j += 1;
            }
            i += 1;
        }
        proof {
            lemma_all_settled(pts, graph_of(connections@), distance, radius);
        }
        self.connections = connections;
        Ok(())
    }

    /// Takes every point without a neighbour out of the store. The points
    /// that stay keep their order and move up to fill the gaps; the graph is
    /// rewritten to their new indices.
    pub fn remove_unconnected_points(&mut self)
        ensures
            pruned(old(self)@.points, old(self)@.graph, final(self)@.points, final(self)@.graph),
            well_formed(final(self)@.graph, final(self)@.points.len()),
            forall|k: usize|
                k < final(self)@.points.len() ==> #[trigger] neighbors(final(self)@.graph, k).len()
                    > 0,
    {
        proof {
            use_type_invariant(&*self);
        }
        let n = self.points.len();
        let ghost pts = self.points@;
        let ghost g = graph_of(self.connections@);
        let mut new_points: Vec<Point3D> = Vec::new();
        let mut index_mapping: Vec<usize> = Vec::new();
        let mut old_index: usize = 0;
        while old_index < n
            invariant
                old_index <= n,
                n == pts.len(),
                self.points@ == pts,
                graph_of(self.connections@) == g,
                index_mapping@.len() == old_index,
                new_points@.len() == keys_below(g, old_index as nat),
                forall|i: usize| i < old_index ==> index_mapping@[i as int] == compacted(g, i),
                forall|i: usize|
                    i < old_index && #[trigger] g.contains_key(i) ==> new_points@[compacted(
                        g,
                        i,
                    ) as int] == pts[i as int],
            decreases n - old_index,
        {
            proof {
                lemma_keys_below_bounds(g, old_index as nat, n as nat);
                assert forall|i: usize| i < old_index && g.contains_key(i) implies compacted(g, i)
                    < new_points@.len() by {
                    lemma_compacted_increasing(g, i, old_index);
                }
            }
            index_mapping.push(new_points.len());
            if self.connections.contains_key(&old_index) {
                new_points.push(self.points[old_index]);
            }
            old_index += 1;
        }
        let mut new_connections: HashMap<usize, Vec<usize>> = HashMap::new();
        assert(graph_of(new_connections@) =~= Map::<usize, Seq<usize>>::empty());
        let mut old_key: usize = 0;
        while old_key < n
            invariant
                old_key <= n,
                n == pts.len(),
                well_formed(g, n as nat),
                graph_of(self.connections@) == g,
                index_mapping@.len() == n,
                forall|i: usize| i < n ==> index_mapping@[i as int] == compacted(g, i),
                forall|k: usize| #[trigger]
                    graph_of(new_connections@).contains_key(k) <==> k < keys_below(
                        g,
                        old_key as nat,
                    ),
                forall|i: usize|
                    i < old_key && #[trigger] g.contains_key(i) ==> graph_of(
                        new_connections@,
                    )[compacted(g, i)] == renumbered(g, g[i]),
            decreases n - old_key,
        {
            let ghost before = graph_of(new_connections@);
            match self.connections.get(&old_key) {
                Some(indices) => {
                    proof {
                        assert forall|a: int| 0 <= a < indices@.len() implies indices@[a]
                            < index_mapping@.len() by {
                            assert(g[old_key].contains(indices@[a]));
                            assert(has_edge(g, old_key, indices@[a]));
                        }
                    }
                    let new_indices = remap(indices, &index_mapping);
                    new_connections.insert(index_mapping[old_key], new_indices);
                    proof {
                        let after = graph_of(new_connections@);
                        let key = compacted(g, old_key);
                        lemma_keys_below_bounds(g, old_key as nat, n as nat);
                        assert(new_indices@ =~= renumbered(g, g[old_key])) by {
                            assert forall|a: int| 0 <= a < indices@.len() implies new_indices@[a]
                                == compacted(g, indices@[a]) by {
                                assert(g[old_key].contains(indices@[a]));
                                assert(has_edge(g, old_key, indices@[a]));
                            }
                        }
                        assert(after =~= before.insert(key, new_indices@));
                        assert forall|i: usize|
                            i < old_key + 1 && #[trigger] g.contains_key(i) implies after[compacted(
                            g,
                            i,
                        )] == renumbered(g, g[i]) by {
                            if i < old_key {
                                lemma_compacted_increasing(g, i, old_key);
                            }
                        }
                    }
                },
                None => {},
            }
            old_key += 1;
        }
        proof {
            lemma_pruned_well_formed(pts, g, new_points@, graph_of(new_connections@));
        }
        *self = PointsMesh { points: new_points, connections: new_connections };
    }

    /// The average number of neighbours of a point, as the sum of the lengths
    /// of all neighbour lists over the number of points. An empty store has
    /// no average.
    pub fn average_connections_per_point(&self) -> (average: Result<Ratio, MeshError>)
        ensures
            match average {
                Ok(ratio) => {
                    &&& self@.points.len() > 0
                    &&& ratio.numerator == degrees_below(self@.graph, self@.points.len())
                    &&& ratio.denominator == self@.points.len()
                },
                Err(e) => e == MeshError::UndefinedStatistic && self@.points.len() == 0,
            },
    {
        proof {
            use_type_invariant(self);
        }
        let n = self.points.len();
        if n == 0 {
            return Err(MeshError::UndefinedStatistic);
        }
        let ghost g = graph_of(self.connections@);
        let mut total_connections: u128 = 0;
        let mut i: usize = 0;
        while i < n
            invariant
                i <= n,
                graph_of(self.connections@) == g,
                total_connections == degrees_below(g, i as nat),
                total_connections <= i * 0xFFFF_FFFF_FFFF_FFFF,
            decreases n - i,
        {
            match self.connections.get(&i) {
                Some(list) => {
                    total_connections = total_connections + list.len() as u128;
                },
                None => {},
            }
            i += 1;
        }
        Ok(Ratio { numerator: total_connections, denominator: n })
    }

    /// The average number of neighbours of a point, and the number of points
    /// that have none. An empty store has no statistics.
    pub fn get_statistics(&self) -> (statistics: Result<(Ratio, usize), MeshError>)
        ensures
            match statistics {
                Ok((ratio, unconnected)) => {
                    &&& self@.points.len() > 0
                    &&& ratio.numerator == degrees_below(self@.graph, self@.points.len())
                    &&& ratio.denominator == self@.points.len()
                    &&& unconnected == self@.points.len() - self@.graph.dom().len()
                    &&& unconnected == self@.points.len() - keys_below(
                        self@.graph,
                        self@.points.len(),
                    )
                },
                Err(e) => e == MeshError::UndefinedStatistic && self@.points.len() == 0,
            },
    {
        let n = self.points.len();
        proof {
            use_type_invariant(self);
            lemma_entries_counted(graph_of(self.connections@), n as nat);
            assert(graph_of(self.connections@).dom() =~= self.connections@.dom());
        }
        match self.average_connections_per_point() {
            Ok(ratio) => {
                let unconnected = n - self.connections.len();
                Ok((ratio, unconnected))
            },
            Err(e) => Err(e),
        }
    }

    /// One step of relaxation: every point that has neighbours moves to the
    /// position that `relax` gives for it and its neighbours, listed in
    /// increasing order of their indices. All positions are taken from the
    /// store as it was before the step. A point without neighbours stays,
    /// and so does the graph.
    pub fn relaxation_step<F: Fn(&Point3D, &Vec<Point3D>) -> (u64, u64, u64)>(&mut self, relax: F)
        requires
            relaxable(relax, old(self)@.points, old(self)@.graph),
        ensures
            final(self)@.graph == old(self)@.graph,
            final(self)@.points.len() == old(self)@.points.len(),
            forall|i: usize|
                i < old(self)@.points.len() ==> relaxed(
                    relax,
                    old(self)@.points,
                    old(self)@.graph,
                    i,
                    #[trigger] final(self)@.points[i as int],
                ),
            forall|i: int|
                0 <= i < old(self)@.points.len() && !old(self)@.graph.contains_key(i as usize)
                    ==> #[trigger] final(self)@.points[i] == old(self)@.points[i],
            forall|i: int|
                0 <= i < old(self)@.points.len() ==> {
                    &&& (#[trigger] final(self)@.points[i]).energy == old(self)@.points[i].energy
                    &&& final(self)@.points[i].broken == old(self)@.points[i].broken
                    &&& final(self)@.points[i].breaking_point
                        == old(self)@.points[i].breaking_point
                },
    {
        proof {
            use_type_invariant(&*self);
        }
        let n = self.points.len();
        let ghost pts = self.points@;
        let ghost g = graph_of(self.connections@);
        let mut new_positions: Vec<Point3D> = Vec::with_capacity(n);
        let mut index: usize = 0;
        while index < n
            invariant
                index <= n,
                n == pts.len(),
                self.points@ == pts,
                graph_of(self.connections@) == g,
                well_formed(g, n as nat),
                relaxable(relax, pts, g),
                new_positions@.len() == index,
                forall|i: usize|
                    i < index ==> relaxed(relax, pts, g, i, #[trigger] new_positions@[i as int]),
            decreases n - index,
        {
            let current = self.points[index];
            match self.connections.get(&index) {
                Some(list) => {
                    proof {
                        assert forall|a: int| 0 <= a < list@.len() implies list@[a] < n by {
                            assert(g[index].contains(list@[a]));
                            assert(has_edge(g, index, list@[a]));
                        }
                    }
                    let around = gather(&self.points, list);
                    let position = relax(&self.points[index], &around);
                    new_positions.push(
                        Point3D {
                            x: position.0,
                            y: position.1,
                            z: position.2,
                            energy: current.energy,
                            broken: current.broken,
                            breaking_point: current.breaking_point,
                        },
                    );
                },
                None => {
                    new_positions.push(current);
                },
            }
            index += 1;
        }
        self.points = new_positions;
    }

    /// The positions of all points, in the order of their indices, each as
    /// its three coordinates.
    pub fn get_points_for_display(&self) -> (positions: Vec<Vec<u64>>)
        ensures
            positions@.len() == self@.points.len(),
            forall|i: int|
                0 <= i < positions@.len() ==> (#[trigger] positions@[i])@
                    == self@.points[i].position(),
    {
        let mut positions: Vec<Vec<u64>> = Vec::new();
        let mut i: usize = 0;
        while i < self.points.len()
            invariant
                i <= self.points@.len(),
                positions@.len() == i,
                forall|a: int|
                    0 <= a < i ==> (#[trigger] positions@[a])@ == self.points@[a].position(),
            decreases self.points@.len() - i,
        {
            let point = self.points[i];
            let triple = vec![point.x, point.y, point.z];
            assert(triple@ =~= point.position());
            positions.push(triple);
            i += 1;
        }
        positions
    }

    /// The point store.
    pub fn points(&self) -> (points: &Vec<Point3D>)
        ensures
            points@ == self@.points,
    {
        &self.points
    }

    /// The neighbour lists of all points that have neighbours.
    pub fn connections(&self) -> (connections: &HashMap<usize, Vec<usize>>)
        ensures
            graph_of(connections@) == self@.graph,
    {
        &self.connections
    }

    /// The number of points in the store.
    pub fn len(&self) -> (n: usize)
        ensures
            n == self@.points.len(),
    {
        self.points.len()
    }

    /// The neighbours of the point at `index`, in increasing order, or `None`
    /// where the point has none (or the store has no such index).
    pub fn get_point_connections(&self, index: usize) -> (list: Option<&Vec<usize>>)
        ensures
            match list {
                Some(list) => self@.graph.contains_key(index) && list@ == self@.graph[index],
                None => !self@.graph.contains_key(index),
            },
    {
        self.connections.get(&index)
    }
}

/// Appends `m` to the neighbours of `k`, giving `k` an entry if it had none.
fn push_neighbor(connections: &mut HashMap<usize, Vec<usize>>, k: usize, m: usize)
    ensures
        graph_of(final(connections)@) == graph_of(old(connections)@).insert(
            k,
            neighbors(graph_of(old(connections)@), k).push(m),
        ),
        forall|a: usize, b: usize|
            has_edge(graph_of(final(connections)@), a, b) <==> has_edge(
                graph_of(old(connections)@),
                a,
                b,
            ) || (a == k && b == m),
{
    let mut list = match connections.remove(&k) {
        Some(list) => list,
        None => Vec::new(),
    };
    list.push(m);
    connections.insert(k, list);
    proof {
        let before = graph_of(old(connections)@);
        let after = graph_of(connections@);
        assert(after =~= before.insert(k, neighbors(before, k).push(m)));
        assert forall|a: usize, b: usize|
            has_edge(after, a, b) <==> has_edge(before, a, b) || (a == k && b == m) by {
            if a == k {
                vstd::seq_lib::lemma_seq_contains_after_push(neighbors(before, k), m, b);
            }
        }
    }
}

/// The list `indices` with every index replaced by what `mapping` holds for
/// it.
fn remap(indices: &Vec<usize>, mapping: &Vec<usize>) -> (out: Vec<usize>)
    requires
        forall|a: int| 0 <= a < indices@.len() ==> indices@[a] < mapping@.len(),
    ensures
        out@.len() == indices@.len(),
        forall|a: int| 0 <= a < indices@.len() ==> out@[a] == mapping@[indices@[a] as int],
{
    let mut out: Vec<usize> = Vec::new();
    let mut at: usize = 0;
    while at < indices.len()
        invariant
            at <= indices@.len(),
            out@.len() == at,
            forall|a: int| 0 <= a < indices@.len() ==> indices@[a] < mapping@.len(),
            forall|a: int| 0 <= a < at ==> out@[a] == mapping@[indices@[a] as int],
        decreases indices@.len() - at,
    {
        out.push(mapping[indices[at]]);
        at += 1;
    }
    out
}

/// The points of `points` that `list` names, in the order of the list.
fn gather(points: &Vec<Point3D>, list: &Vec<usize>) -> (around: Vec<Point3D>)
    requires
        forall|a: int| 0 <= a < list@.len() ==> list@[a] < points@.len(),
    ensures
        around@ == neighbor_points(points@, list@),
{
    let mut around: Vec<Point3D> = Vec::new();
    let mut at: usize = 0;
    while at < list.len()
        invariant
            at <= list@.len(),
            around@.len() == at,
            forall|a: int| 0 <= a < list@.len() ==> list@[a] < points@.len(),
            forall|a: int| 0 <= a < at ==> around@[a] == points@[list@[a] as int],
        decreases list@.len() - at,
    {
        around.push(points[list[at]]);
        at += 1;
    }
    assert(around@ =~= neighbor_points(points@, list@));
    around
}

/// Where the graph stands while it is being built, one pair after the other:
/// the pairs `(a, b)`, `a < b`, with `a < i`, or with `a == i` and `b < j`,
/// have been measured and are connected or not accordingly; no other pair is
/// connected yet.
spec fn pairs_settled<F: Fn(&Point3D, &Point3D) -> u64>(
    points: Seq<Point3D>,
    graph: Map<usize, Seq<usize>>,
    distance: F,
    radius: u64,
    i: usize,
    j: usize,
) -> bool {
    &&& forall|k: usize| #[trigger]
        graph.contains_key(k) ==> graph[k].len() > 0 && ascending(graph[k])
    &&& forall|a: usize, b: usize| #[trigger]
        has_edge(graph, a, b) ==> a != b && has_edge(graph, b, a) && (a < b ==> b < points.len()
            && (a < i || (a == i && b < j)))
    &&& forall|a: usize, b: usize|
        a < b < points.len() && (a < i || (a == i && b < j)) ==> measured_within(
            distance,
            points[a as int],
            points[b as int],
            radius,
            #[trigger] has_edge(graph, a, b),
        )
}

/// Every neighbour of `k` that the graph lists is below `bound`, so `bound`
/// can go to the end of the list.
proof fn lemma_push_keeps_ascending(graph: Map<usize, Seq<usize>>, k: usize, bound: usize)
    requires
        graph.contains_key(k) ==> ascending(graph[k]),
        forall|e: usize| has_edge(graph, k, e) ==> e < bound,
    ensures
        ascending(neighbors(graph, k).push(bound)),
{
    let list = neighbors(graph, k);
    assert forall|a: int, b: int| 0 <= a < b < list.push(bound).len() implies list.push(bound)[a]
        < list.push(bound)[b] by {
        if b == list.len() {
            assert(list.contains(list[a]));
            assert(has_edge(graph, k, list[a]));
        }
    }
}

/// The pair `(i, j)` was measured within the radius and has been connected.
proof fn lemma_settle_near<F: Fn(&Point3D, &Point3D) -> u64>(
    points: Seq<Point3D>,
    g0: Map<usize, Seq<usize>>,
    g1: Map<usize, Seq<usize>>,
    g2: Map<usize, Seq<usize>>,
    distance: F,
    radius: u64,
    i: usize,
    j: usize,
    d: u64,
)
    requires
        i < j < points.len() <= usize::MAX,
        pairs_settled(points, g0, distance, radius, i, j),
        call_ensures(distance, (&points[i as int], &points[j as int]), d),
        le(d, radius),
        g1 == g0.insert(i, neighbors(g0, i).push(j)),
        g2 == g1.insert(j, neighbors(g1, j).push(i)),
        forall|a: usize, b: usize| has_edge(g1, a, b) <==> has_edge(g0, a, b) || (a == i && b == j),
        forall|a: usize, b: usize| has_edge(g2, a, b) <==> has_edge(g1, a, b) || (a == j && b == i),
    ensures
        pairs_settled(points, g2, distance, radius, i, (j + 1) as usize),
{
    assert forall|e: usize| has_edge(g0, i, e) implies e < j by {
    }
    lemma_push_keeps_ascending(g0, i, j);
    assert forall|e: usize| has_edge(g1, j, e) implies e < i by {
        assert(has_edge(g0, j, e));
        assert(has_edge(g0, e, j));
    }
    assert(neighbors(g1, j) == neighbors(g0, j));
    lemma_push_keeps_ascending(g1, j, i);
    assert forall|k: usize| #[trigger] g2.contains_key(k) implies g2[k].len() > 0 && ascending(
        g2[k],
    ) by {
        if k == j {
        } else if k == i {
        } else {
            assert(g0.contains_key(k));
        }
    }
    assert forall|a: usize, b: usize|
        a < b < points.len() && (a < i || (a == i && b < j + 1)) implies measured_within(
        distance,
        points[a as int],
        points[b as int],
        radius,
        #[trigger] has_edge(g2, a, b),
    ) by {
        if a == i && b == j {
            assert(has_edge(g2, a, b));
        } else {
            assert(has_edge(g2, a, b) == has_edge(g0, a, b));
        }
    }
}

/// The pair `(i, j)` was measured beyond the radius and stays unconnected.
proof fn lemma_settle_far<F: Fn(&Point3D, &Point3D) -> u64>(
    points: Seq<Point3D>,
    graph: Map<usize, Seq<usize>>,
    distance: F,
    radius: u64,
    i: usize,
    j: usize,
    d: u64,
)
    requires
        i < j < points.len() <= usize::MAX,
        pairs_settled(points, graph, distance, radius, i, j),
        call_ensures(distance, (&points[i as int], &points[j as int]), d),
        !le(d, radius),
    ensures
        pairs_settled(points, graph, distance, radius, i, (j + 1) as usize),
{
    assert forall|a: usize, b: usize|
        a < b < points.len() && (a < i || (a == i && b < j + 1)) implies measured_within(
        distance,
        points[a as int],
        points[b as int],
        radius,
        #[trigger] has_edge(graph, a, b),
    ) by {
        if a == i && b == j {
            assert(!has_edge(graph, a, b));
        }
    }
}

/// Once every pair is settled, the graph connects the points.
proof fn lemma_all_settled<F: Fn(&Point3D, &Point3D) -> u64>(
    points: Seq<Point3D>,
    graph: Map<usize, Seq<usize>>,
    distance: F,
    radius: u64,
)
    requires
        points.len() <= usize::MAX,
        pairs_settled(points, graph, distance, radius, points.len() as usize, 0),
    ensures
        connects(points, graph, distance, radius),
{
    assert forall|a: usize, b: usize| #[trigger] has_edge(graph, a, b) implies a < points.len() && b
        < points.len() by {
        assert(has_edge(graph, b, a));
    }
    assert forall|k: usize| #[trigger] graph.contains_key(k) implies k < points.len() by {
        assert(graph[k].contains(graph[k][0]));
        assert(has_edge(graph, k, graph[k][0]));
    }
}

} // verus!
