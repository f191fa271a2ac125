//! Generators that fill a point store with a regular grid.
//!
//! A grid has the same offsets along each of its three axes, laid around
//! zero, so that the grid is centred on the origin. The offsets are
//! coordinates, and working them out from an extent and a step is arithmetic
//! on real numbers: the caller's business. The generators check the extent
//! and the step, ask the caller for the offsets, and lay the cells out.

use crate::binary64::{is_positive, lt, ordered_lt, positive, ZERO};
use crate::error::MeshError;
use crate::mesh::{MeshView, PointsMesh};
use crate::point::Point3D;
use vstd::prelude::*;

verus! {

/// The place of cell `(x, y, z)` in a grid of `n` offsets per axis: cells are
/// laid out with `z` running fastest and `x` slowest.
pub open spec fn cell_index(n: int, x: int, y: int, z: int) -> int {
    (x * n + y) * n + z
}

/// The point of a grid cell: fresh, with a breaking point of zero.
pub open spec fn cell(x: u64, y: u64, z: u64) -> Point3D {
    Point3D { x, y, z, energy: 0, broken: false, breaking_point: 0 }
}

/// `points` holds the cells of the grid over `axis` that come before place
/// `filled`, each at its place.
pub open spec fn is_grid_prefix(points: Seq<Point3D>, axis: Seq<u64>, filled: int) -> bool {
    &&& points.len() == filled
    &&& forall|x: int, y: int, z: int|
        #![trigger cell_index(axis.len() as int, x, y, z)]
        0 <= x < axis.len() && 0 <= y < axis.len() && 0 <= z < axis.len() && cell_index(
            axis.len() as int,
            x,
            y,
            z,
        ) < filled ==> points[cell_index(axis.len() as int, x, y, z)] == cell(
            axis[x],
            axis[y],
            axis[z],
        )
}

/// `points` is the whole grid over `axis`: one cell for every triple of
/// offsets, `axis.len()` cubed in all, each at its place.
pub open spec fn is_grid(points: Seq<Point3D>, axis: Seq<u64>) -> bool {
    is_grid_prefix(points, axis, (axis.len() * axis.len() * axis.len()) as int)
}

/// How many of the first `i` marks are set.
pub open spec fn kept_below(kept: Seq<bool>, i: nat) -> nat
    decreases i,
{
    if i == 0 {
        0
    } else {
        kept_below(kept, (i - 1) as nat) + if kept[i - 1] {
            1nat
        } else {
            0nat
        }
    }
}

/// `chosen` holds the items of `all` whose mark is set, in their order.
pub open spec fn selected<P>(all: Seq<P>, kept: Seq<bool>, chosen: Seq<P>) -> bool {
    &&& kept.len() == all.len()
    &&& chosen.len() == kept_below(kept, all.len())
    &&& forall|i: int|
        0 <= i < all.len() && #[trigger] kept[i] ==> chosen[kept_below(kept, i as nat) as int]
            == all[i]
}

/// `distance`, asked how far `b` is from `a`, gave an answer that is beyond
/// `radius` exactly if `outcome` says so.
pub open spec fn measured_beyond<F: Fn(&Point3D, &Point3D) -> u64>(
    distance: F,
    a: Point3D,
    b: Point3D,
    radius: u64,
    outcome: bool,
) -> bool {
    exists|d: u64| #[trigger] call_ensures(distance, (&a, &b), d) && outcome == lt(radius, d)
}

/// The centre of every grid, and the point that a ball is measured from:
/// the cell at the origin.
pub open spec fn origin() -> Point3D {
    cell(ZERO, ZERO, ZERO)
}

/// What [`create_cube`] makes of a mesh: on a side and a step that are both
/// more than zero, the grid over the offsets that `axis` gave, and no
/// connections; on any other, an error and no change.
pub open spec fn cube_made<A: FnOnce(u64, u64) -> Vec<u64>>(
    side: u64,
    step: u64,
    axis: A,
    before: MeshView,
    after: MeshView,
    outcome: Result<(), MeshError>,
) -> bool {
    match outcome {
        Ok(_) => {
            &&& positive(side)
            &&& positive(step)
            &&& exists|offsets: Vec<u64>| #[trigger]
                call_ensures(axis, (side, step), offsets) && is_grid(after.points, offsets@)
            &&& after.graph == Map::<usize, Seq<usize>>::empty()
        },
        Err(e) => e == MeshError::InputInvalid && !(positive(side) && positive(step)) && after
            == before,
    }
}

/// What [`create_sphere`] makes of a mesh: on a radius and a step that are
/// both more than zero, the cells of the grid over the offsets that `axis`
/// gave, without those that `distance` put further than `radius` from the
/// origin, and no connections; on any other, an error and no change.
pub open spec fn ball_made<A: FnOnce(u64, u64) -> Vec<u64>, D: Fn(&Point3D, &Point3D) -> u64>(
    radius: u64,
    step: u64,
    axis: A,
    distance: D,
    before: MeshView,
    after: MeshView,
    outcome: Result<(), MeshError>,
) -> bool {
    match outcome {
        Ok(_) => {
            &&& positive(radius)
            &&& positive(step)
            &&& exists|offsets: Vec<u64>, grid: Seq<Point3D>, kept: Seq<bool>|
                {
                    &&& #[trigger] call_ensures(axis, (radius, step), offsets)
                    &&& is_grid(grid, offsets@)
                    &&& #[trigger] selected(grid, kept, after.points)
                    &&& forall|i: int|
                        0 <= i < grid.len() ==> measured_beyond(
                            distance,
                            origin(),
                            grid[i],
                            radius,
                            !#[trigger] kept[i],
                        )
                }
            &&& after.graph == Map::<usize, Seq<usize>>::empty()
        },
        Err(e) => e == MeshError::InputInvalid && !(positive(radius) && positive(step)) && after
            == before,
    }
}

/// Cells have their places to themselves, and the places are taken in the
/// order of the cells.
proof fn lemma_cell_index_order(n: int, x: int, y: int, z: int, a: int, b: int, c: int)
    requires
        0 <= x < n,
        0 <= y < n,
        0 <= z < n,
        0 <= a < n,
        0 <= b < n,
        0 <= c < n,
    ensures
        0 <= cell_index(n, x, y, z) < n * n * n,
        (x < a || (x == a && (y < b || (y == b && z < c)))) ==> cell_index(n, x, y, z)
            < cell_index(n, a, b, c),
        cell_index(n, x, y, z) == cell_index(n, a, b, c) ==> x == a && y == b && z == c,
{
    assert(0 <= cell_index(n, x, y, z) < n * n * n) by (nonlinear_arith)
        requires
            0 <= x < n,
            0 <= y < n,
            0 <= z < n,
            cell_index(n, x, y, z) == (x * n + y) * n + z,
    {
        assert(x * n + y <= (n - 1) * n + (n - 1));
        assert((x * n + y) * n <= ((n - 1) * n + (n - 1)) * n);
    }
    lemma_cell_index_strict(n, x, y, z, a, b, c);
    lemma_cell_index_strict(n, a, b, c, x, y, z);
}

/// An earlier cell has an earlier place.
proof fn lemma_cell_index_strict(n: int, x: int, y: int, z: int, a: int, b: int, c: int)
    requires
        0 <= x < n,
        0 <= y < n,
        0 <= z < n,
        0 <= a < n,
        0 <= b < n,
        0 <= c < n,
    ensures
        (x < a || (x == a && (y < b || (y == b && z < c)))) ==> cell_index(n, x, y, z)
            < cell_index(n, a, b, c),
{
    if x < a {
        assert((x * n + y) * n + z < (a * n + b) * n + c) by (nonlinear_arith)
            requires
                0 <= x < a,
                0 <= y < n,
                0 <= z < n,
                0 <= b,
                0 <= c,
        {
            assert(x * n + y + 1 <= a * n + b) by {
                assert((x + 1) * n <= a * n);
            }
            assert((x * n + y + 1) * n <= (a * n + b) * n);
        }
    } else if x == a && y < b {
        assert((x * n + y) * n + z < (a * n + b) * n + c) by (nonlinear_arith)
            requires
                x == a,
                0 <= y < b,
                0 <= z < n,
                0 <= c,
        {
            assert((x * n + y + 1) * n <= (a * n + b) * n);
        }
    }
}

/// The cells of the grid over `offsets`, each at its place.
fn grid_points(offsets: &Vec<u64>) -> (points: Vec<Point3D>)
    ensures
        is_grid(points@, offsets@),
{
    let n = offsets.len();
    let ghost axis = offsets@;
    let ghost width = n as int;
    let mut points: Vec<Point3D> = Vec::new();
    let mut x: usize = 0;
    while x < n
        invariant
            x <= n,
            n == axis.len(),
            width == n,
            offsets@ == axis,
            is_grid_prefix(points@, axis, cell_index(width, x as int, 0, 0)),
        decreases n - x,
    {
        let mut y: usize = 0;
        while y < n
            invariant
                x < n,
                y <= n,
                n == axis.len(),
                width == n,
                offsets@ == axis,
                is_grid_prefix(points@, axis, cell_index(width, x as int, y as int, 0)),
            decreases n - y,
        {
            let mut z: usize = 0;
            while z < n
                invariant
                    x < n,
                    y < n,
                    z <= n,
                    n == axis.len(),
                    width == n,
                    offsets@ == axis,
                    is_grid_prefix(points@, axis, cell_index(width, x as int, y as int, z as int)),
                decreases n - z,
            {
                let ghost before = points@;
                points.push(Point3D::new(offsets[x], offsets[y], offsets[z], 0));
                proof {
                    let here = cell_index(width, x as int, y as int, z as int);
                    assert forall|a: int, b: int, c: int|
                        #![trigger cell_index(width, a, b, c)]
                        0 <= a < width && 0 <= b < width && 0 <= c < width && cell_index(
                            width,
                            a,
                            b,
                            c,
                        ) < here + 1 implies points@[cell_index(width, a, b, c)] == cell(
                        axis[a],
                        axis[b],
                        axis[c],
                    ) by {
                        lemma_cell_index_order(width, a, b, c, x as int, y as int, z as int);
                        if cell_index(width, a, b, c) < here {
                            assert(points@[cell_index(width, a, b, c)] == before[cell_index(
                                width,
                                a,
                                b,
                                c,
                            )]);
                        }
                    }
                }
                z += 1;
            }
            assert(cell_index(width, x as int, y as int, n as int) == cell_index(
                width,
                x as int,
                y as int + 1,
                0,
            )) by (nonlinear_arith)
                requires
                    width == n,
            ;
            y += 1;
        }
        assert(cell_index(width, x as int, n as int, 0) == cell_index(width, x as int + 1, 0, 0))
            by (nonlinear_arith)
            requires
                width == n,
        ;
        x += 1;
    }
    assert(cell_index(width, n as int, 0, 0) == width * width * width) by (nonlinear_arith)
        requires
            width == n,
    ;
    points
}

/// The points of a cubic grid: one for every triple of the offsets that
/// `axis` gives for a cube of side `cube_side` sampled every
/// `linear_density`, with the last coordinate running fastest.
///
/// A side or a density that is not more than zero is refused.
pub fn fill_space_cube<A: FnOnce(u64, u64) -> Vec<u64>>(
    cube_side: u64,
    linear_density: u64,
    axis: A,
) -> (outcome: Result<Vec<Point3D>, MeshError>)
    requires
        positive(cube_side) && positive(linear_density) ==> call_requires(
            axis,
            (cube_side, linear_density),
        ),
    ensures
        match outcome {
            Ok(points) => {
                &&& positive(cube_side)
                &&& positive(linear_density)
                &&& exists|offsets: Vec<u64>| #[trigger]
                    call_ensures(axis, (cube_side, linear_density), offsets) && is_grid(
                        points@,
                        offsets@,
                    )
            },
            Err(e) => e == MeshError::InputInvalid && !(positive(cube_side) && positive(
                linear_density,
            )),
        },
{
    if !is_positive(cube_side) || !is_positive(linear_density) {
        return Err(MeshError::InputInvalid);
    }
    let offsets = axis(cube_side, linear_density);
    Ok(grid_points(&offsets))
}

/// Replaces the points of `mesh` by a cubic grid: one point for every triple
/// of the offsets that `axis` gives for a cube of side `side` sampled every
/// `step`. The graph is empty afterwards.
///
/// A side or a step that is not more than zero is refused, and the mesh is
/// left as it was.
pub fn create_cube<A: FnOnce(u64, u64) -> Vec<u64>>(
    side: u64,
    step: u64,
    mesh: &mut PointsMesh,
    axis: A,
) -> (outcome: Result<(), MeshError>)
    requires
        positive(side) && positive(step) ==> call_requires(axis, (side, step)),
    ensures
        cube_made(side, step, axis, old(mesh)@, final(mesh)@, outcome),
{
    match fill_space_cube(side, step, axis) {
        Ok(points) => {
            mesh.set_points(points);
            Ok(())
        },
        Err(e) => Err(e),
    }
}

/// Replaces the points of `mesh` by a ball cut out of a cubic grid. The grid
/// has one cell for every triple of the offsets that `axis` gives for a ball
/// of radius `radius` sampled every `step`; a cell stays out exactly if
/// `distance` puts it further than `radius` from the centre of the grid, the
/// [`origin`]. The cells that stay keep their order. The graph is empty
/// afterwards.
///
/// A radius or a step that is not more than zero is refused, and the mesh is
/// left as it was.
pub fn create_sphere<A: FnOnce(u64, u64) -> Vec<u64>, D: Fn(&Point3D, &Point3D) -> u64>(
    radius: u64,
    step: u64,
    mesh: &mut PointsMesh,
    axis: A,
    distance: D,
) -> (outcome: Result<(), MeshError>)
    requires
        positive(radius) && positive(step) ==> call_requires(axis, (radius, step)),
        forall|p: Point3D| #[trigger] call_requires(distance, (&origin(), &p)),
    ensures
        ball_made(radius, step, axis, distance, old(mesh)@, final(mesh)@, outcome),
{
    if !is_positive(radius) || !is_positive(step) {
        return Err(MeshError::InputInvalid);
    }
    let offsets = axis(radius, step);
    let grid = grid_points(&offsets);
    let center = Point3D::new(ZERO, ZERO, ZERO, 0);
    let mut points: Vec<Point3D> = Vec::new();
    let ghost mut kept: Seq<bool> = Seq::empty();
    let mut i: usize = 0;
    while i < grid.len()
        invariant
            i <= grid@.len(),
            center == origin(),
            forall|p: Point3D| #[trigger] call_requires(distance, (&origin(), &p)),
            kept.len() == i,
            points@.len() == kept_below(kept, i as nat),
            forall|a: int|
                0 <= a < i && #[trigger] kept[a] ==> points@[kept_below(kept, a as nat) as int]
                    == grid@[a],
            forall|a: int|
                0 <= a < i ==> measured_beyond(distance, center, grid@[a], radius, !#[trigger] kept[a]),
        decreases grid@.len() - i,
    {
        let d = distance(&center, &grid[i]);
        let stays = !ordered_lt(radius, d);
        proof {
            let longer = kept.push(stays);
            assert forall|a: nat| a <= i implies kept_below(longer, a) == kept_below(kept, a) by {
                lemma_kept_below_prefix(kept, longer, a);
            }
            assert forall|a: int| 0 <= a < i && kept[a] implies kept_below(kept, a as nat)
                < kept_below(kept, i as nat) by {
                lemma_kept_below_increasing(kept, a as nat, i as nat);
            }
            kept = longer;
        }
        if stays {
            points.push(grid[i]);
        }
        i += 1;
    }
    proof {
        assert(selected(grid@, kept, points@));
    }
    mesh.set_points(points);
    Ok(())
}

/// The count of set marks looks at the marks before the place only.
proof fn lemma_kept_below_prefix(kept: Seq<bool>, longer: Seq<bool>, i: nat)
    requires
        i <= kept.len() <= longer.len(),
        forall|a: int| 0 <= a < kept.len() ==> kept[a] == longer[a],
    ensures
        kept_below(longer, i) == kept_below(kept, i),
    decreases i,
{
    if i > 0 {
        lemma_kept_below_prefix(kept, longer, (i - 1) as nat);
    }
}

/// The count of set marks grows past every set mark.
proof fn lemma_kept_below_increasing(kept: Seq<bool>, i: nat, j: nat)
    requires
        i < j <= kept.len(),
        kept[i as int],
    ensures
        kept_below(kept, i) < kept_below(kept, j),
    decreases j,
{
    if j > i + 1 {
        lemma_kept_below_increasing(kept, i, (j - 1) as nat);
    }
}

} // verus!
