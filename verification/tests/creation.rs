use ps_mesh::creation::{create_cube, create_sphere, fill_space_cube};
use ps_mesh::error::MeshError;
use ps_mesh::mesh::PointsMesh;
use ps_mesh::point::Point3D;
use std::cell::RefCell;

fn coordinates(p: &Point3D) -> (f64, f64, f64) {
    (f64::from_bits(p.x), f64::from_bits(p.y), f64::from_bits(p.z))
}

fn distance(a: &Point3D, b: &Point3D) -> u64 {
    let (ax, ay, az) = coordinates(a);
    let (bx, by, bz) = coordinates(b);
    ((ax - bx).powi(2) + (ay - by).powi(2) + (az - bz).powi(2)).sqrt().to_bits()
}

/// Offsets one step apart, laid around zero.
fn offsets(cells: usize, step: f32) -> Vec<u64> {
    let start_corner_dist = (cells as f32 - 1.) / 2. * step;
    (0..cells)
        .map(|k| ((k as f32 * step - start_corner_dist) as f64).to_bits())
        .collect()
}

/// Offsets of a cube of the given side: as many as steps fit into the side.
fn cube_axis(side: u64, step: u64) -> Vec<u64> {
    let side = f64::from_bits(side) as f32;
    let step = f64::from_bits(step) as f32;
    offsets((side / step) as usize, step)
}

/// Offsets of the cube around a ball of the given radius.
fn ball_axis(radius: u64, step: u64) -> Vec<u64> {
    let radius = f64::from_bits(radius) as f32;
    let step = f64::from_bits(step) as f32;
    offsets((radius * 2. / step) as usize, step)
}

fn fixed_axis(offsets: Vec<f64>) -> impl FnOnce(u64, u64) -> Vec<u64> {
    move |_, _| offsets.iter().map(|v| v.to_bits()).collect()
}

fn positions(mesh: &PointsMesh) -> Vec<(f64, f64, f64)> {
    mesh.points().iter().map(coordinates).collect()
}

fn with_a_connection() -> PointsMesh {
    let mut mesh = PointsMesh::new();
    mesh.set_points(vec![
        Point3D::new(0, 0, 0, 0),
        Point3D::new(0, 0, 0, 0),
    ]);
    mesh.establish_connections(1.0f64.to_bits(), distance).unwrap();
    assert_eq!(mesh.get_point_connections(0), Some(&vec![1]));
    mesh
}

#[test]
fn cube_of_side_one_and_step_half_has_eight_points() {
    let mut mesh = PointsMesh::new();
    assert_eq!(create_cube(1.0f64.to_bits(), 0.5f64.to_bits(), &mut mesh, cube_axis), Ok(()));
    assert_eq!(mesh.len(), 8);
    assert_eq!(
        positions(&mesh),
        vec![
            (-0.25, -0.25, -0.25),
            (-0.25, -0.25, 0.25),
            (-0.25, 0.25, -0.25),
            (-0.25, 0.25, 0.25),
            (0.25, -0.25, -0.25),
            (0.25, -0.25, 0.25),
            (0.25, 0.25, -0.25),
            (0.25, 0.25, 0.25),
        ]
    );
    for p in mesh.points().iter() {
        assert_eq!(p.energy, 0);
        assert!(!p.broken);
        assert_eq!(p.breaking_point, 0);
    }
}

#[test]
fn cube_is_centred_on_the_origin() {
    let mut mesh = PointsMesh::new();
    create_cube(1.0f64.to_bits(), 0.25f64.to_bits(), &mut mesh, cube_axis).unwrap();
    assert_eq!(mesh.len(), 64);
    assert_eq!(positions(&mesh)[0], (-0.375, -0.375, -0.375));
    assert_eq!(positions(&mesh)[63], (0.375, 0.375, 0.375));
    for &(x, y, z) in positions(&mesh).iter() {
        assert!(positions(&mesh).contains(&(-x, -y, -z)));
    }
}

#[test]
fn cube_lays_cells_out_with_the_last_coordinate_fastest() {
    let mut mesh = PointsMesh::new();
    create_cube(
        3.0f64.to_bits(),
        1.0f64.to_bits(),
        &mut mesh,
        fixed_axis(vec![10.0, 20.0, 30.0]),
    )
    .unwrap();
    assert_eq!(mesh.len(), 27);
    let axis = [10.0, 20.0, 30.0];
    for x in 0..3 {
        for y in 0..3 {
            for z in 0..3 {
                assert_eq!(
                    coordinates(&mesh.points()[(x * 3 + y) * 3 + z]),
                    (axis[x], axis[y], axis[z])
                );
            }
        }
    }
}

#[test]
fn cube_replaces_points_and_drops_connections() {
    let mut mesh = with_a_connection();
    create_cube(1.0f64.to_bits(), 0.5f64.to_bits(), &mut mesh, cube_axis).unwrap();
    assert_eq!(mesh.len(), 8);
    for i in 0..8 {
        assert_eq!(mesh.get_point_connections(i), None);
    }
}

#[test]
fn cube_with_a_step_larger_than_the_side_is_empty() {
    let mut mesh = with_a_connection();
    assert_eq!(create_cube(1.0f64.to_bits(), 2.0f64.to_bits(), &mut mesh, cube_axis), Ok(()));
    assert_eq!(mesh.len(), 0);
    assert_eq!(mesh.get_point_connections(0), None);
}

#[test]
fn cube_refuses_a_step_or_side_that_is_not_positive() {
    for (side, step) in [
        (1.0f64, 0.0f64),
        (1.0, -0.5),
        (1.0, -0.0),
        (1.0, f64::NAN),
        (0.0, 0.5),
        (-1.0, 0.5),
        (f64::NAN, 0.5),
        (-2.0, -1.0),
    ] {
        let mut mesh = with_a_connection();
        let outcome = create_cube(side.to_bits(), step.to_bits(), &mut mesh, |_, _| -> Vec<u64> {
            panic!("offsets are not asked for on bad input")
        });
        assert_eq!(outcome, Err(MeshError::InputInvalid));
        assert_eq!(mesh.len(), 2);
        assert_eq!(mesh.get_point_connections(0), Some(&vec![1]));
        assert_eq!(mesh.get_point_connections(1), Some(&vec![0]));
    }
}

#[test]
fn fill_space_cube_returns_the_grid() {
    let axis = |side: u64, density: u64| -> Vec<u64> {
        let side = f64::from_bits(side);
        let density = f64::from_bits(density);
        let grid_steps = (side / density) as i32;
        let start = (grid_steps as f64 - 1.) / 2. * density;
        (0..grid_steps).map(|k| (k as f64 * density - start).to_bits()).collect()
    };
    let cloud = fill_space_cube(1.5f64.to_bits(), 0.5f64.to_bits(), axis).unwrap();
    let found: Vec<(f64, f64, f64)> = cloud.iter().map(coordinates).collect();
    assert_eq!(found.len(), 27);
    assert_eq!(found[0], (-0.5, -0.5, -0.5));
    assert_eq!(found[1], (-0.5, -0.5, 0.0));
    assert_eq!(found[3], (-0.5, 0.0, -0.5));
    assert_eq!(found[9], (0.0, -0.5, -0.5));
    assert_eq!(found[13], (0.0, 0.0, 0.0));
    assert_eq!(found[26], (0.5, 0.5, 0.5));
}

#[test]
fn fill_space_cube_refuses_bad_input() {
    let never = |_: u64, _: u64| -> Vec<u64> { panic!("offsets are not asked for on bad input") };
    assert_eq!(
        fill_space_cube(0.5f64.to_bits(), 0.0f64.to_bits(), never),
        Err(MeshError::InputInvalid)
    );
    let never = |_: u64, _: u64| -> Vec<u64> { panic!("offsets are not asked for on bad input") };
    assert_eq!(
        fill_space_cube((-0.5f64).to_bits(), 0.1f64.to_bits(), never),
        Err(MeshError::InputInvalid)
    );
}

fn from_origin(x: f64, y: f64, z: f64) -> f64 {
    (x.powi(2) + y.powi(2) + z.powi(2)).sqrt()
}

#[test]
fn sphere_keeps_the_cells_within_the_radius_of_the_origin() {
    let radius = 2.0f64;
    let step = 0.5f64;
    let mut mesh = PointsMesh::new();
    assert_eq!(
        create_sphere(radius.to_bits(), step.to_bits(), &mut mesh, ball_axis, distance),
        Ok(())
    );
    // Eight offsets, half a step either side of zero and onwards.
    let offsets = [-1.75, -1.25, -0.75, -0.25, 0.25, 0.75, 1.25, 1.75];
    let mut expected = Vec::new();
    for &x in offsets.iter() {
        for &y in offsets.iter() {
            for &z in offsets.iter() {
                if !(from_origin(x, y, z) > radius) {
                    expected.push((x, y, z));
                }
            }
        }
    }
    assert_eq!(positions(&mesh), expected);
    assert!(positions(&mesh).contains(&(0.25, 0.25, 0.25)));
    assert!(positions(&mesh).contains(&(-1.75, 0.25, -0.75)));
    assert!(!positions(&mesh).contains(&(1.75, 1.75, 1.75)));
    assert!(!positions(&mesh).contains(&(-1.25, -1.25, -1.25)));
    for &(x, y, z) in positions(&mesh).iter() {
        assert!(from_origin(x, y, z) <= radius);
        // The ball is as much on one side of the origin as on the other.
        assert!(positions(&mesh).contains(&(-x, -y, -z)));
    }
}

#[test]
fn sphere_of_radius_one_and_step_one_keeps_all_eight_cells() {
    let mut mesh = PointsMesh::new();
    create_sphere(1.0f64.to_bits(), 1.0f64.to_bits(), &mut mesh, ball_axis, distance).unwrap();
    // Offsets are -0.5 and 0.5; every cell is 0.87 from the origin.
    assert_eq!(
        positions(&mesh),
        vec![
            (-0.5, -0.5, -0.5),
            (-0.5, -0.5, 0.5),
            (-0.5, 0.5, -0.5),
            (-0.5, 0.5, 0.5),
            (0.5, -0.5, -0.5),
            (0.5, -0.5, 0.5),
            (0.5, 0.5, -0.5),
            (0.5, 0.5, 0.5),
        ]
    );
}

#[test]
fn sphere_of_radius_two_and_step_one_drops_the_edges_and_corners() {
    let mut mesh = PointsMesh::new();
    create_sphere(2.0f64.to_bits(), 1.0f64.to_bits(), &mut mesh, ball_axis, distance).unwrap();
    // Offsets are -1.5, -0.5, 0.5, 1.5; a cell stays unless two of its
    // coordinates are at the rim.
    assert_eq!(mesh.len(), 32);
    for &(x, y, z) in positions(&mesh).iter() {
        let at_rim = [x, y, z].iter().filter(|c| c.abs() == 1.5).count();
        assert!(at_rim <= 1);
    }
    assert_eq!(positions(&mesh)[0], (-1.5, -0.5, -0.5));
}

#[test]
fn sphere_keeps_a_cell_exactly_at_the_radius() {
    let mut mesh = PointsMesh::new();
    create_sphere(
        2.0f64.to_bits(),
        1.0f64.to_bits(),
        &mut mesh,
        fixed_axis(vec![0.0, 2.0]),
        distance,
    )
    .unwrap();
    // (0,0,2), (0,2,0), (2,0,0) are at distance 2 from the origin.
    assert_eq!(
        positions(&mesh),
        vec![(0.0, 0.0, 0.0), (0.0, 0.0, 2.0), (0.0, 2.0, 0.0), (2.0, 0.0, 0.0)]
    );
}

#[test]
fn sphere_measures_from_the_origin_to_the_cell() {
    let asked: RefCell<Vec<((f64, f64, f64), (f64, f64, f64))>> = RefCell::new(Vec::new());
    let mut mesh = PointsMesh::new();
    create_sphere(
        3.0f64.to_bits(),
        1.0f64.to_bits(),
        &mut mesh,
        fixed_axis(vec![5.0]),
        |a: &Point3D, b: &Point3D| {
            asked.borrow_mut().push((coordinates(a), coordinates(b)));
            distance(a, b)
        },
    )
    .unwrap();
    assert_eq!(*asked.borrow(), vec![((0.0, 0.0, 0.0), (5.0, 5.0, 5.0))]);
    assert_eq!(mesh.len(), 0);
}

#[test]
fn sphere_keeps_a_cell_whose_distance_is_a_nan() {
    let mut mesh = PointsMesh::new();
    create_sphere(
        1.0f64.to_bits(),
        1.0f64.to_bits(),
        &mut mesh,
        fixed_axis(vec![f64::NAN]),
        distance,
    )
    .unwrap();
    assert_eq!(mesh.len(), 1);
}

#[test]
fn sphere_drops_connections() {
    let mut mesh = with_a_connection();
    create_sphere(
        2.0f64.to_bits(),
        1.0f64.to_bits(),
        &mut mesh,
        fixed_axis(vec![0.0, 1.0]),
        distance,
    )
    .unwrap();
    assert_eq!(mesh.len(), 8);
    for i in 0..8 {
        assert_eq!(mesh.get_point_connections(i), None);
    }
}

#[test]
fn sphere_refuses_a_step_or_radius_that_is_not_positive() {
    for (radius, step) in [
        (2.0f64, 0.0f64),
        (2.0, -0.03),
        (0.0, 0.03),
        (-2.0, 0.03),
        (f64::NAN, 0.03),
        (2.0, f64::NAN),
    ] {
        let mut mesh = with_a_connection();
        let outcome = create_sphere(
            radius.to_bits(),
            step.to_bits(),
            &mut mesh,
            |_, _| -> Vec<u64> { panic!("offsets are not asked for on bad input") },
            distance,
        );
        assert_eq!(outcome, Err(MeshError::InputInvalid));
        assert_eq!(mesh.len(), 2);
        assert_eq!(mesh.get_point_connections(0), Some(&vec![1]));
    }
}

