use ps_mesh::commands::{
    execute, ClearCommand, CliArguments, CliCommand, CorrodeCommand, CreateCommand, RelaxCommand,
};
use ps_mesh::error::MeshError;
use ps_mesh::mesh::PointsMesh;
use ps_mesh::point::Point3D;

fn coordinates(p: &Point3D) -> (f64, f64, f64) {
    (f64::from_bits(p.x), f64::from_bits(p.y), f64::from_bits(p.z))
}

fn distance(a: &Point3D, b: &Point3D) -> u64 {
    let (ax, ay, az) = coordinates(a);
    let (bx, by, bz) = coordinates(b);
    ((ax - bx).powi(2) + (ay - by).powi(2) + (az - bz).powi(2)).sqrt().to_bits()
}

/// Offsets one step apart, laid around zero.
fn offsets(cells: usize, step: f32) -> Vec<u64> {
    let start_corner_dist = (cells as f32 - 1.) / 2. * step;
    (0..cells)
        .map(|k| ((k as f32 * step - start_corner_dist) as f64).to_bits())
        .collect()
}

/// Offsets of a cube of the given side: as many as steps fit into the side.
fn cube_axis(side: u64, step: u64) -> Vec<u64> {
    let side = f64::from_bits(side) as f32;
    let step = f64::from_bits(step) as f32;
    offsets((side / step) as usize, step)
}

/// Offsets of the cube around a ball of the given radius.
fn ball_axis(radius: u64, step: u64) -> Vec<u64> {
    let radius = f64::from_bits(radius) as f32;
    let step = f64::from_bits(step) as f32;
    offsets((radius * 2. / step) as usize, step)
}

fn run(mesh: &mut PointsMesh, command: Option<CliCommand>) -> Result<(), MeshError> {
    execute(&CliArguments { command }, mesh, cube_axis, ball_axis, distance)
}

fn connected_pair() -> PointsMesh {
    let mut mesh = PointsMesh::new();
    mesh.set_points(vec![Point3D::new(0, 0, 0, 0), Point3D::new(0, 0, 0, 0)]);
    mesh.establish_connections(1.0f64.to_bits(), distance).unwrap();
    mesh
}

#[test]
fn create_cube_command_fills_the_mesh() {
    let mut mesh = PointsMesh::new();
    let command = CliCommand::Create(CreateCommand::Cube {
        side: 1.0f64.to_bits(),
        step: 0.5f64.to_bits(),
    });
    assert_eq!(run(&mut mesh, Some(command)), Ok(()));
    assert_eq!(mesh.len(), 8);
    assert_eq!(coordinates(&mesh.points()[0]), (-0.25, -0.25, -0.25));
    assert_eq!(coordinates(&mesh.points()[7]), (0.25, 0.25, 0.25));
}

#[test]
fn create_sphere_command_fills_the_mesh() {
    let mut mesh = PointsMesh::new();
    let command = CliCommand::Create(CreateCommand::Sphere {
        radius: 2.0f64.to_bits(),
        step: 1.0f64.to_bits(),
    });
    assert_eq!(run(&mut mesh, Some(command)), Ok(()));
    // Offsets -1.5, -0.5, 0.5, 1.5: a cell stays unless two of its
    // coordinates are at the rim.
    assert_eq!(mesh.len(), 32);
    assert_eq!(coordinates(&mesh.points()[0]), (-1.5, -0.5, -0.5));
    assert_eq!(coordinates(&mesh.points()[31]), (1.5, 0.5, 0.5));
}

#[test]
fn create_command_with_bad_input_reports_and_changes_nothing() {
    let mut mesh = connected_pair();
    let cube = CliCommand::Create(CreateCommand::Cube {
        side: 1.0f64.to_bits(),
        step: 0.0f64.to_bits(),
    });
    assert_eq!(run(&mut mesh, Some(cube)), Err(MeshError::InputInvalid));
    let ball = CliCommand::Create(CreateCommand::Sphere {
        radius: (-2.0f64).to_bits(),
        step: 0.5f64.to_bits(),
    });
    assert_eq!(run(&mut mesh, Some(ball)), Err(MeshError::InputInvalid));
    assert_eq!(mesh.len(), 2);
    assert_eq!(mesh.get_point_connections(0), Some(&vec![1]));
}

#[test]
fn clear_command_empties_the_mesh() {
    let mut mesh = connected_pair();
    assert_eq!(run(&mut mesh, Some(CliCommand::Clear(ClearCommand {}))), Ok(()));
    assert_eq!(mesh.len(), 0);
    assert_eq!(mesh.get_point_connections(0), None);
}

#[test]
fn corrode_relax_and_empty_lines_leave_the_mesh_alone() {
    let mut mesh = connected_pair();
    let commands = [
        Some(CliCommand::Corrode(CorrodeCommand { iterations: 100 })),
        Some(CliCommand::Relax(RelaxCommand { iterations: 3 })),
        None,
    ];
    for command in commands {
        assert_eq!(run(&mut mesh, command), Ok(()));
        assert_eq!(mesh.len(), 2);
        assert_eq!(mesh.get_point_connections(0), Some(&vec![1]));
        assert_eq!(mesh.get_point_connections(1), Some(&vec![0]));
    }
}
