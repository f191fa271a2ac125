//! The commands of the interactive shell, and what each does to the mesh.

use crate::binary64::positive;
use crate::creation::{ball_made, create_cube, create_sphere, cube_made, origin};
use crate::error::MeshError;
use crate::mesh::{MeshView, PointsMesh};
use crate::point::Point3D;
use vstd::prelude::*;

verus! {

/// One line of the shell, parsed: a command, or nothing.
#[derive(Clone, Copy, Debug)]
pub struct CliArguments {
    /// The command, if the line held one.
    pub command: Option<CliCommand>,
}

/// The commands of the shell.
#[derive(Clone, Copy, Debug)]
pub enum CliCommand {
    /// Fill the mesh with a shape.
    Create(CreateCommand),
    /// Empty the mesh.
    Clear(ClearCommand),
    /// Corrode the cloud.
    Corrode(CorrodeCommand),
    /// Relax the cloud.
    Relax(RelaxCommand),
}

/// The shapes that the shell can create. Lengths are binary64 encodings.
#[derive(Clone, Copy, Debug)]
pub enum CreateCommand {
    /// A cube of the given side, sampled every `step`.
    Cube { side: u64, step: u64 },
    /// A ball of the given radius, sampled every `step`.
    Sphere { radius: u64, step: u64 },
}

/// Empty the mesh.
#[derive(Clone, Copy, Debug)]
pub struct ClearCommand {}

/// Corrode the cloud, a number of times over.
#[derive(Clone, Copy, Debug)]
pub struct CorrodeCommand {
    /// How many times.
    pub iterations: usize,
}

/// Relax the cloud, a number of times over.
#[derive(Clone, Copy, Debug)]
pub struct RelaxCommand {
    /// How many times.
    pub iterations: usize,
}

/// What a line of the shell asks of the callbacks that [`execute`] is given.
pub open spec fn executable<
    C: FnOnce(u64, u64) -> Vec<u64>,
    B: FnOnce(u64, u64) -> Vec<u64>,
    D: Fn(&Point3D, &Point3D) -> u64,
>(arguments: CliArguments, cube_axis: C, ball_axis: B, distance: D) -> bool {
    match arguments.command {
        Some(CliCommand::Create(CreateCommand::Cube { side, step })) => positive(side) && positive(
            step,
        ) ==> call_requires(cube_axis, (side, step)),
        Some(CliCommand::Create(CreateCommand::Sphere { radius, step })) => {
            &&& positive(radius) && positive(step) ==> call_requires(ball_axis, (radius, step))
            &&& forall|p: Point3D| #[trigger] call_requires(distance, (&origin(), &p))
        },
        _ => true,
    }
}

/// What a line of the shell makes of the mesh: `Create` what the generator of
/// the shape makes of it, `Clear` an empty mesh; `Corrode`, `Relax` and a line
/// without a command leave it alone.
pub open spec fn executed<
    C: FnOnce(u64, u64) -> Vec<u64>,
    B: FnOnce(u64, u64) -> Vec<u64>,
    D: Fn(&Point3D, &Point3D) -> u64,
>(
    arguments: CliArguments,
    cube_axis: C,
    ball_axis: B,
    distance: D,
    before: MeshView,
    after: MeshView,
    outcome: Result<(), MeshError>,
) -> bool {
    match arguments.command {
        Some(CliCommand::Create(CreateCommand::Cube { side, step })) => cube_made(
            side,
            step,
            cube_axis,
            before,
            after,
            outcome,
        ),
        Some(CliCommand::Create(CreateCommand::Sphere { radius, step })) => ball_made(
            radius,
            step,
            ball_axis,
            distance,
            before,
            after,
            outcome,
        ),
        Some(CliCommand::Clear(_)) => {
            &&& outcome is Ok
            &&& after.points == Seq::<Point3D>::empty()
            &&& after.graph == Map::<usize, Seq<usize>>::empty()
        },
        _ => outcome is Ok && after == before,
    }
}

/// Carries out one line of the shell on the mesh. An error is for the shell
/// to report; the mesh is then as it was, and the shell goes on.
pub fn execute<
    C: FnOnce(u64, u64) -> Vec<u64>,
    B: FnOnce(u64, u64) -> Vec<u64>,
    D: Fn(&Point3D, &Point3D) -> u64,
>(
    arguments: &CliArguments,
    mesh: &mut PointsMesh,
    cube_axis: C,
    ball_axis: B,
    distance: D,
) -> (outcome: Result<(), MeshError>)
    requires
        executable(*arguments, cube_axis, ball_axis, distance),
    ensures
        executed(*arguments, cube_axis, ball_axis, distance, old(mesh)@, final(mesh)@, outcome),
{
    match arguments.command {
        Some(CliCommand::Create(CreateCommand::Cube { side, step })) => create_cube(
            side,
            step,
            mesh,
            cube_axis,
        ),
        Some(CliCommand::Create(CreateCommand::Sphere { radius, step })) => create_sphere(
            radius,
            step,
            mesh,
            ball_axis,
            distance,
        ),
        Some(CliCommand::Clear(_)) => {
            mesh.clear();
            Ok(())
        },
        Some(CliCommand::Corrode(_)) => Ok(()),
        Some(CliCommand::Relax(_)) => Ok(()),
        None => Ok(()),
    }
}

} // verus!
