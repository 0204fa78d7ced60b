use nbody_divergence::deviation::first_unperturbed;
use nbody_divergence::exclusion::pair_is_excluded;
use nbody_divergence::sample::step_bounds;
use nbody_divergence::simulation::{SetupError, Simulation, PER_ITER};

const TIMESTEP: f64 = 1.0 / 2097152.0;
const GRAV_CONST: f64 = 1.0;

type Vector = [f64; 3];

#[derive(Clone)]
struct World {
    forces: Vec<Vector>,
    velocities: Vec<Vector>,
    accelerations: Vec<Vector>,
    positions: Vec<Vector>,
    starting_deviation: f64,
}

fn plus(a: Vector, b: Vector) -> Vector {
    [a[0] + b[0], a[1] + b[1], a[2] + b[2]]
}

fn minus(a: Vector, b: Vector) -> Vector {
    [a[0] - b[0], a[1] - b[1], a[2] - b[2]]
}

fn scaled(a: Vector, by: f64) -> Vector {
    [a[0] * by, a[1] * by, a[2] * by]
}

fn length_squared(a: Vector) -> f64 {
    a[0] * a[0] + a[1] * a[1] + a[2] * a[2]
}

fn length(a: Vector) -> f64 {
    length_squared(a).sqrt()
}

fn reference(positions: &[Vector]) -> World {
    World {
        forces: vec![[0.0; 3]; positions.len()],
        velocities: vec![[0.0; 3]; positions.len()],
        accelerations: vec![[0.0; 3]; positions.len()],
        positions: positions.to_vec(),
        starting_deviation: 0.0,
    }
}

fn perturbed(reference: &World, displacements: &[Vector]) -> World {
    let mut world = reference.clone();
    let mut deviation = 0.0;
    for (position, displacement) in world.positions.iter_mut().zip(displacements) {
        deviation += length(*displacement);
        *position = plus(*position, *displacement);
    }
    world.starting_deviation = deviation;
    world
}

fn kernel(world: &mut World, masses: &[f64], radii: &[f64]) {
    for i in 0..world.forces.len() {
        let mut sum = [0.0; 3];
        for j in 0..world.forces.len() {
            let reach = (radii[j] + radii[i]) * (radii[j] + radii[i]);
            let direction = minus(world.positions[j], world.positions[i]);
            let distance = length_squared(direction);
            if pair_is_excluded(distance.to_bits(), reach.to_bits()) {
                continue;
            }
            let magnitude = GRAV_CONST * masses[j] * masses[i] / distance;
            sum = plus(sum, scaled(scaled(direction, magnitude), 1.0 / distance.sqrt()));
        }
        world.forces[i] = sum;
    }
    for i in 0..world.forces.len() {
        world.accelerations[i] = scaled(world.forces[i], 1.0 / masses[i]);
        world.velocities[i] = plus(world.velocities[i], scaled(world.accelerations[i], TIMESTEP));
        world.positions[i] = plus(world.positions[i], scaled(world.velocities[i], TIMESTEP));
    }
}

fn divergence(reference: &World, world: &World) -> f64 {
    reference
        .positions
        .iter()
        .zip(world.positions.iter())
        .fold(0.0, |sum, (a, b)| sum + length(minus(*a, *b)))
}

fn run(
    positions: &[Vector],
    masses: &[f64],
    radii: &[f64],
    displacements: &[Vec<Vector>],
    most_rounds: usize,
) -> Result<Vec<(f64, usize)>, SetupError> {
    let mut first = reference(positions);
    let mut others: Vec<World> = displacements.iter().map(|d| perturbed(&first, d)).collect();
    let deviations: Vec<u64> = others.iter().map(|w| w.starting_deviation.to_bits()).collect();
    let mut simulation = Simulation::new(deviations)?;
    let mut rounds = 0;
    while !simulation.is_finished() {
        assert!(rounds < most_rounds, "no divergence within {most_rounds} rounds");
        rounds += 1;
        assert!(simulation.can_advance());
        for _ in 0..PER_ITER {
            kernel(&mut first, masses, radii);
        }
        let mut ratios = Vec::new();
        for &id in simulation.active() {
            for _ in 0..PER_ITER {
                kernel(&mut others[id], masses, radii);
            }
            let ratio = divergence(&first, &others[id]) / others[id].starting_deviation;
            assert!(ratio >= 0.0);
            ratios.push(ratio.to_bits());
        }
        simulation.finish_round(&ratios);
    }
    Ok(simulation
        .into_sample()
        .iter()
        .map(|point| (f64::from_bits(point.deviation), point.steps))
        .collect())
}

#[test]
fn two_bodies_and_one_perturbed_world() {
    let positions = [[0.0, 0.0, 0.0], [1.0, 0.0, 0.0]];
    let displacements = vec![vec![[0.01, 0.0, 0.0], [0.0, 0.0, 0.0]]];
    let sample = match run(&positions, &[50.0, 50.0], &[0.1, 0.1], &displacements, 2000) {
        Ok(sample) => sample,
        Err(error) => panic!("{error:?}"),
    };
    assert_eq!(sample.len(), 1);
    let (deviation, steps) = sample[0];
    assert!((deviation - 0.01).abs() < 1e-12);
    assert!(steps > 0);
    assert_eq!(steps % 1024, 0);
}

#[test]
fn two_runs_from_one_start_agree_to_the_bit() {
    let positions = [[0.0, 0.0, 0.0], [1.0, 0.0, 0.0], [0.0, 1.5, 0.0]];
    let masses = [50.0, 50.0, 50.0];
    let radii = [0.1, 0.1, 0.1];
    let displacements = vec![
        vec![[0.01, 0.0, 0.0], [0.0, 0.002, 0.0], [0.0, 0.0, 0.0]],
        vec![[0.0, 0.0, 0.003], [0.0, 0.0, 0.0], [0.004, 0.0, 0.0]],
        vec![[0.001, 0.001, 0.0], [0.0, 0.0, 0.0], [0.0, 0.0, 0.001]],
    ];
    let first = run(&positions, &masses, &radii, &displacements, 2000);
    let second = run(&positions, &masses, &radii, &displacements, 2000);
    let (first, second) = match (first, second) {
        (Ok(first), Ok(second)) => (first, second),
        _ => panic!("a run was rejected"),
    };
    assert_eq!(first.len(), 3);
    assert_eq!(first.len(), second.len());
    for (a, b) in first.iter().zip(second.iter()) {
        assert_eq!(a.0.to_bits(), b.0.to_bits());
        assert_eq!(a.1, b.1);
    }
    let entries: Vec<usize> = first.iter().map(|&(_, steps)| steps).collect();
    let (least, greatest) = step_bounds(&entries);
    assert!(0 < least && least <= greatest);
    assert_eq!(least % PER_ITER, 0);
}

#[test]
fn a_generator_that_displaces_nothing_is_rejected_before_any_step() {
    let positions = [[0.0, 0.0, 0.0], [1.0, 0.0, 0.0]];
    let displacements = vec![
        vec![[0.01, 0.0, 0.0], [0.0, 0.0, 0.0]],
        vec![[0.0, 0.0, 0.0], [0.0, 0.0, 0.0]],
    ];
    let outcome = run(&positions, &[50.0, 50.0], &[0.1, 0.1], &displacements, 0);
    assert_eq!(outcome, Err(SetupError::Unperturbed { world: 1 }));
    let deviations = vec![0.01f64.to_bits(), 0.0f64.to_bits()];
    assert_eq!(first_unperturbed(&deviations), Some(1));
}

#[test]
fn equal_bodies_about_the_origin_pull_each_other_equally() {
    let mut world = reference(&[[-0.5, 0.0, 0.0], [0.5, 0.0, 0.0]]);
    kernel(&mut world, &[50.0, 50.0], &[0.1, 0.1]);
    assert!(world.forces[0][0] > 0.0);
    assert_eq!(world.forces[0][0], -world.forces[1][0]);
    assert_eq!(world.forces[0][0], 2500.0);
    assert_eq!(world.forces[0][1], 0.0);
    assert_eq!(world.forces[0][2], 0.0);
}

#[test]
fn touching_bodies_feel_no_force_and_bodies_just_apart_do() {
    let mut touching = reference(&[[0.0, 0.0, 0.0], [0.1 + 0.1, 0.0, 0.0]]);
    kernel(&mut touching, &[50.0, 50.0], &[0.1, 0.1]);
    assert_eq!(touching.forces, vec![[0.0; 3]; 2]);
    let mut apart = reference(&[[0.0, 0.0, 0.0], [0.1 + 0.1 + 1e-9, 0.0, 0.0]]);
    kernel(&mut apart, &[50.0, 50.0], &[0.1, 0.1]);
    assert!(apart.forces[0][0] > 0.0);
    assert!(apart.forces[1][0] < 0.0);
}
