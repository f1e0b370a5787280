use boltzmann::collision::Collision;
use boltzmann::particle::Particle;
use boltzmann::simulator::{boundary_check, Simulator, RESTITUTION_UNIT};
use boltzmann::spatial_hash::SpatialHash;
use boltzmann::vector::Vector;

const UNIT: f64 = 1000.0;

fn fix(v: f64) -> i64 {
    (v * UNIT) as i64
}

#[test]
fn test_collision_canonical_order() {
    let c1 = Collision::new(1, 2, 500, Vector::new(30, 40));
    let c2 = Collision::new(2, 1, 500, Vector::new(-30, -40));
    assert_eq!((c1.p1, c1.p2), (1, 2));
    assert_eq!((c2.p1, c2.p2), (1, 2));
    assert!(c1.p1 < c1.p2);
    assert!(c1 == c2);
    assert_eq!(c2.normal, Vector::new(30, 40));
}

#[test]
fn test_velocity_round_trip() {
    let mut p = Particle::new(Vector::new(fix(50.0), fix(50.0)), Vector::new(0, 0), fix(1.0), 4);
    let v = Vector::new(1234, -987);
    p.set_velocity(v);
    let got = p.get_velocity();
    assert_eq!(got, v);

    let w = Vector::new(-55_555, 31_337);
    p.set_velocity(w);
    assert_eq!(p.get_velocity(), w);
}

#[test]
fn test_set_position_keeps_velocity() {
    let mut p = Particle::new(Vector::new(fix(10.0), fix(10.0)), Vector::new(500, -250), fix(1.0), 2);
    assert_eq!(p.get_velocity(), Vector::new(500, -250));
    p.set_position(Vector::new(fix(20.0), fix(30.0)));
    assert_eq!(p.get_position(), Vector::new(fix(20.0), fix(30.0)));
    assert_eq!(p.get_velocity(), Vector::new(500, -250));
}

#[test]
fn test_verlet_step() {
    let mut p = Particle::new(Vector::new(fix(10.0), fix(10.0)), Vector::new(100, 0), fix(1.0), 1);
    p.verlet(Vector::new(0, -50));
    // new position = 2 * position - previous + a * dt * dt
    assert_eq!(p.get_position(), Vector::new(fix(10.0) + 100, fix(10.0) - 50));
}

#[test]
fn test_boundary_reflection_left_wall() {
    // a particle whose position has crossed x = 0 is clamped to the wall
    // and its horizontal velocity is flipped, scaled by the restitution
    let mut p = Particle::new(
        Vector::new(fix(0.5), fix(50.0)),
        Vector::new(-2_000, 700),
        fix(1.0),
        1,
    );
    let restitution = 900;  // 0.9 of RESTITUTION_UNIT
    boundary_check(&mut p, fix(1.0), restitution, fix(100.0), fix(100.0));
    assert_eq!(p.get_position(), Vector::new(fix(1.0), fix(50.0)));
    let v = p.get_velocity();
    assert_eq!(v.x, 2_000 * restitution / RESTITUTION_UNIT);
    assert_eq!(v.x, 1_800);
    assert_eq!(v.y, 700);
}

#[test]
fn test_boundary_reflection_top_wall() {
    let mut p = Particle::new(
        Vector::new(fix(50.0), fix(99.9)),
        Vector::new(0, 3_000),
        fix(1.0),
        1,
    );
    boundary_check(&mut p, fix(1.0), 500, fix(100.0), fix(100.0));
    assert_eq!(p.get_position(), Vector::new(fix(50.0), fix(99.0)));
    let v = p.get_velocity();
    assert_eq!(v.y, -1_500);
}

#[test]
fn test_simulator_step_keeps_particles_in_domain() {
    let hash = SpatialHash::new(fix(100.0), fix(100.0), 10, 10, fix(1.0)).unwrap();
    let mut sim = Simulator::new(
        hash,
        3,
        -fix(0.5),
        800,
        900,
        fix(100.0),
        fix(100.0),
        fix(10.0),
        1,
    );
    let positions = vec![
        Vector::new(fix(20.0), fix(20.0)),
        Vector::new(fix(21.0), fix(20.5)),
        Vector::new(fix(80.0), fix(99.0)),
    ];
    let velocities = vec![
        Vector::new(fix(1.0), 0),
        Vector::new(-fix(1.0), 0),
        Vector::new(0, -fix(2.0)),
    ];
    let radii = vec![fix(2.0), fix(2.0), fix(2.0)];
    sim.initial_conditions(positions, velocities, radii);
    assert_eq!(sim.number_of_particles(), 3);
    assert_eq!(sim.positions().len(), 3);

    for _ in 0..20 {
        sim.update();
        for p in sim.positions() {
            assert!(fix(2.0) <= p.x && p.x <= fix(98.0));
            assert!(fix(2.0) <= p.y && p.y <= fix(98.0));
        }
    }
}

#[test]
fn test_simulator_resolves_contact() {
    let hash = SpatialHash::new(fix(100.0), fix(100.0), 10, 10, fix(1.0)).unwrap();
    let mut sim = Simulator::new(hash, 2, 0, 800, 900, fix(100.0), fix(100.0), fix(10.0), 1);
    sim.initial_conditions(
        vec![Vector::new(fix(50.0), fix(50.0)), Vector::new(fix(52.0), fix(50.0))],
        vec![Vector::new(0, 0), Vector::new(0, 0)],
        vec![fix(2.0), fix(2.0)],
    );
    let events = sim.update();
    assert_eq!(events.len(), 1);
    assert_eq!((events[0].collision.p1, events[0].collision.p2), (0, 1));
    // the observer sees the states before the positional correction
    assert_eq!(events[0].state1.get_position(), Vector::new(fix(50.0), fix(50.0)));
    assert_eq!(events[0].state2.get_position(), Vector::new(fix(52.0), fix(50.0)));
    // the positional correction pushed the overlapping pair apart
    let ps = sim.positions();
    assert!(ps[1].x - ps[0].x > fix(2.0));
}

#[test]
fn test_velocities_and_energy() {
    let hash = SpatialHash::new(fix(100.0), fix(100.0), 10, 10, fix(1.0)).unwrap();
    let mut sim = Simulator::new(hash, 1, 0, 800, 900, fix(100.0), fix(100.0), fix(10.0), 1);
    sim.initial_conditions(
        vec![Vector::new(fix(50.0), fix(50.0))],
        vec![Vector::new(300, 400)],
        vec![fix(2.0)],
    );
    let vs = sim.velocities();
    assert_eq!(vs, vec![500]);
    assert_eq!(sim.total_energy(), (300 * 300 + 400 * 400) / 2);
}

#[test]
fn test_insert_particle_grows_count() {
    let hash = SpatialHash::new(fix(100.0), fix(100.0), 10, 10, fix(1.0)).unwrap();
    let mut sim = Simulator::new(hash, 0, 0, 800, 900, fix(100.0), fix(100.0), fix(10.0), 1);
    sim.initial_conditions(vec![], vec![], vec![]);
    sim.insert_particle(Vector::new(fix(30.0), fix(30.0)), Vector::new(100, 0), fix(2.0));
    assert_eq!(sim.number_of_particles(), 1);
    sim.update();
    assert_eq!(sim.positions().len(), 1);
}

#[test]
fn test_getters() {
    let hash = SpatialHash::new(fix(100.0), fix(50.0), 10, 5, fix(1.0)).unwrap();
    let sim = Simulator::new(hash, 7, -fix(1.0), 800, 900, fix(100.0), fix(50.0), fix(10.0), 2);
    assert_eq!(sim.gravity(), -fix(1.0));
    assert_eq!(sim.particle_restitution(), 800);
    assert_eq!(sim.wall_restitution(), 900);
    assert_eq!(sim.width(), fix(100.0));
    assert_eq!(sim.height(), fix(50.0));
    assert_eq!(sim.max_speed(), fix(10.0));
    assert_eq!(sim.timestep(), 2);
    assert_eq!(sim.spatial_partition().number_of_rows, 5);
}
