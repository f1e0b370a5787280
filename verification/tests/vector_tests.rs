use std::cell::Cell;
use boltzmann::attribute::symmetric;
use boltzmann::collision::{canonicalize, naive_collision_check, Collision};
use boltzmann::num::{clamp_coord, div_trunc_i64, isqrt, COORD_LIMIT};
use boltzmann::particle::Particle;
use boltzmann::vector::Vector;

#[test]
fn test_vector_arithmetic() {
    let a = Vector::new(3, 4);
    let b = Vector::new(-1, 2);
    assert_eq!(a.add(b), Vector::new(2, 6));
    assert_eq!(a.sub(b), Vector::new(4, 2));
    assert_eq!(a.neg(), Vector::new(-3, -4));
    assert_eq!(a.scale(5), Vector::new(15, 20));
    assert_eq!(a.div_scalar(2), Vector::new(1, 2));
    assert_eq!(a.normal(), Vector::new(-4, 3));
    assert_eq!(a.dot(b), 5);
    assert_eq!(a.cross(b), 10);
}

#[test]
fn test_vector_magnitude_and_distance() {
    let a = Vector::new(3, 4);
    assert_eq!(a.magnitude_squared(), 25);
    assert_eq!(a.magnitude(), 5);
    let b = Vector::new(6, 8);
    assert_eq!(a.distance_squared(b), 25);
    assert_eq!(a.distance(b), 5);
    // the distance rounds down to the nearest integer
    let c = Vector::new(4, 4);
    assert_eq!(a.distance(c), 1);
}

#[test]
fn test_isqrt_exact_values() {
    assert_eq!(isqrt(0), 0);
    assert_eq!(isqrt(1), 1);
    assert_eq!(isqrt(3), 1);
    assert_eq!(isqrt(4), 2);
    assert_eq!(isqrt(99), 9);
    assert_eq!(isqrt(100), 10);
    assert_eq!(isqrt(10_000_000_000_000_000_000_000_000), 3_162_277_660_168);
}

#[test]
fn test_div_trunc_and_clamp() {
    assert_eq!(div_trunc_i64(7, 2), 3);
    assert_eq!(div_trunc_i64(-7, 2), -3);
    assert_eq!(div_trunc_i64(6, 3), 2);
    assert_eq!(div_trunc_i64(-6, 3), -2);
    assert_eq!(clamp_coord(5), 5);
    assert_eq!(clamp_coord(COORD_LIMIT as i128 + 7), COORD_LIMIT);
    assert_eq!(clamp_coord(-(COORD_LIMIT as i128) - 7), -COORD_LIMIT);
}

#[test]
fn test_canonicalize_sorts_and_dedups() {
    let raw = vec![
        Collision::new(3, 1, 10, Vector::new(1, 0)),
        Collision::new(0, 2, 5, Vector::new(0, 1)),
        Collision::new(1, 3, 10, Vector::new(-1, 0)),
        Collision::new(0, 1, 7, Vector::new(2, 2)),
    ];
    let canon = canonicalize(raw);
    let pairs: Vec<(usize, usize)> = canon.iter().map(|c| (c.p1, c.p2)).collect();
    assert_eq!(pairs, vec![(0, 1), (0, 2), (1, 3)]);
}

#[test]
fn test_naive_collision_check_exact() {
    let particles = vec![
        Particle::new(Vector::new(0, 0), Vector::new(0, 0), 10, 1),
        Particle::new(Vector::new(15, 0), Vector::new(0, 0), 10, 1),
        Particle::new(Vector::new(100, 100), Vector::new(0, 0), 10, 1),
    ];
    let collisions = naive_collision_check(10, &particles);
    assert_eq!(collisions.len(), 1);
    assert_eq!((collisions[0].p1, collisions[0].p2), (0, 1));
    // penetration is the summed radii minus the floored distance
    assert_eq!(collisions[0].penetration, 20 - 15);
    assert_eq!(collisions[0].normal, Vector::new(15, 0));
}

#[test]
fn test_symmetric_calls_both_orders() {
    let log = Cell::new((0usize, 0usize, 0usize));
    symmetric(4, 9, |i, j| {
        let (count, a, b) = log.get();
        log.set((count + 1, a + i, b + j));
    });
    let (count, a, b) = log.get();
    assert_eq!(count, 2);
    assert_eq!(a, 13);
    assert_eq!(b, 13);
}
