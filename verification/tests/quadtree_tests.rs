use boltzmann::collision::{naive_collision_check, Collision, SpatialPartition};
use boltzmann::particle::Particle;
use boltzmann::quadtree::Quadtree;
use boltzmann::vector::Vector;

// One fixed-point unit is a thousandth of a domain unit.
const UNIT: f64 = 1000.0;

fn fix(v: f64) -> i64 {
    (v * UNIT) as i64
}

fn collision_pairs(collisions: &[Collision]) -> Vec<(usize, usize)> {
    let mut v = Vec::new();
    for c in collisions {
        if c.p1 < c.p2 {
            v.push((c.p1, c.p2));
        } else {
            v.push((c.p2, c.p1));
        }
    }
    v
}

fn brute_force_pairs(radius: i64, particles: &[Vector]) -> Vec<(usize, usize)> {
    let mut ps = Vec::new();
    for p in particles {
        ps.push(Particle::new(*p, Vector::new(0, 0), radius, 1));
    }
    collision_pairs(&naive_collision_check(radius, &ps))
}

#[test]
fn quadtree_test_collisions_2x2_non_random() {
    let mut quadtree = Quadtree::new(fix(10.0), fix(10.0), fix(2.0));

    let mut particles = Vec::new();

    let points = [
        (2.5, 2.5),
        (7.5, 2.5),
        (2.5, 7.5),
        (7.5, 7.5),
        (2.5, 5.0),
        (5.0, 2.5),
        (5.0, 5.0),
        (5.0, 5.0),
        (0.0, 0.0),
        (10.0, 10.0),
        (10.0, 10.0),
        (4.8, 5.2),
        (5.2, 4.8),
    ];
    for (i, (x, y)) in points.iter().enumerate() {
        let p = Vector::new(fix(*x), fix(*y));
        particles.push(p);
        quadtree.insert(i, p, fix(2.0));
    }

    let c_o = quadtree.collision_check();

    let mut v1 = collision_pairs(&c_o);
    let mut v2 = brute_force_pairs(fix(2.0), &particles);

    v1.sort();
    v2.sort();

    assert_eq!(v1, v2);
}

#[test]
fn test_collisions_2x2() {
    let mut quadtree = Quadtree::new(fix(10.0), fix(10.0), fix(2.0));

    let mut particles = Vec::new();

    for i in 0..100 {
        let x = rand::random::<f64>() * 9.0;
        let y = rand::random::<f64>() * 9.0;
        let p = Vector::new(fix(x), fix(y));
        particles.push(p);

        quadtree.insert(i, p, fix(2.0));
    }
    let c_o = quadtree.collision_check();

    let mut v1 = collision_pairs(&c_o);
    let mut v2 = brute_force_pairs(fix(2.0), &particles);

    v1.sort();
    v2.sort();

    assert_eq!(v1, v2);
}

#[test]
fn test_collisions_3x3() {
    let mut quadtree = Quadtree::new(fix(30.0), fix(30.0), fix(2.0));

    let mut particles = Vec::new();

    for i in 0..100 {
        let x = rand::random::<f64>() * 30.0;
        let y = rand::random::<f64>() * 30.0;
        let p = Vector::new(fix(x), fix(y));
        particles.push(p);

        quadtree.insert(i, p, fix(2.0));
    }
    let (c_o, _c_m) = quadtree.collision_check_with_comparisons();

    let mut v1 = collision_pairs(&c_o);
    let mut v2 = brute_force_pairs(fix(2.0), &particles);
    v1.sort();
    v2.sort();

    assert_eq!(v1, v2);
}

#[test]
fn test_collisions_10x10() {
    let mut quadtree = Quadtree::new(fix(100.0), fix(100.0), fix(2.0));

    let mut particles = Vec::new();

    for i in 0..100 {
        let x = rand::random::<f64>() * 100.0;
        let y = rand::random::<f64>() * 100.0;
        let p = Vector::new(fix(x), fix(y));
        particles.push(p);

        quadtree.insert(i, p, fix(2.0));
    }
    let (c_o, _c_m) = quadtree.collision_check_with_comparisons();

    let mut v1 = collision_pairs(&c_o);
    let mut v2 = brute_force_pairs(fix(2.0), &particles);
    v1.sort();
    v2.sort();

    assert_eq!(v1, v2);
}

#[test]
fn test_collisions_2048x1536() {
    let mut quadtree = Quadtree::new(fix(2048.0), fix(1536.0), fix(20.0));

    let mut particles = Vec::new();

    for i in 0..100 {
        let x = rand::random::<f64>() * 2048.0;
        let y = rand::random::<f64>() * 1536.0;
        let p = Vector::new(fix(x), fix(y));
        particles.push(p);

        quadtree.insert(i, p, fix(20.0));
    }
    let (c_o, _c_m) = quadtree.collision_check_with_comparisons();

    let mut v1 = collision_pairs(&c_o);
    let mut v2 = brute_force_pairs(fix(20.0), &particles);
    v1.sort();
    v2.sort();

    assert_eq!(v1, v2);
}

#[test]
fn test_quadtree_serial_parallel_agree() {
    let mut quadtree = Quadtree::new(fix(100.0), fix(100.0), fix(3.0));

    for i in 0..80 {
        let x = rand::random::<f64>() * 100.0;
        let y = rand::random::<f64>() * 100.0;
        quadtree.insert(i, Vector::new(fix(x), fix(y)), fix(3.0));
    }
    let serial = quadtree.collision_check();
    let parallel = quadtree.collision_check_parallel();

    assert_eq!(serial.len(), parallel.len());
    for k in 0..serial.len() {
        assert_eq!((serial[k].p1, serial[k].p2), (parallel[k].p1, parallel[k].p2));
        assert_eq!(serial[k].penetration, parallel[k].penetration);
        assert_eq!(serial[k].normal, parallel[k].normal);
    }
}

#[test]
fn test_quadtree_comparisons_cover_collisions() {
    let mut quadtree = Quadtree::new(fix(10.0), fix(10.0), fix(2.0));
    quadtree.insert(0, Vector::new(fix(5.0), fix(5.0)), fix(2.0));
    quadtree.insert(1, Vector::new(fix(5.5), fix(5.5)), fix(2.0));
    quadtree.insert(2, Vector::new(fix(1.0), fix(9.0)), fix(2.0));

    let (collisions, comparisons) = quadtree.collision_check_with_comparisons();
    for c in &collisions {
        assert!(comparisons.iter().any(|m| (m.0 == c.p1 && m.1 == c.p2) || (m.0 == c.p2 && m.1
            == c.p1)));
    }
    assert_eq!(collision_pairs(&collisions), vec![(0, 1)]);
}

#[test]
fn test_reset_forgets_structure() {
    let mut quadtree = Quadtree::new(fix(10.0), fix(10.0), fix(1.0));
    for i in 0..40 {
        let x = 0.2 + 9.6 * (i as f64) / 40.0;
        quadtree.insert(i, Vector::new(fix(x), fix(5.0)), fix(1.0));
    }
    quadtree.reset();
    assert!(quadtree.children.is_none());
    assert_eq!(quadtree.collision_check().len(), 0);
}
