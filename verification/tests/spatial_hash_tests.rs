use boltzmann::collision::{naive_collision_check, Collision, SpatialPartition};
use boltzmann::particle::Particle;
use boltzmann::spatial_hash::SpatialHash;
use boltzmann::vector::Vector;

// One fixed-point unit is a thousandth of a domain unit.
const UNIT: f64 = 1000.0;

fn fix(v: f64) -> i64 {
    (v * UNIT) as i64
}

fn collision_pairs(collisions: &[Collision]) -> Vec<(usize, usize)> {
    let mut v = Vec::new();
    for c in collisions {
        if c.p1 < c.p2 {
            v.push((c.p1, c.p2));
        } else {
            v.push((c.p2, c.p1));
        }
    }
    v
}

fn brute_force_pairs(radius: i64, particles: &[Vector]) -> Vec<(usize, usize)> {
    let mut ps = Vec::new();
    for p in particles {
        ps.push(Particle::new(*p, Vector::new(0, 0), radius, 1));
    }
    collision_pairs(&naive_collision_check(radius, &ps))
}

#[test]
fn test_map_to_cell() {
    let hash = SpatialHash::new(fix(100.0), fix(100.0), 10, 10, fix(1.0)).unwrap();

    let (r, c) = hash.map_to_cell(Vector::new(fix(11.0), fix(11.0)));

    assert!(r == 1 && c == 1);
}

#[test]
fn test_insert() {
    let mut hash = SpatialHash::new(fix(100.0), fix(100.0), 10, 10, fix(1.0)).unwrap();

    hash.insert(4, Vector::new(fix(86.60802197907876), fix(80.45208446109477)), fix(10.0));

    assert!(hash.cells[77][0].0 == 4);
    assert!(hash.cells[78][0].0 == 4);
    assert!(hash.cells[79][0].0 == 4);
}

#[test]
fn test_collisions() {
    let mut hash = SpatialHash::new(fix(100.0), fix(100.0), 10, 10, fix(1.0)).unwrap();

    let mut particles = Vec::new();

    particles.push(Vector::new(fix(86.60802197907876), fix(80.45208446109477)));
    hash.insert(0, *particles.last().unwrap(), fix(10.0));
    particles.push(Vector::new(fix(93.07088587906382), fix(66.96573438766336)));
    hash.insert(1, *particles.last().unwrap(), fix(10.0));

    let (c_o, _c_m) = hash.collision_check_with_comparisons();

    let v1 = collision_pairs(&c_o);
    let v2 = brute_force_pairs(fix(10.0), &particles);

    assert_eq!(v1, v2);

    // the grid reports exactly the one expected contact, with the exact
    // fixed-point penetration depth 2 * radius - distance
    assert_eq!(c_o.len(), 1);
    assert_eq!((c_o[0].p1, c_o[0].p2), (0, 1));
    let dx = fix(93.07088587906382) - fix(86.60802197907876);
    let dy = fix(66.96573438766336) - fix(80.45208446109477);
    let d2 = (dx as i128) * (dx as i128) + (dy as i128) * (dy as i128);
    let mut dist: i128 = 0;
    while (dist + 1) * (dist + 1) <= d2 {
        dist += 1;
    }
    assert!(c_o[0].penetration > 0);
    assert_eq!(c_o[0].penetration as i128, 2 * fix(10.0) as i128 - dist);
}

#[test]
fn test_collisions_random() {
    let mut hash = SpatialHash::new(fix(100.0), fix(100.0), 10, 10, fix(1.0)).unwrap();

    let mut particles = Vec::new();

    for i in 0..100 {
        let x = rand::random::<f64>() * 100.0;
        let y = rand::random::<f64>() * 100.0;
        let p = Vector::new(fix(x), fix(y));
        particles.push(p);

        hash.insert(i, p, fix(10.0));
    }
    let (c_o, _c_m) = hash.collision_check_with_comparisons();

    let mut v1 = collision_pairs(&c_o);
    let mut v2 = brute_force_pairs(fix(10.0), &particles);
    v1.sort();
    v2.sort();

    assert_eq!(v1, v2);
}

#[test]
fn test_serial_parallel_agree() {
    let mut hash = SpatialHash::new(fix(100.0), fix(100.0), 10, 10, fix(1.0)).unwrap();

    for i in 0..60 {
        let x = rand::random::<f64>() * 100.0;
        let y = rand::random::<f64>() * 100.0;
        hash.insert(i, Vector::new(fix(x), fix(y)), fix(8.0));
    }
    let serial = hash.collision_check();
    let parallel = hash.collision_check_parallel();

    assert_eq!(serial.len(), parallel.len());
    for k in 0..serial.len() {
        assert_eq!((serial[k].p1, serial[k].p2), (parallel[k].p1, parallel[k].p2));
        assert_eq!(serial[k].penetration, parallel[k].penetration);
        assert_eq!(serial[k].normal, parallel[k].normal);
    }
}

#[test]
fn test_check_twice_same() {
    let mut hash = SpatialHash::new(fix(100.0), fix(100.0), 10, 10, fix(1.0)).unwrap();
    hash.insert(0, Vector::new(fix(50.0), fix(50.0)), fix(10.0));
    hash.insert(1, Vector::new(fix(55.0), fix(52.0)), fix(10.0));
    hash.insert(2, Vector::new(fix(10.0), fix(10.0)), fix(5.0));

    let first = hash.collision_check();
    let second = hash.collision_check();

    assert_eq!(first.len(), second.len());
    for k in 0..first.len() {
        assert_eq!((first[k].p1, first[k].p2), (second[k].p1, second[k].p2));
        assert_eq!(first[k].penetration, second[k].penetration);
    }
    // the list is strictly ascending: no duplicate accumulation
    for k in 1..first.len() {
        assert!(
            first[k - 1].p1 < first[k].p1 || (first[k - 1].p1 == first[k].p1 && first[k - 1].p2
                < first[k].p2)
        );
    }
}

#[test]
fn test_new_rejects_fine_cells() {
    // cells of 10 by 10 units cannot support a minimum probe radius of 6
    assert!(SpatialHash::new(fix(100.0), fix(100.0), 10, 10, fix(6.0)).is_none());
    assert!(SpatialHash::new(fix(100.0), fix(100.0), 10, 10, fix(5.0)).is_some());
    assert!(SpatialHash::new(0, fix(100.0), 10, 10, fix(1.0)).is_none());
    assert!(SpatialHash::new(fix(100.0), fix(100.0), 0, 10, fix(1.0)).is_none());
}

#[test]
fn test_clear_empties_the_grid() {
    let mut hash = SpatialHash::new(fix(100.0), fix(100.0), 10, 10, fix(1.0)).unwrap();
    hash.insert(0, Vector::new(fix(50.0), fix(50.0)), fix(10.0));
    hash.insert(1, Vector::new(fix(51.0), fix(51.0)), fix(10.0));
    assert_eq!(hash.collision_check().len(), 1);
    hash.clear();
    assert_eq!(hash.collision_check().len(), 0);
}
