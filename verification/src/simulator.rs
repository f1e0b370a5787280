//! Simulator.
//!
//! Drives one simulation step around a spatial partition: resolve the
//! collisions it reports, clear it, then integrate gravity, reflect at
//! the domain walls and reinsert every particle.

use vstd::prelude::*;
use crate::collision::{
    canonical_for, is_collision_from, sorted_strict, sound_collisions, valid_item,
    Collision, Item, SpatialPartition,
};
use crate::num::{
    clamped, div_trunc, clamp_coord, isqrt, sqrt_floor, lemma_div_trunc_bound,
    lemma_mul_range, lemma_abs_square_bound, lemma_square_monotone, COORD_LIMIT,
};
use crate::particle::{
    set_position_spec, set_velocity_spec, valid_dt, valid_radius, vel_x, vel_y, verlet_spec,
    Particle,
};
use crate::vector::{in_range, mag_sq, Vector};

verus! {

/// Fixed-point unit for the dimensionless restitution coefficients.
pub const RESTITUTION_UNIT: i64 = 1_000;

/// Most particles a simulation may hold.
pub const PARTICLE_LIMIT: usize = 1_000_000_000;

/// A usable restitution coefficient.
pub open spec fn valid_restitution(e: i64) -> bool {
    0 <= e <= RESTITUTION_UNIT
}

/// A velocity clamped to a maximum speed: kept as it is when its
/// magnitude does not exceed the bound, else rescaled onto it.
pub open spec fn clamp_speed_spec(v: Vector, max_speed: i64) -> Vector {
    let speed = sqrt_floor(mag_sq(v));
    if speed <= max_speed {
        v
    } else {
        Vector {
            x: div_trunc(v.x * max_speed, speed) as i64,
            y: div_trunc(v.y * max_speed, speed) as i64,
        }
    }
}

/// The starting position of a particle: clamped into the domain with
/// room for its radius, with the vertical coordinate flipped.
pub open spec fn init_position_spec(p: Vector, radius: i64, width: i64, height: i64) -> Vector {
    let px = if p.x < 0 {
        0int
    } else if p.x > width - radius {
        width - radius
    } else {
        p.x as int
    };
    let py = if p.y < 0 {
        0int
    } else if p.y > height - radius {
        height - radius
    } else {
        p.y as int
    };
    Vector { x: px as i64, y: (height - py) as i64 }
}

/// The particle pair after one collision response: a positional
/// correction shared by radius, and a velocity impulse along the contact
/// direction applied only when the particles approach each other.
pub open spec fn resolve_pair_spec(p: Particle, q: Particle, c: Collision, e: i64) -> (
    Particle,
    Particle,
) {
    let d2 = mag_sq(c.normal);
    let dist = sqrt_floor(d2);
    if dist <= 0 {
        (p, q)
    } else {
        let rp = p.radius as int;
        let rq = q.radius as int;
        let pen = if c.penetration >= 0 {
            c.penetration as int
        } else {
            0int
        };
        let corr = div_trunc(pen * 4, 5);
        let cx = div_trunc(c.normal.x * corr, dist);
        let cy = div_trunc(c.normal.y * corr, dist);
        let p1 = set_position_spec(
            p,
            Vector {
                x: clamped(p.position.x - div_trunc(cx * rq, rp + rq)) as i64,
                y: clamped(p.position.y - div_trunc(cy * rq, rp + rq)) as i64,
            },
        );
        let q1 = set_position_spec(
            q,
            Vector {
                x: clamped(q.position.x + div_trunc(cx * rp, rp + rq)) as i64,
                y: clamped(q.position.y + div_trunc(cy * rp, rp + rq)) as i64,
            },
        );
        let rvx = vel_x(q) - vel_x(p);
        let rvy = vel_y(q) - vel_y(p);
        let rvn = rvx * c.normal.x + rvy * c.normal.y;
        if rvn < 0 {
            let s1 = div_trunc(rvn * (RESTITUTION_UNIT + e), RESTITUTION_UNIT as int);
            let tp = div_trunc(s1 * rq, rp + rq);
            let tq = div_trunc(s1 * rp, rp + rq);
            let p2 = set_velocity_spec(
                p1,
                Vector {
                    x: clamped(vel_x(p) + div_trunc(tp * c.normal.x, d2)) as i64,
                    y: clamped(vel_y(p) + div_trunc(tp * c.normal.y, d2)) as i64,
                },
            );
            let q2 = set_velocity_spec(
                q1,
                Vector {
                    x: clamped(vel_x(q) - div_trunc(tq * c.normal.x, d2)) as i64,
                    y: clamped(vel_y(q) - div_trunc(tq * c.normal.y, d2)) as i64,
                },
            );
            (p2, q2)
        } else {
            (p1, q1)
        }
    }
}

/// One collision applied to the particle list.
pub open spec fn apply_collision_spec(ps: Seq<Particle>, c: Collision, e: i64) -> Seq<Particle> {
    if c.p1 < ps.len() && c.p2 < ps.len() && c.p1 != c.p2 {
        let r = resolve_pair_spec(ps[c.p1 as int], ps[c.p2 as int], c, e);
        ps.update(c.p1 as int, r.0).update(c.p2 as int, r.1)
    } else {
        ps
    }
}

/// A collision list applied in order to the particle list.
pub open spec fn resolve_all_spec(ps: Seq<Particle>, cs: Seq<Collision>, e: i64) -> Seq<Particle>
    decreases cs.len(),
{
    if cs.len() == 0 {
        ps
    } else {
        apply_collision_spec(resolve_all_spec(ps, cs.drop_last(), e), cs.last(), e)
    }
}

/// Reflection at the left wall.
pub open spec fn reflect_low_x(p: Particle, e: i64) -> Particle {
    if p.position.x - p.radius < 0 {
        let p1 = set_position_spec(p, Vector { x: p.radius, y: p.position.y });
        set_velocity_spec(
            p1,
            Vector {
                x: div_trunc(abs_int(vel_x(p)) * e, RESTITUTION_UNIT as int) as i64,
                y: vel_y(p) as i64,
            },
        )
    } else {
        p
    }
}

/// Reflection at the right wall.
pub open spec fn reflect_high_x(p: Particle, e: i64, width: i64) -> Particle {
    if p.position.x + p.radius > width {
        let p1 = set_position_spec(p, Vector { x: (width - p.radius) as i64, y: p.position.y });
        set_velocity_spec(
            p1,
            Vector {
                x: (-div_trunc(abs_int(vel_x(p)) * e, RESTITUTION_UNIT as int)) as i64,
                y: vel_y(p) as i64,
            },
        )
    } else {
        p
    }
}

/// Reflection at the bottom wall.
pub open spec fn reflect_low_y(p: Particle, e: i64) -> Particle {
    if p.position.y - p.radius < 0 {
        let p1 = set_position_spec(p, Vector { x: p.position.x, y: p.radius });
        set_velocity_spec(
            p1,
            Vector {
                x: vel_x(p) as i64,
                y: div_trunc(abs_int(vel_y(p)) * e, RESTITUTION_UNIT as int) as i64,
            },
        )
    } else {
        p
    }
}

/// Reflection at the top wall.
pub open spec fn reflect_high_y(p: Particle, e: i64, height: i64) -> Particle {
    if p.position.y + p.radius > height {
        let p1 = set_position_spec(p, Vector { x: p.position.x, y: (height - p.radius) as i64 });
        set_velocity_spec(
            p1,
            Vector {
                x: vel_x(p) as i64,
                y: (-div_trunc(abs_int(vel_y(p)) * e, RESTITUTION_UNIT as int)) as i64,
            },
        )
    } else {
        p
    }
}

/// The particle after the four wall checks, in order.
pub open spec fn boundary_spec(p: Particle, e: i64, width: i64, height: i64) -> Particle {
    reflect_high_y(reflect_low_y(reflect_high_x(reflect_low_x(p, e), e, width), e), e, height)
}

/// The particle after one full integration step: gravity by Verlet, then
/// the wall checks.
pub open spec fn step_particle_spec(p: Particle, gravity: i64, e: i64, width: i64, height: i64) -> Particle {
    boundary_spec(verlet_spec(p, Vector { x: 0, y: gravity }), e, width, height)
}

/// One resolved collision together with the two particles' states at
/// the moment it was resolved, before its positional correction: what a
/// collision observer is shown.
#[derive(Clone, Copy, Debug)]
pub struct CollisionEvent {
    /// The resolved collision.
    pub collision: Collision,
    /// The state of particle `collision.p1` when the collision was
    /// resolved.
    pub state1: Particle,
    /// The state of particle `collision.p2` when the collision was
    /// resolved.
    pub state2: Particle,
}

/// The collisions of an event list, in order.
pub open spec fn events_collisions(s: Seq<CollisionEvent>) -> Seq<Collision> {
    s.map_values(|ev: CollisionEvent| ev.collision)
}

/// The total of the squared particle speeds.
pub open spec fn energy_spec(ps: Seq<Particle>) -> int
    decreases ps.len(),
{
    if ps.len() == 0 {
        0
    } else {
        energy_spec(ps.drop_last()) + vel_x(ps.last()) * vel_x(ps.last()) + vel_y(ps.last())
            * vel_y(ps.last())
    }
}

/// The absolute value.
pub open spec fn abs_int(v: int) -> int {
    if v >= 0 {
        v
    } else {
        -v
    }
}

/// Struct representing the simulation.
pub struct Simulator<T: SpatialPartition> {
    /// The spatial partitioning scheme used for accelerating collision
    /// detection.
    pub spatial_partition: T,
    /// Number of particles.
    pub number_of_particles: usize,
    /// The list of particles.
    pub particles: Vec<Particle>,
    /// Acceleration due to gravity.
    pub gravity: i64,
    /// The restitution in a particle-particle collision.
    pub particle_restitution: i64,
    /// The restitution in a wall-particle collision.
    pub wall_restitution: i64,
    /// Simulation domain width.
    pub width: i64,
    /// Simulation domain height.
    pub height: i64,
    /// Maximum allowed speed of a particle.
    pub max_speed: i64,
    /// Timestep.
    pub dt: i64,
}

impl<T: SpatialPartition> Simulator<T> {
    /// The simulation's invariant.
    pub open spec fn wf(self) -> bool {
        &&& valid_dt(self.dt)
        &&& 0 < self.width <= COORD_LIMIT
        &&& 0 < self.height <= COORD_LIMIT
        &&& -COORD_LIMIT <= self.gravity <= COORD_LIMIT
        &&& valid_restitution(self.particle_restitution)
        &&& valid_restitution(self.wall_restitution)
        &&& 0 <= self.max_speed <= COORD_LIMIT
        &&& self.particles@.len() <= self.number_of_particles <= PARTICLE_LIMIT
        &&& forall|k: int|
            0 <= k < self.particles@.len() ==> {
                &&& (#[trigger] self.particles@[k]).wf()
                &&& self.particles@[k].dt == self.dt
                &&& 2 * self.particles@[k].radius <= self.width
                &&& 2 * self.particles@[k].radius <= self.height
                &&& self.spatial_partition.accepts_radius(self.particles@[k].radius)
            }
        &&& self.spatial_partition.wf()
        &&& self.spatial_partition.domain_width() == self.width
        &&& self.spatial_partition.domain_height() == self.height
        &&& self.spatial_partition.items().len() <= self.particles@.len()
        &&& forall|k: int|
            0 <= k < self.spatial_partition.items().len() ==> (
            #[trigger] self.spatial_partition.items()[k]).index == k
    }

    /// Make a simulator.
    pub fn new(
        spatial_partition: T,
        number_of_particles: usize,
        gravity: i64,
        particle_restitution: i64,
        wall_restitution: i64,
        width: i64,
        height: i64,
        max_speed: i64,
        dt: i64,
    ) -> (r: Simulator<T>)
        requires
            spatial_partition.wf(),
            spatial_partition.items() == Seq::<Item>::empty(),
            spatial_partition.domain_width() == width,
            spatial_partition.domain_height() == height,
            valid_dt(dt),
            0 < width <= COORD_LIMIT,
            0 < height <= COORD_LIMIT,
            -COORD_LIMIT <= gravity <= COORD_LIMIT,
            valid_restitution(particle_restitution),
            valid_restitution(wall_restitution),
            0 <= max_speed <= COORD_LIMIT,
            number_of_particles <= PARTICLE_LIMIT,
        ensures
            r.wf(),
            r.spatial_partition == spatial_partition,
            r.number_of_particles == number_of_particles,
            r.particles@.len() == 0,
            r.gravity == gravity,
            r.particle_restitution == particle_restitution,
            r.wall_restitution == wall_restitution,
            r.width == width,
            r.height == height,
            r.max_speed == max_speed,
            r.dt == dt,
    {
        Simulator {
            spatial_partition,
            number_of_particles,
            particles: Vec::new(),
            gravity,
            particle_restitution,
            wall_restitution,
            width,
            height,
            max_speed,
            dt,
        }
    }

    /// Get a reference to the spatial partition.
    pub fn spatial_partition(&self) -> (r: &T)
        ensures
            r == &self.spatial_partition,
    {
        &self.spatial_partition
    }

    /// Get the number of particles.
    pub fn number_of_particles(&self) -> (r: usize)
        ensures
            r == self.number_of_particles,
    {
        self.number_of_particles
    }

    /// Get the current gravity.
    pub fn gravity(&self) -> (r: i64)
        ensures
            r == self.gravity,
    {
        self.gravity
    }

    /// Get the restitution in particle collision.
    pub fn particle_restitution(&self) -> (r: i64)
        ensures
            r == self.particle_restitution,
    {
        self.particle_restitution
    }

    /// The restitution in a wall collision.
    pub fn wall_restitution(&self) -> (r: i64)
        ensures
            r == self.wall_restitution,
    {
        self.wall_restitution
    }

    /// Get the domain width.
    pub fn width(&self) -> (r: i64)
        ensures
            r == self.width,
    {
        self.width
    }

    /// Get the domain height.
    pub fn height(&self) -> (r: i64)
        ensures
            r == self.height,
    {
        self.height
    }

    /// Get the max speed.
    pub fn max_speed(&self) -> (r: i64)
        ensures
            r == self.max_speed,
    {
        self.max_speed
    }

    /// Get the timestep.
    pub fn timestep(&self) -> (r: i64)
        ensures
            r == self.dt,
    {
        self.dt
    }

    /// Get a list of all the particle positions.
    pub fn positions(&self) -> (r: Vec<Vector>)
        ensures
            r@.len() == self.particles@.len(),
            forall|k: int|
                0 <= k < r@.len() ==> #[trigger] r@[k] == self.particles@[k].position,
    {
        let mut ps: Vec<Vector> = Vec::new();
        let mut i: usize = 0;
        while i < self.particles.len()
            invariant
                i <= self.particles@.len(),
                ps@.len() == i,
                forall|k: int| 0 <= k < i ==> #[trigger] ps@[k] == self.particles@[k].position,
            decreases self.particles@.len() - i,
        {
            ps.push(self.particles[i].get_position());
            i += 1;
        }
        ps
    }

    /// Get a list of all the particle speeds.
    pub fn velocities(&self) -> (r: Vec<i64>)
        requires
            self.wf(),
        ensures
            r@.len() == self.particles@.len(),
            forall|k: int|
                0 <= k < r@.len() ==> #[trigger] r@[k] as int == sqrt_floor(
                    vel_x(self.particles@[k]) * vel_x(self.particles@[k]) + vel_y(
                        self.particles@[k],
                    ) * vel_y(self.particles@[k]),
                ),
    {
        let mut vs: Vec<i64> = Vec::new();
        let mut i: usize = 0;
        while i < self.particles.len()
            invariant
                self.wf(),
                i <= self.particles@.len(),
                vs@.len() == i,
                forall|k: int|
                    0 <= k < i ==> #[trigger] vs@[k] as int == sqrt_floor(
                        vel_x(self.particles@[k]) * vel_x(self.particles@[k]) + vel_y(
                            self.particles@[k],
                        ) * vel_y(self.particles@[k]),
                    ),
            decreases self.particles@.len() - i,
        {
            let v = self.particles[i].get_velocity();
            proof {
                lemma_abs_square_bound(v.x as int, 2 * COORD_LIMIT as int);
                lemma_abs_square_bound(v.y as int, 2 * COORD_LIMIT as int);
            }
            let m = v.x as i128 * v.x as i128 + v.y as i128 * v.y as i128;
            let s = isqrt(m as u128);
            proof {
                if s > 3 * (COORD_LIMIT as u64) {
                    lemma_square_monotone(3 * (COORD_LIMIT as int), s as int);
                }
            }
            vs.push(s as i64);
            i += 1;
        }
        vs
    }

    /// Specify the initial conditions manually: each particle is placed
    /// at its position clamped into the domain (with the vertical
    /// coordinate flipped), given its velocity clamped to the maximum
    /// speed, and registered with the spatial partition.
    pub fn initial_conditions(
        &mut self,
        positions: Vec<Vector>,
        velocities: Vec<Vector>,
        radii: Vec<i64>,
    )
        requires
            old(self).wf(),
            old(self).particles@.len() == 0,
            old(self).spatial_partition.items() == Seq::<Item>::empty(),
            positions@.len() == old(self).number_of_particles,
            velocities@.len() == old(self).number_of_particles,
            radii@.len() == old(self).number_of_particles,
            forall|k: int|
                0 <= k < old(self).number_of_particles ==> in_range(#[trigger] positions@[k]),
            forall|k: int|
                0 <= k < old(self).number_of_particles ==> in_range(#[trigger] velocities@[k]),
            forall|k: int|
                0 <= k < old(self).number_of_particles ==> {
                    &&& valid_radius(#[trigger] radii@[k])
                    &&& 2 * radii@[k] <= old(self).width
                    &&& 2 * radii@[k] <= old(self).height
                    &&& old(self).spatial_partition.accepts_radius(radii@[k])
                },
        ensures
            final(self).wf(),
            final(self).particles@.len() == old(self).number_of_particles,
            forall|k: int|
                0 <= k < final(self).particles@.len() ==> #[trigger] final(self).particles@[k]
                    == set_velocity_spec(
                    Particle {
                        position: init_position_spec(
                            positions@[k],
                            radii@[k],
                            old(self).width,
                            old(self).height,
                        ),
                        previous_position: init_position_spec(
                            positions@[k],
                            radii@[k],
                            old(self).width,
                            old(self).height,
                        ),
                        radius: radii@[k],
                        dt: old(self).dt,
                    },
                    clamp_speed_spec(velocities@[k], old(self).max_speed),
                ),
            final(self).spatial_partition.items().len() == old(self).number_of_particles,
            forall|k: int|
                0 <= k < old(self).number_of_particles
                    ==> #[trigger] final(self).spatial_partition.items()[k] == (Item {
                    index: k as usize,
                    radius: radii@[k],
                    position: init_position_spec(
                        positions@[k],
                        radii@[k],
                        old(self).width,
                        old(self).height,
                    ),
                }),
            final(self).number_of_particles == old(self).number_of_particles,
            final(self).width == old(self).width && final(self).height == old(self).height,
    {
        let n = self.number_of_particles;
        let width = self.width;
        let height = self.height;
        let max_speed = self.max_speed;
        let mut i: usize = 0;
        while i < n
            invariant
                i <= n,
                n == self.number_of_particles,
                width == self.width,
                height == self.height,
                max_speed == self.max_speed,
                self.number_of_particles == old(self).number_of_particles,
                self.gravity == old(self).gravity,
                self.particle_restitution == old(self).particle_restitution,
                self.wall_restitution == old(self).wall_restitution,
                self.width == old(self).width,
                self.height == old(self).height,
                self.max_speed == old(self).max_speed,
                self.dt == old(self).dt,
                valid_dt(self.dt),
                0 < width <= COORD_LIMIT,
                0 < height <= COORD_LIMIT,
                -COORD_LIMIT <= self.gravity <= COORD_LIMIT,
                valid_restitution(self.particle_restitution),
                valid_restitution(self.wall_restitution),
                0 <= max_speed <= COORD_LIMIT,
                n <= PARTICLE_LIMIT,
                positions@.len() == n,
                velocities@.len() == n,
                radii@.len() == n,
                forall|k: int| 0 <= k < n ==> in_range(#[trigger] positions@[k]),
                forall|k: int| 0 <= k < n ==> in_range(#[trigger] velocities@[k]),
                forall|k: int|
                    0 <= k < n ==> {
                        &&& valid_radius(#[trigger] radii@[k])
                        &&& 2 * radii@[k] <= width
                        &&& 2 * radii@[k] <= height
                        &&& self.spatial_partition.accepts_radius(radii@[k])
                    },
                self.spatial_partition.wf(),
                self.spatial_partition.domain_width() == width,
                self.spatial_partition.domain_height() == height,
                self.particles@.len() == i,
                self.spatial_partition.items().len() == i,
                forall|k: int|
                    0 <= k < i ==> #[trigger] self.spatial_partition.items()[k] == (Item {
                        index: k as usize,
                        radius: radii@[k],
                        position: init_position_spec(positions@[k], radii@[k], width, height),
                    }),
                forall|k: int|
                    0 <= k < i ==> #[trigger] self.particles@[k] == set_velocity_spec(
                        Particle {
                            position: init_position_spec(positions@[k], radii@[k], width, height),
                            previous_position: init_position_spec(
                                positions@[k],
                                radii@[k],
                                width,
                                height,
                            ),
                            radius: radii@[k],
                            dt: self.dt,
                        },
                        clamp_speed_spec(velocities@[k], max_speed),
                    ),
                forall|k: int|
                    0 <= k < i ==> {
                        &&& (#[trigger] self.particles@[k]).wf()
                        &&& self.particles@[k].dt == self.dt
                        &&& 2 * self.particles@[k].radius <= width
                        &&& 2 * self.particles@[k].radius <= height
                        &&& self.spatial_partition.accepts_radius(self.particles@[k].radius)
                    },
            decreases n - i,
        {
            let ghost part0 = self.spatial_partition;
            let r = radii[i];
            let pin = positions[i];
            proof {
                assert(valid_radius(radii@[i as int]) && 2 * radii@[i as int] <= width && 2
                    * radii@[i as int] <= height);
            }
            let px = if pin.x < 0 {
                0
            } else if pin.x > width - r {
                width - r
            } else {
                pin.x
            };
            let py = if pin.y < 0 {
                0
            } else if pin.y > height - r {
                height - r
            } else {
                pin.y
            };
            let position = Vector { x: px, y: height - py };
            let v = velocities[i];
            proof {
                lemma_abs_square_bound(v.x as int, COORD_LIMIT as int);
                lemma_abs_square_bound(v.y as int, COORD_LIMIT as int);
            }
            let m = v.x as i128 * v.x as i128 + v.y as i128 * v.y as i128;
            let speed = isqrt(m as u128);
            proof {
                if speed > 3 * (COORD_LIMIT as u64) {
                    lemma_square_monotone(3 * (COORD_LIMIT as int), speed as int);
                }
            }
            let velocity = if speed as i64 <= max_speed {
                v
            } else {
                proof {
                    lemma_mul_range(v.x as int, max_speed as int, COORD_LIMIT as int, COORD_LIMIT as int);
                    lemma_mul_range(v.y as int, max_speed as int, COORD_LIMIT as int, COORD_LIMIT as int);
                    assert(-(COORD_LIMIT as int * (speed as int)) <= v.x as int * max_speed as int
                        <= COORD_LIMIT as int * (speed as int)) by (nonlinear_arith)
                        requires
                            -COORD_LIMIT as int <= v.x as int <= COORD_LIMIT as int,
                            0 <= max_speed as int <= speed as int,
                    ;
                    assert(-(COORD_LIMIT as int * (speed as int)) <= v.y as int * max_speed as int
                        <= COORD_LIMIT as int * (speed as int)) by (nonlinear_arith)
                        requires
                            -COORD_LIMIT as int <= v.y as int <= COORD_LIMIT as int,
                            0 <= max_speed as int <= speed as int,
                    ;
                    crate::num::lemma_div_trunc_ratio(
                        v.x as int * max_speed as int,
                        speed as int,
                        COORD_LIMIT as int,
                    );
                    crate::num::lemma_div_trunc_ratio(
                        v.y as int * max_speed as int,
                        speed as int,
                        COORD_LIMIT as int,
                    );
                }
                Vector {
                    x: (v.x as i128 * max_speed as i128 / speed as i128) as i64,
                    y: (v.y as i128 * max_speed as i128 / speed as i128) as i64,
                }
            };
            proof {
                assert(velocity == clamp_speed_spec(velocities@[i as int], max_speed));
            }
            let p = Particle::new(position, velocity, r, self.dt);
            self.particles.push(p);
            self.spatial_partition.insert(i, position, r);
            proof {
                assert forall|k: int| 0 <= k < n implies {
                    &&& valid_radius(#[trigger] radii@[k])
                    &&& 2 * radii@[k] <= width
                    &&& 2 * radii@[k] <= height
                    &&& self.spatial_partition.accepts_radius(radii@[k])
                } by {
                    assert(part0.accepts_radius(radii@[k]));
                }
            }
            i += 1;
        }
    }

    /// Get the total kinetic energy in the system: half the sum of the
    /// squared particle speeds.
    pub fn total_energy(&self) -> (r: i128)
        requires
            self.wf(),
        ensures
            r == energy_spec(self.particles@) / 2,
    {
        let mut energy: i128 = 0;
        let n = self.particles.len();
        let mut i: usize = 0;
        while i < n
            invariant
                self.wf(),
                n == self.particles@.len(),
                i <= n,
                energy == energy_spec(self.particles@.subrange(0, i as int)),
                0 <= energy <= i * 8_000_000_000_000_000_000_000_000,
            decreases n - i,
        {
            let v = self.particles[i].get_velocity();
            proof {
                lemma_abs_square_bound(v.x as int, 2 * COORD_LIMIT as int);
                lemma_abs_square_bound(v.y as int, 2 * COORD_LIMIT as int);
                assert(self.particles@.subrange(0, i + 1).drop_last() =~= self.particles@.subrange(
                    0,
                    i as int,
                ));
                assert(self.particles@.subrange(0, i + 1).last() == self.particles@[i as int]);
            }
            energy = energy + (v.x as i128 * v.x as i128 + v.y as i128 * v.y as i128);
            i += 1;
        }
        proof {
            assert(self.particles@.subrange(0, n as int) =~= self.particles@);
        }
        energy / 2
    }

    /// Insert a particle.
    pub fn insert_particle(&mut self, position: Vector, velocity: Vector, radius: i64)
        requires
            old(self).wf(),
            in_range(position),
            in_range(velocity),
            valid_radius(radius),
            2 * radius <= old(self).width,
            2 * radius <= old(self).height,
            old(self).spatial_partition.accepts_radius(radius),
            old(self).number_of_particles < PARTICLE_LIMIT,
            old(self).particles@.len() == old(self).number_of_particles,
        ensures
            final(self).wf(),
            final(self).particles@ == old(self).particles@.push(
                set_velocity_spec(
                    Particle {
                        position,
                        previous_position: position,
                        radius,
                        dt: old(self).dt,
                    },
                    velocity,
                ),
            ),
            final(self).number_of_particles == old(self).number_of_particles + 1,
            final(self).spatial_partition == old(self).spatial_partition,
    {
        let p = Particle::new(position, velocity, radius, self.dt);
        self.particles.push(p);
        self.number_of_particles = self.number_of_particles + 1;
    }
}

/// Apply one collision response to a pair of particles.
fn resolve_pair(p: Particle, q: Particle, c: Collision, e: i64) -> (r: (Particle, Particle))
    requires
        p.wf(),
        q.wf(),
        valid_restitution(e),
        -2 * COORD_LIMIT <= c.normal.x <= 2 * COORD_LIMIT,
        -2 * COORD_LIMIT <= c.normal.y <= 2 * COORD_LIMIT,
        -2 * COORD_LIMIT <= c.penetration <= 2 * COORD_LIMIT,
    ensures
        r == resolve_pair_spec(p, q, c, e),
        r.0.wf(),
        r.1.wf(),
        r.0.radius == p.radius && r.0.dt == p.dt,
        r.1.radius == q.radius && r.1.dt == q.dt,
{
    let nx = c.normal.x as i128;
    let ny = c.normal.y as i128;
    proof {
        assert(0 <= nx * nx <= 4_000_000_000_000_000_000_000_000 && 0 <= ny * ny
            <= 4_000_000_000_000_000_000_000_000) by (nonlinear_arith)
            requires
                -2_000_000_000_000 <= nx <= 2_000_000_000_000,
                -2_000_000_000_000 <= ny <= 2_000_000_000_000,
        ;
    }
    let d2 = nx * nx + ny * ny;
    let dist128 = isqrt(d2 as u128);
    proof {
        if dist128 > 3 * (COORD_LIMIT as u64) {
            lemma_square_monotone(3 * (COORD_LIMIT as int), dist128 as int);
        }
    }
    let dist = dist128 as i64;
    if dist <= 0 {
        return (p, q);
    }
    proof {
        crate::num::lemma_sqrt_floor_bounds(d2 as int);
        assert(d2 >= 1) by {
            assert(dist as int * dist as int >= 1) by (nonlinear_arith)
                requires
                    dist >= 1,
            ;
        }
    }
    let rp = p.radius;
    let rq = q.radius;
    let rsum = rp as i128 + rq as i128;
    let pen = if c.penetration >= 0 {
        c.penetration
    } else {
        0
    };
    let corr = (pen * 4) / 5;
    proof {
        lemma_div_trunc_bound(pen as int * 4, 5, 8_000_000_000_000);
        lemma_mul_range(nx as int, corr as int, 2_000_000_000_000, 8_000_000_000_000);
        lemma_mul_range(ny as int, corr as int, 2_000_000_000_000, 8_000_000_000_000);
    }
    let xc = nx * corr as i128;
    let yc = ny * corr as i128;
    let cx = xc / dist as i128;
    let cy = yc / dist as i128;
    proof {
        lemma_div_trunc_bound(xc as int, dist as int, 16_000_000_000_000_000_000_000_000);
        lemma_div_trunc_bound(yc as int, dist as int, 16_000_000_000_000_000_000_000_000);
        lemma_mul_range(cx as int, rq as int, 16_000_000_000_000_000_000_000_000, 1_000_000_000_000);
        lemma_mul_range(cy as int, rq as int, 16_000_000_000_000_000_000_000_000, 1_000_000_000_000);
        lemma_mul_range(cx as int, rp as int, 16_000_000_000_000_000_000_000_000, 1_000_000_000_000);
        lemma_mul_range(cy as int, rp as int, 16_000_000_000_000_000_000_000_000, 1_000_000_000_000);
        lemma_div_trunc_bound(
            cx as int * rq as int,
            rsum as int,
            16_000_000_000_000_000_000_000_000_000_000_000_000,
        );
        lemma_div_trunc_bound(
            cy as int * rq as int,
            rsum as int,
            16_000_000_000_000_000_000_000_000_000_000_000_000,
        );
        lemma_div_trunc_bound(
            cx as int * rp as int,
            rsum as int,
            16_000_000_000_000_000_000_000_000_000_000_000_000,
        );
        lemma_div_trunc_bound(
            cy as int * rp as int,
            rsum as int,
            16_000_000_000_000_000_000_000_000_000_000_000_000,
        );
    }
    let cpx = cx * rq as i128 / rsum;
    let cpy = cy * rq as i128 / rsum;
    let cqx = cx * rp as i128 / rsum;
    let cqy = cy * rp as i128 / rsum;
    let mut pl = p;
    let mut ql = q;
    pl.set_position(
        Vector {
            x: clamp_coord(p.position.x as i128 - cpx),
            y: clamp_coord(p.position.y as i128 - cpy),
        },
    );
    ql.set_position(
        Vector {
            x: clamp_coord(q.position.x as i128 + cqx),
            y: clamp_coord(q.position.y as i128 + cqy),
        },
    );
    let vp = p.get_velocity();
    let vq = q.get_velocity();
    proof {
        lemma_mul_range(vq.x - vp.x, nx as int, 4_000_000_000_000, 2_000_000_000_000);
        lemma_mul_range(vq.y - vp.y, ny as int, 4_000_000_000_000, 2_000_000_000_000);
    }
    let rvn = (vq.x as i128 - vp.x as i128) * nx + (vq.y as i128 - vp.y as i128) * ny;
    if rvn < 0 {
        proof {
            lemma_mul_range(rvn as int, (RESTITUTION_UNIT + e) as int, 16_000_000_000_000_000_000_000_000, 2_000);
        }
        let s1 = rvn * (RESTITUTION_UNIT + e) as i128 / RESTITUTION_UNIT as i128;
        proof {
            crate::num::lemma_div_trunc_ratio(
                rvn as int * (RESTITUTION_UNIT + e) as int,
                RESTITUTION_UNIT as int,
                32_000_000_000_000_000_000_000_000,
            );
            lemma_mul_range(s1 as int, rq as int, 32_000_000_000_000_000_000_000_000, 1_000_000_000_000);
            lemma_mul_range(s1 as int, rp as int, 32_000_000_000_000_000_000_000_000, 1_000_000_000_000);
            assert(-(32_000_000_000_000_000_000_000_000 * rsum as int) <= s1 as int * rq as int
                <= 32_000_000_000_000_000_000_000_000 * rsum as int) by (nonlinear_arith)
                requires
                    -32_000_000_000_000_000_000_000_000 <= s1 as int
                        <= 32_000_000_000_000_000_000_000_000,
                    0 <= rq as int <= rsum as int,
            ;
            assert(-(32_000_000_000_000_000_000_000_000 * rsum as int) <= s1 as int * rp as int
                <= 32_000_000_000_000_000_000_000_000 * rsum as int) by (nonlinear_arith)
                requires
                    -32_000_000_000_000_000_000_000_000 <= s1 as int
                        <= 32_000_000_000_000_000_000_000_000,
                    0 <= rp as int <= rsum as int,
            ;
            crate::num::lemma_div_trunc_ratio(
                s1 as int * rq as int,
                rsum as int,
                32_000_000_000_000_000_000_000_000,
            );
            crate::num::lemma_div_trunc_ratio(
                s1 as int * rp as int,
                rsum as int,
                32_000_000_000_000_000_000_000_000,
            );
        }
        let tp = s1 * rq as i128 / rsum;
        let tq = s1 * rp as i128 / rsum;
        proof {
            lemma_mul_range(tp as int, nx as int, 32_000_000_000_000_000_000_000_000, 2_000_000_000_000);
            lemma_mul_range(tp as int, ny as int, 32_000_000_000_000_000_000_000_000, 2_000_000_000_000);
            lemma_mul_range(tq as int, nx as int, 32_000_000_000_000_000_000_000_000, 2_000_000_000_000);
            lemma_mul_range(tq as int, ny as int, 32_000_000_000_000_000_000_000_000, 2_000_000_000_000);
            lemma_div_trunc_bound(
                tp as int * nx as int,
                d2 as int,
                64_000_000_000_000_000_000_000_000_000_000_000_000,
            );
            lemma_div_trunc_bound(
                tp as int * ny as int,
                d2 as int,
                64_000_000_000_000_000_000_000_000_000_000_000_000,
            );
            lemma_div_trunc_bound(
                tq as int * nx as int,
                d2 as int,
                64_000_000_000_000_000_000_000_000_000_000_000_000,
            );
            lemma_div_trunc_bound(
                tq as int * ny as int,
                d2 as int,
                64_000_000_000_000_000_000_000_000_000_000_000_000,
            );
        }
        pl.set_velocity(
            Vector {
                x: clamp_coord(vp.x as i128 + tp * nx / d2),
                y: clamp_coord(vp.y as i128 + tp * ny / d2),
            },
        );
        ql.set_velocity(
            Vector {
                x: clamp_coord(vq.x as i128 - tq * nx / d2),
                y: clamp_coord(vq.y as i128 - tq * ny / d2),
            },
        );
    }
    (pl, ql)
}

/// Reflect a particle at the four domain walls: on each violated wall
/// the position is clamped to the boundary and the perpendicular
/// velocity component's sign is turned away from the wall, scaled by the
/// wall restitution.
pub fn boundary_check(p: &mut Particle, radius: i64, restitution: i64, width: i64, height: i64)
    requires
        old(p).wf(),
        radius == old(p).radius,
        valid_restitution(restitution),
        2 * radius <= width <= COORD_LIMIT,
        2 * radius <= height <= COORD_LIMIT,
    ensures
        *final(p) == boundary_spec(*old(p), restitution, width, height),
        final(p).wf(),
        final(p).radius == old(p).radius,
        final(p).dt == old(p).dt,
        radius <= final(p).position.x <= width - radius,
        radius <= final(p).position.y <= height - radius,
{
    let position = p.get_position();
    let velocity = p.get_velocity();
    if position.x - radius < 0 {
        p.set_position(Vector { x: radius, y: position.y });
        let vx = if velocity.x >= 0 {
            velocity.x
        } else {
            -velocity.x
        };
        proof {
            lemma_mul_range(vx as int, restitution as int, 2 * COORD_LIMIT as int, RESTITUTION_UNIT as int);
            crate::num::lemma_div_trunc_ratio(
                vx as int * restitution as int,
                RESTITUTION_UNIT as int,
                2 * COORD_LIMIT as int,
            );
        }
        p.set_velocity(Vector { x: (vx * restitution) / RESTITUTION_UNIT, y: velocity.y });
    }
    let position = p.get_position();
    let velocity = p.get_velocity();
    if position.x + radius > width {
        p.set_position(Vector { x: width - radius, y: position.y });
        let vx = if velocity.x >= 0 {
            velocity.x
        } else {
            -velocity.x
        };
        proof {
            lemma_mul_range(vx as int, restitution as int, 2 * COORD_LIMIT as int, RESTITUTION_UNIT as int);
            crate::num::lemma_div_trunc_ratio(
                vx as int * restitution as int,
                RESTITUTION_UNIT as int,
                2 * COORD_LIMIT as int,
            );
        }
        p.set_velocity(Vector { x: -((vx * restitution) / RESTITUTION_UNIT), y: velocity.y });
    }
    let position = p.get_position();
    let velocity = p.get_velocity();
    if position.y - radius < 0 {
        p.set_position(Vector { x: position.x, y: radius });
        let vy = if velocity.y >= 0 {
            velocity.y
        } else {
            -velocity.y
        };
        proof {
            lemma_mul_range(vy as int, restitution as int, 2 * COORD_LIMIT as int, RESTITUTION_UNIT as int);
            crate::num::lemma_div_trunc_ratio(
                vy as int * restitution as int,
                RESTITUTION_UNIT as int,
                2 * COORD_LIMIT as int,
            );
        }
        p.set_velocity(Vector { x: velocity.x, y: (vy * restitution) / RESTITUTION_UNIT });
    }
    let position = p.get_position();
    let velocity = p.get_velocity();
    if position.y + radius > height {
        p.set_position(Vector { x: position.x, y: height - radius });
        let vy = if velocity.y >= 0 {
            velocity.y
        } else {
            -velocity.y
        };
        proof {
            lemma_mul_range(vy as int, restitution as int, 2 * COORD_LIMIT as int, RESTITUTION_UNIT as int);
            crate::num::lemma_div_trunc_ratio(
                vy as int * restitution as int,
                RESTITUTION_UNIT as int,
                2 * COORD_LIMIT as int,
            );
        }
        p.set_velocity(Vector { x: velocity.x, y: -((vy * restitution) / RESTITUTION_UNIT) });
    }
}

impl<T: SpatialPartition> Simulator<T> {
    /// Query the partition and apply every reported collision in order:
    /// the resolve phase of a step.  Returns one event per collision,
    /// carrying the two particles' states at the moment it was resolved,
    /// so that observers can be notified.
    fn solve_collisions(&mut self) -> (r: Vec<CollisionEvent>)
        requires
            old(self).wf(),
        ensures
            final(self).wf(),
            sorted_strict(events_collisions(r@)),
            sound_collisions(events_collisions(r@), old(self).spatial_partition.items()),
            old(self).spatial_partition.parallel_exact() ==> canonical_for(
                events_collisions(r@),
                old(self).spatial_partition.items(),
            ),
            final(self).particles@ == resolve_all_spec(
                old(self).particles@,
                events_collisions(r@),
                old(self).particle_restitution,
            ),
            forall|m: int|
                0 <= m < r@.len() ==> {
                    &&& (#[trigger] r@[m]).collision.p1 < old(self).particles@.len()
                    &&& r@[m].collision.p2 < old(self).particles@.len()
                    &&& r@[m].state1 == resolve_all_spec(
                        old(self).particles@,
                        events_collisions(r@).subrange(0, m),
                        old(self).particle_restitution,
                    )[r@[m].collision.p1 as int]
                    &&& r@[m].state2 == resolve_all_spec(
                        old(self).particles@,
                        events_collisions(r@).subrange(0, m),
                        old(self).particle_restitution,
                    )[r@[m].collision.p2 as int]
                },
            final(self).particles@.len() == old(self).particles@.len(),
            final(self).spatial_partition == old(self).spatial_partition,
            final(self).number_of_particles == old(self).number_of_particles,
            final(self).gravity == old(self).gravity,
            final(self).particle_restitution == old(self).particle_restitution,
            final(self).wall_restitution == old(self).wall_restitution,
            final(self).width == old(self).width,
            final(self).height == old(self).height,
            final(self).max_speed == old(self).max_speed,
            final(self).dt == old(self).dt,
    {
        let collisions = self.spatial_partition.collision_check_parallel();
        let e = self.particle_restitution;
        let ghost items = self.spatial_partition.items();
        let mut events: Vec<CollisionEvent> = Vec::new();
        let mut k: usize = 0;
        while k < collisions.len()
            invariant
                self.wf(),
                items == self.spatial_partition.items(),
                events@.len() == k,
                forall|m: int|
                    0 <= m < k ==> {
                        &&& (#[trigger] events@[m]).collision == collisions@[m]
                        &&& collisions@[m].p1 < old(self).particles@.len()
                        &&& collisions@[m].p2 < old(self).particles@.len()
                        &&& events@[m].state1 == resolve_all_spec(
                            old(self).particles@,
                            collisions@.subrange(0, m),
                            e,
                        )[collisions@[m].p1 as int]
                        &&& events@[m].state2 == resolve_all_spec(
                            old(self).particles@,
                            collisions@.subrange(0, m),
                            e,
                        )[collisions@[m].p2 as int]
                    },
                valid_restitution(e),
                e == self.particle_restitution,
                sound_collisions(collisions@, items),
                crate::collision::valid_items(items),
                self.particles@ == resolve_all_spec(
                    old(self).particles@,
                    collisions@.subrange(0, k as int),
                    e,
                ),
                self.particles@.len() == old(self).particles@.len(),
                k <= collisions@.len(),
                self.spatial_partition == old(self).spatial_partition,
                self.number_of_particles == old(self).number_of_particles,
                self.gravity == old(self).gravity,
                self.particle_restitution == old(self).particle_restitution,
                self.wall_restitution == old(self).wall_restitution,
                self.width == old(self).width,
                self.height == old(self).height,
                self.max_speed == old(self).max_speed,
                self.dt == old(self).dt,
                forall|m: int|
                    0 <= m < self.particles@.len() ==> {
                        &&& (#[trigger] self.particles@[m]).wf()
                        &&& self.particles@[m].dt == self.dt
                        &&& self.particles@[m].radius == old(self).particles@[m].radius
                    },
            decreases collisions@.len() - k,
        {
            let c = collisions[k];
            let ghost pre = self.particles@;
            proof {
                assert(is_collision_from(items, collisions@[k as int]));
                let (w1, w2): (int, int) = choose|w1: int, w2: int|
                    #![trigger items[w1], items[w2]]
                    {
                        &&& 0 <= w1 < items.len()
                        &&& 0 <= w2 < items.len()
                        &&& items[w1].index == c.p1
                        &&& items[w2].index == c.p2
                        &&& c.p1 < c.p2
                        &&& crate::collision::overlaps(items[w1], items[w2])
                        &&& c == crate::collision::collision_of(items[w1], items[w2])
                    };
                assert(self.spatial_partition.items()[w1].index == w1);
                assert(self.spatial_partition.items()[w2].index == w2);
                assert(c.p1 < self.particles@.len() && c.p2 < self.particles@.len());
                crate::collision::lemma_collision_bounds(items, c);
            }
            let p = self.particles[c.p1];
            let q = self.particles[c.p2];
            events.push(CollisionEvent { collision: c, state1: p, state2: q });
            let (p2, q2) = resolve_pair(p, q, c, e);
            self.particles.set(c.p1, p2);
            self.particles.set(c.p2, q2);
            proof {
                assert(self.particles@ == pre.update(c.p1 as int, p2).update(c.p2 as int, q2));
                assert(self.particles@ == apply_collision_spec(pre, c, e));
            }
            proof {
                assert(collisions@.subrange(0, k + 1).drop_last() =~= collisions@.subrange(
                    0,
                    k as int,
                ));
                assert(collisions@.subrange(0, k + 1).last() == collisions@[k as int]);
                assert(self.particles@ == resolve_all_spec(
                    old(self).particles@,
                    collisions@.subrange(0, k + 1),
                    e,
                ));
            }
            k += 1;
        }
        proof {
            assert(collisions@.subrange(0, collisions@.len() as int) =~= collisions@);
            assert(events_collisions(events@) =~= collisions@);
            assert forall|m: int|
                0 <= m < events@.len() implies events_collisions(events@).subrange(0, m)
                =~= collisions@.subrange(0, m) by {}
        }
        events
    }

    /// Do a simulation step: resolve the reported collisions, clear the
    /// partition, then integrate gravity, reflect at the walls and
    /// reinsert every particle at its new position.  Returns one event
    /// per resolved collision, carrying the states the two particles had
    /// when it was resolved, so that observers can be notified.
    pub fn update(&mut self) -> (r: Vec<CollisionEvent>)
        requires
            old(self).wf(),
        ensures
            final(self).wf(),
            sorted_strict(events_collisions(r@)),
            sound_collisions(events_collisions(r@), old(self).spatial_partition.items()),
            old(self).spatial_partition.parallel_exact() ==> canonical_for(
                events_collisions(r@),
                old(self).spatial_partition.items(),
            ),
            forall|m: int|
                0 <= m < r@.len() ==> {
                    &&& (#[trigger] r@[m]).collision.p1 < old(self).particles@.len()
                    &&& r@[m].collision.p2 < old(self).particles@.len()
                    &&& r@[m].state1 == resolve_all_spec(
                        old(self).particles@,
                        events_collisions(r@).subrange(0, m),
                        old(self).particle_restitution,
                    )[r@[m].collision.p1 as int]
                    &&& r@[m].state2 == resolve_all_spec(
                        old(self).particles@,
                        events_collisions(r@).subrange(0, m),
                        old(self).particle_restitution,
                    )[r@[m].collision.p2 as int]
                },
            final(self).particles@.len() == old(self).particles@.len(),
            forall|i: int|
                0 <= i < final(self).particles@.len() ==> #[trigger] final(self).particles@[i]
                    == step_particle_spec(
                    resolve_all_spec(
                        old(self).particles@,
                        events_collisions(r@),
                        old(self).particle_restitution,
                    )[i],
                    old(self).gravity,
                    old(self).wall_restitution,
                    old(self).width,
                    old(self).height,
                ),
            final(self).number_of_particles == old(self).number_of_particles,
            final(self).width == old(self).width,
            final(self).height == old(self).height,
            final(self).spatial_partition.items().len() == final(self).particles@.len(),
            forall|i: int|
                0 <= i < final(self).particles@.len()
                    ==> #[trigger] final(self).spatial_partition.items()[i] == (Item {
                    index: i as usize,
                    radius: final(self).particles@[i].radius,
                    position: final(self).particles@[i].position,
                }),
    {
        let r = self.solve_collisions();
        self.spatial_partition.clear();
        let ghost resolved = self.particles@;
        let gravity = self.gravity;
        let wall_e = self.wall_restitution;
        let width = self.width;
        let height = self.height;
        let n = self.particles.len();
        let mut i: usize = 0;
        while i < n
            invariant
                n == self.particles@.len(),
                i <= n,
                resolved.len() == n,
                valid_dt(self.dt),
                0 < width <= COORD_LIMIT,
                0 < height <= COORD_LIMIT,
                -COORD_LIMIT <= gravity <= COORD_LIMIT,
                valid_restitution(wall_e),
                gravity == self.gravity,
                wall_e == self.wall_restitution,
                width == self.width,
                height == self.height,
                self.number_of_particles == old(self).number_of_particles,
                self.particles@.len() <= self.number_of_particles <= PARTICLE_LIMIT,
                self.particle_restitution == old(self).particle_restitution,
                self.max_speed == old(self).max_speed,
                self.dt == old(self).dt,
                valid_restitution(self.particle_restitution),
                0 <= self.max_speed <= COORD_LIMIT,
                self.spatial_partition.wf(),
                self.spatial_partition.domain_width() == width,
                self.spatial_partition.domain_height() == height,
                self.spatial_partition.items().len() == i,
                forall|m: int|
                    0 <= m < i ==> #[trigger] self.spatial_partition.items()[m] == (Item {
                        index: m as usize,
                        radius: self.particles@[m].radius,
                        position: self.particles@[m].position,
                    }),
                forall|m: int|
                    0 <= m < n ==> {
                        &&& (#[trigger] resolved[m]).wf()
                        &&& resolved[m].dt == self.dt
                        &&& 2 * resolved[m].radius <= width
                        &&& 2 * resolved[m].radius <= height
                        &&& self.spatial_partition.accepts_radius(resolved[m].radius)
                    },
                forall|m: int|
                    i <= m < n ==> #[trigger] self.particles@[m] == resolved[m],
                forall|m: int|
                    0 <= m < i ==> #[trigger] self.particles@[m] == step_particle_spec(
                        resolved[m],
                        gravity,
                        wall_e,
                        width,
                        height,
                    ),
                forall|m: int|
                    0 <= m < i ==> {
                        &&& (#[trigger] self.particles@[m]).wf()
                        &&& self.particles@[m].dt == self.dt
                        &&& 2 * self.particles@[m].radius <= width
                        &&& 2 * self.particles@[m].radius <= height
                        &&& self.spatial_partition.accepts_radius(self.particles@[m].radius)
                    },
            decreases n - i,
        {
            let mut p = self.particles[i];
            p.verlet(Vector { x: 0, y: gravity });
            let rad = p.radius;
            boundary_check(&mut p, rad, wall_e, width, height);
            self.particles.set(i, p);
            self.spatial_partition.insert(i, p.get_position(), rad);
            i += 1;
        }
        r
    }
}

/// Boundary reflection at the left wall: a particle whose position
/// crosses `x = 0` by more than its radius, while respecting the other
/// walls, ends the wall checks with its position clamped to the wall and
/// its horizontal velocity turned positive and scaled by the wall
/// restitution, leaving the vertical velocity unchanged.  The stated
/// bounds keep every intermediate value representable.
pub proof fn lemma_boundary_reflection_low_x(p: Particle, e: i64, width: i64, height: i64)
    requires
        p.wf(),
        valid_restitution(e),
        2 * p.radius <= width <= COORD_LIMIT,
        2 * p.radius <= height <= COORD_LIMIT,
        p.position.x - p.radius < 0,
        p.radius <= p.position.y <= height - p.radius,
        -COORD_LIMIT <= vel_x(p) * p.dt <= COORD_LIMIT,
        -COORD_LIMIT <= p.position.y - vel_y(p) * p.dt <= COORD_LIMIT,
    ensures
        boundary_spec(p, e, width, height).position.x == p.radius,
        boundary_spec(p, e, width, height).position.y == p.position.y,
        vel_x(boundary_spec(p, e, width, height)) == div_trunc(
            abs_int(vel_x(p)) * e,
            RESTITUTION_UNIT as int,
        ),
        vel_y(boundary_spec(p, e, width, height)) == vel_y(p),
{
    let vx = vel_x(p);
    let vy = vel_y(p);
    let rx = div_trunc(abs_int(vx) * e, RESTITUTION_UNIT as int);
    crate::num::lemma_div_trunc_bound(p.position.x - p.previous_position.x, p.dt as int, 2 * COORD_LIMIT as int);
    crate::num::lemma_div_trunc_bound(p.position.y - p.previous_position.y, p.dt as int, 2 * COORD_LIMIT as int);
    assert(0 <= abs_int(vx) * e <= 2 * COORD_LIMIT as int * RESTITUTION_UNIT as int) by (nonlinear_arith)
        requires
            0 <= abs_int(vx) <= 2 * COORD_LIMIT as int,
            0 <= e <= RESTITUTION_UNIT,
    ;
    crate::num::lemma_div_trunc_ratio(
        abs_int(vx) * e,
        RESTITUTION_UNIT as int,
        2 * COORD_LIMIT as int,
    );
    assert(abs_int(vx) * e <= abs_int(vx) * RESTITUTION_UNIT as int) by (nonlinear_arith)
        requires
            0 <= abs_int(vx),
            0 <= e <= RESTITUTION_UNIT,
    ;
    crate::num::lemma_div_trunc_ratio(abs_int(vx) * e, RESTITUTION_UNIT as int, abs_int(vx));
    assert(0 <= rx * p.dt <= abs_int(vx) * p.dt) by (nonlinear_arith)
        requires
            0 <= rx <= abs_int(vx),
            1 <= p.dt,
    ;
    assert(abs_int(vx) * p.dt == abs_int(vx * p.dt)) by (nonlinear_arith)
        requires
            p.dt >= 1,
    ;
    let p1 = reflect_low_x(p, e);
    assert(p1.position.x == p.radius && p1.position.y == p.position.y);
    crate::num::lemma_div_trunc_exact(rx, p.dt as int);
    crate::num::lemma_div_trunc_exact(vy, p.dt as int);
    assert(vel_x(p1) == rx && vel_y(p1) == vy);
    assert(reflect_high_x(p1, e, width) == p1);
    assert(reflect_low_y(p1, e) == p1);
    assert(reflect_high_y(p1, e, height) == p1);
}

/// Boundary reflection at the right wall: symmetric to the left wall,
/// the horizontal velocity is turned negative and scaled by the wall
/// restitution.
pub proof fn lemma_boundary_reflection_high_x(p: Particle, e: i64, width: i64, height: i64)
    requires
        p.wf(),
        valid_restitution(e),
        2 * p.radius <= width <= COORD_LIMIT,
        2 * p.radius <= height <= COORD_LIMIT,
        p.position.x + p.radius > width,
        p.radius <= p.position.y <= height - p.radius,
        -COORD_LIMIT <= vel_x(p) * p.dt <= COORD_LIMIT,
        -COORD_LIMIT <= p.position.y - vel_y(p) * p.dt <= COORD_LIMIT,
        -COORD_LIMIT <= width - p.radius + abs_int(vel_x(p)) * p.dt <= COORD_LIMIT,
    ensures
        boundary_spec(p, e, width, height).position.x == width - p.radius,
        boundary_spec(p, e, width, height).position.y == p.position.y,
        vel_x(boundary_spec(p, e, width, height)) == -div_trunc(
            abs_int(vel_x(p)) * e,
            RESTITUTION_UNIT as int,
        ),
        vel_y(boundary_spec(p, e, width, height)) == vel_y(p),
{
    let vx = vel_x(p);
    let vy = vel_y(p);
    let rx = div_trunc(abs_int(vx) * e, RESTITUTION_UNIT as int);
    crate::num::lemma_div_trunc_bound(p.position.x - p.previous_position.x, p.dt as int, 2 * COORD_LIMIT as int);
    crate::num::lemma_div_trunc_bound(p.position.y - p.previous_position.y, p.dt as int, 2 * COORD_LIMIT as int);
    assert(0 <= abs_int(vx) * e <= 2 * COORD_LIMIT as int * RESTITUTION_UNIT as int) by (nonlinear_arith)
        requires
            0 <= abs_int(vx) <= 2 * COORD_LIMIT as int,
            0 <= e <= RESTITUTION_UNIT,
    ;
    crate::num::lemma_div_trunc_ratio(
        abs_int(vx) * e,
        RESTITUTION_UNIT as int,
        2 * COORD_LIMIT as int,
    );
    assert(abs_int(vx) * e <= abs_int(vx) * RESTITUTION_UNIT as int) by (nonlinear_arith)
        requires
            0 <= abs_int(vx),
            0 <= e <= RESTITUTION_UNIT,
    ;
    crate::num::lemma_div_trunc_ratio(abs_int(vx) * e, RESTITUTION_UNIT as int, abs_int(vx));
    assert(0 <= rx * p.dt <= abs_int(vx) * p.dt) by (nonlinear_arith)
        requires
            0 <= rx <= abs_int(vx),
            1 <= p.dt,
    ;
    assert(abs_int(vx) * p.dt == abs_int(vx * p.dt)) by (nonlinear_arith)
        requires
            p.dt >= 1,
    ;
    assert(reflect_low_x(p, e) == p);
    let p1 = reflect_high_x(p, e, width);
    assert(p1.position.x == width - p.radius && p1.position.y == p.position.y);
    crate::num::lemma_div_trunc_exact(-rx, p.dt as int);
    crate::num::lemma_div_trunc_exact(vy, p.dt as int);
    assert((-rx) * p.dt == -(rx * p.dt)) by (nonlinear_arith);
    assert(vel_x(p1) == -rx && vel_y(p1) == vy);
    assert(reflect_low_y(p1, e) == p1);
    assert(reflect_high_y(p1, e, height) == p1);
}

} // verus!
