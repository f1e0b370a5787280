//! Particle definition.

use vstd::prelude::*;
use crate::num::{COORD_LIMIT, clamped, div_trunc, div_trunc_i64, clamp_coord, lemma_div_trunc_exact};
use crate::vector::{Vector, in_range};

verus! {

/// Largest timestep, in fixed-point ticks.
pub const DT_LIMIT: i64 = 1_000;

/// A usable timestep.
pub open spec fn valid_dt(dt: i64) -> bool {
    1 <= dt <= DT_LIMIT
}

/// A usable particle radius.
pub open spec fn valid_radius(r: i64) -> bool {
    1 <= r <= COORD_LIMIT
}

/// A particle integrated by the Verlet scheme: it stores its current and
/// previous position instead of an explicit velocity.
#[derive(Clone, Copy, PartialEq, Eq, Structural, Debug)]
pub struct Particle {
    pub position: Vector,
    pub previous_position: Vector,
    pub radius: i64,
    pub dt: i64,
}

/// The x component of the velocity derived from the Verlet state.
pub open spec fn vel_x(p: Particle) -> int {
    div_trunc(p.position.x - p.previous_position.x, p.dt as int)
}

/// The y component of the velocity derived from the Verlet state.
pub open spec fn vel_y(p: Particle) -> int {
    div_trunc(p.position.y - p.previous_position.y, p.dt as int)
}

/// The particle produced by `set_velocity`: the previous position is
/// recomputed so that the derived velocity becomes `v`.
pub open spec fn set_velocity_spec(p: Particle, v: Vector) -> Particle {
    Particle {
        position: p.position,
        previous_position: Vector {
            x: clamped(p.position.x - v.x * p.dt) as i64,
            y: clamped(p.position.y - v.y * p.dt) as i64,
        },
        radius: p.radius,
        dt: p.dt,
    }
}

/// The particle produced by `set_position`: the position moves to `q`
/// while the derived velocity is preserved.
pub open spec fn set_position_spec(p: Particle, q: Vector) -> Particle {
    Particle {
        position: q,
        previous_position: Vector {
            x: clamped(q.x - vel_x(p) * p.dt) as i64,
            y: clamped(q.y - vel_y(p) * p.dt) as i64,
        },
        radius: p.radius,
        dt: p.dt,
    }
}

/// The particle produced by one Verlet step under acceleration `a`.
pub open spec fn verlet_spec(p: Particle, a: Vector) -> Particle {
    Particle {
        position: Vector {
            x: clamped(2 * p.position.x - p.previous_position.x + a.x * p.dt * p.dt) as i64,
            y: clamped(2 * p.position.y - p.previous_position.y + a.y * p.dt * p.dt) as i64,
        },
        previous_position: p.position,
        radius: p.radius,
        dt: p.dt,
    }
}

impl Particle {
    /// Both stored positions are in range and the scalars are usable.
    pub open spec fn wf(self) -> bool {
        &&& in_range(self.position)
        &&& in_range(self.previous_position)
        &&& valid_dt(self.dt)
        &&& valid_radius(self.radius)
    }

    /// Make a particle with the given position and derived velocity.
    pub fn new(position: Vector, velocity: Vector, radius: i64, dt: i64) -> (r: Particle)
        requires
            in_range(position),
            in_range(velocity),
            valid_radius(radius),
            valid_dt(dt),
        ensures
            r == set_velocity_spec(
                Particle { position, previous_position: position, radius, dt },
                velocity,
            ),
            r.wf(),
    {
        proof {
            crate::num::lemma_mul_range(velocity.x as int, dt as int, COORD_LIMIT as int, DT_LIMIT as int);
            crate::num::lemma_mul_range(velocity.y as int, dt as int, COORD_LIMIT as int, DT_LIMIT as int);
        }
        let px = position.x as i128 - velocity.x as i128 * dt as i128;
        let py = position.y as i128 - velocity.y as i128 * dt as i128;
        Particle {
            position,
            previous_position: Vector { x: clamp_coord(px), y: clamp_coord(py) },
            radius,
            dt,
        }
    }

    /// Apply acceleration using Verlet integration.
    pub fn verlet(&mut self, a: Vector)
        requires
            old(self).wf(),
            in_range(a),
        ensures
            *final(self) == verlet_spec(*old(self), a),
            final(self).wf(),
    {
        let temp = self.position;
        proof {
            crate::num::lemma_mul_range(a.x as int, self.dt as int, COORD_LIMIT as int, DT_LIMIT as int);
            crate::num::lemma_mul_range(a.y as int, self.dt as int, COORD_LIMIT as int, DT_LIMIT as int);
            crate::num::lemma_mul_range(a.x * self.dt, self.dt as int, COORD_LIMIT as int * DT_LIMIT as int, DT_LIMIT as int);
            crate::num::lemma_mul_range(a.y * self.dt, self.dt as int, COORD_LIMIT as int * DT_LIMIT as int, DT_LIMIT as int);
        }
        let nx = 2 * self.position.x as i128 - self.previous_position.x as i128
            + a.x as i128 * self.dt as i128 * self.dt as i128;
        let ny = 2 * self.position.y as i128 - self.previous_position.y as i128
            + a.y as i128 * self.dt as i128 * self.dt as i128;
        self.position = Vector { x: clamp_coord(nx), y: clamp_coord(ny) };
        self.previous_position = temp;
    }

    /// Get the particle velocity derived from the Verlet state.
    pub fn get_velocity(&self) -> (r: Vector)
        requires
            self.wf(),
        ensures
            r.x == vel_x(*self),
            r.y == vel_y(*self),
            -2 * COORD_LIMIT <= r.x <= 2 * COORD_LIMIT,
            -2 * COORD_LIMIT <= r.y <= 2 * COORD_LIMIT,
    {
        let dx = self.position.x - self.previous_position.x;
        let dy = self.position.y - self.previous_position.y;
        proof {
            crate::num::lemma_div_trunc_bound(dx as int, self.dt as int, 2 * COORD_LIMIT as int);
            crate::num::lemma_div_trunc_bound(dy as int, self.dt as int, 2 * COORD_LIMIT as int);
        }
        Vector { x: div_trunc_i64(dx, self.dt), y: div_trunc_i64(dy, self.dt) }
    }

    /// Set the particle velocity by recomputing the previous position.
    pub fn set_velocity(&mut self, v: Vector)
        requires
            old(self).wf(),
            -2 * COORD_LIMIT <= v.x <= 2 * COORD_LIMIT,
            -2 * COORD_LIMIT <= v.y <= 2 * COORD_LIMIT,
        ensures
            *final(self) == set_velocity_spec(*old(self), v),
            final(self).wf(),
    {
        proof {
            crate::num::lemma_mul_range(
                v.x as int,
                self.dt as int,
                2 * COORD_LIMIT as int,
                DT_LIMIT as int,
            );
            crate::num::lemma_mul_range(
                v.y as int,
                self.dt as int,
                2 * COORD_LIMIT as int,
                DT_LIMIT as int,
            );
        }
        let px = self.position.x as i128 - v.x as i128 * self.dt as i128;
        let py = self.position.y as i128 - v.y as i128 * self.dt as i128;
        self.previous_position = Vector { x: clamp_coord(px), y: clamp_coord(py) };
    }

    /// Get the current position.
    pub fn get_position(&self) -> (r: Vector)
        ensures
            r == self.position,
    {
        self.position
    }

    /// Set the current position, preserving the derived velocity.
    pub fn set_position(&mut self, p: Vector)
        requires
            old(self).wf(),
            in_range(p),
        ensures
            *final(self) == set_position_spec(*old(self), p),
            final(self).wf(),
    {
        let v = self.get_velocity();
        self.position = p;
        proof {
            crate::num::lemma_mul_range(v.x as int, self.dt as int, 2 * COORD_LIMIT as int, DT_LIMIT as int);
            crate::num::lemma_mul_range(v.y as int, self.dt as int, 2 * COORD_LIMIT as int, DT_LIMIT as int);
        }
        let px = p.x as i128 - v.x as i128 * self.dt as i128;
        let py = p.y as i128 - v.y as i128 * self.dt as i128;
        self.previous_position = Vector { x: clamp_coord(px), y: clamp_coord(py) };
    }
}

/// Setting a velocity and reading it back returns exactly the velocity
/// that was set, for any particle state in which the recomputed previous
/// position stays in the representable coordinate range.
pub proof fn lemma_velocity_round_trip(p: Particle, v: Vector)
    requires
        p.wf(),
        in_range(v),
        -COORD_LIMIT <= p.position.x - v.x * p.dt <= COORD_LIMIT,
        -COORD_LIMIT <= p.position.y - v.y * p.dt <= COORD_LIMIT,
    ensures
        vel_x(set_velocity_spec(p, v)) == v.x,
        vel_y(set_velocity_spec(p, v)) == v.y,
{
    let q = set_velocity_spec(p, v);
    assert(q.previous_position.x == p.position.x - v.x * p.dt);
    assert(q.previous_position.y == p.position.y - v.y * p.dt);
    lemma_div_trunc_exact(v.x as int, p.dt as int);
    lemma_div_trunc_exact(v.y as int, p.dt as int);
}

} // verus!
