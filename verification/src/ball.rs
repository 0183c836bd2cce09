//! Particles, their motion and the wrap-around at the edge of the plane.

use crate::fixed::{clamp, div_toward_zero, divide_toward_zero, in_range, lemma_product_bound, saturate, LIMIT, SCALE};
use crate::vector::Vector;
use vstd::prelude::*;

verus! {

/// The velocity of a particle, in units per second.
#[derive(Clone, Copy, Debug, PartialEq, Eq, Structural)]
pub struct Velocity(pub Vector);

/// The mass of a particle.
#[derive(Clone, Copy, Debug, PartialEq, Eq, Structural)]
pub struct Mass(pub i64);

/// The largest mass a particle may have (512 units). Only the ratio of two
/// masses bears on a collision; the bound keeps the products of the collision
/// response within the widest integers.
pub const MASS_LIMIT: i64 = 33_554_432;

/// The mathematical state of a particle: its fixed-point quantities as integers.
pub struct BallState {
    pub x: int,
    pub y: int,
    pub vx: int,
    pub vy: int,
    pub mass: int,
    pub radius: int,
}

/// Where a coordinate `p` of a particle of the given radius ends up in a plane
/// that reaches `half_extent` to either side of the origin: a particle that has
/// left the plane entirely re-enters at the opposite edge, just out of sight.
pub open spec fn wrap_coordinate(p: int, half_extent: int, radius: int) -> int {
    if p > half_extent + radius {
        -half_extent - radius
    } else if p < -half_extent - radius {
        half_extent + radius
    } else {
        p
    }
}

impl BallState {
    /// Every quantity is in range, and mass and radius are strictly positive.
    pub open spec fn valid(self) -> bool {
        &&& in_range(self.x)
        &&& in_range(self.y)
        &&& in_range(self.vx)
        &&& in_range(self.vy)
        &&& 0 < self.mass <= MASS_LIMIT
        &&& 0 < self.radius <= LIMIT
    }

    /// The left end of the particle's extent along the x-axis.
    pub open spec fn left(self) -> int {
        self.x - self.radius
    }

    /// The right end of the particle's extent along the x-axis.
    pub open spec fn right(self) -> int {
        self.x + self.radius
    }

    /// The state after moving for `dt` seconds at the current velocity.
    pub open spec fn advanced(self, dt: int) -> BallState {
        BallState {
            x: clamp(self.x + div_toward_zero(self.vx * dt, SCALE as int)),
            y: clamp(self.y + div_toward_zero(self.vy * dt, SCALE as int)),
            ..self
        }
    }

    /// The state after wrapping around the edges of a plane with the given
    /// half-width and half-height.
    pub open spec fn wrapped(self, half_width: int, half_height: int) -> BallState {
        BallState {
            x: wrap_coordinate(self.x, half_width, self.radius),
            y: wrap_coordinate(self.y, half_height, self.radius),
            ..self
        }
    }
}

/// The state described by the four components of a particle.
pub open spec fn state_of(position: Vector, velocity: Velocity, mass: Mass, radius: i64) -> BallState {
    BallState {
        x: position.x as int,
        y: position.y as int,
        vx: velocity.0.x as int,
        vy: velocity.0.y as int,
        mass: mass.0 as int,
        radius: radius as int,
    }
}

/// The states of a collection of particles, in order.
pub open spec fn states(balls: Seq<Ball>) -> Seq<BallState> {
    balls.map_values(|b: Ball| b@)
}

/// The store after every particle has moved for `dt` seconds.
pub open spec fn moved(store: Seq<BallState>, dt: int) -> Seq<BallState> {
    store.map_values(|s: BallState| s.advanced(dt))
}

/// The store after every particle has been wrapped around the edges of a
/// plane with the given half-width and half-height.
pub open spec fn wrapped(store: Seq<BallState>, half_width: int, half_height: int) -> Seq<
    BallState,
> {
    store.map_values(|s: BallState| s.wrapped(half_width, half_height))
}

/// A circular particle. Its state is always valid.
#[derive(Clone, Copy, Debug)]
pub struct Ball {
    position: Vector,
    velocity: Velocity,
    mass: Mass,
    radius: i64,
}

impl View for Ball {
    type V = BallState;

    closed spec fn view(&self) -> BallState {
        state_of(self.position, self.velocity, self.mass, self.radius)
    }
}

impl Ball {
    /// What holds of every particle: its state is valid.
    #[verifier::type_invariant]
    pub open spec fn well_formed(self) -> bool {
        self@.valid()
    }

    /// Creates a particle, or `None` if a quantity is out of range or the mass
    /// or the radius is not strictly positive.
    pub fn new(position: Vector, velocity: Velocity, mass: Mass, radius: i64) -> (ball: Option<Ball>)
        ensures
            ball is Some <==> state_of(position, velocity, mass, radius).valid(),
            ball is Some ==> ball->0@ == state_of(position, velocity, mass, radius),
    {
        if -LIMIT <= position.x && position.x <= LIMIT && -LIMIT <= position.y && position.y
            <= LIMIT && -LIMIT <= velocity.0.x && velocity.0.x <= LIMIT && -LIMIT <= velocity.0.y
            && velocity.0.y <= LIMIT && 0 < mass.0 && mass.0 <= MASS_LIMIT && 0 < radius && radius
            <= LIMIT {
            Some(Ball { position, velocity, mass, radius })
        } else {
            None
        }
    }

    /// The position of the centre.
    pub fn position(&self) -> (p: Vector)
        ensures
            p.x == self@.x,
            p.y == self@.y,
    {
        self.position
    }

    /// The velocity.
    pub fn velocity(&self) -> (v: Velocity)
        ensures
            v.0.x == self@.vx,
            v.0.y == self@.vy,
    {
        self.velocity
    }

    /// The mass.
    pub fn mass(&self) -> (m: Mass)
        ensures
            m.0 == self@.mass,
    {
        self.mass
    }

    /// The radius.
    pub fn radius(&self) -> (r: i64)
        ensures
            r == self@.radius,
    {
        self.radius
    }

    /// The left end of the particle's extent along the x-axis.
    pub fn left_bound(&self) -> (bound: i64)
        ensures
            bound == self@.left(),
    {
        proof {
            use_type_invariant(self);
        }
        self.position.x - self.radius
    }

    /// The right end of the particle's extent along the x-axis.
    pub fn right_bound(&self) -> (bound: i64)
        ensures
            bound == self@.right(),
    {
        proof {
            use_type_invariant(self);
        }
        self.position.x + self.radius
    }

    /// Moves the centre to the given position.
    pub(crate) fn set_position(&mut self, x: i64, y: i64)
        requires
            in_range(x as int),
            in_range(y as int),
        ensures
            final(self)@ == (BallState { x: x as int, y: y as int, ..old(self)@ }),
    {
        proof {
            use_type_invariant(&*self);
        }
        self.position = Vector { x, y };
    }

    /// Replaces the velocity.
    pub(crate) fn set_velocity(&mut self, vx: i64, vy: i64)
        requires
            in_range(vx as int),
            in_range(vy as int),
        ensures
            final(self)@ == (BallState { vx: vx as int, vy: vy as int, ..old(self)@ }),
    {
        proof {
            use_type_invariant(&*self);
        }
        self.velocity = Velocity(Vector { x: vx, y: vy });
    }

    /// Moves the particle for `dt` seconds at its current velocity.
    pub fn advance(&mut self, dt: i64)
        requires
            0 < dt <= LIMIT,
        ensures
            final(self)@ == old(self)@.advanced(dt as int),
    {
        proof {
            use_type_invariant(&*self);
            lemma_product_bound(self@.vx, dt as int, LIMIT as int, LIMIT as int);
            lemma_product_bound(self@.vy, dt as int, LIMIT as int, LIMIT as int);
        }
        let step_x: i128 = divide_toward_zero(self.velocity.0.x as i128 * dt as i128, SCALE as i128);
        let step_y: i128 = divide_toward_zero(self.velocity.0.y as i128 * dt as i128, SCALE as i128);
        proof {
            lemma_step_bound(self@.vx * dt, LIMIT as int * LIMIT as int);
            lemma_step_bound(self@.vy * dt, LIMIT as int * LIMIT as int);
        }
        let x: i64 = saturate(self.position.x as i128 + step_x);
        let y: i64 = saturate(self.position.y as i128 + step_y);
        self.set_position(x, y);
    }

    /// Wraps the particle around the edges of a plane with the given
    /// half-width and half-height.
    pub fn wrap(&mut self, half_width: i64, half_height: i64)
        requires
            0 < half_width <= LIMIT,
            0 < half_height <= LIMIT,
        ensures
            final(self)@ == old(self)@.wrapped(half_width as int, half_height as int),
            old(self)@.x > half_width + old(self)@.radius ==> final(self)@.x == -half_width - old(
                self,
            )@.radius,
            old(self)@.x < -half_width - old(self)@.radius ==> final(self)@.x == half_width + old(
                self,
            )@.radius,
            old(self)@.y > half_height + old(self)@.radius ==> final(self)@.y == -half_height - old(
                self,
            )@.radius,
            old(self)@.y < -half_height - old(self)@.radius ==> final(self)@.y == half_height + old(
                self,
            )@.radius,
    {
        proof {
            use_type_invariant(&*self);
        }
        let mut x: i64 = self.position.x;
        let mut y: i64 = self.position.y;
        let radius: i64 = self.radius;
        if x > half_width + radius {
            x = -half_width - radius;
        } else if x < -half_width - radius {
            x = half_width + radius;
        }
        if y > half_height + radius {
            y = -half_height - radius;
        } else if y < -half_height - radius {
            y = half_height + radius;
        }
        self.set_position(x, y);
    }
}

/// A quotient rounded toward zero is no larger in magnitude than the dividend.
proof fn lemma_step_bound(n: int, bound: int)
    requires
        -bound <= n <= bound,
    ensures
        -bound <= div_toward_zero(n, SCALE as int) <= bound,
{
    if n >= 0 {
        assert(0 <= n / 65536 <= n);
    } else {
        assert(0 <= (-n) / 65536 <= -n);
    }
}

/// Integrator: moves every particle for one time step of `dt` seconds.
pub fn apply_velocity_system(balls: &mut Vec<Ball>, dt: i64)
    requires
        0 < dt <= LIMIT,
    ensures
        final(balls)@.len() == old(balls)@.len(),
        states(final(balls)@) == moved(states(old(balls)@), dt as int),
{
    let n: usize = balls.len();
    let mut i: usize = 0;
    while i < n
        invariant
            0 < dt <= LIMIT,
            i <= n,
            balls@.len() == n,
            n == old(balls)@.len(),
            forall|k: int| 0 <= k < i ==> (#[trigger] balls@[k])@ == old(balls)@[k]@.advanced(dt as int),
            forall|k: int| i <= k < n ==> balls@[k] == old(balls)@[k],
        decreases n - i,
    {
        let mut ball: Ball = balls[i];
        ball.advance(dt);
        balls[i] = ball;
        i = i + 1;
    }
    assert(states(balls@) =~= moved(states(old(balls)@), dt as int));
}

/// Boundary wrapper: wraps every particle around the edges of a plane with the
/// given half-width and half-height.
pub fn ball_warp_system(balls: &mut Vec<Ball>, half_width: i64, half_height: i64)
    requires
        0 < half_width <= LIMIT,
        0 < half_height <= LIMIT,
    ensures
        final(balls)@.len() == old(balls)@.len(),
        states(final(balls)@) == wrapped(
            states(old(balls)@),
            half_width as int,
            half_height as int,
        ),
{
    let n: usize = balls.len();
    let mut i: usize = 0;
    while i < n
        invariant
            0 < half_width <= LIMIT,
            0 < half_height <= LIMIT,
            i <= n,
            balls@.len() == n,
            n == old(balls)@.len(),
            forall|k: int|
                0 <= k < i ==> (#[trigger] balls@[k])@ == old(balls)@[k]@.wrapped(
                    half_width as int,
                    half_height as int,
                ),
            forall|k: int| i <= k < n ==> balls@[k] == old(balls)@[k],
        decreases n - i,
    {
        let mut ball: Ball = balls[i];
        ball.wrap(half_width, half_height);
        balls[i] = ball;
        i = i + 1;
    }
    assert(states(balls@) =~= wrapped(states(old(balls)@), half_width as int, half_height as int));
}

} // verus!
