//! Narrow phase: the exact overlap test of two circles and the response to a
//! collision, which pushes the pair apart and exchanges an impulse along the
//! line of centres.

use crate::ball::{Ball, BallState, MASS_LIMIT};
use crate::fixed::{
    clamp, div_away_from_zero, div_toward_zero, divide_away_from_zero, divide_toward_zero, isqrt,
    lemma_product_bound, saturate, sqrt_floor, SCALE,
};
use vstd::prelude::*;

verus! {

/// In how many parts a coefficient of restitution is given: in hundredths.
pub const RESTITUTION_PARTS: i64 = 100;

/// A coefficient of restitution between 0 and 1, in hundredths: how much of
/// the speed at which two particles close in on each other they keep when they
/// part. With 0 they part at no speed, with 100 at the speed at which they met.
#[derive(Clone, Copy, Debug, PartialEq, Eq)]
pub struct Restitution {
    percent: u8,
}

impl View for Restitution {
    type V = int;

    closed spec fn view(&self) -> int {
        self.percent as int
    }
}

impl Restitution {
    /// What holds of every coefficient: it lies between 0 and 1.
    #[verifier::type_invariant]
    pub open spec fn well_formed(self) -> bool {
        0 <= self@ <= RESTITUTION_PARTS
    }

    /// The coefficient of `percent` hundredths, or `None` if that is more
    /// than 1.
    pub fn new(percent: u8) -> (restitution: Option<Restitution>)
        ensures
            restitution is Some <==> percent <= RESTITUTION_PARTS,
            restitution is Some ==> restitution->0@ == percent,
    {
        if percent <= 100 {
            Some(Restitution { percent })
        } else {
            None
        }
    }

    /// The coefficient in hundredths.
    pub fn percent(&self) -> (percent: u8)
        ensures
            percent == self@,
    {
        self.percent
    }
}

impl Default for Restitution {
    /// One half.
    fn default() -> (restitution: Restitution)
        ensures
            restitution@ == 50,
    {
        Restitution { percent: 50 }
    }
}

/// The square of the distance between the centres of `a` and `b`.
pub open spec fn distance_squared(a: BallState, b: BallState) -> int {
    (b.x - a.x) * (b.x - a.x) + (b.y - a.y) * (b.y - a.y)
}

/// Whether the circles of `a` and `b` overlap: the distance between their
/// centres is smaller than the sum of their radii.
pub open spec fn overlapping(a: BallState, b: BallState) -> bool {
    distance_squared(a, b) < (a.radius + b.radius) * (a.radius + b.radius)
}

/// Whether the centres of `a` and `b` coincide, so that no direction leads
/// from one to the other.
pub open spec fn coincident(a: BallState, b: BallState) -> bool {
    a.x == b.x && a.y == b.y
}

/// The distance between the centres in units of `1 / SCALE` of the raw unit,
/// rounded down, and at least the smallest positive length in that unit.
pub open spec fn fine_distance(a: BallState, b: BallState) -> int {
    let distance = sqrt_floor(distance_squared(a, b) * SCALE * SCALE);
    if distance < 1 {
        1
    } else {
        distance
    }
}

/// By how much the circles reach into each other along the line of centres,
/// in the unit of the fine distance.
pub open spec fn overlap(a: BallState, b: BallState) -> int {
    (a.radius + b.radius) * SCALE - fine_distance(a, b)
}

/// One coordinate of the correction that moves each of two overlapping
/// particles away from the other: half the overlap along the unit normal, of
/// which `displacement` is the coordinate before normalising. It is rounded
/// away from zero, so that the pair does not stay in contact by rounding.
pub open spec fn push_out(displacement: int, overlap: int, distance: int) -> int {
    div_away_from_zero(overlap * displacement, 2 * distance)
}

/// The relative velocity of `b` as seen from `a`, projected on the
/// displacement from `a` to `b`. It is positive when the two move apart.
pub open spec fn relative_motion(a: BallState, b: BallState) -> int {
    (b.vx - a.vx) * (b.x - a.x) + (b.vy - a.vy) * (b.y - a.y)
}

/// The square of the distance between the centres, and at least the smallest
/// positive value.
pub open spec fn clamped_distance_squared(a: BallState, b: BallState) -> int {
    let d2 = distance_squared(a, b);
    if d2 < 1 {
        1
    } else {
        d2
    }
}

/// One coordinate of the change of velocity that an impulse along the line of
/// centres gives to a particle, for a coefficient of restitution of
/// `e_num / e_den`. The impulse has the magnitude
/// `-(1 + e) * v / (1 / m1 + 1 / m2)`, where `v` is the relative velocity along
/// the unit normal; divided by the particle's own mass and written over the
/// displacement before normalising, this is
/// `(1 + e) * other_mass * motion * displacement / (total_mass * distance^2)`.
pub open spec fn velocity_change(
    displacement: int,
    motion: int,
    other_mass: int,
    total_mass: int,
    distance_squared: int,
    e_num: int,
    e_den: int,
) -> int {
    div_toward_zero(
        (e_den + e_num) * other_mass * motion * displacement,
        e_den * total_mass * distance_squared,
    )
}

/// The pair after the positional correction: each particle has moved away from
/// the other by half the overlap. The correction is split equally, whatever the
/// masses.
pub open spec fn separated(a: BallState, b: BallState) -> (BallState, BallState) {
    let cx = push_out(b.x - a.x, overlap(a, b), fine_distance(a, b));
    let cy = push_out(b.y - a.y, overlap(a, b), fine_distance(a, b));
    (
        BallState { x: clamp(a.x - cx), y: clamp(a.y - cy), ..a },
        BallState { x: clamp(b.x + cx), y: clamp(b.y + cy), ..b },
    )
}

/// The velocities of the pair after the exchange of an impulse, for a
/// coefficient of restitution of `e_num / e_den`. A pair that is already moving
/// apart keeps its velocities.
pub open spec fn rebound_velocities(a: BallState, b: BallState, e_num: int, e_den: int) -> (
    (int, int),
    (int, int),
) {
    let motion = relative_motion(a, b);
    let total = a.mass + b.mass;
    let d2 = clamped_distance_squared(a, b);
    if motion > 0 {
        ((a.vx, a.vy), (b.vx, b.vy))
    } else {
        (
            (
                a.vx + velocity_change(b.x - a.x, motion, b.mass, total, d2, e_num, e_den),
                a.vy + velocity_change(b.y - a.y, motion, b.mass, total, d2, e_num, e_den),
            ),
            (
                b.vx - velocity_change(b.x - a.x, motion, a.mass, total, d2, e_num, e_den),
                b.vy - velocity_change(b.y - a.y, motion, a.mass, total, d2, e_num, e_den),
            ),
        )
    }
}

/// The pair after the response to a collision, for a coefficient of
/// restitution of `e_num / e_den`: positions corrected, velocities changed by
/// the impulse, every quantity saturated to its range.
pub open spec fn resolved_with(a: BallState, b: BallState, e_num: int, e_den: int) -> (
    BallState,
    BallState,
) {
    let (moved_a, moved_b) = separated(a, b);
    let (va, vb) = rebound_velocities(a, b, e_num, e_den);
    (
        BallState { vx: clamp(va.0), vy: clamp(va.1), ..moved_a },
        BallState { vx: clamp(vb.0), vy: clamp(vb.1), ..moved_b },
    )
}

/// The pair after the response to a collision, for a coefficient of
/// restitution of `percent` hundredths.
pub open spec fn resolved(a: BallState, b: BallState, percent: int) -> (BallState, BallState) {
    resolved_with(a, b, percent, RESTITUTION_PARTS as int)
}

/// What the narrow phase makes of a candidate pair: a pair that does not
/// overlap is left as it is, an overlapping pair is resolved.
pub open spec fn collided(a: BallState, b: BallState, percent: int) -> (BallState, BallState) {
    if overlapping(a, b) {
        resolved(a, b, percent)
    } else {
        (a, b)
    }
}

/// What the narrow phase found of a candidate pair.
#[derive(Clone, Copy, Debug, PartialEq, Eq, Structural)]
pub enum Contact {
    /// The circles do not overlap; nothing was changed.
    Apart,
    /// The circles overlapped and the collision was resolved.
    Resolved,
    /// The circles overlapped with coincident centres: no normal exists, the
    /// distance was clamped and the pair was left in place.
    Degenerate,
}

/// The contact that the narrow phase reports for a pair.
pub open spec fn contact_of(a: BallState, b: BallState) -> Contact {
    if !overlapping(a, b) {
        Contact::Apart
    } else if coincident(a, b) {
        Contact::Degenerate
    } else {
        Contact::Resolved
    }
}

/// A quotient rounded away from zero is no larger in magnitude than the
/// dividend.
proof fn lemma_div_away_from_zero_bound(n: int, d: int, bound: int)
    requires
        d > 0,
        -bound <= n <= bound,
    ensures
        -bound <= div_away_from_zero(n, d) <= bound,
{
    if n >= 0 {
        assert(0 <= (n + d - 1) / d <= n) by (nonlinear_arith)
            requires
                d > 0,
                n >= 0,
        ;
    } else {
        let m = -n;
        assert(0 <= (m + d - 1) / d <= m) by (nonlinear_arith)
            requires
                d > 0,
                m >= 0,
        ;
    }
}

/// A quotient rounded toward zero is no larger in magnitude than the dividend.
proof fn lemma_div_toward_zero_bound(n: int, d: int, bound: int)
    requires
        d > 0,
        -bound <= n <= bound,
    ensures
        -bound <= div_toward_zero(n, d) <= bound,
{
    if n >= 0 {
        assert(0 <= n / d <= n) by (nonlinear_arith)
            requires
                d > 0,
                n >= 0,
        ;
    } else {
        let m = -n;
        assert(0 <= m / d <= m) by (nonlinear_arith)
            requires
                d > 0,
                m >= 0,
        ;
    }
}

/// The square of the distance between two valid particles fits in 64 bits.
proof fn lemma_distance_squared_bound(a: BallState, b: BallState)
    requires
        a.valid(),
        b.valid(),
    ensures
        0 <= distance_squared(a, b) <= 0x8000_0000_0000_0000,
        0 < (a.radius + b.radius) * (a.radius + b.radius) <= 0x4000_0000_0000_0000,
{
    let dx = b.x - a.x;
    let dy = b.y - a.y;
    let r = a.radius + b.radius;
    lemma_product_bound(dx, dx, 0x8000_0000, 0x8000_0000);
    lemma_product_bound(dy, dy, 0x8000_0000, 0x8000_0000);
    lemma_product_bound(r, r, 0x8000_0000, 0x8000_0000);
    assert(dx * dx >= 0) by (nonlinear_arith);
    assert(dy * dy >= 0) by (nonlinear_arith);
    assert(r * r > 0) by (nonlinear_arith)
        requires
            r > 0,
    ;
}

/// The exact overlap test of two circles.
pub fn overlaps(a: &Ball, b: &Ball) -> (hit: bool)
    ensures
        hit == overlapping(a@, b@),
{
    proof {
        use_type_invariant(a);
        use_type_invariant(b);
        lemma_distance_squared_bound(a@, b@);
        lemma_product_bound(b@.x - a@.x, b@.x - a@.x, 0x8000_0000, 0x8000_0000);
        lemma_product_bound(b@.y - a@.y, b@.y - a@.y, 0x8000_0000, 0x8000_0000);
    }
    let dx: i128 = b.position().x as i128 - a.position().x as i128;
    let dy: i128 = b.position().y as i128 - a.position().y as i128;
    let reach: i128 = a.radius() as i128 + b.radius() as i128;
    dx * dx + dy * dy < reach * reach
}

/// Resolves the collision of an overlapping pair: moves each particle away
/// from the other by half the overlap and, unless the pair is already moving
/// apart, changes the velocities by an impulse along the line of centres, for
/// the given coefficient of restitution. Returns whether the centres coincided, in which case the distance was
/// clamped to the smallest positive length and the pair stays in place.
pub fn perform_collision(a: &mut Ball, b: &mut Ball, restitution: Restitution) -> (degenerate: bool)
    requires
        overlapping(old(a)@, old(b)@),
    ensures
        (final(a)@, final(b)@) == resolved(old(a)@, old(b)@, restitution@),
        degenerate == coincident(old(a)@, old(b)@),
{
    let ghost sa = a@;
    let ghost sb = b@;
    proof {
        use_type_invariant(&*a);
        use_type_invariant(&*b);
        use_type_invariant(&restitution);
        lemma_distance_squared_bound(sa, sb);
    }
    let dx: i128 = b.position().x as i128 - a.position().x as i128;
    let dy: i128 = b.position().y as i128 - a.position().y as i128;
    let reach: i128 = a.radius() as i128 + b.radius() as i128;
    proof {
        lemma_product_bound(dx as int, dx as int, 0x8000_0000, 0x8000_0000);
        lemma_product_bound(dy as int, dy as int, 0x8000_0000, 0x8000_0000);
    }
    let d2: i128 = dx * dx + dy * dy;
    let scale: i128 = SCALE as i128;
    assert(d2 * scale * scale == d2 * 0x1_0000_0000) by (nonlinear_arith)
        requires
            scale == 65536,
    ;
    let root: u128 = isqrt((d2 * scale * scale) as u128);
    assert(root < 0x1_0000_0000_0000) by (nonlinear_arith)
        requires
            root * root <= d2 * 0x1_0000_0000,
            d2 <= 0x8000_0000_0000_0000,
    ;
    let distance: i128 = if root < 1 {
        1
    } else {
        root as i128
    };
    assert(distance == fine_distance(sa, sb));
    let depth: i128 = reach * scale - distance;
    assert(depth == overlap(sa, sb));

    // Positional correction.
    proof {
        lemma_product_bound(depth as int, dx as int, 0x2_0000_0000_0000, 0x8000_0000);
        lemma_product_bound(depth as int, dy as int, 0x2_0000_0000_0000, 0x8000_0000);
        lemma_div_away_from_zero_bound(
            depth * dx,
            2 * distance,
            0x2_0000_0000_0000int * 0x8000_0000int,
        );
        lemma_div_away_from_zero_bound(
            depth * dy,
            2 * distance,
            0x2_0000_0000_0000int * 0x8000_0000int,
        );
    }
    let cx: i128 = divide_away_from_zero(depth * dx, 2 * distance);
    let cy: i128 = divide_away_from_zero(depth * dy, 2 * distance);
    let ax: i64 = saturate(a.position().x as i128 - cx);
    let ay: i64 = saturate(a.position().y as i128 - cy);
    let bx: i64 = saturate(b.position().x as i128 + cx);
    let by: i64 = saturate(b.position().y as i128 + cy);

    // Velocity response.
    let dvx: i128 = b.velocity().0.x as i128 - a.velocity().0.x as i128;
    let dvy: i128 = b.velocity().0.y as i128 - a.velocity().0.y as i128;
    proof {
        lemma_product_bound(dvx as int, dx as int, 0x8000_0000, 0x8000_0000);
        lemma_product_bound(dvy as int, dy as int, 0x8000_0000, 0x8000_0000);
    }
    let motion: i128 = dvx * dx + dvy * dy;
    assert(motion == relative_motion(sa, sb));
    let mut avx: i64 = a.velocity().0.x;
    let mut avy: i64 = a.velocity().0.y;
    let mut bvx: i64 = b.velocity().0.x;
    let mut bvy: i64 = b.velocity().0.y;
    if motion <= 0 {
        let mass_a: i128 = a.mass().0 as i128;
        let mass_b: i128 = b.mass().0 as i128;
        let total: i128 = mass_a + mass_b;
        let d2_clamped: i128 = if d2 < 1 {
            1
        } else {
            d2
        };
        let parts: i128 = RESTITUTION_PARTS as i128;
        let factor: i128 = parts + restitution.percent() as i128;
        proof {
            lemma_product_bound(parts * total, d2_clamped as int, 0x1_9000_0000, 0x8000_0000_0000_0000);
            assert(parts * total * d2_clamped > 0) by (nonlinear_arith)
                requires
                    total > 0,
                    d2_clamped > 0,
                    parts == 100,
            ;
        }
        let denominator: i128 = parts * total * d2_clamped;
        proof {
            lemma_product_bound(factor as int, mass_a as int, 200, MASS_LIMIT as int);
            lemma_product_bound(factor as int, mass_b as int, 200, MASS_LIMIT as int);
            lemma_product_bound(factor * mass_a, motion as int, 0x1_9000_0000, 0x8000_0000_0000_0000);
            lemma_product_bound(factor * mass_b, motion as int, 0x1_9000_0000, 0x8000_0000_0000_0000);
            lemma_product_bound(
                factor * mass_a * motion,
                dx as int,
                0x1_9000_0000int * 0x8000_0000_0000_0000int,
                0x8000_0000,
            );
            lemma_product_bound(
                factor * mass_a * motion,
                dy as int,
                0x1_9000_0000int * 0x8000_0000_0000_0000int,
                0x8000_0000,
            );
            lemma_product_bound(
                factor * mass_b * motion,
                dx as int,
                0x1_9000_0000int * 0x8000_0000_0000_0000int,
                0x8000_0000,
            );
            lemma_product_bound(
                factor * mass_b * motion,
                dy as int,
                0x1_9000_0000int * 0x8000_0000_0000_0000int,
                0x8000_0000,
            );
            let top = 0x1_9000_0000int * 0x8000_0000_0000_0000int * 0x8000_0000int;
            lemma_div_toward_zero_bound(factor * mass_b * motion * dx, denominator as int, top);
            lemma_div_toward_zero_bound(factor * mass_b * motion * dy, denominator as int, top);
            lemma_div_toward_zero_bound(factor * mass_a * motion * dx, denominator as int, top);
            lemma_div_toward_zero_bound(factor * mass_a * motion * dy, denominator as int, top);
        }
        let change_ax: i128 = divide_toward_zero(factor * mass_b * motion * dx, denominator);
        let change_ay: i128 = divide_toward_zero(factor * mass_b * motion * dy, denominator);
        let change_bx: i128 = divide_toward_zero(factor * mass_a * motion * dx, denominator);
        let change_by: i128 = divide_toward_zero(factor * mass_a * motion * dy, denominator);
        avx = saturate(avx as i128 + change_ax);
        avy = saturate(avy as i128 + change_ay);
        bvx = saturate(bvx as i128 - change_bx);
        bvy = saturate(bvy as i128 - change_by);
    }
    a.set_position(ax, ay);
    a.set_velocity(avx, avy);
    b.set_position(bx, by);
    b.set_velocity(bvx, bvy);
    assert(d2 == 0 <==> dx == 0 && dy == 0) by (nonlinear_arith)
        requires
            d2 == dx * dx + dy * dy,
    ;
    d2 == 0
}

/// Narrow phase for one candidate pair: tests the circles exactly and resolves
/// the collision if they overlap. A pair that does not overlap is not touched.
pub fn collide(a: &mut Ball, b: &mut Ball, restitution: Restitution) -> (contact: Contact)
    ensures
        (final(a)@, final(b)@) == collided(old(a)@, old(b)@, restitution@),
        contact == contact_of(old(a)@, old(b)@),
        !overlapping(old(a)@, old(b)@) ==> final(a)@ == old(a)@ && final(b)@ == old(b)@,
{
    if overlaps(a, b) {
        if perform_collision(a, b, restitution) {
            Contact::Degenerate
        } else {
            Contact::Resolved
        }
    } else {
        Contact::Apart
    }
}

} // verus!
