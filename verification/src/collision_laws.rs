//! What the response to a collision guarantees: the pair is separated, its
//! momentum is kept, and the order in which the two particles are named does
//! not matter.

use crate::ball::BallState;
use crate::fixed::{
    div_away_from_zero, div_toward_zero, in_range, is_sqrt_floor, lemma_div_away_from_zero_covers,
    lemma_div_away_from_zero_odd, lemma_div_toward_zero_odd, lemma_div_toward_zero_remainder,
    lemma_sqrt_floor_exists, sqrt_floor, SCALE,
};
use crate::narrow_phase::{
    clamped_distance_squared, coincident, collided, contact_of, distance_squared, fine_distance,
    overlap, overlapping, push_out, rebound_velocities, relative_motion, resolved_with,
    velocity_change, RESTITUTION_PARTS,
};
use vstd::prelude::*;

verus! {

/// Whether the positional correction of the pair stays within the range of
/// stored quantities, so that no coordinate is saturated.
pub open spec fn separation_in_range(a: BallState, b: BallState) -> bool {
    let cx = push_out(b.x - a.x, overlap(a, b), fine_distance(a, b));
    let cy = push_out(b.y - a.y, overlap(a, b), fine_distance(a, b));
    in_range(a.x - cx) && in_range(a.y - cy) && in_range(b.x + cx) && in_range(b.y + cy)
}

/// Whether the velocities after the exchange of an impulse stay within the
/// range of stored quantities, so that no component is saturated.
pub open spec fn rebound_in_range(a: BallState, b: BallState, e_num: int, e_den: int) -> bool {
    let (va, vb) = rebound_velocities(a, b, e_num, e_den);
    in_range(va.0) && in_range(va.1) && in_range(vb.0) && in_range(vb.1)
}

/// The x-component of the total momentum of a pair.
pub open spec fn momentum_x(a: BallState, b: BallState) -> int {
    a.mass * a.vx + b.mass * b.vx
}

/// The y-component of the total momentum of a pair.
pub open spec fn momentum_y(a: BallState, b: BallState) -> int {
    a.mass * a.vy + b.mass * b.vy
}

/// The larger of two masses.
pub open spec fn larger_mass(a: BallState, b: BallState) -> int {
    if a.mass >= b.mass {
        a.mass
    } else {
        b.mass
    }
}

/// Along one axis, a displacement `d` that is stretched by twice the
/// correction `c` reaches at least `reach / distance` times its length.
proof fn lemma_stretched(d: int, c: int, depth: int, distance: int, reach: int)
    requires
        distance > 0,
        reach == distance + depth,
        c == div_away_from_zero(depth * d, 2 * distance),
        depth > 0,
    ensures
        (distance * (d + 2 * c)) * (distance * (d + 2 * c)) >= (reach * d) * (reach * d),
{
    lemma_div_away_from_zero_covers(depth * d, 2 * distance);
    let stretched = distance * (d + 2 * c);
    let target = reach * d;
    assert(stretched == distance * d + c * (2 * distance)) by (nonlinear_arith)
        requires
            stretched == distance * (d + 2 * c),
    ;
    assert(target == distance * d + depth * d) by (nonlinear_arith)
        requires
            target == reach * d,
            reach == distance + depth,
    ;
    if d >= 0 {
        assert(depth * d >= 0) by (nonlinear_arith)
            requires
                depth > 0,
                d >= 0,
        ;
        assert(target >= 0) by (nonlinear_arith)
            requires
                target == reach * d,
                reach > 0,
                d >= 0,
        ;
        assert(stretched >= target);
        assert(stretched * stretched >= target * target) by (nonlinear_arith)
            requires
                stretched >= target,
                target >= 0,
        ;
    } else {
        assert(depth * d <= 0) by (nonlinear_arith)
            requires
                depth > 0,
                d < 0,
        ;
        assert(target <= 0) by (nonlinear_arith)
            requires
                target == reach * d,
                reach > 0,
                d < 0,
        ;
        assert(stretched <= target);
        assert(stretched * stretched >= target * target) by (nonlinear_arith)
            requires
                stretched <= target,
                target <= 0,
        ;
    }
}

/// After the response to the collision of an overlapping pair whose centres
/// do not coincide, the circles no longer overlap, whatever the coefficient of
/// restitution, provided that no coordinate had to be saturated.
pub proof fn lemma_resolution_separates(a: BallState, b: BallState, e_num: int, e_den: int)
    requires
        a.valid(),
        b.valid(),
        overlapping(a, b),
        !coincident(a, b),
        separation_in_range(a, b),
    ensures
        !overlapping(resolved_with(a, b, e_num, e_den).0, resolved_with(a, b, e_num, e_den).1),
        distance_squared(resolved_with(a, b, e_num, e_den).0, resolved_with(a, b, e_num, e_den).1)
            >= (a.radius + b.radius) * (a.radius + b.radius),
{
    let dx = b.x - a.x;
    let dy = b.y - a.y;
    let d2 = distance_squared(a, b);
    let fine = d2 * SCALE * SCALE;
    let root = sqrt_floor(fine);
    let radii = a.radius + b.radius;
    let reach = radii * SCALE;
    assert(d2 >= 1) by (nonlinear_arith)
        requires
            d2 == dx * dx + dy * dy,
            dx != 0 || dy != 0,
    ;
    assert(fine == d2 * 0x1_0000_0000) by (nonlinear_arith)
        requires
            fine == d2 * SCALE * SCALE,
            SCALE == 65536,
    ;
    assert(is_sqrt_floor(fine, root)) by {
        lemma_sqrt_floor_exists(fine);
    }
    assert(root >= 1) by (nonlinear_arith)
        requires
            0 <= root,
            fine < (root + 1) * (root + 1),
            fine >= 1,
    ;
    let distance = fine_distance(a, b);
    assert(distance == root);
    let depth = overlap(a, b);
    assert(reach * reach == (radii * radii) * 0x1_0000_0000) by (nonlinear_arith)
        requires
            reach == radii * SCALE,
            SCALE == 65536,
    ;
    assert(depth > 0) by (nonlinear_arith)
        requires
            depth == reach - root,
            root >= 1,
            reach > 0,
            root * root <= fine,
            fine == d2 * 0x1_0000_0000,
            reach * reach == (radii * radii) * 0x1_0000_0000,
            d2 < radii * radii,
    ;
    let cx = push_out(dx, depth, distance);
    let cy = push_out(dy, depth, distance);
    lemma_stretched(dx, cx, depth, distance, reach);
    lemma_stretched(dy, cy, depth, distance, reach);
    let nx = dx + 2 * cx;
    let ny = dy + 2 * cy;
    let (ra, rb) = resolved_with(a, b, e_num, e_den);
    assert(rb.x - ra.x == nx);
    assert(rb.y - ra.y == ny);
    assert(distance_squared(ra, rb) == nx * nx + ny * ny);
    let s2 = distance * distance;
    let r2 = reach * reach;
    let q = nx * nx + ny * ny;
    assert((distance * nx) * (distance * nx) == s2 * (nx * nx)) by (nonlinear_arith)
        requires
            s2 == distance * distance,
    ;
    assert((distance * ny) * (distance * ny) == s2 * (ny * ny)) by (nonlinear_arith)
        requires
            s2 == distance * distance,
    ;
    assert((reach * dx) * (reach * dx) == r2 * (dx * dx)) by (nonlinear_arith)
        requires
            r2 == reach * reach,
    ;
    assert((reach * dy) * (reach * dy) == r2 * (dy * dy)) by (nonlinear_arith)
        requires
            r2 == reach * reach,
    ;
    assert(s2 * q == s2 * (nx * nx) + s2 * (ny * ny)) by (nonlinear_arith)
        requires
            q == nx * nx + ny * ny,
    ;
    assert(r2 * d2 == r2 * (dx * dx) + r2 * (dy * dy)) by (nonlinear_arith)
        requires
            d2 == dx * dx + dy * dy,
    ;
    assert(s2 * q >= r2 * d2);
    assert(r2 * d2 == (radii * radii) * fine) by (nonlinear_arith)
        requires
            r2 == (radii * radii) * 0x1_0000_0000,
            fine == d2 * 0x1_0000_0000,
    ;
    assert((radii * radii) * fine >= (radii * radii) * s2) by (nonlinear_arith)
        requires
            fine >= s2,
    ;
    assert(q >= radii * radii) by (nonlinear_arith)
        requires
            s2 * q >= (radii * radii) * s2,
            s2 == distance * distance,
            distance >= 1,
    ;
}

/// The impulses that two particles receive balance up to rounding: the two
/// changes of velocity, each weighted with its particle's mass, differ by less
/// than the larger mass, and not at all when the masses are equal.
proof fn lemma_impulse_balance(
    mass_a: int,
    mass_b: int,
    shared: int,
    divisor: int,
    change_a: int,
    change_b: int,
)
    requires
        mass_a > 0,
        mass_b > 0,
        divisor > 0,
        change_a == div_toward_zero(mass_b * shared, divisor),
        change_b == div_toward_zero(mass_a * shared, divisor),
    ensures
        -mass_a < mass_a * change_a - mass_b * change_b < mass_a || -mass_b < mass_a * change_a
            - mass_b * change_b < mass_b,
        mass_a == mass_b ==> mass_a * change_a - mass_b * change_b == 0,
{
    let na = mass_b * shared;
    let nb = mass_a * shared;
    lemma_div_toward_zero_remainder(na, divisor);
    lemma_div_toward_zero_remainder(nb, divisor);
    let rest_a = na - change_a * divisor;
    let rest_b = nb - change_b * divisor;
    let drift = mass_a * change_a - mass_b * change_b;
    assert(divisor * drift == mass_b * rest_b - mass_a * rest_a) by (nonlinear_arith)
        requires
            na == mass_b * shared,
            nb == mass_a * shared,
            rest_a == na - change_a * divisor,
            rest_b == nb - change_b * divisor,
            drift == mass_a * change_a - mass_b * change_b,
    ;
    if shared >= 0 {
        assert(na >= 0 && nb >= 0) by (nonlinear_arith)
            requires
                na == mass_b * shared,
                nb == mass_a * shared,
                mass_a > 0,
                mass_b > 0,
                shared >= 0,
        ;
        assert(-mass_a < drift < mass_b) by (nonlinear_arith)
            requires
                divisor * drift == mass_b * rest_b - mass_a * rest_a,
                0 <= rest_a < divisor,
                0 <= rest_b < divisor,
                mass_a > 0,
                mass_b > 0,
                divisor > 0,
        ;
    } else {
        assert(na <= 0 && nb <= 0) by (nonlinear_arith)
            requires
                na == mass_b * shared,
                nb == mass_a * shared,
                mass_a > 0,
                mass_b > 0,
                shared < 0,
        ;
        assert(-mass_b < drift < mass_a) by (nonlinear_arith)
            requires
                divisor * drift == mass_b * rest_b - mass_a * rest_a,
                -divisor < rest_a <= 0,
                -divisor < rest_b <= 0,
                mass_a > 0,
                mass_b > 0,
                divisor > 0,
        ;
    }
}

/// The momentum that one axis of a collision response adds to the pair is
/// smaller in magnitude than the larger mass.
proof fn lemma_axis_balance(
    displacement: int,
    motion: int,
    mass_a: int,
    mass_b: int,
    d2: int,
    e_num: int,
    e_den: int,
)
    requires
        mass_a > 0,
        mass_b > 0,
        d2 > 0,
        e_num >= 0,
        e_den > 0,
    ensures
        ({
            let total = mass_a + mass_b;
            let drift = mass_a * velocity_change(displacement, motion, mass_b, total, d2, e_num, e_den)
                - mass_b * velocity_change(displacement, motion, mass_a, total, d2, e_num, e_den);
            &&& -mass_a < drift < mass_a || -mass_b < drift < mass_b
            &&& mass_a == mass_b ==> drift == 0
        }),
{
    let total = mass_a + mass_b;
    let factor = e_den + e_num;
    let shared = factor * motion * displacement;
    let divisor = e_den * total * d2;
    assert(divisor > 0) by (nonlinear_arith)
        requires
            divisor == e_den * total * d2,
            e_den > 0,
            total > 0,
            d2 > 0,
    ;
    assert(factor * mass_b * motion * displacement == mass_b * shared) by (nonlinear_arith)
        requires
            shared == factor * motion * displacement,
    ;
    assert(factor * mass_a * motion * displacement == mass_a * shared) by (nonlinear_arith)
        requires
            shared == factor * motion * displacement,
    ;
    lemma_impulse_balance(
        mass_a,
        mass_b,
        shared,
        divisor,
        velocity_change(displacement, motion, mass_b, total, d2, e_num, e_den),
        velocity_change(displacement, motion, mass_a, total, d2, e_num, e_den),
    );
}

/// The response to a collision conserves the momentum of the pair up to
/// rounding: for any coefficient of restitution, it changes each component of
/// the total momentum by less than the larger of the two masses, which is the
/// rounding of one velocity step, and leaves it exactly as it was when the
/// masses are equal; provided that no velocity had to be saturated.
pub proof fn lemma_momentum_conserved(a: BallState, b: BallState, e_num: int, e_den: int)
    requires
        a.valid(),
        b.valid(),
        e_num >= 0,
        e_den > 0,
        rebound_in_range(a, b, e_num, e_den),
    ensures
        ({
            let (ra, rb) = resolved_with(a, b, e_num, e_den);
            let drift_x = momentum_x(ra, rb) - momentum_x(a, b);
            let drift_y = momentum_y(ra, rb) - momentum_y(a, b);
            &&& -larger_mass(a, b) < drift_x < larger_mass(a, b)
            &&& -larger_mass(a, b) < drift_y < larger_mass(a, b)
            &&& a.mass == b.mass ==> drift_x == 0 && drift_y == 0
        }),
{
    let (ra, rb) = resolved_with(a, b, e_num, e_den);
    let motion = relative_motion(a, b);
    let total = a.mass + b.mass;
    let d2 = clamped_distance_squared(a, b);
    if motion > 0 {
        assert(ra.vx == a.vx && rb.vx == b.vx && ra.vy == a.vy && rb.vy == b.vy);
    } else {
        let ax = velocity_change(b.x - a.x, motion, b.mass, total, d2, e_num, e_den);
        let bx = velocity_change(b.x - a.x, motion, a.mass, total, d2, e_num, e_den);
        let ay = velocity_change(b.y - a.y, motion, b.mass, total, d2, e_num, e_den);
        let by = velocity_change(b.y - a.y, motion, a.mass, total, d2, e_num, e_den);
        lemma_axis_balance(b.x - a.x, motion, a.mass, b.mass, d2, e_num, e_den);
        lemma_axis_balance(b.y - a.y, motion, a.mass, b.mass, d2, e_num, e_den);
        assert(ra.vx == a.vx + ax && rb.vx == b.vx - bx);
        assert(ra.vy == a.vy + ay && rb.vy == b.vy - by);
        assert(momentum_x(ra, rb) - momentum_x(a, b) == a.mass * ax - b.mass * bx)
            by (nonlinear_arith)
            requires
                ra.mass == a.mass,
                rb.mass == b.mass,
                ra.vx == a.vx + ax,
                rb.vx == b.vx - bx,
                momentum_x(ra, rb) == ra.mass * ra.vx + rb.mass * rb.vx,
                momentum_x(a, b) == a.mass * a.vx + b.mass * b.vx,
        ;
        assert(momentum_y(ra, rb) - momentum_y(a, b) == a.mass * ay - b.mass * by)
            by (nonlinear_arith)
            requires
                ra.mass == a.mass,
                rb.mass == b.mass,
                ra.vy == a.vy + ay,
                rb.vy == b.vy - by,
                momentum_y(ra, rb) == ra.mass * ra.vy + rb.mass * rb.vy,
                momentum_y(a, b) == a.mass * a.vy + b.mass * b.vy,
        ;
    }
}

/// Whether two circles overlap does not depend on the order in which they are
/// named.
pub proof fn lemma_overlapping_symmetric(a: BallState, b: BallState)
    ensures
        overlapping(a, b) == overlapping(b, a),
        coincident(a, b) == coincident(b, a),
{
    assert(distance_squared(a, b) == distance_squared(b, a)) by (nonlinear_arith)
        requires
            distance_squared(a, b) == (b.x - a.x) * (b.x - a.x) + (b.y - a.y) * (b.y - a.y),
            distance_squared(b, a) == (a.x - b.x) * (a.x - b.x) + (a.y - b.y) * (a.y - b.y),
    ;
    assert((a.radius + b.radius) * (a.radius + b.radius) == (b.radius + a.radius) * (b.radius
        + a.radius));
}

/// Negating the displacement negates the correction.
proof fn lemma_push_out_odd(displacement: int, depth: int, distance: int)
    requires
        distance > 0,
    ensures
        push_out(-displacement, depth, distance) == -push_out(displacement, depth, distance),
{
    assert(depth * (-displacement) == -(depth * displacement)) by (nonlinear_arith);
    lemma_div_away_from_zero_odd(depth * displacement, 2 * distance);
}

/// Negating the displacement negates the change of velocity.
proof fn lemma_velocity_change_odd(
    displacement: int,
    motion: int,
    other_mass: int,
    total_mass: int,
    d2: int,
    e_num: int,
    e_den: int,
)
    requires
        total_mass > 0,
        d2 > 0,
        e_den > 0,
    ensures
        velocity_change(-displacement, motion, other_mass, total_mass, d2, e_num, e_den)
            == -velocity_change(displacement, motion, other_mass, total_mass, d2, e_num, e_den),
{
    let scaled = (e_den + e_num) * other_mass * motion;
    assert(scaled * (-displacement) == -(scaled * displacement)) by (nonlinear_arith);
    assert(e_den * total_mass * d2 > 0) by (nonlinear_arith)
        requires
            total_mass > 0,
            d2 > 0,
            e_den > 0,
    ;
    lemma_div_toward_zero_odd(scaled * displacement, e_den * total_mass * d2);
}

/// The response to a collision does not depend on the order in which the two
/// particles of a pair are named, whatever the coefficient of restitution:
/// named the other way round, each particle ends up in the same state.
pub proof fn lemma_resolution_symmetric(a: BallState, b: BallState, e_num: int, e_den: int)
    requires
        a.valid(),
        b.valid(),
        e_num >= 0,
        e_den > 0,
    ensures
        resolved_with(b, a, e_num, e_den) == (
            resolved_with(a, b, e_num, e_den).1,
            resolved_with(a, b, e_num, e_den).0,
        ),
{
    let dx = b.x - a.x;
    let dy = b.y - a.y;
    assert(distance_squared(b, a) == distance_squared(a, b)) by (nonlinear_arith)
        requires
            distance_squared(a, b) == (b.x - a.x) * (b.x - a.x) + (b.y - a.y) * (b.y - a.y),
            distance_squared(b, a) == (a.x - b.x) * (a.x - b.x) + (a.y - b.y) * (a.y - b.y),
    ;
    assert(relative_motion(b, a) == relative_motion(a, b)) by (nonlinear_arith)
        requires
            relative_motion(a, b) == (b.vx - a.vx) * (b.x - a.x) + (b.vy - a.vy) * (b.y - a.y),
            relative_motion(b, a) == (a.vx - b.vx) * (a.x - b.x) + (a.vy - b.vy) * (a.y - b.y),
    ;
    let distance = fine_distance(a, b);
    let depth = overlap(a, b);
    let motion = relative_motion(a, b);
    let total = a.mass + b.mass;
    let d2 = clamped_distance_squared(a, b);
    assert(fine_distance(b, a) == distance);
    assert(overlap(b, a) == depth);
    assert(clamped_distance_squared(b, a) == d2);
    assert(a.x - b.x == -dx && a.y - b.y == -dy);
    lemma_push_out_odd(dx, depth, distance);
    lemma_push_out_odd(dy, depth, distance);
    lemma_velocity_change_odd(dx, motion, a.mass, total, d2, e_num, e_den);
    lemma_velocity_change_odd(dx, motion, b.mass, total, d2, e_num, e_den);
    lemma_velocity_change_odd(dy, motion, a.mass, total, d2, e_num, e_den);
    lemma_velocity_change_odd(dy, motion, b.mass, total, d2, e_num, e_den);
}

/// The narrow phase does not depend on the order in which the two particles
/// of a pair are named: named the other way round, each particle ends up in
/// the same state, and the same contact is reported.
pub proof fn lemma_collision_symmetric(a: BallState, b: BallState, percent: int)
    requires
        a.valid(),
        b.valid(),
        0 <= percent,
    ensures
        collided(b, a, percent) == (collided(a, b, percent).1, collided(a, b, percent).0),
        contact_of(b, a) == contact_of(a, b),
{
    lemma_resolution_symmetric(a, b, percent, RESTITUTION_PARTS as int);
    lemma_overlapping_symmetric(a, b);
}

/// The narrow phase leaves a pair that does not overlap exactly as it found
/// it, velocities included.
pub proof fn lemma_apart_untouched(a: BallState, b: BallState, percent: int)
    requires
        !overlapping(a, b),
    ensures
        collided(a, b, percent) == (a, b),
{
}

} // verus!
