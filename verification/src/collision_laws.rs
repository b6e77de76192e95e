//! What holds of a collision pass: which bodies it leaves alone, and where it
//! leaves two bodies that overlap.

use vstd::prelude::*;
use crate::body::Body;
use crate::collision::fine_distance;
use crate::collision::gap_squared;
use crate::collision::half_push;
use crate::collision::lemma_fine_distance;
use crate::collision::lemma_half_push_within_depth;
use crate::collision::lemma_push_bounded;
use crate::collision::moved_only;
use crate::collision::overlapping;
use crate::collision::push_sum_x;
use crate::collision::push_sum_y;
use crate::collision::push_x;
use crate::collision::push_y;
use crate::collision::reach;
use crate::collision::resolved;
use crate::collision::resolved_body;
use crate::collision::separated;
use crate::fixed::is_ceil_sqrt;
use crate::fixed::lemma_ceil_sqrt_unique;
use crate::fixed::lemma_div_toward_zero_bounds;
use crate::fixed::lemma_div_toward_zero_odd;
use crate::fixed::lemma_square_strictly_monotone;
use crate::fixed::FINE;
use vstd::arithmetic::div_mod::lemma_fundamental_div_mod_converse;
use vstd::math::abs;

verus! {

/// Raw steps by which a pair alone may fall short of touching after one
/// pass, at most, for want of finer arithmetic.
pub const TOUCH_SLACK: i64 = 11;

/// Whether the centre of the body can be moved by `margin` along either axis
/// without leaving the 64-bit range.
pub open spec fn has_room(a: Body, margin: int) -> bool {
    &&& i64::MIN <= a.position.x - margin
    &&& a.position.x + margin <= i64::MAX
    &&& i64::MIN <= a.position.y - margin
    &&& a.position.y + margin <= i64::MAX
}

/// Whether no two distinct bodies of the collection overlap.
pub open spec fn all_apart(bodies: Seq<Body>) -> bool {
    forall|i: int, k: int|
        0 <= i < bodies.len() && 0 <= k < bodies.len() && i != k ==> !overlapping(
            #[trigger] bodies[i],
            #[trigger] bodies[k],
        )
}

/// A pass keeps the number of bodies, and of each body everything but its
/// position: radius, previous position and pending acceleration.
pub proof fn lemma_resolved_moves_only(bodies: Seq<Body>)
    ensures
        resolved(bodies).len() == bodies.len(),
        forall|i: int| 0 <= i < bodies.len() ==> moved_only(bodies[i], #[trigger] resolved(bodies)[i]),
{
}

/// A body that overlaps none of the others is not asked to move.
pub proof fn lemma_push_sum_apart(a: Body, others: Seq<Body>, own: int, k: nat)
    requires
        k <= others.len(),
        forall|j: int| 0 <= j < k && j != own ==> !overlapping(a, #[trigger] others[j]),
    ensures
        push_sum_x(a, others, own, k) == 0,
        push_sum_y(a, others, own, k) == 0,
    decreases k,
{
    if k > 0 {
        lemma_push_sum_apart(a, others, own, (k - 1) as nat);
    }
}

/// A pass over a collection in which no two bodies overlap moves nothing.
pub proof fn lemma_resolved_apart(bodies: Seq<Body>)
    requires
        all_apart(bodies),
    ensures
        resolved(bodies) == bodies,
{
    assert forall|i: int| 0 <= i < bodies.len() implies resolved_body(bodies, i) == bodies[i] by {
        lemma_push_sum_apart(bodies[i], bodies, i, bodies.len());
    }
    assert(resolved(bodies) =~= bodies);
}

/// A body alone in its collection is never moved by a pass: it is not held
/// against itself.
pub proof fn lemma_single_body_unmoved(b: Body)
    ensures
        resolved(seq![b]) == seq![b],
{
    lemma_resolved_apart(seq![b]);
}

/// What a pass does to two bodies: each is moved away from the other as the
/// other stood before the pass. Should their centres coincide, the first
/// goes left and the second right.
pub proof fn lemma_resolved_pair(a: Body, b: Body)
    ensures
        resolved(seq![a, b]) == seq![separated(a, b, true), separated(b, a, false)],
{
    let s = seq![a, b];
    reveal_with_fuel(push_sum_x, 3);
    reveal_with_fuel(push_sum_y, 3);
    assert(resolved_body(s, 0) == separated(a, b, true));
    assert(resolved_body(s, 1) == separated(b, a, false));
    assert(resolved(s) =~= seq![separated(a, b, true), separated(b, a, false)]);
}

/// The two bodies of a pair are asked to move by the same amount in opposite
/// directions.
pub proof fn lemma_push_opposite(a: Body, b: Body, leftward: bool)
    ensures
        push_x(b, a, !leftward) == -push_x(a, b, leftward),
        push_y(b, a) == -push_y(a, b),
{
    let dx = a.position.x - b.position.x;
    let dy = a.position.y - b.position.y;
    assert(gap_squared(b, a) == gap_squared(a, b)) by (nonlinear_arith)
        requires
            gap_squared(a, b) == dx * dx + dy * dy,
            gap_squared(b, a) == (-dx) * (-dx) + (-dy) * (-dy),
    ;
    assert(reach(b, a) == reach(a, b));
    assert(overlapping(b, a) == overlapping(a, b));
    if overlapping(a, b) && !(dx == 0 && dy == 0) {
        assert(dx * dx + dy * dy > 0) by (nonlinear_arith)
            requires
                dx != 0 || dy != 0,
        ;
        let dist = lemma_fine_distance(dx, dy, reach(a, b));
        let depth = reach(a, b) * FINE - dist;
        assert((-dx) * depth == -(dx * depth) && (-dy) * depth == -(dy * depth))
            by (nonlinear_arith);
        lemma_div_toward_zero_odd(dx * depth, 2 * dist);
        lemma_div_toward_zero_odd(dy * depth, 2 * dist);
    }
}

/// Where both bodies of a pair have room to move by their reach, a pass
/// over the two moves each by exactly what it is asked to move by: nothing
/// sticks to the ends of the 64-bit range.
proof fn lemma_pair_pass_exact(a: Body, b: Body)
    requires
        has_room(a, reach(a, b)),
        has_room(b, reach(a, b)),
    ensures
        ({
            let after = resolved(seq![a, b]);
            &&& after[0].position.x == a.position.x + push_x(a, b, true)
            &&& after[0].position.y == a.position.y + push_y(a, b)
            &&& after[1].position.x == b.position.x - push_x(a, b, true)
            &&& after[1].position.y == b.position.y - push_y(a, b)
            &&& reach(after[0], after[1]) == reach(a, b)
        }),
{
    lemma_resolved_pair(a, b);
    lemma_push_opposite(a, b, true);
    lemma_push_bounded(a, b, true);
}

/// One offset of a pair after `share` of its two bodies have moved (one or
/// two), with the reach `far` and the distance `dist` in fine steps. The
/// offset has grown, at most in the proportion of the reach to the distance.
/// After both have moved, rounding has taken less than two raw steps of that
/// away.
proof fn lemma_axis_after_push(offset: int, far: int, dist: int, share: int)
    requires
        1 <= dist <= far,
        offset * offset <= dist * dist,
        share == 1 || share == 2,
    ensures
        ({
            let after = offset + share * half_push(offset, far - dist, dist);
            &&& offset >= 0 ==> offset <= after && 0 <= dist * after <= far * offset
            &&& offset <= 0 ==> after <= offset && far * offset <= dist * after <= 0
            &&& offset >= 0 && share == 2 ==> far * offset - 2 * dist < dist * after
            &&& offset <= 0 && share == 2 ==> dist * after < far * offset + 2 * dist
            &&& offset * offset <= after * after
            &&& dist * dist * (after * after) <= far * far * (offset * offset)
        }),
{
    let depth = far - dist;
    let q = half_push(offset, depth, dist);
    let after = offset + share * q;
    assert(offset * 1 == offset);
    lemma_half_push_within_depth(offset, depth, dist, 1);
    lemma_div_toward_zero_bounds(offset * depth, 2 * dist);
    assert((offset >= 0 ==> offset * depth >= 0) && (offset <= 0 ==> offset * depth <= 0))
        by (nonlinear_arith)
        requires
            depth >= 0,
    ;
    assert(dist * after == dist * offset + share * (q * dist) && offset * depth == far * offset
        - dist * offset) by (nonlinear_arith)
        requires
            after == offset + share * q,
            depth == far - dist,
    ;
    assert(2 * (q * dist) == q * (2 * dist)) by (nonlinear_arith);
    if offset >= 0 {
        assert(0 <= q * (2 * dist) <= offset * depth);
        assert(offset <= after && 0 <= dist * after <= far * offset) by (nonlinear_arith)
            requires
                after == offset + share * q,
                dist * after == dist * offset + share * (q * dist),
                share == 1 || share == 2,
                0 <= q,
                q * (2 * dist) <= far * offset - dist * offset,
                0 <= offset,
                1 <= dist <= far,
        ;
        assert(offset * offset <= after * after) by (nonlinear_arith)
            requires
                0 <= offset <= after,
        ;
        assert((dist * after) * (dist * after) <= (far * offset) * (far * offset))
            by (nonlinear_arith)
            requires
                0 <= dist * after <= far * offset,
        ;
    }
    if offset <= 0 {
        assert(offset * depth <= q * (2 * dist) <= 0);
        assert(after <= offset && far * offset <= dist * after <= 0) by (nonlinear_arith)
            requires
                after == offset + share * q,
                dist * after == dist * offset + share * (q * dist),
                share == 1 || share == 2,
                q <= 0,
                far * offset - dist * offset <= q * (2 * dist),
                offset <= 0,
                1 <= dist <= far,
        ;
        assert(offset * offset <= after * after) by (nonlinear_arith)
            requires
                after <= offset <= 0,
        ;
        assert((dist * after) * (dist * after) <= (far * offset) * (far * offset))
            by (nonlinear_arith)
            requires
                far * offset <= dist * after <= 0,
        ;
    }
    assert((dist * after) * (dist * after) == dist * dist * (after * after)) by (nonlinear_arith);
    assert((far * offset) * (far * offset) == far * far * (offset * offset)) by (nonlinear_arith);
}

/// The offsets of an overlapping pair with distinct centres after `share`
/// of its two bodies have moved: the squared gap is no smaller than before,
/// and no larger than the square of the reach.
proof fn lemma_gap_after_push(dx: int, dy: int, touch: int, share: int) -> (after: (int, int))
    requires
        0 < dx * dx + dy * dy < touch * touch,
        touch >= 0,
        share == 1 || share == 2,
    ensures
        ({
            let dist = fine_distance(dx * dx + dy * dy);
            &&& after.0 == dx + share * half_push(dx, touch * FINE - dist, dist)
            &&& after.1 == dy + share * half_push(dy, touch * FINE - dist, dist)
            &&& dx * dx + dy * dy <= after.0 * after.0 + after.1 * after.1 <= touch * touch
        }),
{
    let gap = dx * dx + dy * dy;
    let fine = FINE as int;
    let far = touch * fine;
    let dist = lemma_fine_distance(dx, dy, touch);
    lemma_axis_after_push(dx, far, dist, share);
    lemma_axis_after_push(dy, far, dist, share);
    let nx = dx + share * half_push(dx, far - dist, dist);
    let ny = dy + share * half_push(dy, far - dist, dist);
    let total = nx * nx + ny * ny;
    assert(dist * dist * total <= far * far * gap) by (nonlinear_arith)
        requires
            total == nx * nx + ny * ny,
            gap == dx * dx + dy * dy,
            dist * dist * (nx * nx) <= far * far * (dx * dx),
            dist * dist * (ny * ny) <= far * far * (dy * dy),
    ;
    assert(far * far * gap == touch * touch * (gap * (fine * fine))) by (nonlinear_arith)
        requires
            far == touch * fine,
    ;
    assert(touch * touch * (gap * (fine * fine)) <= touch * touch * (dist * dist))
        by (nonlinear_arith)
        requires
            gap * (fine * fine) <= dist * dist,
    ;
    assert(total <= touch * touch) by (nonlinear_arith)
        requires
            dist * dist * total <= touch * touch * (dist * dist),
            dist >= 1,
    ;
    (nx, ny)
}

/// The offsets of an overlapping pair with distinct centres after both
/// bodies have moved are so long that the centres are within `TOUCH_SLACK`
/// raw steps of touching.
proof fn lemma_gap_after_both_near(dx: int, dy: int, touch: int, nx: int, ny: int)
    requires
        0 < dx * dx + dy * dy < touch * touch,
        TOUCH_SLACK <= touch < 0x2_0000_0000,
        nx == dx + 2 * half_push(
            dx,
            touch * FINE - fine_distance(dx * dx + dy * dy),
            fine_distance(dx * dx + dy * dy),
        ),
        ny == dy + 2 * half_push(
            dy,
            touch * FINE - fine_distance(dx * dx + dy * dy),
            fine_distance(dx * dx + dy * dy),
        ),
    ensures
        (touch - TOUCH_SLACK) * (touch - TOUCH_SLACK) <= nx * nx + ny * ny,
{
    let gap = dx * dx + dy * dy;
    let fine = FINE as int;
    let far = touch * fine;
    let dist = lemma_fine_distance(dx, dy, touch);
    lemma_axis_after_push(dx, far, dist, 2);
    lemma_axis_after_push(dy, far, dist, 2);
    let long_x = abs(nx) as int;
    let long_y = abs(ny) as int;
    let was_x = abs(dx) as int;
    let was_y = abs(dy) as int;
    let short = touch - TOUCH_SLACK;
    // Along each axis the new offset, lengthened by two raw steps, is more
    // than the old one in the proportion of the reach to the distance.
    assert(far * (-dx) == -(far * dx) && far * (-dy) == -(far * dy) && dist * (-nx) == -(dist
        * nx) && dist * (-ny) == -(dist * ny)) by (nonlinear_arith);
    assert(dist * (long_x + 2) == dist * long_x + 2 * dist && dist * (long_y + 2) == dist * long_y
        + 2 * dist) by (nonlinear_arith);
    assert(0 <= far * was_x && 0 <= far * was_y) by (nonlinear_arith)
        requires
            far >= 0,
            was_x >= 0,
            was_y >= 0,
    ;
    assert(far * was_x < dist * (long_x + 2));
    assert(far * was_y < dist * (long_y + 2));
    lemma_square_strictly_monotone(far * was_x, dist * (long_x + 2));
    lemma_square_strictly_monotone(far * was_y, dist * (long_y + 2));
    let grown = (long_x + 2) * (long_x + 2) + (long_y + 2) * (long_y + 2);
    assert(dist * dist * grown == (dist * (long_x + 2)) * (dist * (long_x + 2)) + (dist * (long_y
        + 2)) * (dist * (long_y + 2))) by (nonlinear_arith)
        requires
            grown == (long_x + 2) * (long_x + 2) + (long_y + 2) * (long_y + 2),
    ;
    assert((far * was_x) * (far * was_x) + (far * was_y) * (far * was_y) == far * far * gap)
        by (nonlinear_arith)
        requires
            gap == dx * dx + dy * dy,
            was_x == dx || was_x == -dx,
            was_y == dy || was_y == -dy,
    ;
    assert(far * far * gap == touch * touch * (gap * (fine * fine))) by (nonlinear_arith)
        requires
            far == touch * fine,
    ;
    assert(touch * touch * (gap * (fine * fine)) > touch * touch * ((dist - 1) * (dist - 1)))
        by (nonlinear_arith)
        requires
            gap * (fine * fine) > (dist - 1) * (dist - 1),
            touch >= 1,
    ;
    assert(touch * touch * ((dist - 1) * (dist - 1)) == (touch * (dist - 1)) * (touch * (dist
        - 1))) by (nonlinear_arith);
    assert(dist * dist * grown > (touch * (dist - 1)) * (touch * (dist - 1)));
    assert(nx * nx + ny * ny == long_x * long_x + long_y * long_y) by (nonlinear_arith)
        requires
            long_x == nx || long_x == -nx,
            long_y == ny || long_y == -ny,
    ;
    if long_x * long_x + long_y * long_y < short * short {
        // Then the lengthened offsets are shorter than the reach less eight,
        // which the distance in fine steps is too long to allow.
        let sum = long_x + long_y;
        assert(sum * sum <= 2 * (long_x * long_x + long_y * long_y)) by (nonlinear_arith)
            requires
                sum == long_x + long_y,
        ;
        if 2 * sum > 3 * short {
            assert(4 * (sum * sum) > 8 * (short * short)) by (nonlinear_arith)
                requires
                    2 * sum >= 3 * short + 1,
                    short >= 0,
                    sum >= 0,
            ;
        }
        assert(grown == long_x * long_x + long_y * long_y + 4 * sum + 8) by (nonlinear_arith)
            requires
                grown == (long_x + 2) * (long_x + 2) + (long_y + 2) * (long_y + 2),
                sum == long_x + long_y,
        ;
        assert((short + 3) * (short + 3) == short * short + 6 * short + 9) by (nonlinear_arith);
        assert(grown < (short + 3) * (short + 3));
        assert(dist * dist * grown <= (dist * (short + 3)) * (dist * (short + 3)))
            by (nonlinear_arith)
            requires
                grown <= (short + 3) * (short + 3),
                dist >= 1,
        ;
        assert(0 <= touch * (dist - 1) && 0 <= dist * (short + 3)) by (nonlinear_arith)
            requires
                touch >= 0,
                dist >= 1,
                short >= 0,
        ;
        if dist * (short + 3) <= touch * (dist - 1) {
            assert((dist * (short + 3)) * (dist * (short + 3)) <= (touch * (dist - 1)) * (touch * (
            dist - 1))) by (nonlinear_arith)
                requires
                    0 <= dist * (short + 3) <= touch * (dist - 1),
            ;
        }
        assert(dist * (short + 3) == dist * touch - 8 * dist && touch * (dist - 1) == dist * touch
            - touch) by (nonlinear_arith)
            requires
                short == touch - 11,
        ;
    }
}

/// Moving one body of an overlapping pair away from the other, with room to
/// move within the 64-bit range, never brings the centres closer and never
/// takes them further apart than the sum of the radii.
pub proof fn lemma_separated_gap(a: Body, b: Body, leftward: bool)
    requires
        overlapping(a, b),
        has_room(a, reach(a, b)),
    ensures
        gap_squared(a, b) <= gap_squared(separated(a, b, leftward), b) <= reach(a, b) * reach(a, b),
        reach(separated(a, b, leftward), b) == reach(a, b),
{
    let dx = a.position.x - b.position.x;
    let dy = a.position.y - b.position.y;
    let touch = reach(a, b);
    let moved = separated(a, b, leftward);
    lemma_push_bounded(a, b, leftward);
    if dx == 0 && dy == 0 {
        lemma_gap_of_coincident(dx, dy, moved.position.x - b.position.x, touch, 1);
    } else {
        assert(dx * dx + dy * dy > 0) by (nonlinear_arith)
            requires
                dx != 0 || dy != 0,
        ;
        let after = lemma_gap_after_push(dx, dy, touch, 1);
        assert(moved.position.x - b.position.x == after.0);
        assert(moved.position.y - b.position.y == after.1);
    }
}

/// The gap of two centres that coincided after `share` of the two bodies
/// have gone half the reach along x.
proof fn lemma_gap_of_coincident(dx: int, dy: int, nx: int, touch: int, share: int)
    requires
        dx == 0,
        dy == 0,
        touch >= 0,
        share == 1 || share == 2,
        nx == share * (touch / 2) || nx == -(share * (touch / 2)),
    ensures
        dx * dx + dy * dy == 0,
        0 <= nx * nx + 0 * 0 <= touch * touch,
        share == 2 && touch >= 1 ==> (touch - 1) * (touch - 1) <= nx * nx + 0 * 0,
{
    let half = touch / 2;
    assert(dx * dx + dy * dy == 0) by (nonlinear_arith)
        requires
            dx == 0,
            dy == 0,
    ;
    assert(0 <= nx * nx + 0 * 0 <= touch * touch) by (nonlinear_arith)
        requires
            nx == share * half || nx == -(share * half),
            share == 1 || share == 2,
            0 <= 2 * half <= touch,
    ;
    if share == 2 && touch >= 1 {
        assert((touch - 1) * (touch - 1) <= nx * nx + 0 * 0) by (nonlinear_arith)
            requires
                nx == 2 * half || nx == -(2 * half),
                0 <= touch - 1 <= 2 * half,
        ;
    }
}

/// One pass over two overlapping bodies alone, with room to move within the
/// 64-bit range: the centres are not brought closer, they are not taken
/// further apart than the sum of the radii, and they end within
/// `TOUCH_SLACK` raw steps of that sum.
pub proof fn lemma_pair_pass_gap(a: Body, b: Body)
    requires
        overlapping(a, b),
        has_room(a, reach(a, b)),
        has_room(b, reach(a, b)),
    ensures
        ({
            let after = resolved(seq![a, b]);
            let touch = reach(a, b);
            &&& reach(after[0], after[1]) == touch
            &&& gap_squared(a, b) <= gap_squared(after[0], after[1]) <= touch * touch
            &&& touch >= TOUCH_SLACK ==> (touch - TOUCH_SLACK) * (touch - TOUCH_SLACK)
                <= gap_squared(after[0], after[1])
        }),
{
    let dx = a.position.x - b.position.x;
    let dy = a.position.y - b.position.y;
    let touch = reach(a, b);
    let after = resolved(seq![a, b]);
    lemma_pair_pass_exact(a, b);
    let nx = after[0].position.x - after[1].position.x;
    let ny = after[0].position.y - after[1].position.y;
    if dx == 0 && dy == 0 {
        lemma_gap_of_coincident(dx, dy, nx, touch, 2);
        if touch >= TOUCH_SLACK {
            assert((touch - TOUCH_SLACK) * (touch - TOUCH_SLACK) <= (touch - 1) * (touch - 1))
                by (nonlinear_arith)
                requires
                    0 <= touch - TOUCH_SLACK <= touch - 1,
            ;
        }
    } else {
        assert(dx * dx + dy * dy > 0) by (nonlinear_arith)
            requires
                dx != 0 || dy != 0,
        ;
        let offsets = lemma_gap_after_push(dx, dy, touch, 2);
        assert(nx == offsets.0 && ny == offsets.1);
        if touch >= TOUCH_SLACK {
            lemma_gap_after_both_near(dx, dy, touch, nx, ny);
        }
    }
}

/// One pass over two overlapping bodies alone whose centres are apart, with
/// room to move within the 64-bit range: along each axis the offset between
/// the centres grows in the proportion of the reach to the distance, and
/// rounding takes less than two raw steps of that away. The first body stays
/// on the side of the second that it was on.
pub proof fn lemma_pair_pass_offsets(a: Body, b: Body)
    requires
        overlapping(a, b),
        a.position != b.position,
        has_room(a, reach(a, b)),
        has_room(b, reach(a, b)),
    ensures
        ({
            let after = resolved(seq![a, b]);
            let dist = fine_distance(gap_squared(a, b));
            let far = reach(a, b) * FINE;
            let dx = a.position.x - b.position.x;
            let dy = a.position.y - b.position.y;
            let ox = after[0].position.x - after[1].position.x;
            let oy = after[0].position.y - after[1].position.y;
            &&& FINE <= dist <= far
            &&& (dx >= 0 ==> ox >= 0) && (dx <= 0 ==> ox <= 0)
            &&& (dy >= 0 ==> oy >= 0) && (dy <= 0 ==> oy <= 0)
            &&& far * abs(dx) - 2 * dist < dist * abs(ox) <= far * abs(dx)
            &&& far * abs(dy) - 2 * dist < dist * abs(oy) <= far * abs(dy)
        }),
{
    let dx = a.position.x - b.position.x;
    let dy = a.position.y - b.position.y;
    let touch = reach(a, b);
    let far = touch * FINE;
    let after = resolved(seq![a, b]);
    lemma_pair_pass_exact(a, b);
    assert(dx * dx + dy * dy > 0) by (nonlinear_arith)
        requires
            dx != 0 || dy != 0,
    ;
    let dist = lemma_fine_distance(dx, dy, touch);
    lemma_axis_after_push(dx, far, dist, 2);
    lemma_axis_after_push(dy, far, dist, 2);
    let ox = after[0].position.x - after[1].position.x;
    let oy = after[0].position.y - after[1].position.y;
    assert(far * (-dx) == -(far * dx) && dist * (-ox) == -(dist * ox) && far * (-dy) == -(far
        * dy) && dist * (-oy) == -(dist * oy)) by (nonlinear_arith);
}

/// Two centres on a line along one axis, apart and closer than `touch`: the
/// fine distance is exact, so along the line the push is half the depth of
/// the overlap in raw steps, rounded down, and across it there is none.
proof fn lemma_push_along_axis(along: int, touch: int)
    requires
        along != 0,
        along * along < touch * touch,
        touch >= 0,
    ensures
        ({
            let dist = fine_distance(along * along);
            let depth = touch * FINE - dist;
            let half = (touch - abs(along)) / 2;
            &&& touch - abs(along) >= 1
            &&& along > 0 ==> half_push(along, depth, dist) == half
            &&& along < 0 ==> half_push(along, depth, dist) == -half
            &&& half_push(0, depth, dist) == 0
        }),
{
    let fine = FINE as int;
    let wide = abs(along) as int;
    let dist = wide * fine;
    let over = touch - wide;
    assert(along * along == wide * wide) by (nonlinear_arith)
        requires
            wide == along || wide == -along,
    ;
    if wide >= touch {
        assert(wide * wide >= touch * touch) by (nonlinear_arith)
            requires
                wide >= touch >= 0,
        ;
    }
    assert(dist >= 1 && dist * dist == (along * along) * (fine * fine)) by (nonlinear_arith)
        requires
            dist == wide * fine,
            along * along == wide * wide,
            wide >= 1,
            fine >= 1,
    ;
    lemma_square_strictly_monotone(dist - 1, dist);
    assert(is_ceil_sqrt(dist * dist, dist));
    lemma_ceil_sqrt_unique(dist * dist, dist);
    let depth = touch * fine - dist;
    let q = over / 2;
    let r = over % 2;
    assert(depth == over * fine && wide * depth == q * (2 * dist) + dist * r && 0 <= dist * r < 2
        * dist && wide * depth >= 0) by (nonlinear_arith)
        requires
            depth == touch * fine - dist,
            dist == wide * fine,
            over == touch - wide,
            over == 2 * q + r,
            0 <= r < 2,
            wide >= 1,
            fine >= 1,
            over >= 0,
    ;
    lemma_fundamental_div_mod_converse(wide * depth, 2 * dist, q, dist * r);
    assert((-wide) * depth == -(wide * depth)) by (nonlinear_arith);
    lemma_div_toward_zero_odd(wide * depth, 2 * dist);
    assert(0 * depth == 0) by (nonlinear_arith);
    lemma_div_toward_zero_bounds(0, 2 * dist);
    assert(half_push(0, depth, dist) == 0) by (nonlinear_arith)
        requires
            0 <= half_push(0, depth, dist) * (2 * dist) <= 0,
            dist >= 1,
    ;
}

/// One pass over two overlapping bodies on a common horizontal line, with
/// room to move within the 64-bit range: each moves away from the other by
/// half the depth of the overlap, rounded down, and neither leaves the line.
/// Afterwards the centres are the sum of the radii apart, or one raw step
/// less where the depth is odd.
pub proof fn lemma_aligned_pair_pass(a: Body, b: Body)
    requires
        a.position.y == b.position.y,
        a.position.x != b.position.x,
        overlapping(a, b),
        has_room(a, reach(a, b)),
        has_room(b, reach(a, b)),
    ensures
        ({
            let depth = reach(a, b) - abs(a.position.x - b.position.x);
            let after = resolved(seq![a, b]);
            &&& depth >= 1
            &&& after[0].position.y == a.position.y
            &&& after[1].position.y == b.position.y
            &&& b.position.x < a.position.x ==> after[0].position.x == a.position.x + depth / 2
                && after[1].position.x == b.position.x - depth / 2
            &&& a.position.x < b.position.x ==> after[0].position.x == a.position.x - depth / 2
                && after[1].position.x == b.position.x + depth / 2
            &&& reach(a, b) - 1 <= abs(after[0].position.x - after[1].position.x) <= reach(a, b)
        }),
{
    let dx = a.position.x - b.position.x;
    let dy = a.position.y - b.position.y;
    assert(gap_squared(a, b) == dx * dx) by (nonlinear_arith)
        requires
            gap_squared(a, b) == dx * dx + dy * dy,
            dy == 0,
    ;
    lemma_push_along_axis(dx, reach(a, b));
    lemma_pair_pass_exact(a, b);
}

/// One pass over two overlapping bodies on a common vertical line, with room
/// to move within the 64-bit range: each moves away from the other by half
/// the depth of the overlap, rounded down, and neither leaves the line.
/// Afterwards the centres are the sum of the radii apart, or one raw step
/// less where the depth is odd.
pub proof fn lemma_stacked_pair_pass(a: Body, b: Body)
    requires
        a.position.x == b.position.x,
        a.position.y != b.position.y,
        overlapping(a, b),
        has_room(a, reach(a, b)),
        has_room(b, reach(a, b)),
    ensures
        ({
            let depth = reach(a, b) - abs(a.position.y - b.position.y);
            let after = resolved(seq![a, b]);
            &&& depth >= 1
            &&& after[0].position.x == a.position.x
            &&& after[1].position.x == b.position.x
            &&& b.position.y < a.position.y ==> after[0].position.y == a.position.y + depth / 2
                && after[1].position.y == b.position.y - depth / 2
            &&& a.position.y < b.position.y ==> after[0].position.y == a.position.y - depth / 2
                && after[1].position.y == b.position.y + depth / 2
            &&& reach(a, b) - 1 <= abs(after[0].position.y - after[1].position.y) <= reach(a, b)
        }),
{
    let dx = a.position.x - b.position.x;
    let dy = a.position.y - b.position.y;
    assert(gap_squared(a, b) == dy * dy) by (nonlinear_arith)
        requires
            gap_squared(a, b) == dx * dx + dy * dy,
            dx == 0,
    ;
    lemma_push_along_axis(dy, reach(a, b));
    lemma_pair_pass_exact(a, b);
}

/// One pass over two bodies whose centres coincide, with room to move
/// within the 64-bit range: there is no line of centres, so the first body
/// goes left and the second right, each by half the reach, rounded down.
/// Both stay at their height. Afterwards the centres are the sum of the radii
/// apart, or one raw step less where that sum is odd.
pub proof fn lemma_coincident_pair_pass(a: Body, b: Body)
    requires
        a.position == b.position,
        has_room(a, reach(a, b)),
        has_room(b, reach(a, b)),
    ensures
        ({
            let touch = reach(a, b);
            let after = resolved(seq![a, b]);
            &&& after[0].position.y == a.position.y
            &&& after[1].position.y == b.position.y
            &&& after[0].position.x == a.position.x - touch / 2
            &&& after[1].position.x == b.position.x + touch / 2
            &&& touch - 1 <= after[1].position.x - after[0].position.x <= touch
        }),
{
    let touch = reach(a, b);
    lemma_pair_pass_exact(a, b);
    assert(gap_squared(a, b) == 0) by (nonlinear_arith)
        requires
            gap_squared(a, b) == (a.position.x - b.position.x) * (a.position.x - b.position.x) + (
            a.position.y - b.position.y) * (a.position.y - b.position.y),
            a.position.x - b.position.x == 0,
            a.position.y - b.position.y == 0,
    ;
    assert(touch >= 1 ==> touch * touch >= 1) by (nonlinear_arith);
    assert(touch == 0 ==> touch * touch == 0) by (nonlinear_arith);
}

} // verus!
