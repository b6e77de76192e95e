//! Pairwise de-penetration of overlapping circles.
//!
//! A pass looks at every ordered pair of distinct bodies as the bodies stood
//! when the pass began. Where the two circles of a pair overlap, the first of
//! the pair is moved away from the second along the line of centres by half
//! the depth of the overlap; the second gets its half when the pair comes up
//! the other way round, so that two bodies alone end up touching. The moves
//! of one body against all its partners add up.
//!
//! The distance between two centres is no whole number of raw steps as a
//! rule. It is measured in fine steps, `FINE` to a raw step, and rounded up
//! to a whole fine step; the move along each axis is rounded toward zero to
//! a whole raw step. Both roundings shorten a move, so no pair is pushed past
//! touching and none is pulled together, and a pair alone ends within eleven
//! raw steps of touching. What holds of a pass is proved in
//! `collision_laws`.

use vstd::prelude::*;
use crate::body::Body;
use crate::body::Vec2;
use crate::fixed::ceil_sqrt;
use crate::fixed::div_toward_zero;
use crate::fixed::divide_toward_zero;
use crate::fixed::is_ceil_sqrt;
use crate::fixed::isqrt_ceil;
use crate::fixed::lemma_ceil_sqrt_exists;
use crate::fixed::lemma_div_toward_zero_bounds;
use crate::fixed::lemma_div_toward_zero_odd;
use crate::fixed::lemma_square_strictly_monotone;
use crate::fixed::saturate;
use crate::fixed::saturate_i128;
use crate::fixed::FINE;

verus! {

/// The distance between centres at which two circles just touch.
pub open spec fn reach(a: Body, b: Body) -> int {
    a.radius + b.radius
}

/// The square of the distance between the two centres.
pub open spec fn gap_squared(a: Body, b: Body) -> int {
    (a.position.x - b.position.x) * (a.position.x - b.position.x) + (a.position.y
        - b.position.y) * (a.position.y - b.position.y)
}

/// Whether the centres are closer than the sum of the radii.
pub open spec fn overlapping(a: Body, b: Body) -> bool {
    gap_squared(a, b) < reach(a, b) * reach(a, b)
}

/// The distance that has the square `gap` in raw steps, in fine steps and
/// rounded up to a whole one.
pub open spec fn fine_distance(gap: int) -> int {
    ceil_sqrt(gap * (FINE as int * FINE as int))
}

/// How far along one axis a centre is moved: half the overlap `depth`, in the
/// proportion that the offset along that axis has to the distance `dist`,
/// rounded toward zero. Depth and distance are in one unit, the result is in
/// the unit of the offset.
pub open spec fn half_push(offset: int, depth: int, dist: int) -> int {
    div_toward_zero(offset * depth, 2 * dist)
}

/// How far along x body `a` is moved away from `b`, in raw steps.
///
/// Circles that do not overlap give no move. Centres that coincide give no
/// direction to move in: `a` then goes half the reach along the x axis, to
/// the left if `leftward` and to the right if not. Otherwise `a` moves along
/// the line from `b`'s centre to its own by half the depth of the overlap,
/// the depth being what the reach exceeds the distance by, both in fine
/// steps.
pub open spec fn push_x(a: Body, b: Body, leftward: bool) -> int {
    let dx = a.position.x - b.position.x;
    let dy = a.position.y - b.position.y;
    if !overlapping(a, b) {
        0
    } else if dx == 0 && dy == 0 {
        if leftward {
            -(reach(a, b) / 2)
        } else {
            reach(a, b) / 2
        }
    } else {
        let dist = fine_distance(gap_squared(a, b));
        half_push(dx, reach(a, b) * FINE - dist, dist)
    }
}

/// How far along y body `a` is moved away from `b`: as along x, but that
/// centres which coincide give no move along y.
pub open spec fn push_y(a: Body, b: Body) -> int {
    let dx = a.position.x - b.position.x;
    let dy = a.position.y - b.position.y;
    if !overlapping(a, b) {
        0
    } else if dx == 0 && dy == 0 {
        0
    } else {
        let dist = fine_distance(gap_squared(a, b));
        half_push(dy, reach(a, b) * FINE - dist, dist)
    }
}

/// Body `a` with its centre moved by the given amounts, and nothing else
/// changed.
pub open spec fn shifted(a: Body, by_x: int, by_y: int) -> Body {
    Body {
        position: Vec2 { x: saturate(a.position.x + by_x), y: saturate(a.position.y + by_y) },
        ..a
    }
}

/// Body `a` after it has been moved away from `b`.
pub open spec fn separated(a: Body, b: Body, leftward: bool) -> Body {
    shifted(a, push_x(a, b, leftward), push_y(a, b))
}

/// The sum of the moves along x of body `a` away from each of the first `k`
/// entries of `others`, but for the entry at `own`, which is `a`'s own. When
/// centres coincide, the body that comes first in the collection goes left.
pub open spec fn push_sum_x(a: Body, others: Seq<Body>, own: int, k: nat) -> int
    decreases k,
{
    if k == 0 {
        0
    } else {
        let so_far = push_sum_x(a, others, own, (k - 1) as nat);
        if k - 1 == own {
            so_far
        } else {
            so_far + push_x(a, others[k - 1], own < k - 1)
        }
    }
}

/// The sum of the moves along y, as `push_sum_x` along x.
pub open spec fn push_sum_y(a: Body, others: Seq<Body>, own: int, k: nat) -> int
    decreases k,
{
    if k == 0 {
        0
    } else {
        let so_far = push_sum_y(a, others, own, (k - 1) as nat);
        if k - 1 == own {
            so_far
        } else {
            so_far + push_y(a, others[k - 1])
        }
    }
}

/// The body at index `i` after one pass: moved by the sum of its moves away
/// from all the others, each measured on the collection as it was.
pub open spec fn resolved_body(bodies: Seq<Body>, i: int) -> Body {
    shifted(
        bodies[i],
        push_sum_x(bodies[i], bodies, i, bodies.len()),
        push_sum_y(bodies[i], bodies, i, bodies.len()),
    )
}

/// The collection after one full pass over all ordered pairs.
pub open spec fn resolved(bodies: Seq<Body>) -> Seq<Body> {
    Seq::new(bodies.len(), |i: int| resolved_body(bodies, i))
}

/// Whether `after` differs from `before` in its position at most.
pub open spec fn moved_only(before: Body, after: Body) -> bool {
    after.previous_position == before.previous_position && after.acceleration
        == before.acceleration && after.radius == before.radius
}

/// The fine distance of two centres that are apart and closer than `touch`
/// lies between one raw step and `touch`, and neither offset is longer.
pub proof fn lemma_fine_distance(dx: int, dy: int, touch: int) -> (dist: int)
    requires
        0 < dx * dx + dy * dy < touch * touch,
        touch >= 0,
    ensures
        dist == fine_distance(dx * dx + dy * dy),
        FINE <= dist <= touch * FINE,
        (dist - 1) * (dist - 1) < (dx * dx + dy * dy) * (FINE as int * FINE as int) <= dist * dist,
        (dx * FINE) * (dx * FINE) <= dist * dist,
        (dy * FINE) * (dy * FINE) <= dist * dist,
        dx * dx <= dist * dist,
        dy * dy <= dist * dist,
{
    let gap = dx * dx + dy * dy;
    let fine = FINE as int;
    let wide_gap = gap * (fine * fine);
    let dist = fine_distance(gap);
    let far = touch * fine;
    assert(dx * dx >= 0 && dy * dy >= 0) by (nonlinear_arith);
    assert(wide_gap >= fine * fine && wide_gap >= gap && far * far > wide_gap && far >= 0
        && (dx * fine) * (dx * fine) <= wide_gap && (dy * fine) * (dy * fine) <= wide_gap)
        by (nonlinear_arith)
        requires
            wide_gap == gap * (fine * fine),
            far == touch * fine,
            gap == dx * dx + dy * dy,
            dx * dx >= 0,
            dy * dy >= 0,
            1 <= gap < touch * touch,
            touch >= 0,
            fine >= 1,
    ;
    lemma_ceil_sqrt_exists(wide_gap);
    assert(is_ceil_sqrt(wide_gap, dist));
    if dist < fine {
        lemma_square_strictly_monotone(dist, fine);
    }
    if dist > far {
        assert((dist - 1) * (dist - 1) >= far * far) by (nonlinear_arith)
            requires
                dist - 1 >= far >= 0,
        ;
    }
    dist
}

/// A push has the sign of the offset and is at most half the depth long,
/// where the offset is no longer than the distance. `scale` is the number of
/// steps of the distance in one step of the offset.
pub proof fn lemma_half_push_within_depth(offset: int, depth: int, dist: int, scale: int)
    requires
        dist >= 1,
        depth >= 0,
        scale >= 1,
        (offset * scale) * (offset * scale) <= dist * dist,
    ensures
        offset >= 0 ==> 0 <= 2 * scale * half_push(offset, depth, dist) <= depth,
        offset <= 0 ==> -depth <= 2 * scale * half_push(offset, depth, dist) <= 0,
        half_push(-offset, depth, dist) == -half_push(offset, depth, dist),
{
    let num = offset * depth;
    let den = 2 * dist;
    let q = div_toward_zero(num, den);
    let long = offset * scale;
    lemma_div_toward_zero_bounds(num, den);
    assert((-offset) * depth == -num) by (nonlinear_arith)
        requires
            num == offset * depth,
    ;
    lemma_div_toward_zero_odd(num, den);
    assert((offset >= 0 ==> long >= 0) && (offset <= 0 ==> long <= 0)) by (nonlinear_arith)
        requires
            long == offset * scale,
            scale >= 1,
    ;
    if long > dist {
        lemma_square_strictly_monotone(dist, long);
    }
    if -long > dist {
        lemma_square_strictly_monotone(dist, -long);
        assert((-long) * (-long) == long * long) by (nonlinear_arith);
    }
    if offset >= 0 {
        assert(0 <= num && num * scale <= dist * depth) by (nonlinear_arith)
            requires
                num == offset * depth,
                long == offset * scale,
                0 <= offset,
                0 <= long <= dist,
                depth >= 0,
        ;
        assert(0 <= q && 2 * scale * q <= depth && 0 <= 2 * scale * q) by (nonlinear_arith)
            requires
                0 <= q * den <= num,
                num * scale <= dist * depth,
                den == 2 * dist,
                dist >= 1,
                scale >= 1,
        ;
    }
    if offset <= 0 {
        assert(num <= 0 && -(dist * depth) <= num * scale) by (nonlinear_arith)
            requires
                num == offset * depth,
                long == offset * scale,
                offset <= 0,
                -dist <= long <= 0,
                depth >= 0,
        ;
        assert(q <= 0 && -depth <= 2 * scale * q && 2 * scale * q <= 0) by (nonlinear_arith)
            requires
                num <= q * den <= 0,
                -(dist * depth) <= num * scale,
                den == 2 * dist,
                dist >= 1,
                scale >= 1,
        ;
    }
}

/// No move is longer than half the reach.
pub proof fn lemma_push_bounded(a: Body, b: Body, leftward: bool)
    ensures
        -reach(a, b) <= 2 * push_x(a, b, leftward) <= reach(a, b),
        -reach(a, b) <= 2 * push_y(a, b) <= reach(a, b),
{
    let dx = a.position.x - b.position.x;
    let dy = a.position.y - b.position.y;
    let touch = reach(a, b);
    if overlapping(a, b) && !(dx == 0 && dy == 0) {
        assert(dx * dx + dy * dy > 0) by (nonlinear_arith)
            requires
                dx != 0 || dy != 0,
        ;
        let dist = lemma_fine_distance(dx, dy, touch);
        let depth = touch * FINE - dist;
        lemma_half_push_within_depth(dx, depth, dist, FINE as int);
        lemma_half_push_within_depth(dy, depth, dist, FINE as int);
    }
}

/// The move that takes `body` away from `other`, in raw steps: nothing where
/// their circles do not overlap, else half the depth of the overlap along
/// the line of centres, shortened by rounding as `push_x` and `push_y` say.
/// `leftward` says which way to go when the centres coincide. Neither body
/// is changed.
pub fn correction(body: &Body, other: &Body, leftward: bool) -> (c: Vec2)
    ensures
        c.x == push_x(*body, *other, leftward),
        c.y == push_y(*body, *other),
        -reach(*body, *other) <= 2 * c.x <= reach(*body, *other),
        -reach(*body, *other) <= 2 * c.y <= reach(*body, *other),
{
    proof {
        lemma_push_bounded(*body, *other, leftward);
    }
    let dx: i128 = body.position.x as i128 - other.position.x as i128;
    let dy: i128 = body.position.y as i128 - other.position.y as i128;
    let touch: i128 = body.radius as i128 + other.radius as i128;
    let wide: i128 = if dx < 0 { -dx } else { dx };
    let tall: i128 = if dy < 0 { -dy } else { dy };
    proof {
        assert(dx * dx == wide * wide) by (nonlinear_arith)
            requires
                wide == dx || wide == -dx,
        ;
        assert(dy * dy == tall * tall) by (nonlinear_arith)
            requires
                tall == dy || tall == -dy,
        ;
        assert(0 <= wide * wide && 0 <= tall * tall) by (nonlinear_arith);
        if wide >= touch {
            assert(wide * wide >= touch * touch) by (nonlinear_arith)
                requires
                    wide >= touch >= 0,
            ;
        }
        if tall >= touch {
            assert(tall * tall >= touch * touch) by (nonlinear_arith)
                requires
                    tall >= touch >= 0,
            ;
        }
    }
    if wide >= touch || tall >= touch {
        return Vec2 { x: 0, y: 0 };
    }
    proof {
        assert(wide * wide <= 0x2_0000_0000int * 0x2_0000_0000int && tall * tall
            <= 0x2_0000_0000int * 0x2_0000_0000int && touch * touch <= 0x2_0000_0000int
            * 0x2_0000_0000int) by (nonlinear_arith)
            requires
                0 <= wide < touch,
                0 <= tall < touch,
                touch <= 0x2_0000_0000,
        ;
    }
    let gap2: i128 = wide * wide + tall * tall;
    if gap2 >= touch * touch {
        return Vec2 { x: 0, y: 0 };
    }
    if dx == 0 && dy == 0 {
        let half: i128 = touch / 2;
        let along: i128 = if leftward { -half } else { half };
        return Vec2 { x: along as i64, y: 0 };
    }
    proof {
        assert(gap2 >= 1) by (nonlinear_arith)
            requires
                gap2 == wide * wide + tall * tall,
                wide >= 0,
                tall >= 0,
                wide > 0 || tall > 0,
        ;
        lemma_fine_distance(dx as int, dy as int, touch as int);
    }
    let fine: i128 = FINE as i128;
    let wide_gap: u128 = gap2 as u128 * 0x1000_0000_0000_0000u128;
    let dist: i128 = isqrt_ceil(wide_gap) as i128;
    let depth: i128 = touch * fine - dist;
    proof {
        assert(-0x2_0000_0000int * 0x8000_0000_0000_0000int <= dx * depth <= 0x2_0000_0000int
            * 0x8000_0000_0000_0000int && -0x2_0000_0000int * 0x8000_0000_0000_0000int <= dy
            * depth <= 0x2_0000_0000int * 0x8000_0000_0000_0000int) by (nonlinear_arith)
            requires
                -0x2_0000_0000 <= dx <= 0x2_0000_0000,
                -0x2_0000_0000 <= dy <= 0x2_0000_0000,
                0 <= depth <= 0x8000_0000_0000_0000,
        ;
    }
    let push_x: i128 = divide_toward_zero(dx * depth, 2 * dist);
    let push_y: i128 = divide_toward_zero(dy * depth, 2 * dist);
    Vec2 { x: push_x as i64, y: push_y as i64 }
}

/// Moves `body` away from `other` where their circles overlap, and leaves it
/// alone where they do not. `other` is never moved. `leftward` says which
/// way `body` goes when the centres coincide.
pub fn separate(body: &mut Body, other: &Body, leftward: bool)
    ensures
        *final(body) == separated(*old(body), *other, leftward),
{
    let c: Vec2 = correction(body, other, leftward);
    body.position = Vec2 {
        x: saturate_i128(body.position.x as i128 + c.x as i128),
        y: saturate_i128(body.position.y as i128 + c.y as i128),
    };
}

/// One pass of collision resolution over the whole collection: every body is
/// moved away from every other body that it overlaps, all overlaps measured
/// on the positions that the pass began with. A body is never held against
/// itself. Only positions change.
pub fn resolve_collisions(bodies: &mut Vec<Body>)
    ensures
        final(bodies)@ == resolved(old(bodies)@),
        final(bodies)@.len() == old(bodies)@.len(),
        forall|i: int|
            0 <= i < old(bodies)@.len() ==> moved_only(old(bodies)@[i], #[trigger] final(bodies)@[i]),
{
    let n: usize = bodies.len();
    let mut targets: Vec<Vec2> = Vec::new();
    let mut i: usize = 0;
    while i < n
        invariant
            i <= n,
            bodies@ == old(bodies)@,
            bodies@.len() == n,
            targets@.len() == i,
            forall|j: int| 0 <= j < i ==> targets@[j] == resolved_body(bodies@, j).position,
        decreases n - i,
    {
        let own: Body = bodies[i];
        let mut sum_x: i128 = 0;
        let mut sum_y: i128 = 0;
        let mut k: usize = 0;
        while k < n
            invariant
                k <= n,
                i < n,
                bodies@.len() == n,
                own == bodies@[i as int],
                sum_x == push_sum_x(own, bodies@, i as int, k as nat),
                sum_y == push_sum_y(own, bodies@, i as int, k as nat),
                -0x1_0000_0000 * k <= sum_x <= 0x1_0000_0000 * k,
                -0x1_0000_0000 * k <= sum_y <= 0x1_0000_0000 * k,
            decreases n - k,
        {
            if k != i {
                let c: Vec2 = correction(&own, &bodies[k], i < k);
                sum_x = sum_x + c.x as i128;
                sum_y = sum_y + c.y as i128;
            }
            k += 1;
        }
        targets.push(
            Vec2 {
                x: saturate_i128(own.position.x as i128 + sum_x),
                y: saturate_i128(own.position.y as i128 + sum_y),
            },
        );
        i += 1;
    }
    let mut m: usize = 0;
    while m < n
        invariant
            m <= n,
            bodies@.len() == n,
            old(bodies)@.len() == n,
            targets@.len() == n,
            forall|j: int|
                0 <= j < n ==> targets@[j] == resolved_body(old(bodies)@, j).position,
            forall|j: int| 0 <= j < m ==> bodies@[j] == resolved_body(old(bodies)@, j),
            forall|j: int| m <= j < n ==> bodies@[j] == old(bodies)@[j],
        decreases n - m,
    {
        let mut moved: Body = bodies[m];
        moved.position = targets[m];
        bodies[m] = moved;
        m += 1;
    }
    assert(bodies@ =~= resolved(old(bodies)@));
}

} // verus!
