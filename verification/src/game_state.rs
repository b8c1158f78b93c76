//! The server's copy of the game, and how it moves on.
//!
//! The ball moves along a ray; where the ray meets a wall or a paddle it
//! bounces. Where the ray crosses an obstacle's line is interpolated in
//! floating point by the caller (`RaySegment::crossing` gives the three
//! numbers it is computed from); everything else is decided here.
use vstd::prelude::*;

use crate::mins_by_key::{
    keep_min, keyed_member, lemma_keep_min_least, lemma_keep_min_members, min_key, MinsBy,
};
use crate::vec2::{abs, between, fits_i32, IVec2};

verus! {

/// `v / 2`, rounded toward zero as integer division does.
pub open spec fn half_toward_zero(v: int) -> int {
    if v >= 0 {
        v / 2
    } else {
        -((-v) / 2)
    }
}

/// Line segment aligned to one axis
#[derive(Debug, Clone, Copy, PartialEq, Eq, Structural)]
pub struct AxisLineSegment {
    /// Axis along which this line runs
    pub axis: usize,
    /// Start/end along that axis
    pub main_start: i32,
    pub main_end: i32,
    /// Position along off axis
    pub off: i32,
}

/// The segment along `axis` between `start` and `end` (in either order), at `off` on the other axis.
pub open spec fn segment(axis: usize, start: i32, end: i32, off: i32) -> AxisLineSegment {
    if start > end {
        AxisLineSegment { axis, main_start: end, main_end: start, off }
    } else {
        AxisLineSegment { axis, main_start: start, main_end: end, off }
    }
}

impl AxisLineSegment {
    /// The segment along `axis` from `start` to `end`, at `off` on the other axis;
    /// the ends are stored lowest first.
    pub fn new(axis: usize, start: i32, end: i32, off: i32) -> (r: AxisLineSegment)
        ensures
            r == segment(axis, start, end, off),
    {
        let mut start = start;
        let mut end = end;
        if start > end {
            let t = start;
            start = end;
            end = t;
        }
        AxisLineSegment { axis, main_start: start, main_end: end, off }
    }

    /// The axis is 0 or 1.
    pub open spec fn wf(self) -> bool {
        self.axis < 2
    }
}

/// Represents a ball movement
#[derive(Debug, Clone, Copy, PartialEq, Eq, Structural)]
pub struct RaySegment {
    pub origin: IVec2,
    pub size: IVec2,
}

impl RaySegment {
    /// The movement from `origin` by `size`, which must not be zero.
    pub fn new(origin: IVec2, size: IVec2) -> (r: RaySegment)
        requires
            size.x * size.x + size.y * size.y <= i32::MAX,
            size.x * size.x + size.y * size.y != 0,
        ensures
            r.origin == origin,
            r.size == size,
    {
        RaySegment { origin, size }
    }

    /// The movement's squared length and its end fit in an `i32`, as the
    /// game's arithmetic on it needs.
    pub open spec fn wf(self) -> bool {
        &&& self.size.length_sq() <= i32::MAX
        &&& fits_i32(self.origin.x + self.size.x)
        &&& fits_i32(self.origin.y + self.size.y)
    }

    /// The distance from the start of the ray to the line of `line` fits in an `i32`.
    pub open spec fn dist_fits(self, line: AxisLineSegment) -> bool {
        fits_i32(self.dist_to(line))
    }

    /// How far the line is from the start of the ray, across the line.
    pub open spec fn dist_to(self, line: AxisLineSegment) -> int {
        line.off - self.origin.at(1 - line.axis)
    }

    /// How far the ray goes across the line's axis.
    pub open spec fn across(self, line: AxisLineSegment) -> int {
        self.size.at(1 - line.axis) as int
    }

    /// How far the ray goes along the line's axis.
    pub open spec fn along(self, line: AxisLineSegment) -> int {
        self.size.at(line.axis as int) as int
    }

    /// The ray goes far enough to reach the line (but does not start on it).
    pub open spec fn reaches(self, line: AxisLineSegment) -> bool {
        let d = self.dist_to(line);
        let s = self.across(line);
        s != 0 && ((d < 0 && d >= s) || (d > 0 && d <= s))
    }

    /// Where the ray meets the line of `line`, `offset` is how far along the
    /// line's axis it has gone: a part of `along`, between 0 and it.
    pub open spec fn offset_fits(self, line: AxisLineSegment, offset: i32) -> bool {
        self.reaches(line) ==> {
            &&& self.along(line) >= 0 ==> 0 <= offset <= self.along(line)
            &&& self.along(line) < 0 ==> self.along(line) <= offset <= 0
        }
    }

    /// Where the ray meets `line`, given the interpolated `offset`: nowhere
    /// when it does not reach the line, or meets it outside the segment.
    pub open spec fn spec_intersects(self, line: AxisLineSegment, offset: i32) -> Option<IVec2> {
        if !self.reaches(line) {
            None
        } else {
            let p = self.origin.at(line.axis as int) + offset;
            if p < line.main_start || line.main_end < p {
                None
            } else if line.axis == 1 {
                Some(IVec2 { x: line.off, y: p as i32 })
            } else {
                Some(IVec2 { x: p as i32, y: line.off })
            }
        }
    }

    /// The numbers that the crossing with `other` is interpolated from: the
    /// distance to its line, the ray's extent across it, and the ray's extent
    /// along it. The offset along the line is `distance / across * along`.
    pub fn crossing(&self, other: &AxisLineSegment) -> (r: (i32, i32, i32))
        requires
            self.wf(),
            other.wf(),
            self.dist_fits(*other),
        ensures
            r.0 == self.dist_to(*other),
            r.1 == self.across(*other),
            r.2 == self.along(*other),
    {
        let off_axis = 1 - other.axis;
        (other.off - self.origin.get(off_axis), self.size.get(off_axis), self.size.get(other.axis))
    }

    /// Whether `offset` is a possible interpolated crossing with `other` (see `offset_fits`).
    pub fn offset_fits_exec(&self, other: &AxisLineSegment, offset: i32) -> (r: bool)
        requires
            self.wf(),
            other.wf(),
            self.dist_fits(*other),
        ensures
            r == self.offset_fits(*other, offset),
    {
        let (dist, across, along) = self.crossing(other);
        let reaches = across != 0 && ((dist < 0 && dist >= across) || (dist > 0 && dist <= across));
        if !reaches {
            true
        } else if along >= 0 {
            0 <= offset && offset <= along
        } else {
            along <= offset && offset <= 0
        }
    }

    /// Where this ray meets `other`, given the interpolated offset along its axis.
    pub fn intersects(&self, other: &AxisLineSegment, offset: i32) -> (r: Option<IVec2>)
        requires
            self.wf(),
            other.wf(),
            self.dist_fits(*other),
            self.offset_fits(*other, offset),
        ensures
            r == self.spec_intersects(*other, offset),
    {
        let off_axis = 1 - other.axis;
        // Distance along off axis
        let dist = other.off - self.origin.get(off_axis);
        let across = self.size.get(off_axis);
        if across == 0 {
            // Ray is parallel
            return None;
        }
        // Check if ray goes far enough
        if !((dist < 0 && dist >= across) || (dist > 0 && dist <= across)) {
            return None;
        }
        // Check that ray intersects within line segment bounds
        let intersect = self.origin.get(other.axis) + offset;
        if intersect < other.main_start || other.main_end < intersect {
            // Ray misses the goalposts
            return None;
        }
        if other.axis == 1 {
            Some(IVec2::new(other.off, intersect))
        } else {
            Some(IVec2::new(intersect, other.off))
        }
    }
}

/// `p` lies on the segment `line`.
pub open spec fn on_segment(p: IVec2, line: AxisLineSegment) -> bool {
    &&& p.at(1 - line.axis) == line.off
    &&& line.main_start <= p.at(line.axis as int) <= line.main_end
}

/// Where the ball is after one step of its movement.
#[derive(Debug, Clone, Copy, PartialEq, Eq, Structural)]
pub enum BallMove {
    /// The movement is over, with the ball here.
    Stopped(IVec2),
    /// The ball bounced, and goes on with this movement.
    Bounced(RaySegment),
}

/// The collisions of `m` with the first `n` of `obstacles`, in their order:
/// each obstacle that the ray meets, with the point where it meets it, unless
/// that point is where the ray starts. `offsets[i]` is the interpolated
/// crossing with `obstacles[i]`.
pub open spec fn collisions_upto(
    m: RaySegment,
    obstacles: Seq<AxisLineSegment>,
    offsets: Seq<i32>,
    n: nat,
) -> Seq<(AxisLineSegment, IVec2)>
    decreases n,
{
    if n == 0 {
        Seq::empty()
    } else {
        let prev = collisions_upto(m, obstacles, offsets, (n - 1) as nat);
        match m.spec_intersects(obstacles[n - 1], offsets[n - 1]) {
            Some(c) => if c != m.origin {
                prev.push((obstacles[n - 1], c))
            } else {
                prev
            },
            None => prev,
        }
    }
}

/// The squared distance between two points.
pub open spec fn dist_sq(a: IVec2, b: IVec2) -> int {
    (a.x - b.x) * (a.x - b.x) + (a.y - b.y) * (a.y - b.y)
}

/// How far each collision is from the start of the ray, squared.
pub open spec fn collision_keys(m: RaySegment, cs: Seq<(AxisLineSegment, IVec2)>) -> Seq<i64> {
    Seq::new(cs.len(), |i: int| dist_sq(cs[i].1, m.origin) as i64)
}

/// The collisions nearest to the start of the ray, in their order.
pub open spec fn nearest(m: RaySegment, cs: Seq<(AxisLineSegment, IVec2)>) -> Seq<
    (AxisLineSegment, IVec2),
> {
    keep_min(cs, collision_keys(m, cs))
}

/// `v` with component `axis` negated.
pub open spec fn flip(v: IVec2, axis: int) -> IVec2 {
    v.set(axis, (-v.at(axis)) as i32)
}

/// `v` after bouncing off each obstacle of `cs` in turn: each negates the
/// component across the obstacle.
pub open spec fn bounce(v: IVec2, cs: Seq<(AxisLineSegment, IVec2)>) -> IVec2
    decreases cs.len(),
{
    if cs.len() == 0 {
        v
    } else {
        flip(bounce(v, cs.drop_last()), 1 - cs.last().0.axis)
    }
}

/// Where a movement ends, or how it goes on, given the collisions nearest to its start.
pub open spec fn ball_step(m: RaySegment, near: Seq<(AxisLineSegment, IVec2)>) -> BallMove {
    if near.len() == 0 {
        BallMove::Stopped(IVec2 { x: (m.origin.x + m.size.x) as i32, y: (m.origin.y + m.size.y) as i32 })
    } else {
        let c = near[0].1;
        let remaining = bounce(
            IVec2 {
                x: (m.size.x - (c.x - m.origin.x)) as i32,
                y: (m.size.y - (c.y - m.origin.y)) as i32,
            },
            near,
        );
        if remaining.x == 0 && remaining.y == 0 {
            BallMove::Stopped(c)
        } else {
            BallMove::Bounced(RaySegment { origin: c, size: remaining })
        }
    }
}

proof fn lemma_bounce_abs(v: IVec2, cs: Seq<(AxisLineSegment, IVec2)>)
    requires
        v.x != i32::MIN,
        v.y != i32::MIN,
        forall|i: int| 0 <= i < cs.len() ==> (#[trigger] cs[i]).0.axis < 2,
    ensures
        abs(bounce(v, cs).x as int) == abs(v.x as int),
        abs(bounce(v, cs).y as int) == abs(v.y as int),
    decreases cs.len(),
{
    if cs.len() > 0 {
        assert forall|i: int| 0 <= i < cs.drop_last().len() implies (
        #[trigger] cs.drop_last()[i]).0.axis < 2 by {
            assert(cs.drop_last()[i] == cs[i]);
        }
        lemma_bounce_abs(v, cs.drop_last());
        assert(cs.last() == cs[cs.len() - 1]);
    }
}

/// `c` is a collision of `m` with one of the first `n` obstacles: the ray
/// meets that obstacle at the point of `c`, and not where it starts.
pub open spec fn is_collision(
    m: RaySegment,
    obstacles: Seq<AxisLineSegment>,
    offsets: Seq<i32>,
    n: nat,
    c: (AxisLineSegment, IVec2),
) -> bool {
    exists|i: int|
        0 <= i < n && c.0 == obstacles[i] && m.spec_intersects(obstacles[i], offsets[i]) == Some(c.1)
            && c.1 != m.origin
}

proof fn lemma_collisions_upto(
    m: RaySegment,
    obstacles: Seq<AxisLineSegment>,
    offsets: Seq<i32>,
    n: nat,
)
    requires
        n <= obstacles.len(),
        n <= offsets.len(),
    ensures
        forall|j: int|
            0 <= j < collisions_upto(m, obstacles, offsets, n).len() ==> is_collision(
                m,
                obstacles,
                offsets,
                n,
                #[trigger] collisions_upto(m, obstacles, offsets, n)[j],
            ),
    decreases n,
{
    if n > 0 {
        let cs = collisions_upto(m, obstacles, offsets, n);
        let prev = collisions_upto(m, obstacles, offsets, (n - 1) as nat);
        lemma_collisions_upto(m, obstacles, offsets, (n - 1) as nat);
        assert forall|j: int| 0 <= j < cs.len() implies is_collision(
            m,
            obstacles,
            offsets,
            n,
            #[trigger] cs[j],
        ) by {
            if j < prev.len() {
                assert(cs[j] == prev[j]);
                assert(is_collision(m, obstacles, offsets, (n - 1) as nat, prev[j]));
                let i = choose|i: int|
                    0 <= i < n - 1 && prev[j].0 == obstacles[i] && m.spec_intersects(
                        obstacles[i],
                        offsets[i],
                    ) == Some(prev[j].1) && prev[j].1 != m.origin;
                assert(0 <= i < n);
            } else {
                let i = n - 1;
                assert(cs[j].0 == obstacles[i]);
            }
        }
    }
}

/// An obstacle that the ray meets away from its start gives a collision.
proof fn lemma_collisions_nonempty(
    m: RaySegment,
    obstacles: Seq<AxisLineSegment>,
    offsets: Seq<i32>,
    n: nat,
    i: int,
)
    requires
        0 <= i < n,
        n <= obstacles.len(),
        n <= offsets.len(),
        m.spec_intersects(obstacles[i], offsets[i]) matches Some(c) && c != m.origin,
    ensures
        collisions_upto(m, obstacles, offsets, n).len() > 0,
    decreases n,
{
    if i < n - 1 {
        lemma_collisions_nonempty(m, obstacles, offsets, (n - 1) as nat, i);
    }
}

proof fn lemma_near_in_cs(cs: Seq<(AxisLineSegment, IVec2)>, near: Seq<(AxisLineSegment, IVec2)>)
    requires
        forall|j: int| 0 <= j < near.len() ==> exists|i: int| 0 <= i < cs.len() && cs[i] == #[trigger] near[j],
        forall|i: int| 0 <= i < cs.len() ==> (#[trigger] cs[i]).0.axis < 2,
    ensures
        forall|j: int| 0 <= j < near.len() ==> (#[trigger] near[j]).0.axis < 2,
{
}

/// A movement from inside the arena that crosses a side wall's line without
/// meeting the wall there crosses it beyond an end of the arena, and so ends
/// beyond that end itself.
proof fn lemma_side_exit(g: GameState, m: RaySegment, offsets: Seq<i32>)
    requires
        g.wf(),
        m.wf(),
        offsets.len() == 6,
        forall|i: int| 0 <= i < 6 ==> m.offset_fits(g.spec_obstacles()[i], #[trigger] offsets[i]),
        g.in_arena(m.origin),
        g.heads_in(m),
        collisions_upto(m, g.spec_obstacles(), offsets, 6).len() == 0,
    ensures
        ({
            let ex = m.origin.x + m.size.x;
            let ey = m.origin.y + m.size.y;
            (0 <= ex <= g.arena_size.x) || ey < 0 || ey > g.arena_size.y
        }),
{
    let obs = g.spec_obstacles();
    let ex = m.origin.x + m.size.x;
    let ey = m.origin.y + m.size.y;
    if ex > g.arena_size.x {
        let w = obs[1];
        assert(w == AxisLineSegment { axis: 1, main_start: 0, main_end: g.arena_size.y, off: g.arena_size.x });
        assert(m.offset_fits(w, offsets[1]));
        let p = m.origin.y + offsets[1];
        if 0 <= p <= g.arena_size.y {
            assert(m.spec_intersects(w, offsets[1]) == Some(IVec2 { x: g.arena_size.x, y: p as i32 }));
            lemma_collisions_nonempty(m, obs, offsets, 6, 1);
        }
    } else if ex < 0 {
        let w = obs[0];
        assert(w == AxisLineSegment { axis: 1, main_start: 0, main_end: g.arena_size.y, off: 0 });
        assert(m.offset_fits(w, offsets[0]));
        let p = m.origin.y + offsets[0];
        if 0 <= p <= g.arena_size.y {
            assert(m.spec_intersects(w, offsets[0]) == Some(IVec2 { x: 0, y: p as i32 }));
            lemma_collisions_nonempty(m, obs, offsets, 6, 0);
        }
    }
}

/// With the paddles across the arena's length, a ball that ends beyond an
/// end of the arena has passed a goal line, so a goal is scored and the ball
/// goes back to the centre, which lies in the arena.
pub proof fn lemma_beyond_end_scores(g: GameState, p: IVec2)
    requires
        0 <= g.arena_size.x,
        0 <= g.left_paddle_pos.y,
        g.right_paddle_pos.y <= g.arena_size.y,
        p.y < 0 || p.y > g.arena_size.y,
    ensures
        g.right_scores(p) || g.left_scores(p),
        0 <= g.arena_size.y ==> g.in_arena(g.centre()),
{
}

/// One step of the ball's movement `m` in `g`, where `offsets` are its
/// crossings with the obstacles' lines (see `GameState::move_ball`).
pub open spec fn ball_step_in(g: GameState, m: RaySegment, offsets: Seq<i32>) -> BallMove {
    ball_step(m, nearest(m, collisions_upto(m, g.spec_obstacles(), offsets, 6)))
}

/// The steps of one movement of the ball: step `k` follows `moves[k]` with
/// crossings `offsets[k]`; each step but the last bounces into the next
/// movement, and the last stops the ball at `end`. Every step is one that the
/// game's arithmetic can follow, with crossings that fit.
pub open spec fn ball_path(
    g: GameState,
    moves: Seq<RaySegment>,
    offsets: Seq<Seq<i32>>,
    end: IVec2,
) -> bool {
    &&& moves.len() > 0
    &&& offsets.len() == moves.len()
    &&& forall|k: int| 0 <= k < moves.len() ==> g.can_follow(#[trigger] moves[k])
    &&& forall|k: int| 0 <= k < moves.len() ==> (#[trigger] offsets[k]).len() == 6
    &&& forall|k: int, i: int|
        0 <= k < moves.len() && 0 <= i < 6 ==> moves[k].offset_fits(
            g.spec_obstacles()[i],
            #[trigger] offsets[k][i],
        )
    &&& forall|k: int|
        0 <= k < moves.len() - 1 ==> ball_step_in(g, #[trigger] moves[k], offsets[k])
            == BallMove::Bounced(moves[k + 1])
    &&& ball_step_in(g, moves.last(), offsets.last()) == BallMove::Stopped(end)
}

/// The walls and paddles lie in the arena, laid out as in the default game:
/// the arena's sizes are not negative, and each paddle lies across the arena
/// between the side walls.
pub open spec fn laid_out(g: GameState) -> bool {
    let half = g.half_paddle();
    &&& 0 <= g.arena_size.x
    &&& 0 <= g.arena_size.y
    &&& 0 <= half
    &&& 0 <= g.left_paddle_pos.x - half
    &&& g.left_paddle_pos.x + half <= g.arena_size.x
    &&& 0 <= g.right_paddle_pos.x - half
    &&& g.right_paddle_pos.x + half <= g.arena_size.x
    &&& 0 <= g.left_paddle_pos.y <= g.arena_size.y
    &&& 0 <= g.right_paddle_pos.y <= g.arena_size.y
}

/// With the obstacles laid out in the arena, a point on one lies in the arena.
proof fn lemma_on_obstacle_in_arena(g: GameState, c: IVec2, i: int)
    requires
        g.wf(),
        laid_out(g),
        0 <= i < 6,
        on_segment(c, g.spec_obstacles()[i]),
    ensures
        g.in_arena(c),
{
}

/// Each movement of a path from inside the arena starts inside it: a bounce
/// happens on an obstacle, and the obstacles lie in the arena.
proof fn lemma_path_starts(
    g: GameState,
    moves: Seq<RaySegment>,
    offsets: Seq<Seq<i32>>,
    end: IVec2,
    k: int,
)
    requires
        g.wf(),
        laid_out(g),
        ball_path(g, moves, offsets, end),
        g.in_arena(moves[0].origin),
        0 <= k < moves.len(),
    ensures
        g.in_arena(moves[k].origin),
    decreases k,
{
    if k > 0 {
        lemma_path_starts(g, moves, offsets, end, k - 1);
        let m = moves[k - 1];
        let obs = g.spec_obstacles();
        let cs = collisions_upto(m, obs, offsets[k - 1], 6);
        assert(ball_step_in(g, m, offsets[k - 1]) == BallMove::Bounced(moves[k]));
        assert(forall|i: int| 0 <= i < 6 ==> m.offset_fits(obs[i], #[trigger] offsets[k - 1][i]));
        lemma_first_nearest(m, obs, offsets[k - 1], cs);
        let c = nearest(m, cs)[0].1;
        let i = choose|i: int| 0 <= i < 6 && on_segment(c, #[trigger] obs[i]);
        lemma_on_obstacle_in_arena(g, c, i);
    }
}

/// Over a whole tick the ball stays in the arena or a goal is scored: a
/// movement that starts in the arena, with no step heading out through a side
/// wall that it starts on, ends in the arena, or beyond a goal line, where the
/// ball goes back to the centre; either way the ball is in the arena when the
/// tick ends (see `GameState::finish_tick`).
pub proof fn lemma_ball_stays_in_arena(
    g: GameState,
    moves: Seq<RaySegment>,
    offsets: Seq<Seq<i32>>,
    end: IVec2,
)
    requires
        g.wf(),
        laid_out(g),
        ball_path(g, moves, offsets, end),
        g.in_arena(moves[0].origin),
        forall|k: int| 0 <= k < moves.len() ==> g.heads_in(#[trigger] moves[k]),
    ensures
        g.in_arena(end) || g.right_scores(end) || g.left_scores(end),
        g.in_arena(
            if g.right_scores(end) || g.left_scores(end) {
                g.centre()
            } else {
                end
            },
        ),
{
    let n = moves.len() - 1;
    let m = moves[n];
    let offs = offsets[n];
    let obs = g.spec_obstacles();
    let cs = collisions_upto(m, obs, offs, 6);
    lemma_path_starts(g, moves, offsets, end, n);
    assert(moves.last() == m && offsets.last() == offs);
    assert(ball_step_in(g, m, offs) == BallMove::Stopped(end));
    assert(g.can_follow(m));
    assert(g.heads_in(m));
    assert(forall|i: int| 0 <= i < 6 ==> m.offset_fits(obs[i], #[trigger] offs[i]));
    if nearest(m, cs).len() > 0 {
        lemma_first_nearest(m, obs, offs, cs);
        let c = nearest(m, cs)[0].1;
        let i = choose|i: int| 0 <= i < 6 && on_segment(c, #[trigger] obs[i]);
        lemma_on_obstacle_in_arena(g, c, i);
    } else {
        if cs.len() > 0 {
            lemma_keep_min_least(cs, collision_keys(m, cs));
        }
        lemma_side_exit(g, m, offs);
        if end.y < 0 || end.y > g.arena_size.y {
            lemma_beyond_end_scores(g, end);
        }
    }
    lemma_centre_in_arena(g);
}

/// The centre of an arena whose sizes are not negative lies in it.
proof fn lemma_centre_in_arena(g: GameState)
    requires
        0 <= g.arena_size.x,
        0 <= g.arena_size.y,
    ensures
        g.in_arena(g.centre()),
{
}

impl Default for GameState {
    fn default() -> (r: GameState)
        ensures
            r.arena_size == (IVec2 { x: 1000, y: 1500 }),
            r.left_paddle_pos == (IVec2 { x: 500, y: 100 }),
            r.right_paddle_pos == (IVec2 { x: 500, y: 1400 }),
            r.paddle_size == 100,
            r.ball_pos == (IVec2 { x: 500, y: 750 }),
            r.ball_dir == (IVec2 { x: 1, y: 1 }),
            r.ball_speed == 200,
            r.score == (0u32, 0u32),
            r.left_paddle_dir == 0,
            r.right_paddle_dir == 0,
            r.paddle_speed == 50,
            r.wf(),
    {
        let arena_size = IVec2::new(1000, 1500);
        let paddle_padding: i32 = 100;
        GameState {
            arena_size,
            left_paddle_pos: IVec2::new(arena_size.x / 2, paddle_padding),
            right_paddle_pos: IVec2::new(arena_size.x / 2, arena_size.y - paddle_padding),
            paddle_size: 100,
            ball_pos: IVec2::new(arena_size.x / 2, arena_size.y / 2),
            ball_dir: IVec2::new(1, 1),
            ball_speed: 200,
            score: (0, 0),
            left_paddle_dir: 0,
            right_paddle_dir: 0,
            paddle_speed: 50,
        }
    }
}

/// `value` brought into `[min, max]`, as `i32::clamp` does.
fn clamp_i32(value: i32, min: i32, max: i32) -> (r: i32)
    requires
        min <= max,
    ensures
        r == clamp(value as int, min as int, max as int),
{
    if value < min {
        min
    } else if value > max {
        max
    } else {
        value
    }
}

/// `v` brought into `[lo, hi]`.
pub open spec fn clamp(v: int, lo: int, hi: int) -> int {
    if v < lo {
        lo
    } else if v > hi {
        hi
    } else {
        v
    }
}

/// Where a paddle at `pos` goes in a tick, moving in direction `dir` at `speed`.
pub open spec fn paddle_step(pos: i32, dir: i8, speed: u32) -> int {
    pos + (dir as int) * (speed as i32 as int)
}

/// A paddle's move fits the machine's integers.
pub open spec fn paddle_step_fits(pos: i32, dir: i8, speed: u32) -> bool {
    &&& i32::MIN <= (dir as int) * (speed as i32 as int) <= i32::MAX
    &&& i32::MIN <= paddle_step(pos, dir, speed) <= i32::MAX
}

/// `c` lies within the box spanned by the movement `m`, on its side of the
/// start on each axis.
pub open spec fn within_move(m: RaySegment, c: IVec2) -> bool {
    &&& between(c.x - m.origin.x, m.size.x as int)
    &&& between(c.y - m.origin.y, m.size.y as int)
}

/// Squares grow with absolute values.
proof fn lemma_abs_sq(a: int, b: int)
    requires
        abs(a) <= abs(b),
    ensures
        0 <= a * a <= b * b,
{
    let x = abs(a);
    let y = abs(b);
    assert(0 <= x * x <= y * y) by (nonlinear_arith)
        requires
            0 <= x <= y,
    ;
    assert(a * a == x * x) by (nonlinear_arith)
        requires
            x == a || x == -a,
    ;
    assert(b * b == y * y) by (nonlinear_arith)
        requires
            y == b || y == -b,
    ;
}

/// A movement whose squared length fits in an `i32` has no component at
/// `i32::MIN`, and each squared component fits too.
proof fn lemma_short_move(s: IVec2)
    requires
        s.length_sq() <= i32::MAX,
    ensures
        s.x != i32::MIN,
        s.y != i32::MIN,
        0 <= s.x * s.x <= i32::MAX,
        0 <= s.y * s.y <= i32::MAX,
{
    let x = s.x as int;
    let y = s.y as int;
    assert(0 <= x * x && 0 <= y * y) by (nonlinear_arith);
    if x == i32::MIN {
        assert(x * x > i32::MAX) by (nonlinear_arith)
            requires
                x == -0x8000_0000,
        ;
    }
    if y == i32::MIN {
        assert(y * y > i32::MAX) by (nonlinear_arith)
            requires
                y == -0x8000_0000,
        ;
    }
}

/// A point within a movement is as near to its start as the movement is
/// long, so the game's arithmetic on the distance fits.
proof fn lemma_within_move(m: RaySegment, c: IVec2)
    requires
        m.wf(),
        within_move(m, c),
    ensures
        fits_i32(c.x - m.origin.x),
        fits_i32(c.y - m.origin.y),
        0 <= dist_sq(c, m.origin) <= m.size.length_sq(),
{
    lemma_short_move(m.size);
    lemma_abs_sq(c.x - m.origin.x, m.size.x as int);
    lemma_abs_sq(c.y - m.origin.y, m.size.y as int);
}

/// Each obstacle that the ray meets away from its start is among the collisions.
proof fn lemma_collision_member(
    m: RaySegment,
    obstacles: Seq<AxisLineSegment>,
    offsets: Seq<i32>,
    n: nat,
    i: int,
    c: IVec2,
)
    requires
        0 <= i < n,
        n <= obstacles.len(),
        n <= offsets.len(),
        m.spec_intersects(obstacles[i], offsets[i]) == Some(c),
        c != m.origin,
    ensures
        exists|j: int|
            0 <= j < collisions_upto(m, obstacles, offsets, n).len() && #[trigger] collisions_upto(
                m,
                obstacles,
                offsets,
                n,
            )[j] == (obstacles[i], c),
    decreases n,
{
    let cs = collisions_upto(m, obstacles, offsets, n);
    let prev = collisions_upto(m, obstacles, offsets, (n - 1) as nat);
    if i < n - 1 {
        lemma_collision_member(m, obstacles, offsets, (n - 1) as nat, i, c);
        let j = choose|j: int| 0 <= j < prev.len() && #[trigger] prev[j] == (obstacles[i], c);
        assert(cs[j] == prev[j]);
    } else {
        assert(cs[prev.len() as int] == (obstacles[i], c));
    }
}

/// Where a ray meets a line, it is within the movement.
proof fn lemma_meeting_on_ray(m: RaySegment, line: AxisLineSegment, offset: i32)
    requires
        m.wf(),
        line.wf(),
        m.dist_fits(line),
        m.offset_fits(line, offset),
    ensures
        m.spec_intersects(line, offset) matches Some(c) ==> within_move(m, c),
{
}

/// What the first of the nearest collisions of a movement is: a point on one
/// of the obstacles, within the movement; and what is left of the movement after it
/// is no longer than the movement on either axis, and strictly shorter across
/// that obstacle.
proof fn lemma_first_nearest(
    m: RaySegment,
    obs: Seq<AxisLineSegment>,
    offsets: Seq<i32>,
    cs: Seq<(AxisLineSegment, IVec2)>,
)
    requires
        m.wf(),
        obs.len() == 6,
        offsets.len() == 6,
        forall|k: int| 0 <= k < 6 ==> (#[trigger] obs[k]).wf(),
        forall|k: int| 0 <= k < 6 ==> m.dist_fits(#[trigger] obs[k]),
        forall|k: int| 0 <= k < 6 ==> m.offset_fits(obs[k], #[trigger] offsets[k]),
        cs == collisions_upto(m, obs, offsets, 6),
        nearest(m, cs).len() > 0,
    ensures
        ({
            let near = nearest(m, cs);
            let c = near[0].1;
            let rem = IVec2 {
                x: (m.size.x - (c.x - m.origin.x)) as i32,
                y: (m.size.y - (c.y - m.origin.y)) as i32,
            };
            &&& forall|k: int| 0 <= k < near.len() ==> (#[trigger] near[k]).0.axis < 2
            &&& within_move(m, c)
            &&& exists|i: int| 0 <= i < 6 && on_segment(c, #[trigger] obs[i])
            &&& abs(rem.x as int) <= abs(m.size.x as int)
            &&& abs(rem.y as int) <= abs(m.size.y as int)
            &&& rem.manhattan() < m.size.manhattan()
            &&& i32::MIN <= m.size.x - (c.x - m.origin.x) <= i32::MAX
            &&& i32::MIN <= m.size.y - (c.y - m.origin.y) <= i32::MAX
        }),
{
    let near = nearest(m, cs);
    let keys = collision_keys(m, cs);
    lemma_collisions_upto(m, obs, offsets, 6);
    lemma_keep_min_members(cs, keys);
    assert(keyed_member(cs, keys, near[0], min_key(keys)));
    let j = choose|j: int| 0 <= j < cs.len() && cs[j] == near[0] && keys[j] == min_key(keys);
    assert(is_collision(m, obs, offsets, 6, cs[j]));
    let i = choose|i: int|
        0 <= i < 6 && cs[j].0 == obs[i] && m.spec_intersects(obs[i], offsets[i]) == Some(cs[j].1)
            && cs[j].1 != m.origin;
    assert(on_segment(near[0].1, obs[i]));
    lemma_meeting_on_ray(m, obs[i], offsets[i]);
    assert forall|k: int| 0 <= k < cs.len() implies (#[trigger] cs[k]).0.axis < 2 by {
        assert(is_collision(m, obs, offsets, 6, cs[k]));
    }
    lemma_near_in_cs(cs, near);
}

/// The ball stops or bounces where its movement first meets an obstacle: if
/// the movement meets obstacle `i` at `c` (away from its start), there is a
/// nearest collision, and it is no farther from the start than `c`, by
/// squared Euclidean distance.
pub proof fn lemma_first_meeting(
    m: RaySegment,
    obs: Seq<AxisLineSegment>,
    offsets: Seq<i32>,
    i: int,
    c: IVec2,
)
    requires
        m.wf(),
        obs.len() == 6,
        offsets.len() == 6,
        forall|k: int| 0 <= k < 6 ==> (#[trigger] obs[k]).wf(),
        forall|k: int| 0 <= k < 6 ==> m.dist_fits(#[trigger] obs[k]),
        forall|k: int| 0 <= k < 6 ==> m.offset_fits(obs[k], #[trigger] offsets[k]),
        0 <= i < 6,
        m.spec_intersects(obs[i], offsets[i]) == Some(c),
        c != m.origin,
    ensures
        ({
            let near = nearest(m, collisions_upto(m, obs, offsets, 6));
            let p = near[0].1;
            let o = m.origin;
            &&& near.len() > 0
            &&& (p.x - o.x) * (p.x - o.x) + (p.y - o.y) * (p.y - o.y) <= (c.x - o.x) * (c.x - o.x) + (
            c.y - o.y) * (c.y - o.y)
        }),
{
    let cs = collisions_upto(m, obs, offsets, 6);
    let keys = collision_keys(m, cs);
    let near = nearest(m, cs);
    lemma_collision_member(m, obs, offsets, 6, i, c);
    let j = choose|j: int| 0 <= j < cs.len() && #[trigger] cs[j] == (obs[i], c);
    lemma_keep_min_least(cs, keys);
    lemma_keep_min_members(cs, keys);
    assert(keyed_member(cs, keys, near[0], min_key(keys)));
    let j0 = choose|j0: int| 0 <= j0 < cs.len() && cs[j0] == near[0] && keys[j0] == min_key(keys);
    lemma_collisions_upto(m, obs, offsets, 6);
    assert(is_collision(m, obs, offsets, 6, cs[j0]));
    let k = choose|k: int|
        0 <= k < 6 && cs[j0].0 == obs[k] && m.spec_intersects(obs[k], offsets[k]) == Some(cs[j0].1)
            && cs[j0].1 != m.origin;
    lemma_meeting_on_ray(m, obs[k], offsets[k]);
    lemma_within_move(m, cs[j0].1);
    lemma_meeting_on_ray(m, obs[i], offsets[i]);
    lemma_within_move(m, c);
    assert(keys[j] == dist_sq(c, m.origin) as i64);
    assert(keys[j0] == dist_sq(near[0].1, m.origin) as i64);
    assert(min_key(keys) <= keys[j]);
}

/// The server's copy of the game.
pub struct GameState {
    pub arena_size: IVec2,
    pub left_paddle_pos: IVec2,
    pub right_paddle_pos: IVec2,
    pub paddle_size: u32,
    pub ball_pos: IVec2,
    pub ball_dir: IVec2,
    pub ball_speed: u32,
    pub score: (u32, u32),
    pub left_paddle_dir: i8,
    pub right_paddle_dir: i8,
    pub paddle_speed: u32,
}

impl GameState {
    /// Half a paddle, as the game computes it.
    pub open spec fn half_paddle(self) -> int {
        half_toward_zero(self.paddle_size as i32 as int)
    }

    /// The paddles' ends fit in an `i32`, and the ball's direction can be reversed.
    pub open spec fn wf(self) -> bool {
        &&& fits_i32(self.left_paddle_pos.x - self.half_paddle())
        &&& fits_i32(self.left_paddle_pos.x + self.half_paddle())
        &&& fits_i32(self.right_paddle_pos.x - self.half_paddle())
        &&& fits_i32(self.right_paddle_pos.x + self.half_paddle())
        &&& self.ball_dir.x != i32::MIN
        &&& self.ball_dir.y != i32::MIN
    }

    /// The game's arithmetic can follow `m`: the movement itself fits (`wf`),
    /// and so does its distance to each obstacle's line.
    pub open spec fn can_follow(self, m: RaySegment) -> bool {
        &&& m.wf()
        &&& forall|i: int| 0 <= i < 6 ==> m.dist_fits(#[trigger] self.spec_obstacles()[i])
    }

    /// All obstacles in the arena: the four walls, then the two paddles.
    pub open spec fn spec_obstacles(self) -> Seq<AxisLineSegment> {
        let half = self.half_paddle() as i32;
        seq![
            // Horizontal walls
            segment(1, 0, self.arena_size.y, 0),
            segment(1, 0, self.arena_size.y, self.arena_size.x),
            // Vertical walls
            segment(0, 0, self.arena_size.x, 0),
            segment(0, 0, self.arena_size.x, self.arena_size.y),
            // Paddles
            segment(
                0,
                (self.left_paddle_pos.x - half) as i32,
                (self.left_paddle_pos.x + half) as i32,
                self.left_paddle_pos.y,
            ),
            segment(
                0,
                (self.right_paddle_pos.x - half) as i32,
                (self.right_paddle_pos.x + half) as i32,
                self.right_paddle_pos.y,
            ),
        ]
    }

    /// All obstacles in the arena, and the axis along which they run.
    pub fn obstacles(&self) -> (r: Vec<AxisLineSegment>)
        requires
            i32::MIN <= self.left_paddle_pos.x - self.half_paddle() <= i32::MAX,
            i32::MIN <= self.left_paddle_pos.x + self.half_paddle() <= i32::MAX,
            i32::MIN <= self.right_paddle_pos.x - self.half_paddle() <= i32::MAX,
            i32::MIN <= self.right_paddle_pos.x + self.half_paddle() <= i32::MAX,
        ensures
            r@ == self.spec_obstacles(),
            self.wf() ==> forall|i: int| 0 <= i < r@.len() ==> (#[trigger] r@[i]).wf(),
    {
        let half = self.paddle_size as i32 / 2;
        let mut r: Vec<AxisLineSegment> = Vec::new();
        // Horizontal walls
        r.push(AxisLineSegment::new(1, 0, self.arena_size.y, 0));
        r.push(AxisLineSegment::new(1, 0, self.arena_size.y, self.arena_size.x));
        // Vertical walls
        r.push(AxisLineSegment::new(0, 0, self.arena_size.x, 0));
        r.push(AxisLineSegment::new(0, 0, self.arena_size.x, self.arena_size.y));
        // Paddles
        r.push(
            AxisLineSegment::new(
                0,
                self.left_paddle_pos.x - half,
                self.left_paddle_pos.x + half,
                self.left_paddle_pos.y,
            ),
        );
        r.push(
            AxisLineSegment::new(
                0,
                self.right_paddle_pos.x - half,
                self.right_paddle_pos.x + half,
                self.right_paddle_pos.y,
            ),
        );
        assert(r@ =~= self.spec_obstacles());
        r
    }

    /// Whether the state is well-formed (`wf`).
    pub fn in_play(&self) -> (r: bool)
        ensures
            r == self.wf(),
    {
        let half = (self.paddle_size as i32 / 2) as i64;
        let min = i32::MIN as i64;
        let max = i32::MAX as i64;
        let lx = self.left_paddle_pos.x as i64;
        let rx = self.right_paddle_pos.x as i64;
        min <= lx - half && lx - half <= max && min <= lx + half && lx + half <= max && min <= rx
            - half && rx - half <= max && min <= rx + half && rx + half <= max && self.ball_dir.x
            != i32::MIN && self.ball_dir.y != i32::MIN
    }

    /// Whether the game's arithmetic can follow `m` (`can_follow`).
    pub fn check_follow(&self, m: &RaySegment) -> (r: bool)
        requires
            self.wf(),
        ensures
            r == self.can_follow(*m),
    {
        let min = i32::MIN as i64;
        let max = i32::MAX as i64;
        let sx = m.size.x as i64;
        let sy = m.size.y as i64;
        proof {
            assert(0 <= sx * sx <= 0x4000_0000_0000_0000) by (nonlinear_arith)
                requires
                    -0x8000_0000 <= sx <= 0x7fff_ffff,
            ;
            assert(0 <= sy * sy <= 0x4000_0000_0000_0000) by (nonlinear_arith)
                requires
                    -0x8000_0000 <= sy <= 0x7fff_ffff,
            ;
        }
        let sx2 = sx * sx;
        let sy2 = sy * sy;
        let ex = m.origin.x as i64 + sx;
        let ey = m.origin.y as i64 + sy;
        if !(sx2 <= max && sy2 <= max - sx2 && min <= ex && ex <= max && min <= ey && ey <= max) {
            return false;
        }
        let obstacles = self.obstacles();
        let mut i: usize = 0;
        while i < 6
            invariant
                i <= 6,
                obstacles@ == self.spec_obstacles(),
                min == i32::MIN,
                max == i32::MAX,
                m.wf(),
                forall|k: int| 0 <= k < 6 ==> (#[trigger] obstacles@[k]).wf(),
                forall|k: int| 0 <= k < i ==> m.dist_fits(#[trigger] self.spec_obstacles()[k]),
            decreases 6 - i,
        {
            let line = obstacles[i];
            let d = line.off as i64 - m.origin.get(1 - line.axis) as i64;
            assert(line == self.spec_obstacles()[i as int]);
            assert(d == m.dist_to(line));
            if !(min <= d && d <= max) {
                return false;
            }
            i = i + 1;
        }
        true
    }

    /// Whether ending a tick with the ball at `pos` fits the machine's integers (`finish_fits`).
    pub fn can_finish_tick(&self, pos: &IVec2) -> (r: bool)
        ensures
            r == self.finish_fits(*pos),
    {
        let half = (self.paddle_size as i32 / 2) as i64;
        let top = self.arena_size.x as i64 - half;
        let speed = self.paddle_speed as i32 as i64;
        proof {
            let s = speed as int;
            let l = self.left_paddle_dir as int;
            let r = self.right_paddle_dir as int;
            assert(-0x80_0000_0000 <= l * s <= 0x80_0000_0000) by (nonlinear_arith)
                requires
                    -0x8000_0000 <= s < 0x8000_0000,
                    -128 <= l < 128,
            ;
            assert(-0x80_0000_0000 <= r * s <= 0x80_0000_0000) by (nonlinear_arith)
                requires
                    -0x8000_0000 <= s < 0x8000_0000,
                    -128 <= r < 128,
            ;
        }
        let left_move = self.left_paddle_dir as i64 * speed;
        let right_move = self.right_paddle_dir as i64 * speed;
        let min = i32::MIN as i64;
        let max = i32::MAX as i64;
        let left = self.left_paddle_pos.x as i64 + left_move;
        let right = self.right_paddle_pos.x as i64 + right_move;
        let right_scores = pos.y < self.left_paddle_pos.y;
        let left_scores = !right_scores && pos.y > self.right_paddle_pos.y;
        min <= top && top <= max && half <= top && min <= left_move && left_move <= max && min
            <= left && left <= max && min <= right_move && right_move <= max && min <= right
            && right <= max && (!right_scores || self.score.1 < u32::MAX) && (!left_scores
            || self.score.0 < u32::MAX)
    }

    /// The centre of the arena, where the ball starts.
    pub open spec fn centre(self) -> IVec2 {
        IVec2 {
            x: half_toward_zero(self.arena_size.x as int) as i32,
            y: half_toward_zero(self.arena_size.y as int) as i32,
        }
    }

    /// The ball goes back to the centre of the arena.
    pub fn reset_ball(&mut self)
        ensures
            final(self).ball_pos == old(self).centre(),
            old(self).same_but_position(*final(self), old(self).centre()),
    {
        self.ball_pos = IVec2::new(self.arena_size.x / 2, self.arena_size.y / 2);
    }

    /// `other` is this state with the ball moved to `pos`.
    pub open spec fn same_but_position(self, other: GameState, pos: IVec2) -> bool {
        &&& other.arena_size == self.arena_size
        &&& other.left_paddle_pos == self.left_paddle_pos
        &&& other.right_paddle_pos == self.right_paddle_pos
        &&& other.paddle_size == self.paddle_size
        &&& other.ball_pos == pos
        &&& other.ball_dir == self.ball_dir
        &&& other.ball_speed == self.ball_speed
        &&& other.score == self.score
        &&& other.left_paddle_dir == self.left_paddle_dir
        &&& other.right_paddle_dir == self.right_paddle_dir
        &&& other.paddle_speed == self.paddle_speed
    }

    /// The ball at `pos` is past the left paddle: the right player scores.
    pub open spec fn right_scores(self, pos: IVec2) -> bool {
        pos.y < self.left_paddle_pos.y
    }

    /// The ball at `pos` is past the right paddle (and not the left): the left player scores.
    pub open spec fn left_scores(self, pos: IVec2) -> bool {
        !self.right_scores(pos) && pos.y > self.right_paddle_pos.y
    }

    /// Ending a tick with the ball at `pos` fits the machine's integers: the
    /// paddles' range is not empty, their moves fit, and a score that goes up can.
    pub open spec fn finish_fits(self, pos: IVec2) -> bool {
        let half = self.half_paddle();
        &&& i32::MIN <= self.arena_size.x - half <= i32::MAX
        &&& half <= self.arena_size.x - half
        &&& paddle_step_fits(self.left_paddle_pos.x, self.left_paddle_dir, self.paddle_speed)
        &&& paddle_step_fits(self.right_paddle_pos.x, self.right_paddle_dir, self.paddle_speed)
        &&& self.right_scores(pos) ==> self.score.1 < u32::MAX
        &&& self.left_scores(pos) ==> self.score.0 < u32::MAX
    }

    /// The rest of a tick, once the ball has moved to `ball_pos`: a ball past
    /// a paddle scores for the other side and goes back to the centre; then
    /// each paddle moves in its direction at the paddles' speed, kept within
    /// the arena.
    pub fn finish_tick(&mut self, ball_pos: IVec2)
        requires
            old(self).finish_fits(ball_pos),
        ensures
            ({
                let g = *old(self);
                let half = g.half_paddle();
                &&& final(self).ball_pos == if g.right_scores(ball_pos) || g.left_scores(ball_pos) {
                    g.centre()
                } else {
                    ball_pos
                }
                &&& final(self).score == if g.right_scores(ball_pos) {
                    (g.score.0, (g.score.1 + 1) as u32)
                } else if g.left_scores(ball_pos) {
                    ((g.score.0 + 1) as u32, g.score.1)
                } else {
                    g.score
                }
                &&& final(self).left_paddle_pos == IVec2 {
                    x: clamp(
                        paddle_step(g.left_paddle_pos.x, g.left_paddle_dir, g.paddle_speed),
                        half,
                        g.arena_size.x - half,
                    ) as i32,
                    y: g.left_paddle_pos.y,
                }
                &&& final(self).right_paddle_pos == IVec2 {
                    x: clamp(
                        paddle_step(g.right_paddle_pos.x, g.right_paddle_dir, g.paddle_speed),
                        half,
                        g.arena_size.x - half,
                    ) as i32,
                    y: g.right_paddle_pos.y,
                }
                &&& final(self).arena_size == g.arena_size
                &&& final(self).paddle_size == g.paddle_size
                &&& final(self).ball_dir == g.ball_dir
                &&& final(self).ball_speed == g.ball_speed
                &&& final(self).left_paddle_dir == g.left_paddle_dir
                &&& final(self).right_paddle_dir == g.right_paddle_dir
                &&& final(self).paddle_speed == g.paddle_speed
            }),
            // Paddles stay inside the arena.
            old(self).half_paddle() <= final(self).left_paddle_pos.x <= old(self).arena_size.x
                - old(self).half_paddle(),
            old(self).half_paddle() <= final(self).right_paddle_pos.x <= old(self).arena_size.x
                - old(self).half_paddle(),
            // Well-formed states stay well-formed.
            old(self).wf() && 0 <= old(self).half_paddle() ==> final(self).wf(),
    {
        self.ball_pos = ball_pos;
        // Check if anyone has scored
        if self.ball_pos.y < self.left_paddle_pos.y {
            // Right score
            self.score.1 = self.score.1 + 1;
            self.reset_ball();
        } else if self.ball_pos.y > self.right_paddle_pos.y {
            // Left score
            self.score.0 = self.score.0 + 1;
            self.reset_ball();
        }
        // Move paddles
        let half = self.paddle_size as i32 / 2;
        let left = self.left_paddle_pos.x + self.left_paddle_dir as i32 * self.paddle_speed as i32;
        self.left_paddle_pos.x = clamp_i32(left, half, self.arena_size.x - half);
        let right = self.right_paddle_pos.x + self.right_paddle_dir as i32
            * self.paddle_speed as i32;
        self.right_paddle_pos.x = clamp_i32(right, half, self.arena_size.x - half);
    }

    /// `p` lies between the side walls, which the ball bounces off.
    pub open spec fn between_sides(self, p: IVec2) -> bool {
        0 <= p.x <= self.arena_size.x
    }

    /// `p` lies in the arena.
    pub open spec fn in_arena(self, p: IVec2) -> bool {
        self.between_sides(p) && 0 <= p.y <= self.arena_size.y
    }

    /// `m` does not start on a side wall heading out through it.
    pub open spec fn heads_in(self, m: RaySegment) -> bool {
        &&& m.origin.x == 0 ==> m.size.x >= 0
        &&& m.origin.x == self.arena_size.x ==> m.size.x <= 0
    }

    /// `other` is this state with the ball's direction replaced by `dir`.
    pub open spec fn same_but_direction(self, other: GameState, dir: IVec2) -> bool {
        &&& other.arena_size == self.arena_size
        &&& other.left_paddle_pos == self.left_paddle_pos
        &&& other.right_paddle_pos == self.right_paddle_pos
        &&& other.paddle_size == self.paddle_size
        &&& other.ball_pos == self.ball_pos
        &&& other.ball_dir == dir
        &&& other.ball_speed == self.ball_speed
        &&& other.score == self.score
        &&& other.left_paddle_dir == self.left_paddle_dir
        &&& other.right_paddle_dir == self.right_paddle_dir
        &&& other.paddle_speed == self.paddle_speed
    }

    /// One step of moving the ball along `movement`. `offsets[i]` is where the
    /// movement crosses the line of obstacle `i` (see `RaySegment::crossing`).
    ///
    /// Of the obstacles that the movement meets, away from its start, the
    /// nearest count: without any, the ball ends where the movement does.
    /// Otherwise it is stopped at the first nearest collision point; each
    /// nearest obstacle reverses the direction of the ball, and of what is left
    /// of the movement, across itself. The ball stops there when nothing is
    /// left, and goes on with what is left otherwise: that is strictly shorter
    /// than the movement, so the steps of one movement come to an end.
    pub fn move_ball(&mut self, movement: &RaySegment, offsets: &Vec<i32>) -> (r: BallMove)
        requires
            old(self).wf(),
            old(self).can_follow(*movement),
            offsets@.len() == 6,
            forall|i: int|
                0 <= i < 6 ==> movement.offset_fits(
                    old(self).spec_obstacles()[i],
                    #[trigger] offsets@[i],
                ),
        ensures
            ({
                let near = nearest(
                    *movement,
                    collisions_upto(*movement, old(self).spec_obstacles(), offsets@, 6),
                );
                &&& r == ball_step(*movement, near)
                &&& old(self).same_but_direction(*final(self), bounce(old(self).ball_dir, near))
                // A ball stopped by what it meets is stopped on an obstacle.
                &&& near.len() > 0 ==> exists|i: int|
                    0 <= i < 6 && on_segment(near[0].1, #[trigger] old(self).spec_obstacles()[i])
                // A movement that starts in the arena, not heading out through a
                // side wall it is on, and meets nothing, ends between the side
                // walls or beyond an end of the arena (where a goal is scored).
                &&& near.len() == 0 && old(self).in_arena(movement.origin) && old(self).heads_in(
                    *movement,
                ) ==> ({
                    let end = IVec2 {
                        x: (movement.origin.x + movement.size.x) as i32,
                        y: (movement.origin.y + movement.size.y) as i32,
                    };
                    old(self).between_sides(end) || end.y < 0 || end.y > old(self).arena_size.y
                })
            }),
            final(self).wf(),
            abs(final(self).ball_dir.x as int) == abs(old(self).ball_dir.x as int),
            abs(final(self).ball_dir.y as int) == abs(old(self).ball_dir.y as int),
            // What is left of a movement after a bounce is no longer on either
            // axis, so its squared length still fits, and strictly shorter in all.
            r matches BallMove::Bounced(next) ==> {
                &&& abs(next.size.x as int) <= abs(movement.size.x as int)
                &&& abs(next.size.y as int) <= abs(movement.size.y as int)
                &&& next.size.length_sq() <= movement.size.length_sq()
                &&& next.size.manhattan() < movement.size.manhattan()
            },
            // The ball is stopped or bounced where the movement first meets an
            // obstacle: no farther from the start, by squared distance, than any
            // point where the movement meets an obstacle away from its start.
            forall|i: int|
                0 <= i < 6 ==> match movement.spec_intersects(
                    #[trigger] old(self).spec_obstacles()[i],
                    offsets@[i],
                ) {
                    Some(c) => c != movement.origin ==> {
                        let o = movement.origin;
                        let p = match r {
                            BallMove::Stopped(p) => p,
                            BallMove::Bounced(next) => next.origin,
                        };
                        (p.x - o.x) * (p.x - o.x) + (p.y - o.y) * (p.y - o.y) <= (c.x - o.x) * (c.x
                            - o.x) + (c.y - o.y) * (c.y - o.y)
                    },
                    None => true,
                },
            // A bounce happens on an obstacle.
            r matches BallMove::Bounced(next) ==> exists|i: int|
                0 <= i < 6 && on_segment(next.origin, #[trigger] old(self).spec_obstacles()[i]),
    {
        let obstacles = self.obstacles();
        let ghost obs = obstacles@;
        let mut collisions: Vec<(AxisLineSegment, IVec2)> = Vec::new();
        let mut i: usize = 0;
        while i < 6
            invariant
                i <= 6,
                obstacles@ == obs,
                obs == old(self).spec_obstacles(),
                obs.len() == 6,
                offsets@.len() == 6,
                forall|k: int| 0 <= k < 6 ==> (#[trigger] obs[k]).wf(),
                movement.wf(),
                forall|k: int| 0 <= k < 6 ==> movement.dist_fits(#[trigger] obs[k]),
                forall|k: int| 0 <= k < 6 ==> movement.offset_fits(obs[k], #[trigger] offsets@[k]),
                collisions@ == collisions_upto(*movement, obs, offsets@, i as nat),
            decreases 6 - i,
        {
            let line = obstacles[i];
            let hit = movement.intersects(&line, offsets[i]);
            match hit {
                Some(c) => {
                    // Can't collide with objects we're ontop of
                    if c != movement.origin {
                        collisions.push((line, c));
                    }
                },
                None => {},
            }
            i = i + 1;
        }
        let ghost cs = collisions@;
        proof {
            lemma_collisions_upto(*movement, obs, offsets@, 6);
            assert forall|j: int| 0 <= j < cs.len() implies ({
                let c = (#[trigger] cs[j]).1;
                &&& fits_i32(c.x - movement.origin.x)
                &&& fits_i32(c.y - movement.origin.y)
                &&& dist_sq(c, movement.origin) <= i32::MAX
            }) by {
                assert(is_collision(*movement, obs, offsets@, 6, cs[j]));
                let k = choose|k: int|
                    0 <= k < 6 && cs[j].0 == obs[k] && movement.spec_intersects(obs[k], offsets@[k])
                        == Some(cs[j].1) && cs[j].1 != movement.origin;
                lemma_meeting_on_ray(*movement, obs[k], offsets@[k]);
                lemma_within_move(*movement, cs[j].1);
            }
        }
        let origin = movement.origin;
        let key_of = |item: &(AxisLineSegment, IVec2)| -> (k: i64)
            requires
                fits_i32(item.1.x - origin.x),
                fits_i32(item.1.y - origin.y),
                dist_sq(item.1, origin) <= i32::MAX,
            ensures
                k == dist_sq(item.1, origin),
            { item.1.distance_squared(&origin) as i64 };
        let near = collisions.mins_by_key(key_of);
        proof {
            let keys = choose|keys: Seq<i64>|
                {
                    &&& keys.len() == cs.len()
                    &&& forall|i: int|
                        0 <= i < keys.len() ==> key_of.ensures((&cs[i],), #[trigger] keys[i])
                    &&& near@ == keep_min(cs, keys)
                };
            assert(keys =~= collision_keys(*movement, cs));
        }
        assert(near@ == nearest(*movement, cs));
        if near.len() == 0 {
            proof {
                if cs.len() > 0 {
                    lemma_keep_min_least(cs, collision_keys(*movement, cs));
                }
                if old(self).in_arena(movement.origin) && old(self).heads_in(*movement) {
                    lemma_side_exit(*old(self), *movement, offsets@);
                }
                assert forall|k: int| 0 <= k < 6 implies match movement.spec_intersects(
                    #[trigger] obs[k],
                    offsets@[k],
                ) {
                    Some(c) => c == movement.origin,
                    None => true,
                } by {
                    if let Some(c) = movement.spec_intersects(obs[k], offsets@[k]) {
                        if c != movement.origin {
                            lemma_first_meeting(*movement, obs, offsets@, k, c);
                        }
                    }
                }
            }
            // Ball did not collide, so just displace and return
            return BallMove::Stopped(movement.origin.add(&movement.size));
        }
        let collision = near[0].1;
        proof {
            lemma_first_nearest(*movement, obs, offsets@, cs);
            assert forall|k: int| 0 <= k < 6 implies match movement.spec_intersects(
                #[trigger] obs[k],
                offsets@[k],
            ) {
                Some(c) => c != movement.origin ==> {
                    let o = movement.origin;
                    (collision.x - o.x) * (collision.x - o.x) + (collision.y - o.y) * (collision.y
                        - o.y) <= (c.x - o.x) * (c.x - o.x) + (c.y - o.y) * (c.y - o.y)
                },
                None => true,
            } by {
                if let Some(c) = movement.spec_intersects(obs[k], offsets@[k]) {
                    if c != movement.origin {
                        lemma_first_meeting(*movement, obs, offsets@, k, c);
                    }
                }
            }
            lemma_within_move(*movement, collision);
            lemma_short_move(movement.size);
        }
        // Move ball
        let dist = collision.sub(&movement.origin);
        let mut remaining = movement.size.sub(&dist);
        let ghost rem0 = remaining;
        let mut dir = self.ball_dir;
        let ghost dir0 = dir;
        // Bounce off obstacles
        let mut j: usize = 0;
        while j < near.len()
            invariant
                j <= near@.len(),
                forall|k: int| 0 <= k < near@.len() ==> (#[trigger] near@[k]).0.axis < 2,
                remaining == bounce(rem0, near@.take(j as int)),
                dir == bounce(dir0, near@.take(j as int)),
                abs(remaining.x as int) == abs(rem0.x as int),
                abs(remaining.y as int) == abs(rem0.y as int),
                abs(dir.x as int) == abs(dir0.x as int),
                abs(dir.y as int) == abs(dir0.y as int),
                rem0.x != i32::MIN,
                rem0.y != i32::MIN,
                dir0.x != i32::MIN,
                dir0.y != i32::MIN,
            decreases near@.len() - j,
        {
            let axis = 1 - near[j].0.axis;
            remaining = remaining.flipped(axis);
            dir = dir.flipped(axis);
            j = j + 1;
            assert(near@.take(j as int).drop_last() =~= near@.take(j - 1));
            assert(near@.take(j as int).last() == near@[j - 1]);
        }
        assert(near@.take(near@.len() as int) =~= near@);
        self.ball_dir = dir;
        if remaining.x == 0 && remaining.y == 0 {
            // Ball finished moving
            BallMove::Stopped(collision)
        } else {
            proof {
                let x = remaining.x as int;
                let y = remaining.y as int;
                lemma_abs_sq(x, movement.size.x as int);
                lemma_abs_sq(y, movement.size.y as int);
                assert(x * x + y * y != 0) by (nonlinear_arith)
                    requires
                        x != 0 || y != 0,
                ;
            }
            BallMove::Bounced(RaySegment::new(collision, remaining))
        }
    }
}

} // verus!
