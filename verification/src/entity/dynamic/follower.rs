use vstd::prelude::*;
use crate::common::{is_isqrt, isqrt};
use crate::entity::dynamic::updatable::Dynamic;
use crate::geometry::{Position, Rect};
use crate::shapes::{Rgba, Shape};
use crate::special::chunk::Chunk;

verus! {

/// A follower senses creatures closer than this.
pub const SENSE_RADIUS: i64 = 400_000;

/// A follower leaves alone creatures at most this far away.
pub const PERSONAL_SPACE: i64 = 50_000;

/// The length of one step towards the target.
pub const FOLLOW_STEP: i64 = 300;

/// A creature that walks towards the nearest creature it senses.
#[derive(Debug, Clone, Copy, PartialEq, Eq, Structural)]
pub struct Follower {
    pub position: Position,
    pub target: Option<Position>,
}

/// The square of the distance between two points.
pub open spec fn dist_sq(a: Position, b: Position) -> int {
    (a.x - b.x) * (a.x - b.x) + (a.y - b.y) * (a.y - b.y)
}

/// Whether a follower at `me` senses a creature at `other`: it is farther
/// than the personal space and nearer than the sensing radius.
pub open spec fn senses(me: Position, other: Position) -> bool {
    PERSONAL_SPACE * PERSONAL_SPACE < dist_sq(me, other) < SENSE_RADIUS * SENSE_RADIUS
}

/// Whether a follower at `me` takes the creature in slot `k` for its target:
/// it senses it, senses none that is nearer, and none that is as near in an
/// earlier slot.
pub open spec fn is_target(me: Position, slots: Seq<Option<Dynamic>>, k: int) -> bool {
    &&& 0 <= k < slots.len()
    &&& slots[k].is_some()
    &&& senses(me, slots[k].unwrap().position())
    &&& forall|j: int|
        0 <= j < slots.len() && (#[trigger] slots[j]).is_some() && senses(
            me,
            slots[j].unwrap().position(),
        ) ==> dist_sq(me, slots[k].unwrap().position()) <= dist_sq(
            me,
            slots[j].unwrap().position(),
        )
    &&& forall|j: int|
        0 <= j < k && (#[trigger] slots[j]).is_some() && senses(me, slots[j].unwrap().position())
            ==> dist_sq(me, slots[k].unwrap().position()) < dist_sq(
            me,
            slots[j].unwrap().position(),
        )
}

/// Whether a follower at `me` senses none of the creatures in `slots`.
pub open spec fn senses_none(me: Position, slots: Seq<Option<Dynamic>>) -> bool {
    forall|j: int|
        0 <= j < slots.len() && (#[trigger] slots[j]).is_some() ==> !senses(
            me,
            slots[j].unwrap().position(),
        )
}

/// The slot whose creature a follower at `me` takes for its target.
pub open spec fn target_slot(me: Position, slots: Seq<Option<Dynamic>>) -> Option<int> {
    if exists|k: int| is_target(me, slots, k) {
        Some(choose|k: int| is_target(me, slots, k))
    } else {
        None
    }
}

/// One coordinate of a step of length `FOLLOW_STEP` along a vector of length
/// `len` whose coordinate is `c`, rounded towards zero.
pub open spec fn stride(c: int, len: int) -> int {
    if c >= 0 {
        (c * FOLLOW_STEP) / len
    } else {
        -((-c * FOLLOW_STEP) / len)
    }
}

/// The point one step from `me` towards `target`.
pub open spec fn stepped_towards(me: Position, target: Position, len: int) -> Position {
    me.moved(stride(target.x - me.x, len), stride(target.y - me.y, len))
}

/// Two slots that both pass for the target are the same slot.
pub proof fn lemma_target_unique(me: Position, slots: Seq<Option<Dynamic>>, a: int, b: int)
    requires
        is_target(me, slots, a),
        is_target(me, slots, b),
    ensures
        a == b,
{
    if a < b {
        assert(slots[a].is_some());
    } else if b < a {
        assert(slots[b].is_some());
    }
}

/// A follower that senses no creature has no target and stays where it is.
pub proof fn lemma_follower_stays(follower: Follower, slots: Seq<Option<Dynamic>>)
    requires
        senses_none(follower.position, slots),
    ensures
        follower.followed(slots) == (Follower { position: follower.position, target: None }),
{
    assert forall|k: int| !is_target(follower.position, slots, k) by {
        if is_target(follower.position, slots, k) {
            assert(slots[k].is_some());
        }
    }
}

/// A follower's target is the creature in the slot that passes for the
/// target, and the follower moves by one step towards it.
pub proof fn lemma_follower_pursues(follower: Follower, slots: Seq<Option<Dynamic>>, k: int, len: int)
    requires
        is_target(follower.position, slots, k),
        is_isqrt(dist_sq(follower.position, slots[k].unwrap().position()), len),
    ensures
        follower.followed(slots) == (Follower {
            position: stepped_towards(follower.position, slots[k].unwrap().position(), len),
            target: Some(slots[k].unwrap().position()),
        }),
{
    let me = follower.position;
    lemma_target_unique(me, slots, k, choose|j: int| is_target(me, slots, j));
    let target = slots[k].unwrap().position();
    lemma_isqrt_unique(dist_sq(me, target), len, choose|l: int| is_isqrt(dist_sq(me, target), l));
}

/// A coordinate that is a sensing radius away puts the point out of reach.
proof fn lemma_far_apart(me: Position, other: Position)
    requires
        me.x - other.x >= SENSE_RADIUS || other.x - me.x >= SENSE_RADIUS || me.y - other.y
            >= SENSE_RADIUS || other.y - me.y >= SENSE_RADIUS,
    ensures
        !senses(me, other),
{
    let dx = me.x - other.x;
    let dy = me.y - other.y;
    assert(dx * dx >= 0 && dy * dy >= 0) by (nonlinear_arith);
    if dx >= SENSE_RADIUS || -dx >= SENSE_RADIUS {
        assert(dx * dx >= SENSE_RADIUS * SENSE_RADIUS) by (nonlinear_arith)
            requires
                dx >= SENSE_RADIUS || -dx >= SENSE_RADIUS,
                SENSE_RADIUS > 0,
        ;
    } else {
        assert(dy * dy >= SENSE_RADIUS * SENSE_RADIUS) by (nonlinear_arith)
            requires
                dy >= SENSE_RADIUS || -dy >= SENSE_RADIUS,
                SENSE_RADIUS > 0,
        ;
    }
}

/// The squared distance of two points whose coordinates are less than a
/// sensing radius apart.
fn near_dist_sq(me: Position, other: Position) -> (r: Option<u64>)
    ensures
        r.is_some() ==> r.unwrap() == dist_sq(me, other),
        r.is_none() ==> !senses(me, other),
{
    let dx: i128 = me.x as i128 - other.x as i128;
    let dy: i128 = me.y as i128 - other.y as i128;
    let reach: i128 = SENSE_RADIUS as i128;
    if dx >= reach || -dx >= reach || dy >= reach || -dy >= reach {
        proof {
            lemma_far_apart(me, other);
        }
        None
    } else {
        assert(0 <= dx * dx <= 400_000 * 400_000) by (nonlinear_arith)
            requires
                -400_000 < dx < 400_000,
        ;
        assert(0 <= dy * dy <= 400_000 * 400_000) by (nonlinear_arith)
            requires
                -400_000 < dy < 400_000,
        ;
        Some((dx * dx + dy * dy) as u64)
    }
}

/// One coordinate of a step along a vector of length `len`.
fn stride_of(c: i64, len: u64) -> (s: i64)
    requires
        -SENSE_RADIUS < c < SENSE_RADIUS,
        0 < len,
    ensures
        s == stride(c as int, len as int),
{
    if c >= 0 {
        let n: u64 = (c * FOLLOW_STEP) as u64;
        proof {
            crate::common::lemma_quotient_bounds(n as int, len as int);
        }
        (n / len) as i64
    } else {
        let n: u64 = (-c * FOLLOW_STEP) as u64;
        proof {
            crate::common::lemma_quotient_bounds(n as int, len as int);
        }
        -((n / len) as i64)
    }
}

impl Follower {
    #[must_use]
    pub fn new(position: Position) -> (f: Self)
        ensures
            f == (Follower { position, target: None }),
    {
        Self { position, target: None }
    }

    pub fn get_pos(&self) -> (p: Position)
        ensures
            p == self.position,
    {
        self.position
    }

    /// The follower after one update among the creatures in `slots`: its
    /// target is the nearest creature it senses, the first of them in slot
    /// order where several are as near, and it has taken one step towards
    /// it; where it senses none it has no target and stays.
    pub open spec fn followed(self, slots: Seq<Option<Dynamic>>) -> Follower {
        match target_slot(self.position, slots) {
            Some(k) => {
                let target = slots[k].unwrap().position();
                let len = choose|len: int| is_isqrt(dist_sq(self.position, target), len);
                Follower {
                    position: stepped_towards(self.position, target, len),
                    target: Some(target),
                }
            },
            None => Follower { position: self.position, target: None },
        }
    }

    /// Picks the nearest sensed creature of `chunk` as the target and takes
    /// one step towards it.
    pub fn update(&mut self, chunk: &Chunk)
        ensures
            *final(self) == old(self).followed(chunk.dynamics@),
    {
        let me = self.position;
        let slots = &chunk.dynamics;
        let mut best: Option<(u64, Position)> = None;
        let ghost mut at: int = -1;
        let mut i: usize = 0;
        while i < slots.len()
            invariant
                i <= slots@.len(),
                best.is_none() <==> at == -1,
                best.is_none() ==> senses_none(me, slots@.take(i as int)),
                best.is_some() ==> {
                    &&& is_target(me, slots@.take(i as int), at)
                    &&& best.unwrap().1 == slots@[at].unwrap().position()
                    &&& best.unwrap().0 == dist_sq(me, best.unwrap().1)
                },
            decreases slots@.len() - i,
        {
            let ghost seen = slots@.take(i as int);
            let ghost next = slots@.take(i as int + 1);
            let ghost was = at;
            assert(forall|j: int| 0 <= j < i ==> next[j] == seen[j]);
            assert(next[i as int] == slots@[i as int]);
            let mut taken = false;
            match &slots[i] {
                Some(entity) => {
                    let pos = entity.get_pos();
                    match near_dist_sq(me, pos) {
                        Some(d2) => {
                            let inside = d2 < (SENSE_RADIUS * SENSE_RADIUS) as u64 && d2 > (
                            PERSONAL_SPACE * PERSONAL_SPACE) as u64;
                            let closer = match best {
                                Some(b) => d2 < b.0,
                                None => true,
                            };
                            if inside && closer {
                                best = Some((d2, pos));
                                taken = true;
                                proof {
                                    at = i as int;
                                }
                            }
                        },
                        None => {},
                    }
                },
                None => {},
            }
            proof {
                if taken {
                    assert forall|j: int|
                        0 <= j < next.len() && (#[trigger] next[j]).is_some() && senses(
                            me,
                            next[j].unwrap().position(),
                        ) implies dist_sq(me, next[at].unwrap().position()) <= dist_sq(
                        me,
                        next[j].unwrap().position(),
                    ) by {
                        if j < i {
                            assert(seen[j].is_some());
                            if was != -1 {
                                assert(seen[was].is_some());
                            }
                        }
                    }
                    assert forall|j: int|
                        0 <= j < at && (#[trigger] next[j]).is_some() && senses(
                            me,
                            next[j].unwrap().position(),
                        ) implies dist_sq(me, next[at].unwrap().position()) < dist_sq(
                        me,
                        next[j].unwrap().position(),
                    ) by {
                        assert(seen[j].is_some());
                        if was != -1 {
                            assert(seen[was].is_some());
                        }
                    }
                    assert(is_target(me, next, at));
                } else if at != -1 {
                    assert(next[at] == seen[at]);
                    assert forall|j: int|
                        0 <= j < next.len() && (#[trigger] next[j]).is_some() && senses(
                            me,
                            next[j].unwrap().position(),
                        ) implies dist_sq(me, next[at].unwrap().position()) <= dist_sq(
                        me,
                        next[j].unwrap().position(),
                    ) by {
                        if j < i {
                            assert(seen[j].is_some());
                        }
                    }
                    assert forall|j: int|
                        0 <= j < at && (#[trigger] next[j]).is_some() && senses(
                            me,
                            next[j].unwrap().position(),
                        ) implies dist_sq(me, next[at].unwrap().position()) < dist_sq(
                        me,
                        next[j].unwrap().position(),
                    ) by {
                        assert(seen[j].is_some());
                    }
                    assert(is_target(me, next, at));
                } else {
                    assert forall|j: int|
                        0 <= j < next.len() && (#[trigger] next[j]).is_some() implies !senses(
                        me,
                        next[j].unwrap().position(),
                    ) by {
                        if j < i {
                            assert(seen[j].is_some());
                        }
                    }
                }
            }
            i += 1;
        }
        proof {
            assert(slots@.take(i as int) =~= slots@);
        }
        match best {
            Some(b) => {
                let target = b.1;
                let len: u64 = isqrt(b.0);
                proof {
                    lemma_target_unique(
                        me,
                        slots@,
                        at,
                        choose|k: int| is_target(me, slots@, k),
                    );
                    lemma_isqrt_unique(
                        dist_sq(me, target),
                        len as int,
                        choose|l: int| is_isqrt(dist_sq(me, target), l),
                    );
                    assert(len > 0) by (nonlinear_arith)
                        requires
                            is_isqrt(b.0 as int, len as int),
                            b.0 > 0,
                    ;
                    lemma_components_near(me, target);
                }
                let dx: i64 = target.x - me.x;
                let dy: i64 = target.y - me.y;
                self.target = Some(target);
                self.position = me.offset(stride_of(dx, len), stride_of(dy, len));
            },
            None => {
                proof {
                    assert forall|k: int| !is_target(me, slots@, k) by {
                        if is_target(me, slots@, k) {
                            assert(slots@[k].is_some());
                        }
                    }
                }
                self.target = None;
            },
        }
    }

    /// A ten-sided polygon where the creature is inside `viewport`, else
    /// nothing.
    pub open spec fn drawn(self, viewport: Rect) -> Option<Shape> {
        if viewport.holds(self.position) {
            Some(
                Shape::Polygon {
                    center: self.position,
                    sides: 10,
                    radius: 20_000,
                    rotation: 0,
                    color: Rgba::dark_gray(),
                },
            )
        } else {
            None
        }
    }

    /// The shape to draw, or `None` where the creature is outside `viewport`.
    pub fn draw(&self, viewport: Rect) -> (shape: Option<Shape>)
        ensures
            shape == self.drawn(viewport),
    {
        if viewport.contains(self.position) {
            Some(
                Shape::Polygon {
                    center: self.position,
                    sides: 10,
                    radius: 20_000,
                    rotation: 0,
                    color: Rgba::dark_gray(),
                },
            )
        } else {
            None
        }
    }
}

/// A number has one integer square root.
pub proof fn lemma_isqrt_unique(n: int, a: int, b: int)
    requires
        is_isqrt(n, a),
        is_isqrt(n, b),
    ensures
        a == b,
{
    if a < b {
        assert((a + 1) * (a + 1) <= b * b) by (nonlinear_arith)
            requires
                0 <= a,
                a + 1 <= b,
        ;
    } else if b < a {
        assert((b + 1) * (b + 1) <= a * a) by (nonlinear_arith)
            requires
                0 <= b,
                b + 1 <= a,
        ;
    }
}

/// A sensed point is less than a sensing radius away along both axes.
proof fn lemma_components_near(me: Position, other: Position)
    requires
        senses(me, other),
    ensures
        -SENSE_RADIUS < other.x - me.x < SENSE_RADIUS,
        -SENSE_RADIUS < other.y - me.y < SENSE_RADIUS,
{
    if !(-SENSE_RADIUS < other.x - me.x < SENSE_RADIUS && -SENSE_RADIUS < other.y - me.y
        < SENSE_RADIUS) {
        lemma_far_apart(me, other);
    }
}

} // verus!
