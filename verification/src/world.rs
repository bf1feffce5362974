//! The chunk grid and the world that streams it.

use indexmap::IndexMap;
use vstd::prelude::*;
use crate::common::{clamp_i32, div_floor, floor_div};
use crate::entity::dynamic::updatable::Dynamic;
use crate::entity::statich::layers::in_layer_order;
use crate::geometry::{Position, Rect};
use crate::shapes::Shape;
use crate::special::camera::Camera;
use crate::special::chunk::{
    baked_for, draws_fit, grown, leaves, populated_from, stays_in, swept, CellDraws, Chunk,
};
use crate::special::index::{
    entries, index_clear, index_contains, index_get, index_insert, index_new,
};
use crate::random::random_word;
use crate::special::noise::{Noise, NoiseConfig};
use crate::special::square::{Square, SQUARE_SIZE};

verus! {

/// Cells along one side of a chunk.
pub const CHUNK_SIZE: u16 = 16;

/// Side of one cell, in thousandths of a world unit.
pub const CHUNK_TILE_SIZE: u32 = 400_000;

/// Side of one chunk, in thousandths of a world unit.
pub const CHUNK_EXTENT: u32 = 6_400_000;

/// Samples along one side of a chunk's noise image.
pub const NOISE_IMAGE_SIZE: u16 = 256;

/// Chunks this far from the player's chunk are drawn.
pub const RENDER_DISTANCE: i32 = 2;

/// Chunks this far from the player's chunk are updated.
pub const UPDATE_DISTANCE: i32 = 5;

/// The address of a chunk on the grid.
#[derive(Debug, Clone, Copy, Hash, PartialEq, Eq, Structural)]
pub struct ChunkPosition {
    pub x: i32,
    pub y: i32,
}

impl ChunkPosition {
    #[must_use]
    pub fn new(x: i32, y: i32) -> (c: Self)
        ensures
            c == (ChunkPosition { x, y }),
    {
        ChunkPosition { x, y }
    }

    /// The chunk that holds `position`: each coordinate divided by the
    /// chunk's side and rounded down, held to the `i32` range.
    pub open spec fn containing(position: Position) -> ChunkPosition {
        ChunkPosition {
            x: clamp_i32(floor_div(position.x as int, CHUNK_EXTENT as int)),
            y: clamp_i32(floor_div(position.y as int, CHUNK_EXTENT as int)),
        }
    }

    /// The world coordinates of the chunk's top-left corner when one chunk
    /// spans `chunk_size`.
    pub open spec fn corner(self, chunk_size: int) -> (int, int) {
        (self.x * chunk_size, self.y * chunk_size)
    }

    /// The world coordinates of the chunk's top-left corner when one chunk
    /// spans `chunk_size`.
    #[must_use]
    pub fn offsets(&self, chunk_size: u32) -> (r: (i64, i64))
        ensures
            (r.0 as int, r.1 as int) == self.corner(chunk_size as int),
    {
        assert(-0x8000_0000 * 0xffff_ffff <= self.x * chunk_size <= 0x7fff_ffff * 0xffff_ffff)
            by (nonlinear_arith)
            requires
                -0x8000_0000 <= self.x <= 0x7fff_ffff,
                0 <= chunk_size <= 0xffff_ffff,
        ;
        assert(-0x8000_0000 * 0xffff_ffff <= self.y * chunk_size <= 0x7fff_ffff * 0xffff_ffff)
            by (nonlinear_arith)
            requires
                -0x8000_0000 <= self.y <= 0x7fff_ffff,
                0 <= chunk_size <= 0xffff_ffff,
        ;
        (self.x as i64 * chunk_size as i64, self.y as i64 * chunk_size as i64)
    }

    /// Whether the coordinate `(dx, dy)` away is on the grid.
    pub open spec fn reaches(self, dx: int, dy: int) -> bool {
        &&& i32::MIN <= self.x + dx <= i32::MAX
        &&& i32::MIN <= self.y + dy <= i32::MAX
    }

    /// The coordinate `(dx, dy)` away.
    pub open spec fn shifted(self, dx: int, dy: int) -> ChunkPosition
        recommends
            self.reaches(dx, dy),
    {
        ChunkPosition { x: (self.x + dx) as i32, y: (self.y + dy) as i32 }
    }

    /// The coordinate `(delta_x, delta_y)` away.
    #[must_use]
    pub fn add(&self, delta_x: i32, delta_y: i32) -> (c: Self)
        requires
            self.reaches(delta_x as int, delta_y as int),
        ensures
            c == self.shifted(delta_x as int, delta_y as int),
    {
        ChunkPosition { x: self.x + delta_x, y: self.y + delta_y }
    }

    /// The coordinate `(delta_x, delta_y)` away, if the grid has one.
    #[must_use]
    pub fn neighbour(&self, delta_x: i32, delta_y: i32) -> (c: Option<Self>)
        ensures
            c.is_some() == self.reaches(delta_x as int, delta_y as int),
            c.is_some() ==> c.unwrap() == self.shifted(delta_x as int, delta_y as int),
    {
        let x: i64 = self.x as i64 + delta_x as i64;
        let y: i64 = self.y as i64 + delta_y as i64;
        if x < i32::MIN as i64 || x > i32::MAX as i64 || y < i32::MIN as i64 || y > i32::MAX as i64 {
            None
        } else {
            Some(ChunkPosition { x: x as i32, y: y as i32 })
        }
    }

    /// Whether `other` is at most `distance` away along both axes.
    pub open spec fn near(self, other: ChunkPosition, distance: int) -> bool {
        &&& -distance <= self.x - other.x <= distance
        &&& -distance <= self.y - other.y <= distance
    }

    /// Whether `other` is at most `distance` away along both axes.
    #[must_use]
    pub fn is_within(&self, other: Self, distance: i32) -> (b: bool)
        ensures
            b == self.near(other, distance as int),
    {
        let dy: i64 = self.y as i64 - other.y as i64;
        let dx: i64 = self.x as i64 - other.x as i64;
        let d: i64 = distance as i64;
        if dy > d || -dy > d {
            return false;
        }
        if dx > d || -dx > d {
            return false;
        }
        true
    }
}

impl From<Position> for ChunkPosition {
    fn from(position: Position) -> (c: Self) {
        let x: i64 = div_floor(position.x, CHUNK_EXTENT);
        let y: i64 = div_floor(position.y, CHUNK_EXTENT);
        ChunkPosition { x: hold_i32(x), y: hold_i32(y) }
    }
}

impl vstd::std_specs::convert::FromSpecImpl<Position> for ChunkPosition {
    open spec fn obeys_from_spec() -> bool {
        true
    }

    open spec fn from_spec(position: Position) -> Self {
        ChunkPosition::containing(position)
    }
}

/// The nearest `i32` to `v`.
pub fn hold_i32(v: i64) -> (r: i32)
    ensures
        r == clamp_i32(v as int),
{
    if v > i32::MAX as i64 {
        i32::MAX
    } else if v < i32::MIN as i64 {
        i32::MIN
    } else {
        v as i32
    }
}

/// The frequency of the world's noise field, in millionths.
pub const NOISE_FREQUENCY: u32 = 5_000;

/// The world: the loaded chunks in the order they were generated, the
/// player, the camera, and the noise fields chunks are generated from.
pub struct World {
    seed: u64,
    noise_generators: Vec<Noise>,
    main_camera: Camera,
    player: Square,
    chunks: Vec<Chunk>,
    index: IndexMap<(i32, i32), usize>,
    out_of_chunk: Vec<Option<Dynamic>>,
}

/// The key under which the index knows a coordinate.
pub open spec fn key_of(pos: ChunkPosition) -> (i32, i32) {
    (pos.x, pos.y)
}

/// Whether `index` knows exactly the coordinates of `chunks`, each under the
/// slot of its chunk.
pub open spec fn index_matches(index: Map<(i32, i32), usize>, chunks: Seq<Chunk>) -> bool {
    &&& forall|i: int|
        0 <= i < chunks.len() ==> index.contains_key(
            key_of((#[trigger] chunks[i]).chunk_position),
        ) && index[key_of(chunks[i].chunk_position)] == i
    &&& forall|k: (i32, i32)| #[trigger]
        index.contains_key(k) ==> index[k] < chunks.len() && key_of(
            chunks[index[k] as int].chunk_position,
        ) == k
}

/// Whether a chunk is fit to be updated and drawn: it has its noise image,
/// its statics are in drawing order, and every slot holds its creature.
pub open spec fn chunk_ready(c: Chunk) -> bool {
    &&& c.settled()
    &&& in_layer_order(c.statics@)
    &&& c.noise_image.is_some()
    &&& c.noise_image.unwrap().size() == NOISE_IMAGE_SIZE
}

/// Whether `c` is the chunk `fresh` populated from some draws that its
/// cells can get.
pub open spec fn populated_by_draws(fresh: Chunk, c: Chunk) -> bool {
    exists|draws: Seq<CellDraws>|
        draws_fit(c.noise_image.unwrap(), draws) && #[trigger] populated_from(
            fresh,
            c,
            c.noise_image.unwrap(),
            draws,
        )
}

/// Whether `c` is a chunk as generation leaves it: an empty chunk at its
/// coordinate, populated from the noise field `config`.
pub open spec fn freshly_populated<F: Fn(NoiseConfig, i64, i64) -> u8>(
    c: Chunk,
    config: NoiseConfig,
    sample: &F,
) -> bool {
    &&& chunk_ready(c)
    &&& baked_for(c.noise_image.unwrap(), c.chunk_position, config, sample)
    &&& exists|fresh: Chunk|
        fresh.chunk_position == c.chunk_position && fresh.statics@.len() == 0
            && fresh.dynamics@.len() == 0 && populated_by_draws(fresh, c) && #[trigger] grown(
            fresh,
            c,
            c.noise_image.unwrap(),
            CHUNK_SIZE * CHUNK_SIZE,
        )
}

/// Whether one of `chunks` lies at `pos`.
pub open spec fn holds_chunk(chunks: Seq<Chunk>, pos: ChunkPosition) -> bool {
    exists|i: int| 0 <= i < chunks.len() && (#[trigger] chunks[i]).chunk_position == pos
}

/// The place of `c` in the order in which the neighbourhood of `pos` is
/// generated: column by column, each from top to bottom.
pub open spec fn generation_rank(c: ChunkPosition, pos: ChunkPosition) -> int {
    (c.x - pos.x + 1) * 3 + (c.y - pos.y + 1)
}

/// Whether `after` is `before` with the neighbourhood of `pos` generated from
/// the noise field `config`: what was loaded is as it was, and behind it
/// stand, freshly populated and in the order of generation, the chunks at
/// most one away from `pos` that were missing.
pub open spec fn neighbourhood_generated<F: Fn(NoiseConfig, i64, i64) -> u8>(
    before: Seq<Chunk>,
    after: Seq<Chunk>,
    pos: ChunkPosition,
    config: NoiseConfig,
    sample: &F,
) -> bool {
    &&& before.len() <= after.len()
    &&& after.take(before.len() as int) == before
    &&& forall|c: ChunkPosition| c.near(pos, 1) ==> #[trigger] holds_chunk(after, c)
    &&& forall|i: int|
        before.len() <= i < after.len() ==> {
            &&& (#[trigger] after[i]).chunk_position.near(pos, 1)
            &&& freshly_populated(after[i], config, sample)
        }
    &&& forall|i: int, j: int|
        before.len() <= i < j < after.len() ==> generation_rank(
            (#[trigger] after[i]).chunk_position,
            pos,
        ) < generation_rank((#[trigger] after[j]).chunk_position, pos)
}

/// A chunk that is among `chunks` is among them still when more follow.
pub proof fn lemma_holds_chunk_extends(chunks: Seq<Chunk>, more: Seq<Chunk>, pos: ChunkPosition)
    requires
        chunks.len() <= more.len(),
        more.take(chunks.len() as int) == chunks,
        holds_chunk(chunks, pos),
    ensures
        holds_chunk(more, pos),
{
    let i = choose|i: int| 0 <= i < chunks.len() && (#[trigger] chunks[i]).chunk_position == pos;
    assert(more.take(chunks.len() as int)[i] == more[i]);
    assert(more[i].chunk_position == pos);
}

/// The number of creatures in the slots of `chunks`.
pub open spec fn total_dynamics(chunks: Seq<Chunk>) -> nat
    decreases chunks.len(),
{
    if chunks.len() == 0 {
        0
    } else {
        total_dynamics(chunks.drop_last()) + chunks.last().dynamics@.len()
    }
}

/// The test "is a creature whose position lies in the chunk at `pos`".
pub open spec fn bound_for(pos: ChunkPosition) -> spec_fn(Option<Dynamic>) -> bool {
    |slot: Option<Dynamic>|
        slot.is_some() && ChunkPosition::containing(slot.unwrap().position()) == pos
}

/// The test "is a creature whose position lies in one of `chunks`".
pub open spec fn finds_home(chunks: Seq<Chunk>) -> spec_fn(Option<Dynamic>) -> bool {
    |slot: Option<Dynamic>|
        slot.is_some() && holds_chunk(chunks, ChunkPosition::containing(slot.unwrap().position()))
}

/// The creatures that left their chunks in a sweep: for each of `chunks`
/// that is at most `UPDATE_DISTANCE` from `center`, in order, those of its
/// slots after the update, `mids`, that hold a creature outside the chunk.
pub open spec fn departures(
    chunks: Seq<Chunk>,
    mids: Seq<Seq<Option<Dynamic>>>,
    center: ChunkPosition,
) -> Seq<Option<Dynamic>>
    recommends
        mids.len() == chunks.len(),
    decreases chunks.len(),
{
    if chunks.len() == 0 {
        Seq::empty()
    } else {
        let last = chunks.last();
        let before = departures(chunks.drop_last(), mids.drop_last(), center);
        if last.chunk_position.near(center, UPDATE_DISTANCE as int) {
            before + mids.last().filter(leaves(last.bounds()))
        } else {
            before
        }
    }
}

/// Whether `after` is the chunk `before` after a sweep around `center`, its
/// slots being `mid` between the update and the extraction: a chunk at most
/// `UPDATE_DISTANCE` away had every creature updated once and keeps those
/// that are still inside it; a chunk farther away is as it was.
pub open spec fn chunk_swept<F: Fn(i32, i32) -> (i64, i64)>(
    before: Chunk,
    after: Chunk,
    mid: Seq<Option<Dynamic>>,
    center: ChunkPosition,
    steer: &F,
) -> bool {
    &&& after.chunk_position == before.chunk_position
    &&& after.statics == before.statics
    &&& after.noise_image == before.noise_image
    &&& if before.chunk_position.near(center, UPDATE_DISTANCE as int) {
        &&& swept(before.dynamics@, mid, steer)
        &&& after.dynamics@ == mid.filter(stays_in(before.bounds()))
    } else {
        &&& mid == before.dynamics@
        &&& after.dynamics@ == before.dynamics@
    }
}

/// Whether `after` is the chunk `before` with the creatures of `transit`
/// that belong to it put behind its own.
pub open spec fn chunk_rehomed(before: Chunk, after: Chunk, transit: Seq<Option<Dynamic>>) -> bool {
    &&& after.chunk_position == before.chunk_position
    &&& after.statics == before.statics
    &&& after.noise_image == before.noise_image
    &&& after.dynamics@ == before.dynamics@ + transit.filter(bound_for(before.chunk_position))
}

/// An index that matches some chunks matches any chunks at the same
/// coordinates.
pub proof fn lemma_index_keeps_matching(
    index: Map<(i32, i32), usize>,
    before: Seq<Chunk>,
    after: Seq<Chunk>,
)
    requires
        index_matches(index, before),
        after.len() == before.len(),
        forall|k: int|
            0 <= k < after.len() ==> (#[trigger] after[k]).chunk_position
                == before[k].chunk_position,
    ensures
        index_matches(index, after),
{
    assert forall|i: int| 0 <= i < after.len() implies index.contains_key(
        key_of((#[trigger] after[i]).chunk_position),
    ) && index[key_of(after[i].chunk_position)] == i by {
        assert(index.contains_key(key_of(before[i].chunk_position)));
    }
    assert forall|k: (i32, i32)| #[trigger] index.contains_key(k) implies index[k] < after.len()
        && key_of(after[index[k] as int].chunk_position) == k by {
        assert(after[index[k] as int].chunk_position == before[index[k] as int].chunk_position);
    }
}

/// Replacing one chunk changes the number of creatures by the difference in
/// that chunk.
pub proof fn lemma_total_dynamics_update(chunks: Seq<Chunk>, i: int, c: Chunk)
    requires
        0 <= i < chunks.len(),
    ensures
        total_dynamics(chunks.update(i, c)) == total_dynamics(chunks) - chunks[i].dynamics@.len()
            + c.dynamics@.len(),
    decreases chunks.len(),
{
    let changed = chunks.update(i, c);
    if i == chunks.len() - 1 {
        assert(changed.drop_last() =~= chunks.drop_last());
    } else {
        lemma_total_dynamics_update(chunks.drop_last(), i, c);
        assert(changed.drop_last() =~= chunks.drop_last().update(i, c));
    }
}

/// A list of one slot, filtered.
pub proof fn lemma_filter_one(slot: Option<Dynamic>, pred: spec_fn(Option<Dynamic>) -> bool)
    ensures
        seq![slot].filter(pred) == if pred(slot) {
            seq![slot]
        } else {
            Seq::<Option<Dynamic>>::empty()
        },
{
    reveal(Seq::filter);
    let none = Seq::<Option<Dynamic>>::empty();
    assert(seq![slot] =~= none.push(slot));
    none.lemma_filter_push(slot, pred);
    assert(none.filter(pred) =~= none);
}

/// Chunks at the same coordinates hold a chunk at the same coordinates.
pub proof fn lemma_same_places(before: Seq<Chunk>, after: Seq<Chunk>, pos: ChunkPosition)
    requires
        after.len() == before.len(),
        forall|k: int|
            0 <= k < after.len() ==> (#[trigger] after[k]).chunk_position
                == before[k].chunk_position,
    ensures
        holds_chunk(after, pos) == holds_chunk(before, pos),
{
    if holds_chunk(before, pos) {
        let i = choose|i: int| 0 <= i < before.len() && (#[trigger] before[i]).chunk_position == pos;
        assert(after[i].chunk_position == pos);
    }
    if holds_chunk(after, pos) {
        let i = choose|i: int| 0 <= i < after.len() && (#[trigger] after[i]).chunk_position == pos;
        assert(before[i].chunk_position == pos);
    }
}

/// The picture of `chunks` inside `viewport`: the pictures of those at most
/// `RENDER_DISTANCE` from `center`, one after the other.
pub open spec fn chunks_drawn(chunks: Seq<Chunk>, center: ChunkPosition, viewport: Rect) -> Seq<
    Shape,
>
    decreases chunks.len(),
{
    if chunks.len() == 0 {
        Seq::empty()
    } else {
        let before = chunks_drawn(chunks.drop_last(), center, viewport);
        if chunks.last().chunk_position.near(center, RENDER_DISTANCE as int) {
            before + chunks.last().drawn(viewport)
        } else {
            before
        }
    }
}

/// The number of statics in `chunks`.
pub open spec fn total_statics(chunks: Seq<Chunk>) -> nat
    decreases chunks.len(),
{
    if chunks.len() == 0 {
        0
    } else {
        total_statics(chunks.drop_last()) + chunks.last().statics@.len()
    }
}

/// How far the player walks in a frame.
pub const PLAYER_SPEED: i32 = 1_000;

/// How far the player turns in a frame while a turning key is down.
pub const PLAYER_TURN: i32 = 573;

/// The state of the controls in one frame.
#[derive(Clone, Copy, Debug, PartialEq, Eq, Structural)]
pub struct Controls {
    /// Walk forwards.
    pub forward: bool,
    /// Walk backwards; forwards wins.
    pub backward: bool,
    /// Turn left.
    pub left: bool,
    /// Turn right; left wins.
    pub right: bool,
    /// Start a new world from a new seed.
    pub reset: bool,
    /// The keys steer the camera, not the player.
    pub camera: bool,
}

impl Controls {
    /// Whether a key that moves the player is down.
    pub open spec fn moves(self) -> bool {
        self.forward || self.backward || self.left || self.right
    }

    /// The speed the keys ask for.
    pub open spec fn speed(self) -> i32 {
        if self.forward {
            PLAYER_SPEED
        } else if self.backward {
            (-PLAYER_SPEED) as i32
        } else {
            0
        }
    }

    /// The turn the keys ask for.
    pub open spec fn turn(self) -> i32 {
        if self.left {
            (-PLAYER_TURN) as i32
        } else if self.right {
            PLAYER_TURN
        } else {
            0
        }
    }
}

/// Whether `after` is the player `before` after a frame under `controls`:
/// turned and moved as the keys ask, and left alone where the keys steer the
/// camera.
pub open spec fn player_moved<F: Fn(i32, i32) -> (i64, i64)>(
    before: Square,
    after: Square,
    controls: Controls,
    steer: &F,
) -> bool {
    if controls.camera {
        after == before
    } else {
        before.walks_to(after, controls.turn() as int, controls.speed(), steer)
    }
}

/// Whether the chunks `after` are the chunks `before` after the player went
/// from the chunk `from` to the chunk `to`: as they were where the player
/// stayed in its chunk, and with the neighbourhood of `to` generated from
/// the noise field `config` where it crossed into another.
pub open spec fn streamed<F: Fn(NoiseConfig, i64, i64) -> u8>(
    before: Seq<Chunk>,
    after: Seq<Chunk>,
    from: ChunkPosition,
    to: ChunkPosition,
    config: NoiseConfig,
    sample: &F,
) -> bool {
    if to == from {
        after == before
    } else {
        neighbourhood_generated(before, after, to, config, sample)
    }
}

/// The player's neighbourhood stays loaded: where every chunk at most one
/// away from `from` is among `before`, every chunk at most one away from
/// `to` is among the chunks streamed from them.
pub proof fn lemma_streaming_keeps_neighbourhood<F: Fn(NoiseConfig, i64, i64) -> u8>(
    before: Seq<Chunk>,
    after: Seq<Chunk>,
    from: ChunkPosition,
    to: ChunkPosition,
    config: NoiseConfig,
    sample: &F,
)
    requires
        streamed(before, after, from, to, config, sample),
        forall|c: ChunkPosition| c.near(from, 1) ==> #[trigger] holds_chunk(before, c),
    ensures
        forall|c: ChunkPosition| c.near(to, 1) ==> #[trigger] holds_chunk(after, c),
{
}

impl World {
    /// The loaded chunks, in the order they were generated.
    pub closed spec fn loaded(self) -> Seq<Chunk> {
        self.chunks@
    }

    /// The seed of the noise field.
    pub closed spec fn seed(self) -> u64 {
        self.seed
    }

    /// The noise fields made so far; chunks are generated from the last.
    pub closed spec fn noises(self) -> Seq<Noise> {
        self.noise_generators@
    }

    /// The player.
    pub closed spec fn player(self) -> Square {
        self.player
    }

    /// The camera.
    pub closed spec fn camera(self) -> Camera {
        self.main_camera
    }

    /// The creatures on their way from one chunk to another.
    pub closed spec fn transit(self) -> Seq<Option<Dynamic>> {
        self.out_of_chunk@
    }

    /// Whether the index knows exactly the loaded chunks.
    pub closed spec fn indexed(self) -> bool {
        index_matches(entries(self.index), self.chunks@)
    }

    /// Whether the chunk at `pos` is loaded.
    pub open spec fn is_loaded(self, pos: ChunkPosition) -> bool {
        holds_chunk(self.loaded(), pos)
    }

    /// Whether the world is between two frames: every loaded chunk is ready
    /// and is found under its coordinate, every noise field is configured,
    /// and no creature is in transit.
    pub open spec fn wf(self) -> bool {
        &&& self.indexed()
        &&& forall|i: int| 0 <= i < self.loaded().len() ==> chunk_ready(#[trigger] self.loaded()[i])
        &&& forall|i: int|
            0 <= i < self.noises().len() ==> (#[trigger] self.noises()[i]).config().is_some()
        &&& self.transit().len() == 0
    }

    /// Whether `after` differs from `self` in its chunks at most.
    pub open spec fn same_but_chunks(self, after: World) -> bool {
        &&& after.seed() == self.seed()
        &&& after.noises() == self.noises()
        &&& after.player() == self.player()
        &&& after.camera() == self.camera()
        &&& after.transit() == self.transit()
    }

    /// Whether `after` is `self` after the chunk at `pos` was asked for: a
    /// loaded chunk leaves the world as it is; a missing one is generated
    /// from the latest noise field and stands behind the others.
    pub open spec fn generates_to<F: Fn(NoiseConfig, i64, i64) -> u8>(
        self,
        after: World,
        pos: ChunkPosition,
        sample: &F,
    ) -> bool {
        &&& self.same_but_chunks(after)
        &&& after.is_loaded(pos)
        &&& self.is_loaded(pos) ==> after.loaded() == self.loaded()
        &&& !self.is_loaded(pos) ==> {
            &&& after.loaded().len() == self.loaded().len() + 1
            &&& after.loaded().drop_last() == self.loaded()
            &&& after.loaded().last().chunk_position == pos
            &&& freshly_populated(
                after.loaded().last(),
                self.noises().last().config().unwrap(),
                sample,
            )
        }
    }

    /// Generation is idempotent: asking for a chunk a second time leaves the
    /// world as the first time left it, with one chunk at that coordinate.
    pub proof fn lemma_generation_idempotent<F: Fn(NoiseConfig, i64, i64) -> u8>(
        self,
        once: World,
        twice: World,
        pos: ChunkPosition,
        sample: &F,
    )
        requires
            once.indexed(),
            self.generates_to(once, pos, sample),
            once.generates_to(twice, pos, sample),
        ensures
            twice.loaded() == once.loaded(),
            exists|i: int|
                0 <= i < twice.loaded().len() && (#[trigger] twice.loaded()[i]).chunk_position
                    == pos,
            forall|i: int, j: int|
                0 <= i < twice.loaded().len() && 0 <= j < twice.loaded().len() && (
                #[trigger] twice.loaded()[i]).chunk_position == pos && (
                #[trigger] twice.loaded()[j]).chunk_position == pos ==> i == j,
    {
        assert forall|i: int, j: int|
            0 <= i < once.loaded().len() && 0 <= j < once.loaded().len() && (
            #[trigger] once.loaded()[i]).chunk_position == pos && (
            #[trigger] once.loaded()[j]).chunk_position == pos implies i == j by {
            once.lemma_one_chunk_per_coordinate(i, j);
        }
    }

    /// No two loaded chunks lie at one coordinate.
    pub proof fn lemma_one_chunk_per_coordinate(self, i: int, j: int)
        requires
            self.indexed(),
            0 <= i < self.loaded().len(),
            0 <= j < self.loaded().len(),
            self.loaded()[i].chunk_position == self.loaded()[j].chunk_position,
        ensures
            i == j,
    {
    }

    /// An empty world: no chunk, no noise field, the player at the origin.
    #[must_use]
    pub fn new() -> (w: Self)
        ensures
            w.wf(),
            w.loaded().len() == 0,
            w.noises().len() == 0,
            w.seed() == 0,
            w.player() == (Square {
                center: Position { x: 0, y: 0 },
                rotation: 0,
                size: SQUARE_SIZE,
            }),
            w.camera() == (Camera {
                target: Position { x: 0, y: 0 },
                rotation: 0,
                followed_pos: None,
                followed_rot: None,
            }),
    {
        Self {
            seed: 0,
            noise_generators: Vec::new(),
            main_camera: Camera::new(),
            player: Square::new(Position::new(0, 0)),
            chunks: Vec::new(),
            index: index_new(),
            out_of_chunk: Vec::new(),
        }
    }

    /// The player.
    pub fn player_square(&self) -> (p: Square)
        ensures
            p == self.player(),
    {
        self.player
    }

    /// Puts the player somewhere else.
    pub fn set_player(&mut self, player: Square)
        ensures
            final(self).player() == player,
            final(self).seed() == old(self).seed(),
            final(self).noises() == old(self).noises(),
            final(self).camera() == old(self).camera(),
            final(self).loaded() == old(self).loaded(),
            final(self).transit() == old(self).transit(),
            final(self).indexed() == old(self).indexed(),
    {
        self.player = player;
    }

    /// The camera.
    pub fn main_camera(&self) -> (c: Camera)
        ensures
            c == self.camera(),
    {
        self.main_camera
    }

    /// Replaces the camera.
    pub fn set_camera(&mut self, camera: Camera)
        ensures
            final(self).camera() == camera,
            final(self).seed() == old(self).seed(),
            final(self).noises() == old(self).noises(),
            final(self).player() == old(self).player(),
            final(self).loaded() == old(self).loaded(),
            final(self).transit() == old(self).transit(),
            final(self).indexed() == old(self).indexed(),
    {
        self.main_camera = camera;
    }

    /// The seed of the noise field.
    pub fn current_seed(&self) -> (seed: u64)
        ensures
            seed == self.seed(),
    {
        self.seed
    }

    /// The loaded chunks, in the order they were generated.
    pub fn chunks(&self) -> (chunks: &Vec<Chunk>)
        ensures
            chunks@ == self.loaded(),
    {
        &self.chunks
    }

    /// The loaded chunk at `pos`, if there is one.
    pub fn chunk_at(&self, pos: ChunkPosition) -> (chunk: Option<&Chunk>)
        requires
            self.indexed(),
        ensures
            chunk.is_some() == self.is_loaded(pos),
            chunk.is_some() ==> chunk.unwrap().chunk_position == pos && exists|i: int|
                0 <= i < self.loaded().len() && #[trigger] self.loaded()[i] == *chunk.unwrap(),
    {
        match index_get(&self.index, (pos.x, pos.y)) {
            Some(slot) => {
                assert(self.chunks@[slot as int].chunk_position == pos);
                Some(&self.chunks[slot])
            },
            None => {
                proof {
                    if holds_chunk(self.chunks@, pos) {
                        let i = choose|i: int|
                            0 <= i < self.chunks@.len() && (#[trigger] self.chunks@[i]).chunk_position
                                == pos;
                        assert(entries(self.index).contains_key(
                            key_of(self.chunks@[i].chunk_position),
                        ));
                    }
                }
                None
            },
        }
    }

    /// Whether the chunk at `pos` is loaded.
    pub fn has_chunk(&self, pos: ChunkPosition) -> (b: bool)
        requires
            self.indexed(),
        ensures
            b == self.is_loaded(pos),
    {
        let b = index_contains(&self.index, (pos.x, pos.y));
        proof {
            if b {
                let i = entries(self.index)[key_of(pos)] as int;
                assert(self.chunks@[i].chunk_position == pos);
            }
        }
        b
    }

    /// Generates the chunk at `pos` from the latest noise field, unless it is
    /// loaded already.
    pub fn generate_chunk<F: Fn(NoiseConfig, i64, i64) -> u8>(
        &mut self,
        pos: ChunkPosition,
        sample: &F,
    )
        requires
            old(self).wf(),
            old(self).noises().len() > 0,
            forall|c: NoiseConfig, a: i64, b: i64| call_requires(sample, (c, a, b)),
        ensures
            final(self).wf(),
            old(self).generates_to(*final(self), pos, sample),
    {
        if !self.has_chunk(pos) {
            let mut chunk = Chunk::new(pos);
            let ghost fresh = chunk;
            let last = self.noise_generators.len() - 1;
            chunk.populate(&self.noise_generators[last], sample);
            let slot = self.chunks.len();
            let ghost before = self.chunks@;
            let ghost known = entries(self.index);
            index_insert(&mut self.index, (pos.x, pos.y), slot);
            self.chunks.push(chunk);
            proof {
                let after = self.chunks@;
                let now = entries(self.index);
                assert(after.drop_last() =~= before);
                assert forall|i: int| 0 <= i < after.len() implies now.contains_key(
                    key_of((#[trigger] after[i]).chunk_position),
                ) && now[key_of(after[i].chunk_position)] == i by {
                    if i < before.len() {
                        assert(after[i] == before[i]);
                        assert(known.contains_key(key_of(before[i].chunk_position)));
                        assert(before[i].chunk_position != pos);
                    }
                }
                assert forall|k: (i32, i32)| #[trigger] now.contains_key(k) implies now[k]
                    < after.len() && key_of(after[now[k] as int].chunk_position) == k by {
                    if k != key_of(pos) {
                        assert(known.contains_key(k));
                        assert(after[known[k] as int] == before[known[k] as int]);
                    }
                }
                assert forall|i: int| 0 <= i < after.len() implies chunk_ready(
                    #[trigger] after[i],
                ) by {
                    if i < before.len() {
                        assert(after[i] == before[i]);
                        assert(chunk_ready(old(self).loaded()[i]));
                    }
                }
                assert(after[after.len() - 1].chunk_position == pos);
                assert(populated_by_draws(fresh, chunk));
                assert(grown(fresh, chunk, chunk.noise_image.unwrap(), CHUNK_SIZE * CHUNK_SIZE));
            }
        }
    }

    /// Generates the chunks at most one away from `pos` that are missing,
    /// column by column, each from top to bottom.
    pub fn generate_chunks_around<F: Fn(NoiseConfig, i64, i64) -> u8>(
        &mut self,
        pos: ChunkPosition,
        sample: &F,
    )
        requires
            old(self).wf(),
            old(self).noises().len() > 0,
            forall|c: NoiseConfig, a: i64, b: i64| call_requires(sample, (c, a, b)),
        ensures
            final(self).wf(),
            old(self).same_but_chunks(*final(self)),
            neighbourhood_generated(
                old(self).loaded(),
                final(self).loaded(),
                pos,
                old(self).noises().last().config().unwrap(),
                sample,
            ),
    {
        let ghost start = self.chunks@;
        let ghost config = self.noise_generators@.last().config().unwrap();
        proof {
            assert(start.take(start.len() as int) =~= start);
        }
        let mut k: i32 = 0;
        while k < 9
            invariant
                0 <= k <= 9,
                self.wf(),
                old(self).same_but_chunks(*self),
                self.noises().len() > 0,
                config == self.noises().last().config().unwrap(),
                start == old(self).loaded(),
                forall|c: NoiseConfig, a: i64, b: i64| call_requires(sample, (c, a, b)),
                start.len() <= self.chunks@.len(),
                self.chunks@.take(start.len() as int) == start,
                forall|c: ChunkPosition|
                    c.near(pos, 1) && generation_rank(c, pos) < k ==> #[trigger] holds_chunk(
                        self.chunks@,
                        c,
                    ),
                forall|i: int|
                    start.len() <= i < self.chunks@.len() ==> {
                        &&& (#[trigger] self.chunks@[i]).chunk_position.near(pos, 1)
                        &&& generation_rank(self.chunks@[i].chunk_position, pos) < k
                        &&& freshly_populated(self.chunks@[i], config, sample)
                    },
                forall|i: int, j: int|
                    start.len() <= i < j < self.chunks@.len() ==> generation_rank(
                        (#[trigger] self.chunks@[i]).chunk_position,
                        pos,
                    ) < generation_rank((#[trigger] self.chunks@[j]).chunk_position, pos),
            decreases 9 - k,
        {
            let ghost before = self.chunks@;
            let delta_x: i32 = k / 3 - 1;
            let delta_y: i32 = k % 3 - 1;
            match pos.neighbour(delta_x, delta_y) {
                Some(at) => {
                    assert(generation_rank(at, pos) == k);
                    self.generate_chunk(at, sample);
                },
                None => {},
            }
            proof {
                let after = self.chunks@;
                assert(after.len() >= before.len());
                if after.len() > before.len() {
                    assert(after.drop_last() == before);
                    assert(after.take(start.len() as int) =~= before.take(start.len() as int));
                }
                assert(after.take(before.len() as int) =~= before);
                assert forall|c: ChunkPosition|
                    c.near(pos, 1) && generation_rank(c, pos) < k + 1 implies #[trigger] holds_chunk(
                    after,
                    c,
                ) by {
                    if generation_rank(c, pos) < k {
                        lemma_holds_chunk_extends(before, after, c);
                    } else {
                        assert(c.x - pos.x == delta_x && c.y - pos.y == delta_y);
                        assert(pos.reaches(delta_x as int, delta_y as int));
                    }
                }
                assert forall|i: int| start.len() <= i < after.len() implies {
                    &&& (#[trigger] after[i]).chunk_position.near(pos, 1)
                    &&& generation_rank(after[i].chunk_position, pos) < k + 1
                    &&& freshly_populated(after[i], config, sample)
                } by {
                    if i < before.len() {
                        assert(after.take(before.len() as int)[i] == after[i]);
                    }
                }
                assert forall|i: int, j: int| start.len() <= i < j < after.len() implies generation_rank(
                    (#[trigger] after[i]).chunk_position,
                    pos,
                ) < generation_rank((#[trigger] after[j]).chunk_position, pos) by {
                    assert(after.take(before.len() as int)[i] == after[i]);
                    if j < before.len() {
                        assert(after.take(before.len() as int)[j] == after[j]);
                    }
                }
            }
            k += 1;
        }
    }

    /// Makes a noise field from the seed and generates the chunks around the
    /// player.
    pub fn setup<F: Fn(NoiseConfig, i64, i64) -> u8>(&mut self, sample: &F)
        requires
            old(self).wf(),
            forall|c: NoiseConfig, a: i64, b: i64| call_requires(sample, (c, a, b)),
        ensures
            final(self).wf(),
            final(self).seed() == old(self).seed(),
            final(self).player() == old(self).player(),
            final(self).camera() == old(self).camera(),
            final(self).noises().len() == old(self).noises().len() + 1,
            final(self).noises().drop_last() == old(self).noises(),
            final(self).noises().last().config() == Some(
                NoiseConfig { seed: old(self).seed(), frequency: NOISE_FREQUENCY },
            ),
            neighbourhood_generated(
                old(self).loaded(),
                final(self).loaded(),
                ChunkPosition::containing(old(self).player().center),
                NoiseConfig { seed: old(self).seed(), frequency: NOISE_FREQUENCY },
                sample,
            ),
    {
        let mut new_noise = Noise::new();
        new_noise.set_noise(self.seed, NOISE_FREQUENCY);
        let ghost before = self.noise_generators@;
        self.noise_generators.push(new_noise);
        proof {
            assert(self.noise_generators@.drop_last() =~= before);
            assert forall|i: int| 0 <= i < self.noises().len() implies (
            #[trigger] self.noises()[i]).config().is_some() by {
                if i < before.len() {
                    assert(self.noises()[i] == old(self).noises()[i]);
                    assert(old(self).noises()[i].config().is_some());
                } else {
                    assert(self.noises()[i] == new_noise);
                }
            }
            assert(self.loaded() == old(self).loaded());
            assert(self.wf());
        }
        self.generate_chunks_around(ChunkPosition::from(self.player.center), sample);
    }

    /// Drops every chunk and sets the world up anew.
    pub fn reset<F: Fn(NoiseConfig, i64, i64) -> u8>(&mut self, sample: &F)
        requires
            old(self).wf(),
            forall|c: NoiseConfig, a: i64, b: i64| call_requires(sample, (c, a, b)),
        ensures
            final(self).wf(),
            final(self).seed() == old(self).seed(),
            final(self).player() == old(self).player(),
            final(self).camera() == old(self).camera(),
            final(self).noises().len() == old(self).noises().len() + 1,
            final(self).noises().drop_last() == old(self).noises(),
            final(self).noises().last().config() == Some(
                NoiseConfig { seed: old(self).seed(), frequency: NOISE_FREQUENCY },
            ),
            neighbourhood_generated(
                Seq::<Chunk>::empty(),
                final(self).loaded(),
                ChunkPosition::containing(old(self).player().center),
                NoiseConfig { seed: old(self).seed(), frequency: NOISE_FREQUENCY },
                sample,
            ),
    {
        self.chunks.clear();
        index_clear(&mut self.index);
        self.setup(sample);
    }

    /// Whether `after` is `self` after a sweep steered by `steer`: every
    /// chunk near the player's was updated and gave up the creatures that
    /// left it, and those are in transit, in the order they left.
    pub open spec fn sweeps_to<F: Fn(i32, i32) -> (i64, i64)>(self, after: World, steer: &F) -> bool {
        let center = ChunkPosition::containing(self.player().center);
        &&& after.seed() == self.seed()
        &&& after.noises() == self.noises()
        &&& after.player() == self.player()
        &&& after.loaded().len() == self.loaded().len()
        &&& exists|mids: Seq<Seq<Option<Dynamic>>>|
            {
                &&& mids.len() == self.loaded().len()
                &&& forall|i: int|
                    0 <= i < self.loaded().len() ==> chunk_swept(
                        #[trigger] self.loaded()[i],
                        after.loaded()[i],
                        mids[i],
                        center,
                        steer,
                    )
                &&& after.transit() == #[trigger] departures(self.loaded(), mids, center)
            }
        &&& total_dynamics(after.loaded()) + after.transit().len() == total_dynamics(
            self.loaded(),
        )
    }

    /// Updates every chunk at most `UPDATE_DISTANCE` from the player's, in
    /// the order of generation, and moves the creatures that left their
    /// chunk into transit.
    pub fn sweep<F: Fn(i32, i32) -> (i64, i64)>(&mut self, steer: &F)
        requires
            old(self).wf(),
            forall|r: i32, s: i32| call_requires(steer, (r, s)),
        ensures
            old(self).sweeps_to(*final(self), steer),
            final(self).camera() == old(self).camera(),
            final(self).indexed(),
            forall|i: int|
                0 <= i < final(self).loaded().len() ==> chunk_ready(
                    #[trigger] final(self).loaded()[i],
                ),
            forall|i: int|
                0 <= i < final(self).transit().len() ==> (
                #[trigger] final(self).transit()[i]).is_some(),
            total_dynamics(final(self).loaded()) + final(self).transit().len() == total_dynamics(
                old(self).loaded(),
            ),
    {
        let player_chunk = ChunkPosition::from(self.player.center);
        let ghost start = self.chunks@;
        let ghost mut mids: Seq<Seq<Option<Dynamic>>> = Seq::empty();
        let n = self.chunks.len();
        let mut i: usize = 0;
        proof {
            assert(start.take(0) =~= Seq::<Chunk>::empty());
            assert forall|k: int| 0 <= k < n implies chunk_ready(#[trigger] self.chunks@[k]) by {
                assert(chunk_ready(self.loaded()[k]));
            }
        }
        while i < n
            invariant
                i <= n,
                n == start.len(),
                self.chunks@.len() == n,
                start == old(self).loaded(),
                player_chunk == ChunkPosition::containing(old(self).player().center),
                self.seed == old(self).seed,
                self.noise_generators == old(self).noise_generators,
                self.player == old(self).player,
                self.main_camera == old(self).main_camera,
                self.index == old(self).index,
                forall|r: i32, s: i32| call_requires(steer, (r, s)),
                mids.len() == i,
                forall|k: int|
                    0 <= k < i ==> chunk_swept(
                        #[trigger] start[k],
                        self.chunks@[k],
                        mids[k],
                        player_chunk,
                        steer,
                    ),
                forall|k: int| i <= k < n ==> self.chunks@[k] == start[k],
                forall|k: int| 0 <= k < n ==> chunk_ready(#[trigger] self.chunks@[k]),
                self.out_of_chunk@ == departures(start.take(i as int), mids, player_chunk),
                forall|k: int|
                    0 <= k < self.out_of_chunk@.len() ==> (#[trigger] self.out_of_chunk@[k]).is_some(),
                total_dynamics(self.chunks@) + self.out_of_chunk@.len() == total_dynamics(start),
            decreases n - i,
        {
            let ghost before = self.chunks@;
            let ghost chunk_before = self.chunks@[i as int];
            let ghost transit_before = self.out_of_chunk@;
            assert(chunk_ready(self.chunks@[i as int]));
            let ghost mut mid = chunk_before.dynamics@;
            if self.chunks[i].chunk_position.is_within(player_chunk, UPDATE_DISTANCE) {
                self.chunks[i].update(steer);
                proof {
                    mid = self.chunks@[i as int].dynamics@;
                }
                let mut extracted = self.chunks[i].extract_outside_entities();
                self.out_of_chunk.append(&mut extracted);
            }
            proof {
                let after = self.chunks@;
                let chunk_after = after[i as int];
                assert(after =~= before.update(i as int, chunk_after));
                lemma_total_dynamics_update(before, i as int, chunk_after);
                let longer = mids.push(mid);
                assert(start.take(i as int + 1).drop_last() =~= start.take(i as int));
                assert(longer.drop_last() =~= mids);
                assert(start.take(i as int + 1).last() == chunk_before);
                assert forall|k: int| 0 <= k < i + 1 implies chunk_swept(
                    #[trigger] start[k],
                    after[k],
                    longer[k],
                    player_chunk,
                    steer,
                ) by {
                    if k < i {
                        assert(after[k] == before[k]);
                        assert(longer[k] == mids[k]);
                    }
                }
                mids = longer;
            }
            i += 1;
        }
        proof {
            assert(start.take(n as int) =~= start);
            assert forall|k: int| 0 <= k < n implies (#[trigger] self.chunks@[k]).chunk_position
                == start[k].chunk_position by {
                assert(chunk_swept(start[k], self.chunks@[k], mids[k], player_chunk, steer));
            }
            lemma_index_keeps_matching(entries(self.index), start, self.chunks@);
            assert(departures(old(self).loaded(), mids, player_chunk) == self.transit());
        }
    }

    /// Whether `after` is `self` with the creatures in transit put into the
    /// chunks their positions lie in; those whose chunk is not loaded are
    /// gone.
    pub open spec fn rehomes_to(self, after: World) -> bool {
        &&& after.seed() == self.seed()
        &&& after.noises() == self.noises()
        &&& after.player() == self.player()
        &&& after.loaded().len() == self.loaded().len()
        &&& forall|i: int|
            0 <= i < self.loaded().len() ==> chunk_rehomed(
                #[trigger] self.loaded()[i],
                after.loaded()[i],
                self.transit(),
            )
        &&& after.transit().len() == 0
        &&& total_dynamics(after.loaded()) == total_dynamics(self.loaded()) + self.transit().filter(
            finds_home(self.loaded()),
        ).len()
    }

    /// A creature in transit whose chunk is loaded arrives there: after
    /// re-homing it stands in that chunk, behind the creatures the chunk had.
    pub proof fn lemma_migrant_arrives(self, after: World, t: int, j: int)
        requires
            self.rehomes_to(after),
            0 <= t < self.transit().len(),
            self.transit()[t].is_some(),
            0 <= j < self.loaded().len(),
            ChunkPosition::containing(self.transit()[t].unwrap().position())
                == self.loaded()[j].chunk_position,
        ensures
            exists|k: int|
                self.loaded()[j].dynamics@.len() <= k < after.loaded()[j].dynamics@.len()
                    && #[trigger] after.loaded()[j].dynamics@[k] == self.transit()[t],
    {
        let home = self.loaded()[j];
        let arrivals = self.transit().filter(bound_for(home.chunk_position));
        assert(chunk_rehomed(home, after.loaded()[j], self.transit()));
        self.transit().lemma_filter_contains(bound_for(home.chunk_position), t);
        let at = choose|at: int| 0 <= at < arrivals.len() && arrivals[at] == self.transit()[t];
        let k = home.dynamics@.len() + at;
        assert(after.loaded()[j].dynamics@[k] == arrivals[at]);
    }

    /// A creature arrives only in the chunk its position lies in: what
    /// re-homing puts behind the creatures of a chunk was in transit and
    /// lies in that chunk.
    pub proof fn lemma_arrivals_belong(self, after: World, i: int, k: int)
        requires
            self.rehomes_to(after),
            0 <= i < self.loaded().len(),
            self.loaded()[i].dynamics@.len() <= k < after.loaded()[i].dynamics@.len(),
        ensures
            after.loaded()[i].dynamics@[k].is_some(),
            ChunkPosition::containing(after.loaded()[i].dynamics@[k].unwrap().position())
                == self.loaded()[i].chunk_position,
            self.transit().contains(after.loaded()[i].dynamics@[k]),
    {
        let home = self.loaded()[i];
        let arrivals = self.transit().filter(bound_for(home.chunk_position));
        assert(chunk_rehomed(home, after.loaded()[i], self.transit()));
        let at = k - home.dynamics@.len();
        assert(after.loaded()[i].dynamics@[k] == arrivals[at]);
        self.transit().lemma_filter_pred(bound_for(home.chunk_position), at);
        assert(arrivals.contains(arrivals[at]));
        self.transit().lemma_filter_contains_rev(bound_for(home.chunk_position), arrivals[at]);
    }

    /// After a sweep every creature of a chunk that was swept lies inside
    /// that chunk: those that left it are no longer among its creatures.
    pub proof fn lemma_swept_chunk_holds_its_own<F: Fn(i32, i32) -> (i64, i64)>(
        self,
        after: World,
        steer: &F,
        i: int,
        k: int,
    )
        requires
            self.sweeps_to(after, steer),
            0 <= i < self.loaded().len(),
            self.loaded()[i].chunk_position.near(
                ChunkPosition::containing(self.player().center),
                UPDATE_DISTANCE as int,
            ),
            0 <= k < after.loaded()[i].dynamics@.len(),
        ensures
            after.loaded()[i].dynamics@[k].is_some(),
            self.loaded()[i].bounds().holds(after.loaded()[i].dynamics@[k].unwrap().position()),
    {
        let center = ChunkPosition::containing(self.player().center);
        let mids = choose|mids: Seq<Seq<Option<Dynamic>>>|
            {
                &&& mids.len() == self.loaded().len()
                &&& forall|i: int|
                    0 <= i < self.loaded().len() ==> chunk_swept(
                        #[trigger] self.loaded()[i],
                        after.loaded()[i],
                        mids[i],
                        center,
                        steer,
                    )
                &&& after.transit() == #[trigger] departures(self.loaded(), mids, center)
            };
        assert(chunk_swept(self.loaded()[i], after.loaded()[i], mids[i], center, steer));
        mids[i].lemma_filter_pred(stays_in(self.loaded()[i].bounds()), k);
    }

    /// Creatures are neither made nor doubled by a frame: of those that left
    /// their chunk in the sweep, the ones whose new chunk is loaded are back
    /// in the chunks after re-homing, the others are gone, and so the world
    /// never holds more creatures after a frame than before it.
    pub proof fn lemma_migration_conserves<F: Fn(i32, i32) -> (i64, i64)>(
        self,
        mid: World,
        after: World,
        steer: &F,
    )
        requires
            self.sweeps_to(mid, steer),
            mid.rehomes_to(after),
        ensures
            mid.transit().filter(finds_home(mid.loaded())).len() <= mid.transit().len(),
            total_dynamics(after.loaded()) == total_dynamics(self.loaded()) - mid.transit().len()
                + mid.transit().filter(finds_home(mid.loaded())).len(),
            total_dynamics(after.loaded()) <= total_dynamics(self.loaded()),
            after.transit().len() == 0,
    {
        mid.transit().lemma_filter_len(finds_home(mid.loaded()));
    }

    /// Puts `entity` behind the creatures of the chunk its position lies in.
    /// Where that chunk is not loaded the creature is dropped, and the
    /// result is `false`.
    pub fn add_dynamic(&mut self, entity: Dynamic) -> (placed: bool)
        requires
            old(self).indexed(),
        ensures
            final(self).indexed(),
            placed == old(self).is_loaded(ChunkPosition::containing(entity.position())),
            old(self).same_but_chunks(*final(self)),
            final(self).loaded().len() == old(self).loaded().len(),
            forall|i: int|
                0 <= i < old(self).loaded().len() ==> chunk_rehomed(
                    #[trigger] old(self).loaded()[i],
                    final(self).loaded()[i],
                    seq![Some(entity)],
                ),
            total_dynamics(final(self).loaded()) == total_dynamics(old(self).loaded()) + (if placed {
                1int
            } else {
                0int
            }),
    {
        let new_chunk = ChunkPosition::from(entity.get_pos());
        let ghost before = self.chunks@;
        let found = index_get(&self.index, (new_chunk.x, new_chunk.y));
        proof {
            assert forall|i: int| 0 <= i < before.len() implies seq![Some(entity)].filter(
                bound_for((#[trigger] before[i]).chunk_position),
            ) == if before[i].chunk_position == new_chunk {
                seq![Some(entity)]
            } else {
                Seq::<Option<Dynamic>>::empty()
            } by {
                lemma_filter_one(Some(entity), bound_for(before[i].chunk_position));
            }
        }
        match found {
            Some(slot) => {
                assert(before[slot as int].chunk_position == new_chunk);
                self.chunks[slot].dynamics.push(Some(entity));
                proof {
                    let after = self.chunks@;
                    assert(after =~= before.update(slot as int, after[slot as int]));
                    lemma_total_dynamics_update(before, slot as int, after[slot as int]);
                    assert forall|i: int| 0 <= i < before.len() implies chunk_rehomed(
                        #[trigger] before[i],
                        after[i],
                        seq![Some(entity)],
                    ) by {
                        if i == slot {
                            assert(after[i].dynamics@ =~= before[i].dynamics@ + seq![Some(entity)]);
                        } else {
                            assert(before[i].chunk_position != new_chunk);
                            assert(after[i].dynamics@ =~= before[i].dynamics@ + Seq::<
                                Option<Dynamic>,
                            >::empty());
                        }
                    }
                    lemma_index_keeps_matching(entries(self.index), before, after);
                }
                true
            },
            None => {
                proof {
                    assert forall|i: int| 0 <= i < before.len() implies chunk_rehomed(
                        #[trigger] before[i],
                        before[i],
                        seq![Some(entity)],
                    ) by {
                        assert(entries(self.index).contains_key(key_of(before[i].chunk_position)));
                        assert(before[i].chunk_position != new_chunk);
                        assert(before[i].dynamics@ =~= before[i].dynamics@ + Seq::<
                            Option<Dynamic>,
                        >::empty());
                    }
                    assert(!holds_chunk(before, new_chunk)) by {
                        if holds_chunk(before, new_chunk) {
                            let i = choose|i: int|
                                0 <= i < before.len() && (#[trigger] before[i]).chunk_position
                                    == new_chunk;
                            assert(entries(self.index).contains_key(key_of(before[i].chunk_position)));
                        }
                    }
                }
                false
            },
        }
    }

    /// Empties the transit buffer: each creature in it goes to the chunk its
    /// position lies in, or is dropped where that chunk is not loaded.
    pub fn rehome(&mut self)
        requires
            old(self).indexed(),
            forall|i: int|
                0 <= i < old(self).transit().len() ==> (#[trigger] old(self).transit()[i]).is_some(),
        ensures
            old(self).rehomes_to(*final(self)),
            final(self).camera() == old(self).camera(),
            final(self).indexed(),
            total_dynamics(final(self).loaded()) == total_dynamics(old(self).loaded()) + old(
                self,
            ).transit().filter(finds_home(old(self).loaded())).len(),
            total_dynamics(final(self).loaded()) <= total_dynamics(old(self).loaded()) + old(
                self,
            ).transit().len(),
    {
        let ghost start = self.chunks@;
        let ghost transit = self.out_of_chunk@;
        let n = self.out_of_chunk.len();
        let mut k: usize = 0;
        proof {
            reveal(Seq::filter);
            assert forall|i: int| 0 <= i < transit.len() implies (#[trigger] transit[i]).is_some() by {
                assert(old(self).transit()[i].is_some());
            }
            assert(transit.take(0).filter(finds_home(start)) =~= Seq::<Option<Dynamic>>::empty());
            assert forall|i: int| 0 <= i < start.len() implies chunk_rehomed(
                #[trigger] start[i],
                start[i],
                transit.take(0),
            ) by {
                assert(transit.take(0).filter(bound_for(start[i].chunk_position)) =~= Seq::<
                    Option<Dynamic>,
                >::empty());
                assert(start[i].dynamics@ + Seq::<Option<Dynamic>>::empty() =~= start[i].dynamics@);
            }
        }
        while k < n
            invariant
                k <= n,
                n == transit.len(),
                self.out_of_chunk@ == transit,
                start == old(self).loaded(),
                self.indexed(),
                self.seed == old(self).seed,
                self.noise_generators@ == old(self).noise_generators@,
                self.player == old(self).player,
                self.main_camera == old(self).main_camera,
                self.chunks@.len() == start.len(),
                forall|i: int| 0 <= i < transit.len() ==> (#[trigger] transit[i]).is_some(),
                forall|i: int|
                    0 <= i < start.len() ==> chunk_rehomed(
                        #[trigger] start[i],
                        self.chunks@[i],
                        transit.take(k as int),
                    ),
                total_dynamics(self.chunks@) == total_dynamics(start) + transit.take(
                    k as int,
                ).filter(finds_home(start)).len(),
            decreases n - k,
        {
            let entry = self.out_of_chunk[k];
            let ghost before = self.chunks@;
            let ghost seen = transit.take(k as int);
            assert(entry.is_some());
            let entity = entry.unwrap();
            let placed = self.add_dynamic(entity);
            proof {
                let after = self.chunks@;
                assert(transit.take(k as int + 1) =~= seen + seq![entry]);
                assert(transit.take(k as int + 1) =~= seen.push(entry));
                seen.lemma_filter_push(entry, finds_home(start));
                assert forall|i: int| 0 <= i < before.len() implies (
                #[trigger] before[i]).chunk_position == start[i].chunk_position by {
                    assert(chunk_rehomed(start[i], before[i], seen));
                }
                lemma_same_places(start, before, ChunkPosition::containing(entity.position()));
                assert forall|i: int| 0 <= i < start.len() implies chunk_rehomed(
                    #[trigger] start[i],
                    after[i],
                    transit.take(k as int + 1),
                ) by {
                    assert(chunk_rehomed(start[i], before[i], seen));
                    assert(chunk_rehomed(before[i], after[i], seq![entry]));
                    Seq::filter_distributes_over_add(
                        seen,
                        seq![entry],
                        bound_for(start[i].chunk_position),
                    );
                    assert(after[i].dynamics@ =~= start[i].dynamics@ + (seen + seq![entry]).filter(
                        bound_for(start[i].chunk_position),
                    ));
                }
            }
            k += 1;
        }
        proof {
            assert(transit.take(n as int) =~= transit);
            transit.lemma_filter_len(finds_home(start));
        }
        self.out_of_chunk.clear();
    }

    /// One frame of the simulation: the camera moves onto what it follows,
    /// the chunks near the player are swept, and the creatures that left
    /// their chunk are put into the chunk they are in now, or dropped where
    /// that chunk is not loaded.
    pub fn update<F: Fn(i32, i32) -> (i64, i64)>(&mut self, steer: &F)
        requires
            old(self).wf(),
            forall|r: i32, s: i32| call_requires(steer, (r, s)),
        ensures
            final(self).wf(),
            final(self).camera() == old(self).camera().updated(),
            exists|mid: World| #[trigger]
                old(self).sweeps_to(mid, steer) && mid.rehomes_to(*final(self)),
            total_dynamics(final(self).loaded()) <= total_dynamics(old(self).loaded()),
            final(self).loaded().len() == old(self).loaded().len(),
    {
        self.sweep(steer);
        let ghost mid = *self;
        self.rehome();
        self.main_camera.update();
        proof {
            assert(old(self).sweeps_to(mid, steer) && mid.rehomes_to(*self));
            assert forall|i: int| 0 <= i < self.loaded().len() implies chunk_ready(
                #[trigger] self.loaded()[i],
            ) by {
                assert(chunk_ready(mid.loaded()[i]));
                assert(chunk_rehomed(mid.loaded()[i], self.loaded()[i], mid.transit()));
                let arrivals = mid.transit().filter(bound_for(mid.loaded()[i].chunk_position));
                assert forall|j: int| 0 <= j < arrivals.len() implies (
                #[trigger] arrivals[j]).is_some() by {
                    mid.transit().lemma_filter_pred(
                        bound_for(mid.loaded()[i].chunk_position),
                        j,
                    );
                }
            }
        }
    }

    /// What drawing the world through the view `view` puts on the screen:
    /// the pictures of the chunks at most `RENDER_DISTANCE` from the
    /// player's, in the order of generation, each inside the view widened by
    /// one chunk on every side.
    pub open spec fn drawn(self, view: Rect) -> Seq<Shape> {
        chunks_drawn(
            self.loaded(),
            ChunkPosition::containing(self.player().center),
            view.grown(CHUNK_EXTENT as int),
        )
    }

    /// The shapes that make up the world's picture through `view`, in
    /// drawing order.
    pub fn draw(&self, view: Rect) -> (shapes: Vec<Shape>)
        requires
            self.wf(),
        ensures
            shapes@ == self.drawn(view),
    {
        let viewport = view.inflate(CHUNK_EXTENT);
        let player_chunk = ChunkPosition::from(self.player.center);
        let mut shapes: Vec<Shape> = Vec::new();
        let mut i: usize = 0;
        while i < self.chunks.len()
            invariant
                i <= self.chunks@.len(),
                self.wf(),
                viewport == view.grown(CHUNK_EXTENT as int),
                player_chunk == ChunkPosition::containing(self.player().center),
                shapes@ == chunks_drawn(self.chunks@.take(i as int), player_chunk, viewport),
            decreases self.chunks@.len() - i,
        {
            proof {
                assert(self.chunks@.take(i as int + 1).drop_last() =~= self.chunks@.take(i as int));
                assert(chunk_ready(self.loaded()[i as int]));
            }
            if self.chunks[i].chunk_position.is_within(player_chunk, RENDER_DISTANCE) {
                let mut more = self.chunks[i].draw(viewport);
                shapes.append(&mut more);
            }
            i += 1;
        }
        proof {
            assert(self.chunks@.take(i as int) =~= self.chunks@);
        }
        shapes
    }

    /// The number of statics in the loaded chunks.
    pub fn count_statics(&self) -> (n: u128)
        ensures
            n == total_statics(self.loaded()),
    {
        let mut n: u128 = 0;
        let mut i: usize = 0;
        while i < self.chunks.len()
            invariant
                i <= self.chunks@.len(),
                n == total_statics(self.chunks@.take(i as int)),
                n <= i * 0x1_0000_0000_0000_0000,
            decreases self.chunks@.len() - i,
        {
            proof {
                assert(self.chunks@.take(i as int + 1).drop_last() =~= self.chunks@.take(i as int));
                assert((i + 1) * 0x1_0000_0000_0000_0000 <= 0xffff_ffff_ffff_ffff
                    * 0x1_0000_0000_0000_0000) by (nonlinear_arith)
                    requires
                        i + 1 <= 0xffff_ffff_ffff_ffff,
                ;
            }
            n = n + self.chunks[i].statics.len() as u128;
            i += 1;
        }
        proof {
            assert(self.chunks@.take(i as int) =~= self.chunks@);
        }
        n
    }

    /// The number of creatures in the loaded chunks.
    pub fn count_dynamics(&self) -> (n: u128)
        ensures
            n == total_dynamics(self.loaded()),
    {
        let mut n: u128 = 0;
        let mut i: usize = 0;
        while i < self.chunks.len()
            invariant
                i <= self.chunks@.len(),
                n == total_dynamics(self.chunks@.take(i as int)),
                n <= i * 0x1_0000_0000_0000_0000,
            decreases self.chunks@.len() - i,
        {
            proof {
                assert(self.chunks@.take(i as int + 1).drop_last() =~= self.chunks@.take(i as int));
                assert((i + 1) * 0x1_0000_0000_0000_0000 <= 0xffff_ffff_ffff_ffff
                    * 0x1_0000_0000_0000_0000) by (nonlinear_arith)
                    requires
                        i + 1 <= 0xffff_ffff_ffff_ffff,
                ;
            }
            n = n + self.chunks[i].dynamics.len() as u128;
            i += 1;
        }
        proof {
            assert(self.chunks@.take(i as int) =~= self.chunks@);
        }
        n
    }

    /// Moves the player as `controls` ask, generates the neighbourhood of the
    /// chunk it crossed into, if it crossed into one, and lets the camera
    /// follow it. Where the keys steer the camera nothing changes.
    pub fn steer_player<S: Fn(NoiseConfig, i64, i64) -> u8, F: Fn(i32, i32) -> (i64, i64)>(
        &mut self,
        controls: Controls,
        sample: &S,
        steer: &F,
    )
        requires
            old(self).wf(),
            old(self).noises().len() > 0,
            forall|c: NoiseConfig, a: i64, b: i64| call_requires(sample, (c, a, b)),
            forall|r: i32, s: i32| call_requires(steer, (r, s)),
        ensures
            final(self).wf(),
            final(self).seed() == old(self).seed(),
            final(self).noises() == old(self).noises(),
            player_moved(old(self).player(), final(self).player(), controls, steer),
            controls.camera || !controls.moves() ==> final(self).player() == old(self).player(),
            final(self).camera() == (if controls.camera {
                old(self).camera()
            } else {
                Camera {
                    followed_pos: Some(final(self).player().center),
                    followed_rot: Some(final(self).player().rotation),
                    ..old(self).camera()
                }
            }),
            streamed(
                old(self).loaded(),
                final(self).loaded(),
                ChunkPosition::containing(old(self).player().center),
                ChunkPosition::containing(final(self).player().center),
                old(self).noises().last().config().unwrap(),
                sample,
            ),
    {
        if !controls.camera {
            let speed: i32 = if controls.forward {
                PLAYER_SPEED
            } else if controls.backward {
                -PLAYER_SPEED
            } else {
                0
            };
            let rotation: i32 = if controls.left {
                -PLAYER_TURN
            } else if controls.right {
                PLAYER_TURN
            } else {
                0
            };
            let last_chunk = ChunkPosition::from(self.player.center);
            self.player.walk(rotation, speed, steer);
            proof {
                assert(self.loaded() == old(self).loaded());
                assert(self.noises() == old(self).noises());
                assert(self.wf());
            }
            let chunk = ChunkPosition::from(self.player.center);
            if last_chunk != chunk {
                self.generate_chunks_around(chunk, sample);
            }
            let ghost streamed_chunks = self.chunks@;
            self.main_camera.set_follow(Some(self.player.center), Some(self.player.rotation));
            proof {
                assert(self.loaded() == streamed_chunks);
                assert(self.wf());
            }
        }
    }

    /// One frame of input: on `controls.reset` the world starts anew from a
    /// random seed; the player moves as the keys ask; where it crosses into
    /// another chunk, the chunks around that chunk are generated where they
    /// are missing; and the camera follows the player unless the keys steer
    /// the camera. With no key down nothing changes.
    pub fn input<S: Fn(NoiseConfig, i64, i64) -> u8, F: Fn(i32, i32) -> (i64, i64)>(
        &mut self,
        controls: Controls,
        sample: &S,
        steer: &F,
    )
        requires
            old(self).wf(),
            old(self).noises().len() > 0 || controls.reset,
            forall|c: NoiseConfig, a: i64, b: i64| call_requires(sample, (c, a, b)),
            forall|r: i32, s: i32| call_requires(steer, (r, s)),
        ensures
            final(self).wf(),
            final(self).noises().len() > 0,
            player_moved(old(self).player(), final(self).player(), controls, steer),
            controls.camera || !controls.moves() ==> final(self).player() == old(self).player(),
            final(self).camera() == (if controls.camera {
                old(self).camera()
            } else {
                Camera {
                    followed_pos: Some(final(self).player().center),
                    followed_rot: Some(final(self).player().rotation),
                    ..old(self).camera()
                }
            }),
            !controls.reset ==> {
                &&& final(self).seed() == old(self).seed()
                &&& final(self).noises() == old(self).noises()
                &&& streamed(
                    old(self).loaded(),
                    final(self).loaded(),
                    ChunkPosition::containing(old(self).player().center),
                    ChunkPosition::containing(final(self).player().center),
                    old(self).noises().last().config().unwrap(),
                    sample,
                )
            },
            controls.reset ==> {
                &&& final(self).seed() <= u32::MAX
                &&& final(self).noises().len() == old(self).noises().len() + 1
                &&& final(self).noises().drop_last() == old(self).noises()
                &&& final(self).noises().last().config() == Some(
                    NoiseConfig { seed: final(self).seed(), frequency: NOISE_FREQUENCY },
                )
                &&& exists|first: Seq<Chunk>|
                    {
                        &&& #[trigger] neighbourhood_generated(
                            Seq::<Chunk>::empty(),
                            first,
                            ChunkPosition::containing(old(self).player().center),
                            NoiseConfig { seed: final(self).seed(), frequency: NOISE_FREQUENCY },
                            sample,
                        )
                        &&& streamed(
                            first,
                            final(self).loaded(),
                            ChunkPosition::containing(old(self).player().center),
                            ChunkPosition::containing(final(self).player().center),
                            NoiseConfig { seed: final(self).seed(), frequency: NOISE_FREQUENCY },
                            sample,
                        )
                    }
            },
    {
        if controls.reset {
            self.seed = random_word() as u64;
            proof {
                assert(self.loaded() == old(self).loaded());
                assert(self.noises() == old(self).noises());
                assert(self.wf());
            }
            self.reset(sample);
        }
        let ghost first = self.chunks@;
        self.steer_player(controls, sample, steer);
        proof {
            if controls.reset {
                let config = NoiseConfig { seed: self.seed(), frequency: NOISE_FREQUENCY };
                assert(neighbourhood_generated(
                    Seq::<Chunk>::empty(),
                    first,
                    ChunkPosition::containing(old(self).player().center),
                    config,
                    sample,
                ));
            }
        }
    }
}

impl Default for World {
    fn default() -> (w: Self)
        ensures
            w.wf(),
            w.loaded().len() == 0,
            w.noises().len() == 0,
            w.seed() == 0,
    {
        Self::new()
    }
}

} // verus!
