//! One cell of the world grid and what lives in it.

use vstd::prelude::*;
use crate::entity::dynamic::follower::Follower;
use crate::entity::dynamic::random_mover::RandomMover;
use crate::entity::dynamic::updatable::Dynamic;
use crate::entity::statich::road::Segment;
use crate::entity::statich::layers::{
    in_layer_order, layer_of, layered, lemma_layer_of_uniform, lemma_layered, on_layer,
    sort_by_layer,
};
use crate::entity::statich::stone::Stone;
use crate::entity::statich::terrain::Terrain;
use crate::entity::statich::Static;
use crate::geometry::{Position, Rect};
use crate::random::{draw_between, random_below, DRAW_LIMIT};
use crate::shapes::{Rgba, Shape};
use crate::special::noise::{single_valued, Noise, NoiseConfig, NoiseImage};
use crate::world::{ChunkPosition, CHUNK_EXTENT, CHUNK_SIZE, CHUNK_TILE_SIZE, NOISE_IMAGE_SIZE};

verus! {

/// A chunk: the statics and the creatures of one cell of the grid. Each
/// creature sits in a slot of its own; a slot is empty only while its
/// creature is being updated.
pub struct Chunk {
    pub chunk_position: ChunkPosition,
    pub dynamics: Vec<Option<Dynamic>>,
    pub statics: Vec<Static>,
    pub noise_image: Option<NoiseImage>,
}

/// The test "holds a creature that is inside `bounds`".
pub open spec fn stays_in(bounds: Rect) -> spec_fn(Option<Dynamic>) -> bool {
    |slot: Option<Dynamic>| slot.is_some() && bounds.holds(slot.unwrap().position())
}

/// The test "holds no creature that is inside `bounds`".
pub open spec fn leaves(bounds: Rect) -> spec_fn(Option<Dynamic>) -> bool {
    |slot: Option<Dynamic>| !(slot.is_some() && bounds.holds(slot.unwrap().position()))
}

/// What drawing a static inside `viewport` adds to the picture.
pub open spec fn static_shape(viewport: Rect) -> spec_fn(Static) -> Option<Shape> {
    |s: Static| s.drawn(viewport)
}

/// What drawing a slot inside `viewport` adds to the picture.
pub open spec fn slot_shape(viewport: Rect) -> spec_fn(Option<Dynamic>) -> Option<Shape> {
    |slot: Option<Dynamic>|
        match slot {
            Some(entity) => entity.drawn(viewport),
            None => None,
        }
}

/// Whether `after` is `before` with the creature of slot `i` updated once: it
/// was taken out of its slot, acted among the others, and was put back.
pub open spec fn slot_updated<F: Fn(i32, i32) -> (i64, i64)>(
    before: Seq<Option<Dynamic>>,
    after: Seq<Option<Dynamic>>,
    i: int,
    steer: &F,
) -> bool {
    &&& 0 <= i < before.len()
    &&& after.len() == before.len()
    &&& forall|j: int| 0 <= j < before.len() && j != i ==> after[j] == before[j]
    &&& before[i].is_some()
    &&& after[i].is_some()
    &&& before[i].unwrap().updates_to(after[i].unwrap(), before.update(i, None), steer)
}

/// Whether `after` is `before` with every slot updated once, in slot order:
/// `trace` holds the slots before the sweep, after each update, and at the
/// end.
pub open spec fn swept_along<F: Fn(i32, i32) -> (i64, i64)>(
    before: Seq<Option<Dynamic>>,
    after: Seq<Option<Dynamic>>,
    trace: Seq<Seq<Option<Dynamic>>>,
    steer: &F,
) -> bool {
    &&& trace.len() == before.len() + 1
    &&& trace[0] == before
    &&& trace[before.len() as int] == after
    &&& forall|i: int|
        0 <= i < before.len() ==> slot_updated(#[trigger] trace[i], trace[i + 1], i, steer)
}

/// Whether `after` is `before` with every slot updated once, in slot order.
pub open spec fn swept<F: Fn(i32, i32) -> (i64, i64)>(
    before: Seq<Option<Dynamic>>,
    after: Seq<Option<Dynamic>>,
    steer: &F,
) -> bool {
    exists|trace: Seq<Seq<Option<Dynamic>>>| swept_along(before, after, trace, steer)
}


/// The smallest stone.
pub const MIN_STONE_SIZE: u32 = 5_000;

/// No stone is this large.
pub const MAX_STONE_SIZE: u32 = 80_000;

/// The most stones a cell of noise value `noise` gets.
pub open spec fn max_stones(noise: u8) -> int {
    if noise < 50 {
        0
    } else if noise < 100 {
        1
    } else if noise < 200 {
        2
    } else {
        3
    }
}

/// The size that no stone of a cell of noise value `noise` reaches.
pub open spec fn stone_size_limit(noise: u8) -> int {
    if noise < 100 {
        MAX_STONE_SIZE as int / 3
    } else if noise < 200 {
        MAX_STONE_SIZE as int / 2
    } else {
        MAX_STONE_SIZE as int
    }
}

/// Whether `p` lies in the square cell of side `cell_size` whose top-left
/// corner is `(x, y)`.
pub open spec fn within_cell(p: Position, x: i64, y: i64, cell_size: u32) -> bool {
    &&& x <= p.x < x + cell_size
    &&& y <= p.y < y + cell_size
}

/// Whether `s` is a stone as a cell at `(x, y)` of noise value `noise` gets
/// them: somewhere in the cell, turned by three degrees per unit of noise,
/// and of a size the noise value allows.
pub open spec fn cell_stone(s: Static, x: i64, y: i64, cell_size: u32, noise: u8) -> bool {
    &&& s is Stone
    &&& within_cell(s->Stone_0.position, x, y, cell_size)
    &&& s->Stone_0.rotation == 3000 * noise
    &&& MIN_STONE_SIZE <= s->Stone_0.size < stone_size_limit(noise)
}

/// Whether `slot` holds a creature as a cell at `(x, y)` of noise value
/// `noise` gets one: a random mover in the middle range of noise, a follower
/// in the high range, somewhere in the cell.
pub open spec fn cell_creature(
    slot: Option<Dynamic>,
    x: i64,
    y: i64,
    cell_size: u32,
    noise: u8,
) -> bool {
    &&& slot.is_some()
    &&& match slot.unwrap() {
        Dynamic::RandomMover(mover) => {
            &&& 100 <= noise < 200
            &&& within_cell(mover.position, x, y, cell_size)
            &&& mover.rotation == 0
            &&& 5_000 <= mover.size < 25_000
            &&& 100 <= mover.speed < 1_500
        },
        Dynamic::Follower(follower) => {
            &&& 200 <= noise
            &&& within_cell(follower.position, x, y, cell_size)
            &&& follower.target.is_none()
        },
    }
}

/// Whether `after` is `before` with the cell at `(x, y)` of noise value
/// `noise` populated: some stones were added behind the statics, at most one
/// creature behind the creatures, and nothing else changed.
pub open spec fn cell_populated(
    before: Chunk,
    after: Chunk,
    x: i64,
    y: i64,
    cell_size: u32,
    noise: u8,
) -> bool {
    &&& after.chunk_position == before.chunk_position
    &&& after.noise_image == before.noise_image
    &&& before.statics@.len() <= after.statics@.len() <= before.statics@.len() + max_stones(noise)
    &&& after.statics@.take(before.statics@.len() as int) == before.statics@
    &&& forall|i: int|
        before.statics@.len() <= i < after.statics@.len() ==> cell_stone(
            #[trigger] after.statics@[i],
            x,
            y,
            cell_size,
            noise,
        )
    &&& before.dynamics@.len() <= after.dynamics@.len() <= before.dynamics@.len() + 1
    &&& after.dynamics@.take(before.dynamics@.len() as int) == before.dynamics@
    &&& forall|i: int|
        before.dynamics@.len() <= i < after.dynamics@.len() ==> cell_creature(
            #[trigger] after.dynamics@[i],
            x,
            y,
            cell_size,
            noise,
        )
}

/// What the generator gave for one cell: for each stone how far it lies
/// from the cell's corner along both axes and how much larger than the
/// smallest stone it is; the roll that decides whether a creature spawns;
/// and for that creature how far it lies from the cell's corner, how much
/// larger than the smallest creature it is, and its speed.
#[derive(Debug)]
pub struct CellDraws {
    pub stones: Vec<(u32, u32, u32)>,
    pub roll: u32,
    pub spot: (u32, u32),
    pub size: u32,
    pub speed: i32,
}

impl CellDraws {
    /// Whether the draws are such as a cell of side `cell_size` and noise
    /// value `noise` can get.
    pub open spec fn fit(self, cell_size: u32, noise: u8) -> bool {
        &&& self.stones@.len() <= max_stones(noise)
        &&& forall|i: int|
            0 <= i < self.stones@.len() ==> {
                &&& (#[trigger] self.stones@[i]).0 < cell_size
                &&& self.stones@[i].1 < cell_size
                &&& MIN_STONE_SIZE + self.stones@[i].2 < stone_size_limit(noise)
            }
        &&& self.roll < 10
        &&& self.spot.0 < cell_size
        &&& self.spot.1 < cell_size
        &&& self.size < 20_000
        &&& 100 <= self.speed < 1_500
    }
}

/// The stone that the draw `d` puts into the cell at `(x, y)` of noise value
/// `noise`: `d.0` and `d.1` from the cell's corner, turned by three degrees
/// per unit of noise, `d.2` larger than the smallest stone.
pub open spec fn stone_from(x: i64, y: i64, noise: u8, d: (u32, u32, u32)) -> Static {
    Static::Stone(
        Stone {
            position: Position { x, y }.moved(d.0 as int, d.1 as int),
            rotation: (3000 * noise) as i32,
            size: (MIN_STONE_SIZE + d.2) as u32,
        },
    )
}

/// The stones that the draws `stones` put into the cell at `(x, y)`, one for
/// each draw and in their order.
pub open spec fn cell_stones(x: i64, y: i64, noise: u8, stones: Seq<(u32, u32, u32)>) -> Seq<
    Static,
> {
    Seq::new(stones.len(), |i: int| stone_from(x, y, noise, stones[i]))
}

/// The creature that `draws` put into the cell at `(x, y)`: one exactly when
/// the noise value is at least 100 and the roll is below 3, a random mover
/// below 200 and a follower from 200 on; else none.
pub open spec fn cell_spawn(x: i64, y: i64, noise: u8, draws: CellDraws) -> Seq<Option<Dynamic>> {
    let spot = Position { x, y }.moved(draws.spot.0 as int, draws.spot.1 as int);
    if noise >= 100 && draws.roll < 3 {
        if noise < 200 {
            seq![
                Some(
                    Dynamic::RandomMover(
                        RandomMover {
                            position: spot,
                            rotation: 0,
                            size: (5_000 + draws.size) as u32,
                            speed: draws.speed,
                        },
                    ),
                ),
            ]
        } else {
            seq![Some(Dynamic::Follower(Follower { position: spot, target: None }))]
        }
    } else {
        Seq::empty()
    }
}

/// Whether `after` is `before` with the cell at `(x, y)` of noise value
/// `noise` populated from `draws`: the stones of the draws stand behind the
/// statics, the creature of the draws, if there is one, behind the
/// creatures, and nothing else changed.
pub open spec fn cell_populated_from(
    before: Chunk,
    after: Chunk,
    x: i64,
    y: i64,
    noise: u8,
    draws: CellDraws,
) -> bool {
    &&& after.statics@ == before.statics@ + cell_stones(x, y, noise, draws.stones@)
    &&& after.dynamics@ == before.dynamics@ + cell_spawn(x, y, noise, draws)
    &&& after.chunk_position == before.chunk_position
    &&& after.noise_image == before.noise_image
}

/// Draws that fit a cell populate it within the cell's bounds: at most as
/// many stones as the noise value allows, each in the cell and of an allowed
/// size, and at most one creature, in the cell and of the kind the noise
/// value asks for.
pub proof fn lemma_draws_populate(
    before: Chunk,
    after: Chunk,
    x: i64,
    y: i64,
    cell_size: u32,
    noise: u8,
    draws: CellDraws,
)
    requires
        draws.fit(cell_size, noise),
        cell_populated_from(before, after, x, y, noise, draws),
    ensures
        cell_populated(before, after, x, y, cell_size, noise),
{
    let stones = cell_stones(x, y, noise, draws.stones@);
    let spawn = cell_spawn(x, y, noise, draws);
    assert(after.statics@.take(before.statics@.len() as int) =~= before.statics@);
    assert(after.dynamics@.take(before.dynamics@.len() as int) =~= before.dynamics@);
    assert forall|i: int| before.statics@.len() <= i < after.statics@.len() implies cell_stone(
        #[trigger] after.statics@[i],
        x,
        y,
        cell_size,
        noise,
    ) by {
        let k = i - before.statics@.len();
        assert(after.statics@[i] == stones[k]);
        assert(draws.stones@[k].0 < cell_size);
    }
    assert forall|i: int| before.dynamics@.len() <= i < after.dynamics@.len() implies cell_creature(
        #[trigger] after.dynamics@[i],
        x,
        y,
        cell_size,
        noise,
    ) by {
        assert(after.dynamics@[i] == spawn[i - before.dynamics@.len()]);
    }
}

/// What populating the first `n` cells of the chunk at `at` from `draws`
/// puts behind the statics: cell by cell, the cell's stones and then its
/// terrain tile.
pub open spec fn cells_statics(
    image: NoiseImage,
    at: ChunkPosition,
    draws: Seq<CellDraws>,
    n: int,
) -> Seq<Static>
    decreases n,
{
    if n <= 0 {
        Seq::empty()
    } else {
        cells_statics(image, at, draws, n - 1) + cell_stones(
            cell_x(at, n - 1),
            cell_y(at, n - 1),
            cell_noise(image, n - 1),
            draws[n - 1].stones@,
        ) + seq![tile(image, at, n - 1)]
    }
}

/// What populating the first `n` cells of the chunk at `at` from `draws`
/// puts behind the creatures: cell by cell, the cell's creature, if it got
/// one.
pub open spec fn cells_dynamics(
    image: NoiseImage,
    at: ChunkPosition,
    draws: Seq<CellDraws>,
    n: int,
) -> Seq<Option<Dynamic>>
    decreases n,
{
    if n <= 0 {
        Seq::empty()
    } else {
        cells_dynamics(image, at, draws, n - 1) + cell_spawn(
            cell_x(at, n - 1),
            cell_y(at, n - 1),
            cell_noise(image, n - 1),
            draws[n - 1],
        )
    }
}

/// Whether `draws` holds, for each cell of a chunk with the noise image
/// `image`, draws such as that cell can get.
pub open spec fn draws_fit(image: NoiseImage, draws: Seq<CellDraws>) -> bool {
    &&& draws.len() == CHUNK_SIZE * CHUNK_SIZE
    &&& forall|k: int|
        0 <= k < draws.len() ==> (#[trigger] draws[k]).fit(CHUNK_TILE_SIZE, cell_noise(image, k))
}

/// Whether `after` is `before` populated from `draws`: its statics are what
/// it had and what the cells got, brought into drawing order, and behind its
/// creatures stand the creatures the cells got.
pub open spec fn populated_from(
    before: Chunk,
    after: Chunk,
    image: NoiseImage,
    draws: Seq<CellDraws>,
) -> bool {
    &&& after.chunk_position == before.chunk_position
    &&& after.statics@ == layered(
        before.statics@ + cells_statics(
            image,
            before.chunk_position,
            draws,
            CHUNK_SIZE * CHUNK_SIZE,
        ),
    )
    &&& after.dynamics@ == before.dynamics@ + cells_dynamics(
        image,
        before.chunk_position,
        draws,
        CHUNK_SIZE * CHUNK_SIZE,
    )
}

/// Whether `image` is the noise image of the chunk at `at`: 
/// `NOISE_IMAGE_SIZE` pixels a side, the pixel at `(x, y)` sampled
/// `(x, y)` away from the chunk's corner in noise space.
pub open spec fn baked_for<F: Fn(NoiseConfig, i64, i64) -> u8>(
    image: NoiseImage,
    at: ChunkPosition,
    config: NoiseConfig,
    sample: &F,
) -> bool {
    &&& image.size() == NOISE_IMAGE_SIZE
    &&& forall|x: int, y: int|
        0 <= x < NOISE_IMAGE_SIZE && 0 <= y < NOISE_IMAGE_SIZE ==> call_ensures(
            sample,
            (
                config,
                (at.x * NOISE_IMAGE_SIZE + x) as i64,
                (at.y * NOISE_IMAGE_SIZE + y) as i64,
            ),
            #[trigger] image.pixel(x, y),
        )
}

/// Baking is deterministic: two noise images of one chunk baked from one
/// noise field agree in every pixel, whenever the sampler gives one value
/// for each field and point.
pub proof fn lemma_baking_repeats<F: Fn(NoiseConfig, i64, i64) -> u8>(
    first: NoiseImage,
    second: NoiseImage,
    at: ChunkPosition,
    config: NoiseConfig,
    sample: &F,
)
    requires
        single_valued(sample),
        baked_for(first, at, config, sample),
        baked_for(second, at, config, sample),
    ensures
        first.size() == second.size(),
        forall|x: int, y: int|
            0 <= x < NOISE_IMAGE_SIZE && 0 <= y < NOISE_IMAGE_SIZE ==> #[trigger] first.pixel(x, y)
                == second.pixel(x, y),
{
    assert forall|x: int, y: int|
        0 <= x < NOISE_IMAGE_SIZE && 0 <= y < NOISE_IMAGE_SIZE implies #[trigger] first.pixel(x, y)
        == second.pixel(x, y) by {
        let px = (at.x * NOISE_IMAGE_SIZE + x) as i64;
        let py = (at.y * NOISE_IMAGE_SIZE + y) as i64;
        assert(call_ensures(sample, (config, px, py), first.pixel(x, y)));
        assert(call_ensures(sample, (config, px, py), second.pixel(x, y)));
    }
}

/// Where cell `k` of the chunk at `at` begins along the x axis, the cells
/// counted row by row.
pub open spec fn cell_x(at: ChunkPosition, k: int) -> i64 {
    (at.x * CHUNK_EXTENT + (k % 16) * CHUNK_TILE_SIZE) as i64
}

/// Where cell `k` of the chunk at `at` begins along the y axis.
pub open spec fn cell_y(at: ChunkPosition, k: int) -> i64 {
    (at.y * CHUNK_EXTENT + (k / 16) * CHUNK_TILE_SIZE) as i64
}

/// The noise value of cell `k`: the pixel of `image` at the cell's corner.
pub open spec fn cell_noise(image: NoiseImage, k: int) -> u8 {
    image.pixel((k % 16) * 16, (k / 16) * 16)
}

/// The terrain tile of the chunk at `at` for cell `k`: it lies on the cell
/// and is coloured by the cell's noise value.
pub open spec fn tile(image: NoiseImage, at: ChunkPosition, k: int) -> Static {
    Static::Terrain(
        Terrain {
            position: Position { x: cell_x(at, k), y: cell_y(at, k) },
            color: cell_noise(image, k),
            size: CHUNK_TILE_SIZE,
        },
    )
}

/// The terrain tiles of the first `n` cells.
pub open spec fn tiles(image: NoiseImage, at: ChunkPosition, n: int) -> Seq<Static> {
    Seq::new(n as nat, |k: int| tile(image, at, k))
}

/// Whether `s` is a stone as one of the first `n` cells of the chunk at `at`
/// gets them from its noise value.
pub open spec fn placed_stone(s: Static, image: NoiseImage, at: ChunkPosition, n: int) -> bool {
    exists|k: int|
        0 <= k < n && #[trigger] cell_stone(
            s,
            cell_x(at, k),
            cell_y(at, k),
            CHUNK_TILE_SIZE,
            cell_noise(image, k),
        )
}

/// Whether `slot` holds a creature as one of the first `n` cells of the
/// chunk at `at` gets one from its noise value.
pub open spec fn placed_creature(
    slot: Option<Dynamic>,
    image: NoiseImage,
    at: ChunkPosition,
    n: int,
) -> bool {
    exists|k: int|
        0 <= k < n && #[trigger] cell_creature(
            slot,
            cell_x(at, k),
            cell_y(at, k),
            CHUNK_TILE_SIZE,
            cell_noise(image, k),
        )
}

/// What populating adds to a chunk lies in the chunk: a stone that a cell of
/// the chunk got is a stone of an allowed size inside the chunk's square,
/// and a creature that a cell got is inside it too.
pub proof fn lemma_placed_in_chunk(
    c: Chunk,
    s: Static,
    slot: Option<Dynamic>,
    image: NoiseImage,
    n: int,
)
    requires
        0 <= n <= CHUNK_SIZE * CHUNK_SIZE,
    ensures
        placed_stone(s, image, c.chunk_position, n) ==> {
            &&& s is Stone
            &&& c.bounds().holds(s->Stone_0.position)
            &&& MIN_STONE_SIZE <= s->Stone_0.size < MAX_STONE_SIZE
        },
        placed_creature(slot, image, c.chunk_position, n) ==> {
            &&& slot.is_some()
            &&& c.bounds().holds(slot.unwrap().position())
        },
{
    let at = c.chunk_position;
    if placed_stone(s, image, at, n) {
        let k = choose|k: int|
            0 <= k < n && #[trigger] cell_stone(
                s,
                cell_x(at, k),
                cell_y(at, k),
                CHUNK_TILE_SIZE,
                cell_noise(image, k),
            );
        assert(0 <= k % 16 < 16 && 0 <= k / 16 < 16);
    }
    if placed_creature(slot, image, at, n) {
        let k = choose|k: int|
            0 <= k < n && #[trigger] cell_creature(
                slot,
                cell_x(at, k),
                cell_y(at, k),
                CHUNK_TILE_SIZE,
                cell_noise(image, k),
            );
        assert(0 <= k % 16 < 16 && 0 <= k / 16 < 16);
    }
}

/// Whether `after` is `before` with its first `n` cells populated from
/// `image`: the terrain has the tiles of those cells behind what it had, the
/// roads are as they were, the stones have at most three per cell behind
/// what they had, the creatures at most one per cell, and each stone and
/// creature that was added is one that a cell got from its noise value.
#[verifier::opaque]
pub open spec fn grown(before: Chunk, after: Chunk, image: NoiseImage, n: int) -> bool {
    let old_stones = layer_of(before.statics@, 2);
    let stones = layer_of(after.statics@, 2);
    &&& after.chunk_position == before.chunk_position
    &&& layer_of(after.statics@, 0) == layer_of(before.statics@, 0) + tiles(
        image,
        before.chunk_position,
        n,
    )
    &&& layer_of(after.statics@, 1) == layer_of(before.statics@, 1)
    &&& old_stones.len() <= stones.len() <= old_stones.len() + 3 * n
    &&& stones.take(old_stones.len() as int) == old_stones
    &&& forall|i: int|
        old_stones.len() <= i < stones.len() ==> placed_stone(
            #[trigger] stones[i],
            image,
            before.chunk_position,
            n,
        )
    &&& before.dynamics@.len() <= after.dynamics@.len() <= before.dynamics@.len() + n
    &&& after.dynamics@.take(before.dynamics@.len() as int) == before.dynamics@
    &&& forall|i: int|
        before.dynamics@.len() <= i < after.dynamics@.len() ==> placed_creature(
            #[trigger] after.dynamics@[i],
            image,
            before.chunk_position,
            n,
        )
}

/// Populating one more cell and laying its tile keeps a chunk grown.
proof fn lemma_cell_grown(
    origin: Chunk,
    c0: Chunk,
    c1: Chunk,
    c2: Chunk,
    image: NoiseImage,
    n: int,
    px: i64,
    py: i64,
    noise: u8,
)
    requires
        0 <= n < 256,
        grown(origin, c0, image, n),
        cell_populated(c0, c1, px, py, CHUNK_TILE_SIZE, noise),
        px == cell_x(origin.chunk_position, n),
        py == cell_y(origin.chunk_position, n),
        noise == cell_noise(image, n),
        c2.statics@ == c1.statics@.push(tile(image, origin.chunk_position, n)),
        c2.dynamics == c1.dynamics,
        c2.chunk_position == c1.chunk_position,
    ensures
        grown(origin, c2, image, n + 1),
{
    reveal(grown);
    let at = origin.chunk_position;
    let added = c1.statics@.skip(c0.statics@.len() as int);
    assert(c1.statics@ =~= c0.statics@ + added);
    assert forall|i: int| 0 <= i < added.len() implies (#[trigger] added[i]).layer() == 2 by {
        assert(cell_stone(c1.statics@[c0.statics@.len() + i], px, py, CHUNK_TILE_SIZE, noise));
    }
    Seq::filter_distributes_over_add(c0.statics@, added, on_layer(0));
    Seq::filter_distributes_over_add(c0.statics@, added, on_layer(1));
    Seq::filter_distributes_over_add(c0.statics@, added, on_layer(2));
    lemma_layer_of_uniform(added, 2, 0);
    lemma_layer_of_uniform(added, 2, 1);
    let t = tile(image, at, n);
    c1.statics@.lemma_filter_push(t, on_layer(0));
    c1.statics@.lemma_filter_push(t, on_layer(1));
    c1.statics@.lemma_filter_push(t, on_layer(2));
    assert(layer_of(c1.statics@, 0) =~= layer_of(c0.statics@, 0));
    assert(layer_of(c1.statics@, 1) =~= layer_of(c0.statics@, 1));
    assert(tiles(image, at, n + 1) =~= tiles(image, at, n).push(t));
    assert(layer_of(c2.statics@, 0) =~= layer_of(origin.statics@, 0) + tiles(image, at, n + 1));
    let old_stones = layer_of(origin.statics@, 2);
    let s0 = layer_of(c0.statics@, 2);
    let s2 = layer_of(c2.statics@, 2);
    assert(s2 =~= s0 + added);
    assert(s2.take(old_stones.len() as int) =~= s0.take(old_stones.len() as int));
    assert forall|i: int| old_stones.len() <= i < s2.len() implies placed_stone(
        #[trigger] s2[i],
        image,
        at,
        n + 1,
    ) by {
        if i < s0.len() {
            assert(s2[i] == s0[i]);
            assert(placed_stone(s0[i], image, at, n));
            let k = choose|k: int|
                0 <= k < n && #[trigger] cell_stone(
                    s0[i],
                    cell_x(at, k),
                    cell_y(at, k),
                    CHUNK_TILE_SIZE,
                    cell_noise(image, k),
                );
            assert(cell_stone(
                s2[i],
                cell_x(at, k),
                cell_y(at, k),
                CHUNK_TILE_SIZE,
                cell_noise(image, k),
            ));
        } else {
            let j = i - s0.len();
            assert(s2[i] == added[j]);
            assert(cell_stone(c1.statics@[c0.statics@.len() + j], px, py, CHUNK_TILE_SIZE, noise));
            assert(cell_stone(
                s2[i],
                cell_x(at, n),
                cell_y(at, n),
                CHUNK_TILE_SIZE,
                cell_noise(image, n),
            ));
        }
    }
    assert(c2.dynamics@.take(origin.dynamics@.len() as int) =~= c0.dynamics@.take(
        origin.dynamics@.len() as int,
    )) by {
        assert(c1.dynamics@.take(c0.dynamics@.len() as int) == c0.dynamics@);
        assert forall|i: int| 0 <= i < origin.dynamics@.len() implies c2.dynamics@[i]
            == c0.dynamics@[i] by {
            assert(c1.dynamics@.take(c0.dynamics@.len() as int)[i] == c1.dynamics@[i]);
        }
    }
    assert forall|i: int|
        origin.dynamics@.len() <= i < c2.dynamics@.len() implies placed_creature(
        #[trigger] c2.dynamics@[i],
        image,
        at,
        n + 1,
    ) by {
        if i < c0.dynamics@.len() {
            assert(c1.dynamics@.take(c0.dynamics@.len() as int)[i] == c1.dynamics@[i]);
            assert(placed_creature(c0.dynamics@[i], image, at, n));
            let k = choose|k: int|
                0 <= k < n && #[trigger] cell_creature(
                    c0.dynamics@[i],
                    cell_x(at, k),
                    cell_y(at, k),
                    CHUNK_TILE_SIZE,
                    cell_noise(image, k),
                );
            assert(cell_creature(
                c2.dynamics@[i],
                cell_x(at, k),
                cell_y(at, k),
                CHUNK_TILE_SIZE,
                cell_noise(image, k),
            ));
        } else {
            assert(cell_creature(c1.dynamics@[i], px, py, CHUNK_TILE_SIZE, noise));
            assert(cell_creature(
                c2.dynamics@[i],
                cell_x(at, n),
                cell_y(at, n),
                CHUNK_TILE_SIZE,
                cell_noise(image, n),
            ));
        }
    }
}

/// A chunk is itself with none of its cells populated.
proof fn lemma_grown_start(origin: Chunk, c: Chunk, image: NoiseImage)
    requires
        c.statics == origin.statics,
        c.dynamics == origin.dynamics,
        c.chunk_position == origin.chunk_position,
    ensures
        grown(origin, c, image, 0),
{
    reveal(grown);
    assert(tiles(image, c.chunk_position, 0) =~= Seq::<Static>::empty());
    assert(layer_of(c.statics@, 0) + Seq::<Static>::empty() =~= layer_of(c.statics@, 0));
    let stones = layer_of(c.statics@, 2);
    assert(stones.take(stones.len() as int) =~= stones);
    assert(c.dynamics@.take(c.dynamics@.len() as int) =~= c.dynamics@);
}

/// What a chunk grew from is told by its statics, creatures and coordinate
/// alone.
proof fn lemma_grown_from(a: Chunk, b: Chunk, c: Chunk, image: NoiseImage, n: int)
    requires
        grown(b, c, image, n),
        a.statics == b.statics,
        a.dynamics == b.dynamics,
        a.chunk_position == b.chunk_position,
    ensures
        grown(a, c, image, n),
{
    reveal(grown);
}

/// A chunk stays grown when its statics are reordered within no layer.
proof fn lemma_grown_sorted(origin: Chunk, c: Chunk, sorted: Chunk, image: NoiseImage, n: int)
    requires
        grown(origin, c, image, n),
        layer_of(sorted.statics@, 0) == layer_of(c.statics@, 0),
        layer_of(sorted.statics@, 1) == layer_of(c.statics@, 1),
        layer_of(sorted.statics@, 2) == layer_of(c.statics@, 2),
        sorted.dynamics == c.dynamics,
        sorted.chunk_position == c.chunk_position,
    ensures
        grown(origin, sorted, image, n),
{
    reveal(grown);
}

/// A grown chunk is settled where it was settled before.
proof fn lemma_grown_settled(origin: Chunk, c: Chunk, image: NoiseImage, n: int)
    requires
        grown(origin, c, image, n),
        origin.settled(),
    ensures
        c.settled(),
{
    reveal(grown);
    let before = origin.dynamics@;
    let after = c.dynamics@;
    assert forall|i: int| 0 <= i < after.len() implies (#[trigger] after[i]).is_some() by {
        if i < before.len() {
            assert(after.take(before.len() as int)[i] == after[i]);
            assert(before[i].is_some());
        } else {
            assert(placed_creature(after[i], image, origin.chunk_position, n));
        }
    }
}

/// After the first `m` updates of a sweep the slots are as many as before,
/// and the first `m` of them hold their creature.
proof fn lemma_trace_keeps_slots<F: Fn(i32, i32) -> (i64, i64)>(
    before: Seq<Option<Dynamic>>,
    after: Seq<Option<Dynamic>>,
    trace: Seq<Seq<Option<Dynamic>>>,
    steer: &F,
    m: int,
)
    requires
        swept_along(before, after, trace, steer),
        0 <= m <= before.len(),
    ensures
        trace[m].len() == before.len(),
        forall|j: int| 0 <= j < m ==> (#[trigger] trace[m][j]).is_some(),
    decreases m,
{
    if m > 0 {
        lemma_trace_keeps_slots(before, after, trace, steer, m - 1);
        assert(slot_updated(trace[m - 1], trace[m], m - 1, steer));
        assert forall|j: int| 0 <= j < m implies (#[trigger] trace[m][j]).is_some() by {
            if j < m - 1 {
                assert(trace[m - 1][j].is_some());
            }
        }
    }
}

/// No creature is lost in a sweep: after it there are as many slots as
/// before, and every slot holds its creature.
pub proof fn lemma_swept_keeps_slots<F: Fn(i32, i32) -> (i64, i64)>(
    before: Seq<Option<Dynamic>>,
    after: Seq<Option<Dynamic>>,
    steer: &F,
)
    requires
        swept(before, after, steer),
    ensures
        after.len() == before.len(),
        forall|i: int| 0 <= i < after.len() ==> (#[trigger] after[i]).is_some(),
{
    let trace = choose|trace: Seq<Seq<Option<Dynamic>>>| swept_along(before, after, trace, steer);
    lemma_trace_keeps_slots(before, after, trace, steer, before.len() as int);
}

impl Chunk {
    /// Whether every slot holds its creature.
    pub open spec fn settled(self) -> bool {
        forall|i: int| 0 <= i < self.dynamics@.len() ==> (#[trigger] self.dynamics@[i]).is_some()
    }

    /// The square of world space that belongs to the chunk.
    pub open spec fn bounds(self) -> Rect {
        Rect {
            x: (self.chunk_position.x * CHUNK_EXTENT) as i64,
            y: (self.chunk_position.y * CHUNK_EXTENT) as i64,
            w: CHUNK_EXTENT as i64,
            h: CHUNK_EXTENT as i64,
        }
    }

    /// An empty chunk at `world_position`.
    #[must_use]
    pub fn new(world_position: ChunkPosition) -> (c: Self)
        ensures
            c.chunk_position == world_position,
            c.dynamics@ == Seq::<Option<Dynamic>>::empty(),
            c.statics@ == Seq::<Static>::empty(),
            c.noise_image.is_none(),
    {
        Self {
            chunk_position: world_position,
            dynamics: Vec::new(),
            statics: Vec::new(),
            noise_image: None,
        }
    }

    /// The square of world space that belongs to the chunk.
    pub fn rect(&self) -> (r: Rect)
        ensures
            r == self.bounds(),
    {
        let (x, y) = self.chunk_position.offsets(CHUNK_EXTENT);
        Rect::new(x, y, CHUNK_EXTENT as i64, CHUNK_EXTENT as i64)
    }

    /// Whether `position` lies in the chunk.
    pub fn in_chunk(&self, position: Position) -> (b: bool)
        ensures
            b == self.bounds().holds(position),
    {
        let chunk_rect = self.rect();
        chunk_rect.contains(position)
    }

    pub fn add_stone(&mut self, position: Position, rotation: i32, size: u32)
        ensures
            final(self).statics@ == old(self).statics@.push(
                Static::Stone(Stone { position, rotation, size }),
            ),
            final(self).dynamics == old(self).dynamics,
            final(self).chunk_position == old(self).chunk_position,
            final(self).noise_image == old(self).noise_image,
    {
        self.statics.push(Static::Stone(Stone::new(position, rotation, size)));
    }

    pub fn add_road_segment(&mut self, position: Position, rotation: i32, size: u32)
        ensures
            final(self).statics@ == old(self).statics@.push(
                Static::Road(Segment { position, rotation, size }),
            ),
            final(self).dynamics == old(self).dynamics,
            final(self).chunk_position == old(self).chunk_position,
            final(self).noise_image == old(self).noise_image,
    {
        self.statics.push(Static::Road(Segment::new(position, rotation, size)));
    }

    pub fn add_random_mover(&mut self, position: Position, rotation: i32, size: u32, speed: i32)
        ensures
            final(self).dynamics@ == old(self).dynamics@.push(
                Some(Dynamic::RandomMover(RandomMover { position, rotation, size, speed })),
            ),
            final(self).statics == old(self).statics,
            final(self).chunk_position == old(self).chunk_position,
            final(self).noise_image == old(self).noise_image,
    {
        self.dynamics.push(
            Some(Dynamic::RandomMover(RandomMover::new(position, rotation, size, speed))),
        );
    }

    pub fn add_follower(&mut self, position: Position)
        ensures
            final(self).dynamics@ == old(self).dynamics@.push(
                Some(Dynamic::Follower(Follower { position, target: None })),
            ),
            final(self).statics == old(self).statics,
            final(self).chunk_position == old(self).chunk_position,
            final(self).noise_image == old(self).noise_image,
    {
        self.dynamics.push(Some(Dynamic::Follower(Follower::new(position))));
    }

    /// Bakes the chunk's noise image from `noise`. A chunk that has its image
    /// keeps it.
    pub fn init<F: Fn(NoiseConfig, i64, i64) -> u8>(&mut self, noise: &Noise, sample: &F)
        requires
            noise.config().is_some(),
            forall|c: NoiseConfig, a: i64, b: i64| call_requires(sample, (c, a, b)),
        ensures
            old(self).noise_image.is_some() ==> final(self).noise_image == old(self).noise_image,
            old(self).noise_image.is_none() ==> final(self).noise_image.is_some() && baked_for(
                final(self).noise_image.unwrap(),
                old(self).chunk_position,
                noise.config().unwrap(),
                sample,
            ),
            final(self).statics == old(self).statics,
            final(self).dynamics == old(self).dynamics,
            final(self).chunk_position == old(self).chunk_position,
    {
        if self.noise_image.is_none() {
            let (xoff, yoff) = self.chunk_position.offsets(NOISE_IMAGE_SIZE as u32);
            let image = Noise::gen_image(NOISE_IMAGE_SIZE, xoff, yoff, noise.get(), sample);
            self.noise_image = Some(image);
        }
    }

    /// The noise value at pixel `(x, y)` of the chunk's image.
    pub fn get_point(&self, x: u32, y: u32) -> (v: u8)
        requires
            self.noise_image.is_some(),
            x < self.noise_image.unwrap().size(),
            y < self.noise_image.unwrap().size(),
        ensures
            v == self.noise_image.unwrap().pixel(x as int, y as int),
    {
        self.noise_image.as_ref().unwrap().get_pixel(x, y)
    }

    /// Populates the chunk: bakes its noise image if it has none, populates
    /// each cell from the noise value at the cell's corner and lays a terrain
    /// tile on it, then brings the statics into drawing order. What the
    /// cells get is drawn at random.
    pub fn populate<F: Fn(NoiseConfig, i64, i64) -> u8>(&mut self, noise: &Noise, sample: &F)
        requires
            noise.config().is_some(),
            forall|c: NoiseConfig, a: i64, b: i64| call_requires(sample, (c, a, b)),
            old(self).noise_image.is_some() ==> old(self).noise_image.unwrap().size()
                == NOISE_IMAGE_SIZE,
        ensures
            old(self).noise_image.is_some() ==> final(self).noise_image == old(self).noise_image,
            old(self).noise_image.is_none() ==> final(self).noise_image.is_some() && baked_for(
                final(self).noise_image.unwrap(),
                old(self).chunk_position,
                noise.config().unwrap(),
                sample,
            ),
            final(self).noise_image.is_some(),
            final(self).chunk_position == old(self).chunk_position,
            exists|draws: Seq<CellDraws>|
                draws_fit(final(self).noise_image.unwrap(), draws) && #[trigger] populated_from(
                    *old(self),
                    *final(self),
                    final(self).noise_image.unwrap(),
                    draws,
                ),
            in_layer_order(final(self).statics@),
            grown(
                *old(self),
                *final(self),
                final(self).noise_image.unwrap(),
                CHUNK_SIZE * CHUNK_SIZE,
            ),
            old(self).settled() ==> final(self).settled(),
    {
        let ghost origin = *self;
        self.init(noise, sample);
        let ghost image = self.noise_image.unwrap();
        let draws = self.draw_cells();
        let ghost baked = *self;
        self.populate_from(&draws);
        proof {
            assert(populated_from(baked, *self, image, draws@));
            assert(populated_from(origin, *self, image, draws@));
            lemma_grown_from(origin, baked, *self, image, CHUNK_SIZE * CHUNK_SIZE);
        }
    }

    /// Draws, cell by cell and row by row, what each cell of the chunk gets.
    fn draw_cells(&self) -> (draws: Vec<CellDraws>)
        requires
            self.noise_image.is_some(),
            self.noise_image.unwrap().size() == NOISE_IMAGE_SIZE,
        ensures
            draws_fit(self.noise_image.unwrap(), draws@),
    {
        let ghost image = self.noise_image.unwrap();
        let step: u32 = (NOISE_IMAGE_SIZE / CHUNK_SIZE) as u32;
        let mut draws: Vec<CellDraws> = Vec::new();
        let mut y: u16 = 0;
        while y < CHUNK_SIZE
            invariant
                y <= CHUNK_SIZE,
                step == 16,
                self.noise_image == Some(image),
                image.size() == NOISE_IMAGE_SIZE,
                draws@.len() == y * 16,
                forall|k: int|
                    0 <= k < draws@.len() ==> (#[trigger] draws@[k]).fit(
                        CHUNK_TILE_SIZE,
                        cell_noise(image, k),
                    ),
            decreases CHUNK_SIZE - y,
        {
            let mut x: u16 = 0;
            while x < CHUNK_SIZE
                invariant
                    x <= CHUNK_SIZE,
                    y < CHUNK_SIZE,
                    step == 16,
                    self.noise_image == Some(image),
                    image.size() == NOISE_IMAGE_SIZE,
                    draws@.len() == y * 16 + x,
                    forall|k: int|
                        0 <= k < draws@.len() ==> (#[trigger] draws@[k]).fit(
                            CHUNK_TILE_SIZE,
                            cell_noise(image, k),
                        ),
                decreases CHUNK_SIZE - x,
            {
                let noise_value = self.get_point(x as u32 * step, y as u32 * step);
                let cell = Self::draw_cell(CHUNK_TILE_SIZE, noise_value);
                let ghost before = draws@;
                let ghost n = y * 16 + x;
                draws.push(cell);
                proof {
                    assert(n % 16 == x && n / 16 == y);
                    assert forall|k: int| 0 <= k < draws@.len() implies (#[trigger] draws@[k]).fit(
                        CHUNK_TILE_SIZE,
                        cell_noise(image, k),
                    ) by {
                        if k < before.len() {
                            assert(draws@[k] == before[k]);
                        }
                    }
                }
                x += 1;
            }
            y += 1;
        }
        draws
    }

    /// Populates a chunk that has its noise image from `draws`, which hold
    /// what each cell gets, the cells counted row by row: each cell gets its
    /// stones and a terrain tile coloured by its noise value, and its
    /// creature, if the draws give it one; then the statics are brought into
    /// drawing order.
    pub fn populate_from(&mut self, draws: &Vec<CellDraws>)
        requires
            old(self).noise_image.is_some(),
            old(self).noise_image.unwrap().size() == NOISE_IMAGE_SIZE,
            draws_fit(old(self).noise_image.unwrap(), draws@),
        ensures
            final(self).noise_image == old(self).noise_image,
            populated_from(*old(self), *final(self), old(self).noise_image.unwrap(), draws@),
            in_layer_order(final(self).statics@),
            grown(
                *old(self),
                *final(self),
                old(self).noise_image.unwrap(),
                CHUNK_SIZE * CHUNK_SIZE,
            ),
            old(self).settled() ==> final(self).settled(),
    {
        let ghost origin = *self;
        let cells: u16 = CHUNK_SIZE;
        let ghost image = self.noise_image.unwrap();
        let ghost at = self.chunk_position;
        proof {
            lemma_grown_start(origin, *self, image);
            assert(origin.statics@ + cells_statics(image, at, draws@, 0) =~= origin.statics@);
            assert(origin.dynamics@ + cells_dynamics(image, at, draws@, 0) =~= origin.dynamics@);
        }
        let mut y: u16 = 0;
        while y < cells
            invariant
                y <= cells,
                cells == CHUNK_SIZE,
                self.noise_image == Some(image),
                image.size() == NOISE_IMAGE_SIZE,
                self.chunk_position == at,
                at == origin.chunk_position,
                draws_fit(image, draws@),
                grown(origin, *self, image, y * 16),
                self.statics@ == origin.statics@ + cells_statics(image, at, draws@, y * 16),
                self.dynamics@ == origin.dynamics@ + cells_dynamics(image, at, draws@, y * 16),
            decreases cells - y,
        {
            let mut x: u16 = 0;
            while x < cells
                invariant
                    x <= cells,
                    y < cells,
                    cells == CHUNK_SIZE,
                    self.noise_image == Some(image),
                    image.size() == NOISE_IMAGE_SIZE,
                    self.chunk_position == at,
                    at == origin.chunk_position,
                    draws_fit(image, draws@),
                    grown(origin, *self, image, y * 16 + x),
                    self.statics@ == origin.statics@ + cells_statics(
                        image,
                        at,
                        draws@,
                        y * 16 + x,
                    ),
                    self.dynamics@ == origin.dynamics@ + cells_dynamics(
                        image,
                        at,
                        draws@,
                        y * 16 + x,
                    ),
                decreases cells - x,
            {
                let k: usize = y as usize * 16 + x as usize;
                self.populate_at(x, y, &draws[k], Ghost(origin), Ghost(draws@));
                x += 1;
            }
            y += 1;
        }
        self.sort_statics(Ghost(origin), Ghost(256));
        proof {
            if origin.settled() {
                lemma_grown_settled(origin, *self, image, 256);
            }
        }
    }

    /// Populates the cell in column `x` of row `y` from its draws and lays
    /// its terrain tile.
    fn populate_at(
        &mut self,
        x: u16,
        y: u16,
        draws: &CellDraws,
        Ghost(origin): Ghost<Chunk>,
        Ghost(all): Ghost<Seq<CellDraws>>,
    )
        requires
            x < CHUNK_SIZE,
            y < CHUNK_SIZE,
            old(self).noise_image.is_some(),
            old(self).noise_image.unwrap().size() == NOISE_IMAGE_SIZE,
            draws_fit(old(self).noise_image.unwrap(), all),
            all[y * 16 + x] == *draws,
            old(self).chunk_position == origin.chunk_position,
            grown(origin, *old(self), old(self).noise_image.unwrap(), y * 16 + x),
            old(self).statics@ == origin.statics@ + cells_statics(
                old(self).noise_image.unwrap(),
                origin.chunk_position,
                all,
                y * 16 + x,
            ),
            old(self).dynamics@ == origin.dynamics@ + cells_dynamics(
                old(self).noise_image.unwrap(),
                origin.chunk_position,
                all,
                y * 16 + x,
            ),
        ensures
            final(self).noise_image == old(self).noise_image,
            final(self).chunk_position == old(self).chunk_position,
            grown(origin, *final(self), old(self).noise_image.unwrap(), y * 16 + x + 1),
            final(self).statics@ == origin.statics@ + cells_statics(
                old(self).noise_image.unwrap(),
                origin.chunk_position,
                all,
                y * 16 + x + 1,
            ),
            final(self).dynamics@ == origin.dynamics@ + cells_dynamics(
                old(self).noise_image.unwrap(),
                origin.chunk_position,
                all,
                y * 16 + x + 1,
            ),
    {
        let ghost image = self.noise_image.unwrap();
        let ghost at = origin.chunk_position;
        let ghost n = y * 16 + x;
        let (xoff, yoff) = self.chunk_position.offsets(CHUNK_EXTENT);
        let pos_x: i64 = xoff + x as i64 * CHUNK_TILE_SIZE as i64;
        let pos_y: i64 = yoff + y as i64 * CHUNK_TILE_SIZE as i64;
        let step: u32 = (NOISE_IMAGE_SIZE / CHUNK_SIZE) as u32;

        let noise_value = self.get_point(x as u32 * step, y as u32 * step);
        proof {
            assert(n % 16 == x && n / 16 == y);
            assert(pos_x == cell_x(at, n));
            assert(pos_y == cell_y(at, n));
            assert(noise_value == cell_noise(image, n));
            assert(all[n].fit(CHUNK_TILE_SIZE, cell_noise(image, n)));
        }

        let ghost c0 = *self;
        self.populate_cell_from(pos_x, pos_y, CHUNK_TILE_SIZE, noise_value, draws);
        let ghost c1 = *self;

        self.statics.push(
            Static::Terrain(Terrain::new(Position::new(pos_x, pos_y), noise_value, CHUNK_TILE_SIZE)),
        );
        proof {
            assert(cell_populated_from(c0, c1, pos_x, pos_y, noise_value, *draws));
            lemma_draws_populate(c0, c1, pos_x, pos_y, CHUNK_TILE_SIZE, noise_value, *draws);
            lemma_cell_grown(origin, c0, c1, *self, image, n, pos_x, pos_y, noise_value);
            let stones = cell_stones(pos_x, pos_y, noise_value, draws.stones@);
            assert(self.statics@ =~= origin.statics@ + (cells_statics(image, at, all, n) + stones
                + seq![tile(image, at, n)]));
            assert(self.dynamics@ =~= origin.dynamics@ + (cells_dynamics(image, at, all, n)
                + cell_spawn(pos_x, pos_y, noise_value, *draws)));
        }
    }

    /// Brings the statics into drawing order.
    fn sort_statics(&mut self, Ghost(origin): Ghost<Chunk>, Ghost(n): Ghost<int>)
        requires
            old(self).noise_image.is_some(),
            grown(origin, *old(self), old(self).noise_image.unwrap(), n),
        ensures
            final(self).noise_image == old(self).noise_image,
            final(self).chunk_position == old(self).chunk_position,
            final(self).dynamics == old(self).dynamics,
            final(self).statics@ == layered(old(self).statics@),
            in_layer_order(final(self).statics@),
            grown(origin, *final(self), old(self).noise_image.unwrap(), n),
    {
        let ghost unsorted = *self;
        self.statics = sort_by_layer(&self.statics);
        proof {
            lemma_layered(unsorted.statics@);
            lemma_grown_sorted(origin, unsorted, *self, self.noise_image.unwrap(), n);
        }
    }

    /// The draws of one cell of side `cell_size` and noise value
    /// `noise_value`: from 50 up to one stone, from 100 up to two, from 200
    /// up to three, each with its place and size; from 100 on the roll that
    /// decides whether a creature spawns, and, where it does, the creature's
    /// place, and for a random mover its size and speed.
    fn draw_cell(cell_size: u32, noise_value: u8) -> (draws: CellDraws)
        requires
            0 < cell_size <= DRAW_LIMIT,
        ensures
            draws.fit(cell_size, noise_value),
    {
        let most: u32 = if noise_value < 50 {
            0
        } else if noise_value < 100 {
            1
        } else if noise_value < 200 {
            2
        } else {
            3
        };
        let size_limit: u32 = if noise_value < 100 {
            MAX_STONE_SIZE / 3
        } else if noise_value < 200 {
            MAX_STONE_SIZE / 2
        } else {
            MAX_STONE_SIZE
        };
        let mut draws = CellDraws { stones: Vec::new(), roll: 9, spot: (0, 0), size: 0, speed: 100 };
        if most > 0 {
            let stones: u32 = random_below(most + 1);
            let mut made: u32 = 0;
            while made < stones
                invariant
                    made <= stones <= most,
                    most == max_stones(noise_value),
                    size_limit == stone_size_limit(noise_value),
                    0 < cell_size <= DRAW_LIMIT,
                    draws.stones@.len() == made,
                    draws.fit(cell_size, noise_value),
                decreases stones - made,
            {
                let pos_x: u32 = random_below(cell_size);
                let pos_y: u32 = random_below(cell_size);
                let size: u32 = random_below(size_limit - MIN_STONE_SIZE);
                let ghost before = draws.stones@;
                draws.stones.push((pos_x, pos_y, size));
                proof {
                    assert forall|i: int| 0 <= i < draws.stones@.len() implies {
                        &&& (#[trigger] draws.stones@[i]).0 < cell_size
                        &&& draws.stones@[i].1 < cell_size
                        &&& MIN_STONE_SIZE + draws.stones@[i].2 < stone_size_limit(noise_value)
                    } by {
                        if i < before.len() {
                            assert(draws.stones@[i] == before[i]);
                        }
                    }
                }
                made += 1;
            }
        }
        if noise_value >= 100 {
            draws.roll = random_below(10);
            if draws.roll < 3 {
                let pos_x: u32 = random_below(cell_size);
                let pos_y: u32 = random_below(cell_size);
                draws.spot = (pos_x, pos_y);
                if noise_value < 200 {
                    draws.size = random_below(20_000);
                    draws.speed = draw_between(100, 1_500);
                }
            }
        }
        draws
    }

    /// Populates the cell at `(x, y)` of noise value `noise_value` from
    /// `draws`: a stone for each draw of a stone, and, where the noise value
    /// is at least 100 and the roll is below 3, a creature: a random mover
    /// below 200, a follower from 200 on.
    pub fn populate_cell_from(
        &mut self,
        x: i64,
        y: i64,
        cell_size: u32,
        noise_value: u8,
        draws: &CellDraws,
    )
        requires
            0 < cell_size <= DRAW_LIMIT,
            draws.fit(cell_size, noise_value),
        ensures
            final(self).statics@ == old(self).statics@ + cell_stones(
                x,
                y,
                noise_value,
                draws.stones@,
            ),
            final(self).dynamics@ == old(self).dynamics@ + cell_spawn(x, y, noise_value, *draws),
            final(self).chunk_position == old(self).chunk_position,
            final(self).noise_image == old(self).noise_image,
    {
        let ghost start = self.statics@;
        let mut i: usize = 0;
        proof {
            assert(start + cell_stones(x, y, noise_value, draws.stones@.take(0)) =~= start);
        }
        while i < draws.stones.len()
            invariant
                i <= draws.stones@.len(),
                draws.fit(cell_size, noise_value),
                start == old(self).statics@,
                self.statics@ == start + cell_stones(
                    x,
                    y,
                    noise_value,
                    draws.stones@.take(i as int),
                ),
                self.dynamics == old(self).dynamics,
                self.chunk_position == old(self).chunk_position,
                self.noise_image == old(self).noise_image,
            decreases draws.stones@.len() - i,
        {
            let stone = draws.stones[i];
            let spot = Position::new(x, y).offset(stone.0 as i64, stone.1 as i64);
            self.add_stone(spot, 3000 * noise_value as i32, MIN_STONE_SIZE + stone.2);
            proof {
                assert(self.statics@ =~= start + cell_stones(
                    x,
                    y,
                    noise_value,
                    draws.stones@.take(i as int + 1),
                ));
            }
            i += 1;
        }
        proof {
            assert(draws.stones@.take(i as int) =~= draws.stones@);
        }
        let ghost slots = self.dynamics@;
        if noise_value >= 100 && draws.roll < 3 {
            let spot = Position::new(x, y).offset(draws.spot.0 as i64, draws.spot.1 as i64);
            if noise_value < 200 {
                self.add_random_mover(spot, 0, 5_000 + draws.size, draws.speed);
            } else {
                self.add_follower(spot);
            }
        }
        proof {
            assert(self.dynamics@ =~= slots + cell_spawn(x, y, noise_value, *draws));
        }
    }

    /// Populates the cell of side `cell_size` at `(x, y)` from its noise
    /// value: below 50 it stays bare; from 50 it gets up to one small stone,
    /// from 100 up to two larger ones, from 200 up to three large ones; from
    /// 100 on, three times in ten, a random mover, and from 200 on a follower
    /// in its place. What it gets is drawn at random.
    pub fn populate_cell(&mut self, x: i64, y: i64, cell_size: u32, noise_value: u8)
        requires
            0 < cell_size <= DRAW_LIMIT,
        ensures
            cell_populated(*old(self), *final(self), x, y, cell_size, noise_value),
            exists|draws: CellDraws|
                draws.fit(cell_size, noise_value) && #[trigger] cell_populated_from(
                    *old(self),
                    *final(self),
                    x,
                    y,
                    noise_value,
                    draws,
                ),
    {
        let draws = Self::draw_cell(cell_size, noise_value);
        self.populate_cell_from(x, y, cell_size, noise_value, &draws);
        proof {
            assert(cell_populated_from(*old(self), *self, x, y, noise_value, draws));
            lemma_draws_populate(*old(self), *self, x, y, cell_size, noise_value, draws);
        }
    }

    /// Updates every creature once, in slot order. Each is taken out of its
    /// slot, acts among the others, and is put back into the same slot.
    pub fn update<F: Fn(i32, i32) -> (i64, i64)>(&mut self, steer: &F)
        requires
            old(self).settled(),
            forall|r: i32, s: i32| call_requires(steer, (r, s)),
        ensures
            final(self).settled(),
            final(self).dynamics@.len() == old(self).dynamics@.len(),
            swept(old(self).dynamics@, final(self).dynamics@, steer),
            final(self).statics == old(self).statics,
            final(self).chunk_position == old(self).chunk_position,
            final(self).noise_image == old(self).noise_image,
    {
        let n = self.dynamics.len();
        let ghost mut trace: Seq<Seq<Option<Dynamic>>> = seq![self.dynamics@];
        let mut item: usize = 0;
        while item < n
            invariant
                item <= n,
                n == self.dynamics@.len(),
                n == old(self).dynamics@.len(),
                self.settled(),
                trace.len() == item + 1,
                trace[0] == old(self).dynamics@,
                trace[item as int] == self.dynamics@,
                forall|i: int|
                    0 <= i < item ==> slot_updated(#[trigger] trace[i], trace[i + 1], i, steer),
                self.statics == old(self).statics,
                self.chunk_position == old(self).chunk_position,
                self.noise_image == old(self).noise_image,
                forall|r: i32, s: i32| call_requires(steer, (r, s)),
            decreases n - item,
        {
            let ghost before = self.dynamics@;
            assert(before[item as int].is_some());
            let taken = self.dynamics[item].take();
            assert(self.dynamics@ == before.update(item as int, None));
            let mut dynamic = taken.unwrap();
            dynamic.update(self, steer);
            self.dynamics[item] = Some(dynamic);
            proof {
                let after = self.dynamics@;
                assert(after == before.update(item as int, Some(dynamic)));
                assert(slot_updated(before, after, item as int, steer));
                let ghost longer = trace.push(after);
                assert forall|i: int| 0 <= i < item + 1 implies slot_updated(
                    #[trigger] longer[i],
                    longer[i + 1],
                    i,
                    steer,
                ) by {
                    if i < item {
                        assert(longer[i] == trace[i]);
                        assert(longer[i + 1] == trace[i + 1]);
                    }
                }
                trace = longer;
            }
            item += 1;
        }
        proof {
            assert(swept_along(old(self).dynamics@, self.dynamics@, trace, steer));
        }
    }

    /// Takes out every creature that has left the chunk's square and hands
    /// them over, in slot order. The creatures that stay close ranks, in
    /// their order.
    pub fn extract_outside_entities(&mut self) -> (extracted: Vec<Option<Dynamic>>)
        requires
            old(self).settled(),
        ensures
            final(self).dynamics@ == old(self).dynamics@.filter(stays_in(old(self).bounds())),
            extracted@ == old(self).dynamics@.filter(leaves(old(self).bounds())),
            final(self).dynamics@.len() + extracted@.len() == old(self).dynamics@.len(),
            forall|i: int| 0 <= i < extracted@.len() ==> (#[trigger] extracted@[i]).is_some(),
            final(self).settled(),
            final(self).statics == old(self).statics,
            final(self).chunk_position == old(self).chunk_position,
            final(self).noise_image == old(self).noise_image,
    {
        let mut extracted_entities: Vec<Option<Dynamic>> = Vec::new();
        let mut kept: Vec<Option<Dynamic>> = Vec::new();
        let ghost bounds = self.bounds();
        let ghost slots = self.dynamics@;
        let n = self.dynamics.len();
        let mut i: usize = 0;
        proof {
            reveal(Seq::filter);
            assert(slots.take(0).filter(stays_in(bounds)) =~= Seq::<Option<Dynamic>>::empty());
            assert(slots.take(0).filter(leaves(bounds)) =~= Seq::<Option<Dynamic>>::empty());
        }
        while i < n
            invariant
                i <= n,
                n == slots.len(),
                self.dynamics@ == slots,
                bounds == self.bounds(),
                self.settled(),
                kept@ == slots.take(i as int).filter(stays_in(bounds)),
                extracted_entities@ == slots.take(i as int).filter(leaves(bounds)),
                kept@.len() + extracted_entities@.len() == i,
                forall|k: int| 0 <= k < kept@.len() ==> (#[trigger] kept@[k]).is_some(),
                forall|k: int|
                    0 <= k < extracted_entities@.len() ==> (
                    #[trigger] extracted_entities@[k]).is_some(),
                self.statics == old(self).statics,
                self.chunk_position == old(self).chunk_position,
                self.noise_image == old(self).noise_image,
            decreases n - i,
        {
            let slot = self.dynamics[i];
            proof {
                assert(slots.take(i as int + 1) =~= slots.take(i as int).push(slot));
                slots.take(i as int).lemma_filter_push(slot, stays_in(bounds));
                slots.take(i as int).lemma_filter_push(slot, leaves(bounds));
                assert(slot.is_some());
            }
            let inside = match slot {
                Some(entity) => self.in_chunk(entity.get_pos()),
                None => false,
            };
            if inside {
                kept.push(slot);
            } else {
                extracted_entities.push(slot);
            }
            i += 1;
        }
        proof {
            assert(slots.take(i as int) =~= slots);
        }
        self.dynamics = kept;
        extracted_entities
    }

    /// What drawing the chunk inside `viewport` puts on the screen: the
    /// chunk's white ground, then its statics in their order, then its
    /// creatures in slot order, leaving out those outside `viewport`.
    pub open spec fn drawn(self, viewport: Rect) -> Seq<Shape> {
        seq![
            Shape::Rectangle {
                corner: Position { x: self.bounds().x, y: self.bounds().y },
                w: CHUNK_EXTENT,
                h: CHUNK_EXTENT,
                color: Rgba::white(),
            },
        ] + self.statics@.filter_map(static_shape(viewport)) + self.dynamics@.filter_map(
            slot_shape(viewport),
        )
    }

    /// The shapes that make up the chunk's picture inside `viewport`, in
    /// drawing order.
    pub fn draw(&self, viewport: Rect) -> (shapes: Vec<Shape>)
        requires
            self.settled(),
        ensures
            shapes@ == self.drawn(viewport),
    {
        let chunk_rect = self.rect();
        let mut shapes: Vec<Shape> = Vec::new();
        shapes.push(
            Shape::Rectangle {
                corner: Position::new(chunk_rect.x, chunk_rect.y),
                w: CHUNK_EXTENT,
                h: CHUNK_EXTENT,
                color: Rgba::white(),
            },
        );
        let ghost ground = shapes@;
        let mut i: usize = 0;
        while i < self.statics.len()
            invariant
                i <= self.statics@.len(),
                shapes@ == ground + self.statics@.take(i as int).filter_map(
                    static_shape(viewport),
                ),
            decreases self.statics@.len() - i,
        {
            proof {
                self.statics@.lemma_filter_map_take_succ(static_shape(viewport), i as int);
            }
            match self.statics[i].draw(viewport) {
                Some(shape) => {
                    shapes.push(shape);
                },
                None => {},
            }
            assert(shapes@ =~= ground + self.statics@.take(i as int + 1).filter_map(
                static_shape(viewport),
            ));
            i += 1;
        }
        proof {
            assert(self.statics@.take(i as int) =~= self.statics@);
        }
        let ghost below = shapes@;
        let mut k: usize = 0;
        while k < self.dynamics.len()
            invariant
                k <= self.dynamics@.len(),
                self.settled(),
                shapes@ == below + self.dynamics@.take(k as int).filter_map(slot_shape(viewport)),
            decreases self.dynamics@.len() - k,
        {
            proof {
                self.dynamics@.lemma_filter_map_take_succ(slot_shape(viewport), k as int);
                assert(self.dynamics@[k as int].is_some());
            }
            match self.dynamics[k] {
                Some(entity) => match entity.draw(viewport) {
                    Some(shape) => {
                        shapes.push(shape);
                    },
                    None => {},
                },
                None => {},
            }
            assert(shapes@ =~= below + self.dynamics@.take(k as int + 1).filter_map(
                slot_shape(viewport),
            ));
            k += 1;
        }
        proof {
            assert(self.dynamics@.take(k as int) =~= self.dynamics@);
        }
        shapes
    }
}

} // verus!
