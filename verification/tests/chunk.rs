use chunk_world::entity::dynamic::follower::Follower;
use chunk_world::entity::dynamic::random_mover::RandomMover;
use chunk_world::entity::dynamic::updatable::Dynamic;
use chunk_world::entity::statich::Static;
use chunk_world::geometry::{Position, Rect};
use chunk_world::shapes::{Rgba, Shape};
use chunk_world::entity::statich::stone::Stone;
use chunk_world::special::chunk::{CellDraws, Chunk, MAX_STONE_SIZE, MIN_STONE_SIZE};
use chunk_world::special::noise::{Noise, NoiseConfig};
use chunk_world::world::{ChunkPosition, CHUNK_EXTENT, CHUNK_TILE_SIZE};

fn field(seed: u64) -> Noise {
    let mut noise = Noise::new();
    noise.set_noise(seed, 5_000);
    noise
}

/// A sampler that can be told apart at every point and for every field.
fn ramp(config: NoiseConfig, x: i64, y: i64) -> u8 {
    (x + 3 * y + config.seed as i64).rem_euclid(256) as u8
}

#[test]
fn noise_is_configured_on_demand() {
    let mut noise = Noise::new();
    assert!(!noise.is_set());
    noise.set_noise(9, 10_000);
    assert!(noise.is_set());
    assert_eq!(*noise.get(), NoiseConfig { seed: 9, frequency: 10_000 });
    noise.set_noise(10, 20_000);
    assert_eq!(*noise.get(), NoiseConfig { seed: 10, frequency: 20_000 });
    assert_eq!(noise.get_point(4, 5, &ramp), ramp(*noise.get(), 4, 5));
}

#[test]
fn baked_image_samples_at_the_offset() {
    let config = NoiseConfig { seed: 1, frequency: 5_000 };
    let image = Noise::gen_image(4, 100, -50, &config, &ramp);
    assert_eq!(image.side(), 4);
    for y in 0..4u32 {
        for x in 0..4u32 {
            assert_eq!(image.get_pixel(x, y), ramp(config, 100 + x as i64, -50 + y as i64));
        }
    }
    assert_eq!(Noise::gen_image(0, 0, 0, &config, &ramp).side(), 0);
}

#[test]
fn baking_is_repeatable() {
    let config = NoiseConfig { seed: 77, frequency: 5_000 };
    let a = Noise::gen_image(16, -8, 8, &config, &ramp);
    let b = Noise::gen_image(16, -8, 8, &config, &ramp);
    for y in 0..16u32 {
        for x in 0..16u32 {
            assert_eq!(a.get_pixel(x, y), b.get_pixel(x, y));
        }
    }
}

#[test]
fn new_chunk_is_empty() {
    let chunk = Chunk::new(ChunkPosition::new(2, -3));
    assert_eq!(chunk.chunk_position, ChunkPosition::new(2, -3));
    assert!(chunk.dynamics.is_empty());
    assert!(chunk.statics.is_empty());
    assert!(chunk.noise_image.is_none());
    assert_eq!(
        chunk.rect(),
        Rect::new(2 * 6_400_000, -3 * 6_400_000, CHUNK_EXTENT as i64, CHUNK_EXTENT as i64)
    );
}

#[test]
fn chunk_init_bakes_once() {
    let mut chunk = Chunk::new(ChunkPosition::new(1, -1));
    chunk.init(&field(0), &ramp);
    let config = NoiseConfig { seed: 0, frequency: 5_000 };
    assert_eq!(chunk.noise_image.as_ref().map(|i| i.side()), Some(256));
    assert_eq!(chunk.get_point(0, 0), ramp(config, 256, -256));
    assert_eq!(chunk.get_point(255, 17), ramp(config, 256 + 255, -256 + 17));
    chunk.init(&field(5), &ramp);
    assert_eq!(chunk.get_point(0, 0), ramp(config, 256, -256));
    assert_eq!(chunk.get_point(255, 17), ramp(config, 256 + 255, -256 + 17));
}

#[test]
fn in_chunk_is_the_chunks_square() {
    let chunk = Chunk::new(ChunkPosition::new(-1, 0));
    assert!(chunk.in_chunk(Position::new(-6_400_000, 0)));
    assert!(chunk.in_chunk(Position::new(-1, 6_399_999)));
    assert!(!chunk.in_chunk(Position::new(0, 0)));
    assert!(!chunk.in_chunk(Position::new(-1, 6_400_000)));
    assert!(!chunk.in_chunk(Position::new(-6_400_001, 0)));
    assert!(!chunk.in_chunk(Position::new(-1, -1)));
}

#[test]
fn adders_append() {
    let mut chunk = Chunk::new(ChunkPosition::new(0, 0));
    chunk.add_stone(Position::new(1, 2), 3, 4);
    chunk.add_road_segment(Position::new(5, 6), 7, 8);
    chunk.add_random_mover(Position::new(9, 10), 11, 12, 13);
    chunk.add_follower(Position::new(14, 15));
    assert_eq!(chunk.statics.len(), 2);
    assert!(matches!(chunk.statics[0], Static::Stone(s) if s.position == Position::new(1, 2)
        && s.rotation == 3 && s.size == 4));
    assert!(matches!(chunk.statics[1], Static::Road(s) if s.position == Position::new(5, 6)
        && s.rotation == 7 && s.size == 8));
    assert_eq!(
        chunk.dynamics,
        vec![
            Some(Dynamic::RandomMover(RandomMover::new(Position::new(9, 10), 11, 12, 13))),
            Some(Dynamic::Follower(Follower::new(Position::new(14, 15)))),
        ]
    );
}

#[test]
fn populate_cell_leaves_low_noise_bare() {
    macroquad::rand::srand(1);
    for noise in [0u8, 1, 25, 49] {
        let mut chunk = Chunk::new(ChunkPosition::new(0, 0));
        for _ in 0..50 {
            chunk.populate_cell(0, 0, CHUNK_TILE_SIZE, noise);
        }
        assert!(chunk.statics.is_empty());
        assert!(chunk.dynamics.is_empty());
    }
}

fn populate_cell_many(noise: u8, rounds: usize) -> Chunk {
    let mut chunk = Chunk::new(ChunkPosition::new(0, 0));
    for _ in 0..rounds {
        let before = (chunk.statics.len(), chunk.dynamics.len());
        chunk.populate_cell(-800_000, 1_200_000, CHUNK_TILE_SIZE, noise);
        let most = if noise < 100 { 1 } else if noise < 200 { 2 } else { 3 };
        assert!(chunk.statics.len() - before.0 <= most);
        assert!(chunk.dynamics.len() - before.1 <= 1);
    }
    chunk
}

fn in_test_cell(p: Position) -> bool {
    -800_000 <= p.x && p.x < -400_000 && 1_200_000 <= p.y && p.y < 1_600_000
}

#[test]
fn populate_cell_scatters_small_stones() {
    macroquad::rand::srand(2);
    let chunk = populate_cell_many(50, 400);
    assert!(!chunk.statics.is_empty());
    assert!(chunk.dynamics.is_empty());
    for s in &chunk.statics {
        match s {
            Static::Stone(stone) => {
                assert!(in_test_cell(stone.position));
                assert_eq!(stone.rotation, 150_000);
                assert!(MIN_STONE_SIZE <= stone.size && stone.size < MAX_STONE_SIZE / 3);
            },
            _ => panic!("only stones are scattered"),
        }
    }
}

#[test]
fn populate_cell_spawns_random_movers_in_the_middle_range() {
    macroquad::rand::srand(3);
    let chunk = populate_cell_many(199, 400);
    assert!(!chunk.statics.is_empty());
    assert!(!chunk.dynamics.is_empty());
    assert!(chunk.dynamics.len() < 300);
    for s in &chunk.statics {
        match s {
            Static::Stone(stone) => {
                assert!(in_test_cell(stone.position));
                assert_eq!(stone.rotation, 597_000);
                assert!(MIN_STONE_SIZE <= stone.size && stone.size < MAX_STONE_SIZE / 2);
            },
            _ => panic!("only stones are scattered"),
        }
    }
    for d in &chunk.dynamics {
        match d {
            Some(Dynamic::RandomMover(m)) => {
                assert!(in_test_cell(m.position));
                assert_eq!(m.rotation, 0);
                assert!(5_000 <= m.size && m.size < 25_000);
                assert!(100 <= m.speed && m.speed < 1_500);
            },
            _ => panic!("only random movers spawn here"),
        }
    }
}

#[test]
fn populate_cell_spawns_followers_in_the_high_range() {
    macroquad::rand::srand(4);
    let chunk = populate_cell_many(200, 400);
    assert!(!chunk.dynamics.is_empty());
    let mut largest = 0;
    for s in &chunk.statics {
        match s {
            Static::Stone(stone) => {
                assert!(MIN_STONE_SIZE <= stone.size && stone.size < MAX_STONE_SIZE);
                assert_eq!(stone.rotation, 600_000);
                largest = largest.max(stone.size);
            },
            _ => panic!("only stones are scattered"),
        }
    }
    assert!(largest >= MAX_STONE_SIZE / 2);
    for d in &chunk.dynamics {
        match d {
            Some(Dynamic::Follower(f)) => {
                assert!(in_test_cell(f.position));
                assert_eq!(f.target, None);
            },
            _ => panic!("only followers spawn here"),
        }
    }
}

#[test]
fn populated_chunk_is_in_layer_order() {
    macroquad::rand::srand(5);
    let mut chunk = Chunk::new(ChunkPosition::new(0, 0));
    chunk.add_stone(Position::new(1, 1), 0, 6_000);
    chunk.add_road_segment(Position::new(2, 2), 0, 6_000);
    chunk.populate(&field(3), &ramp);
    let ranks: Vec<u8> = chunk.statics.iter().map(|s| s.rank()).collect();
    assert!(ranks.windows(2).all(|w| w[0] <= w[1]));
    assert_eq!(ranks.iter().filter(|r| **r == 0).count(), 256);
    assert_eq!(ranks.iter().filter(|r| **r == 1).count(), 1);
    assert!(ranks.iter().filter(|r| **r == 2).count() > 1);
    assert!(matches!(chunk.statics[256], Static::Road(s) if s.position == Position::new(2, 2)));
    assert!(matches!(chunk.statics[257], Static::Stone(s) if s.position == Position::new(1, 1)));
}

#[test]
fn populated_chunk_has_one_tile_per_cell() {
    macroquad::rand::srand(6);
    let at = ChunkPosition::new(-2, 1);
    let mut chunk = Chunk::new(at);
    chunk.populate(&field(8), &ramp);
    let config = NoiseConfig { seed: 8, frequency: 5_000 };
    for k in 0..256usize {
        let (cx, cy) = ((k % 16) as i64, (k / 16) as i64);
        match chunk.statics[k] {
            Static::Terrain(t) => {
                assert_eq!(
                    t.position,
                    Position::new(-2 * 6_400_000 + cx * 400_000, 6_400_000 + cy * 400_000)
                );
                assert_eq!(t.size, CHUNK_TILE_SIZE);
                assert_eq!(t.color, ramp(config, -2 * 256 + cx * 16, 256 + cy * 16));
                assert_eq!(t.color, chunk.get_point(cx as u32 * 16, cy as u32 * 16));
            },
            _ => panic!("terrain comes first"),
        }
    }
    let bounds = chunk.rect();
    for s in &chunk.statics[256..] {
        match s {
            Static::Stone(stone) => {
                assert!(bounds.contains(stone.position));
                assert!(MIN_STONE_SIZE <= stone.size && stone.size < MAX_STONE_SIZE);
            },
            _ => panic!("stones come last"),
        }
    }
    assert!(chunk.statics.len() <= 256 + 3 * 256);
    assert!(chunk.dynamics.len() <= 256);
    for d in &chunk.dynamics {
        assert!(bounds.contains(d.expect("every slot is full").get_pos()));
    }
}

#[test]
fn populate_on_flat_low_noise_is_terrain_only() {
    let flat = |_c: NoiseConfig, _x: i64, _y: i64| 10u8;
    let mut chunk = Chunk::new(ChunkPosition::new(0, 0));
    chunk.populate(&field(0), &flat);
    assert_eq!(chunk.statics.len(), 256);
    assert!(chunk.dynamics.is_empty());
    assert!(chunk.statics.iter().all(|s| matches!(s, Static::Terrain(t) if t.color == 10)));
}

#[test]
fn chunk_update_keeps_every_slot_full() {
    macroquad::rand::srand(9);
    let steer = |_rotation: i32, speed: i32| (speed as i64, 0i64);
    let mut chunk = Chunk::new(ChunkPosition::new(0, 0));
    chunk.add_random_mover(Position::new(0, 0), 0, 5_000, 100);
    chunk.add_follower(Position::new(100_000, 0));
    chunk.add_random_mover(Position::new(500_000, 0), 0, 5_000, 7);
    for frame in 1..=20i64 {
        chunk.update(&steer);
        assert_eq!(chunk.dynamics.len(), 3);
        assert!(chunk.dynamics.iter().all(|slot| slot.is_some()));
        assert_eq!(chunk.dynamics[0].unwrap().get_pos(), Position::new(100 * frame, 0));
        assert_eq!(chunk.dynamics[2].unwrap().get_pos(), Position::new(500_000 + 7 * frame, 0));
        assert!(matches!(chunk.dynamics[1], Some(Dynamic::Follower(_))));
    }
}

#[test]
fn chunk_update_lets_a_follower_see_who_moved_before_it() {
    let steer = |_rotation: i32, speed: i32| (0i64, speed as i64);
    let mut chunk = Chunk::new(ChunkPosition::new(0, 0));
    chunk.add_random_mover(Position::new(100_000, 0), 0, 5_000, 1_000);
    chunk.add_follower(Position::new(0, 0));
    chunk.add_random_mover(Position::new(-60_000, 0), 0, 5_000, 1_000);
    macroquad::rand::srand(2);
    chunk.update(&steer);
    match chunk.dynamics[1] {
        Some(Dynamic::Follower(f)) => {
            assert_eq!(f.target, Some(Position::new(-60_000, 0)));
            assert_eq!(f.position, Position::new(-300, 0));
        },
        _ => panic!("the follower keeps its slot"),
    }
    assert_eq!(chunk.dynamics[0].unwrap().get_pos(), Position::new(100_000, 1_000));
    assert_eq!(chunk.dynamics[2].unwrap().get_pos(), Position::new(-60_000, 1_000));
}

#[test]
fn chunk_update_of_no_creatures_does_nothing() {
    let steer = |_rotation: i32, _speed: i32| (1i64, 1i64);
    let mut chunk = Chunk::new(ChunkPosition::new(0, 0));
    chunk.add_stone(Position::new(1, 1), 0, 6_000);
    chunk.update(&steer);
    assert!(chunk.dynamics.is_empty());
    assert_eq!(chunk.statics.len(), 1);
}

#[test]
fn extract_outside_entities_closes_ranks() {
    let mut chunk = Chunk::new(ChunkPosition::new(0, 0));
    let inside = [Position::new(0, 0), Position::new(6_399_999, 6_399_999), Position::new(5, 5)];
    let outside = [Position::new(-1, 0), Position::new(6_400_000, 3), Position::new(3, 6_400_000)];
    chunk.add_follower(outside[0]);
    chunk.add_follower(inside[0]);
    chunk.add_follower(inside[1]);
    chunk.add_follower(outside[1]);
    chunk.add_follower(outside[2]);
    chunk.add_follower(inside[2]);
    let extracted = chunk.extract_outside_entities();
    let left: Vec<Position> = extracted.iter().map(|e| e.unwrap().get_pos()).collect();
    let stayed: Vec<Position> = chunk.dynamics.iter().map(|e| e.unwrap().get_pos()).collect();
    assert_eq!(left, outside.to_vec());
    assert_eq!(stayed, inside.to_vec());
    assert!(chunk.extract_outside_entities().is_empty());
    assert_eq!(chunk.dynamics.len(), 3);
}

#[test]
fn chunk_draws_ground_statics_then_creatures() {
    let mut chunk = Chunk::new(ChunkPosition::new(0, 0));
    chunk.add_stone(Position::new(10, 10), 0, 6_000);
    chunk.add_stone(Position::new(500, 10), 0, 6_000);
    chunk.add_follower(Position::new(20, 20));
    chunk.add_random_mover(Position::new(-5, 20), 0, 5_000, 1);
    chunk.add_random_mover(Position::new(30, 30), 1_000, 5_000, 1);
    let shapes = chunk.draw(Rect::new(0, 0, 100, 100));
    assert_eq!(
        shapes,
        vec![
            Shape::Rectangle {
                corner: Position::new(0, 0),
                w: CHUNK_EXTENT,
                h: CHUNK_EXTENT,
                color: Rgba::white(),
            },
            Shape::Polygon {
                center: Position::new(10, 10),
                sides: 5,
                radius: 6_000,
                rotation: 0,
                color: Rgba::dark_gray(),
            },
            Shape::Polygon {
                center: Position::new(20, 20),
                sides: 10,
                radius: 20_000,
                rotation: 0,
                color: Rgba::dark_gray(),
            },
            Shape::Polygon {
                center: Position::new(30, 30),
                sides: 5,
                radius: 5_000,
                rotation: 1_000,
                color: Rgba::dark_gray(),
            },
        ]
    );
    let none = chunk.draw(Rect::new(1_000, 1_000, 10, 10));
    assert_eq!(none.len(), 1);
}

fn no_draws() -> CellDraws {
    CellDraws { stones: Vec::new(), roll: 9, spot: (0, 0), size: 0, speed: 100 }
}

fn stones_of(chunk: &Chunk) -> Vec<Stone> {
    chunk
        .statics
        .iter()
        .filter_map(|s| match s {
            Static::Stone(stone) => Some(*stone),
            _ => None,
        })
        .collect()
}

#[test]
fn populate_cell_from_places_what_was_drawn() {
    let mut chunk = Chunk::new(ChunkPosition::new(0, 0));
    chunk.add_road_segment(Position::new(1, 1), 0, 6_000);
    chunk.add_follower(Position::new(2, 2));
    let draws = CellDraws {
        stones: vec![(0, 0, 0), (399_999, 7, 34_999)],
        roll: 2,
        spot: (100, 200),
        size: 19_999,
        speed: 1_499,
    };
    chunk.populate_cell_from(-800_000, 1_200_000, 400_000, 150, &draws);
    assert_eq!(chunk.statics.len(), 3);
    assert!(matches!(chunk.statics[0], Static::Road(_)));
    assert_eq!(
        stones_of(&chunk),
        vec![
            Stone::new(Position::new(-800_000, 1_200_000), 450_000, 5_000),
            Stone::new(Position::new(-400_001, 1_200_007), 450_000, 39_999),
        ]
    );
    assert_eq!(
        chunk.dynamics,
        vec![
            Some(Dynamic::Follower(Follower::new(Position::new(2, 2)))),
            Some(Dynamic::RandomMover(RandomMover::new(
                Position::new(-799_900, 1_200_200),
                0,
                24_999,
                1_499
            ))),
        ]
    );
}

#[test]
fn populate_cell_from_spawns_by_roll_and_bucket() {
    let spawn = |noise: u8, roll: u32| {
        let mut chunk = Chunk::new(ChunkPosition::new(0, 0));
        let draws = CellDraws { roll, spot: (5, 6), size: 1, speed: 100, ..no_draws() };
        chunk.populate_cell_from(10, 20, 400_000, noise, &draws);
        assert!(chunk.statics.is_empty());
        chunk.dynamics
    };
    let mover = Some(Dynamic::RandomMover(RandomMover::new(Position::new(15, 26), 0, 5_001, 100)));
    let follower = Some(Dynamic::Follower(Follower::new(Position::new(15, 26))));
    assert_eq!(spawn(0, 0), vec![]);
    assert_eq!(spawn(99, 0), vec![]);
    assert_eq!(spawn(100, 0), vec![mover]);
    assert_eq!(spawn(100, 2), vec![mover]);
    assert_eq!(spawn(100, 3), vec![]);
    assert_eq!(spawn(199, 2), vec![mover]);
    assert_eq!(spawn(199, 9), vec![]);
    assert_eq!(spawn(200, 2), vec![follower]);
    assert_eq!(spawn(255, 0), vec![follower]);
    assert_eq!(spawn(255, 3), vec![]);
}

#[test]
fn populate_cell_from_sizes_stones_by_the_draw() {
    for (noise, most, limit) in [(50u8, 1usize, 26_666u32), (100, 2, 40_000), (255, 3, 80_000)] {
        let mut chunk = Chunk::new(ChunkPosition::new(0, 0));
        let stones: Vec<(u32, u32, u32)> =
            (0..most).map(|k| (k as u32, 2 * k as u32, limit - 5_001 - k as u32)).collect();
        let draws = CellDraws { stones, ..no_draws() };
        chunk.populate_cell_from(0, 0, 400_000, noise, &draws);
        let placed = stones_of(&chunk);
        assert_eq!(placed.len(), most);
        for (k, stone) in placed.iter().enumerate() {
            let k = k as u32;
            assert_eq!(stone.position, Position::new(k as i64, 2 * k as i64));
            assert_eq!(stone.rotation, 3_000 * noise as i32);
            assert_eq!(stone.size, limit - 1 - k);
        }
        assert!(chunk.dynamics.is_empty());
    }
}

#[test]
fn populate_cell_from_stops_at_the_end_of_the_world() {
    let mut chunk = Chunk::new(ChunkPosition::new(0, 0));
    let draws = CellDraws { stones: vec![(10, 10, 0)], roll: 0, spot: (10, 10), ..no_draws() };
    chunk.populate_cell_from(i64::MAX - 5, i64::MAX, 400_000, 200, &draws);
    assert_eq!(stones_of(&chunk)[0].position, Position::new(i64::MAX, i64::MAX));
    assert_eq!(chunk.dynamics[0].unwrap().get_pos(), Position::new(i64::MAX, i64::MAX));
}

#[test]
fn populate_from_lays_out_the_chunk_exactly() {
    let at = ChunkPosition::new(1, -1);
    let mut chunk = Chunk::new(at);
    chunk.add_stone(Position::new(1, 1), 0, 6_000);
    chunk.add_road_segment(Position::new(2, 2), 0, 6_000);
    chunk.add_follower(Position::new(3, 3));
    chunk.init(&field(4), &ramp);
    let noise_of = |k: usize| chunk.get_point((k % 16) as u32 * 16, (k / 16) as u32 * 16);
    let mut draws: Vec<CellDraws> = Vec::new();
    let mut stones: Vec<Stone> = vec![Stone::new(Position::new(1, 1), 0, 6_000)];
    let mut creatures = vec![Some(Dynamic::Follower(Follower::new(Position::new(3, 3))))];
    for k in 0..256usize {
        let noise = noise_of(k);
        let corner = Position::new(
            6_400_000 + (k % 16) as i64 * 400_000,
            -6_400_000 + (k / 16) as i64 * 400_000,
        );
        let most = if noise < 50 { 0 } else if noise < 100 { 1 } else if noise < 200 { 2 } else { 3 };
        let mut cell = no_draws();
        for j in 0..most {
            let d = (k as u32, j as u32, j as u32);
            cell.stones.push(d);
            stones.push(Stone::new(corner.offset(d.0 as i64, d.1 as i64), 3_000 * noise as i32, 5_000 + d.2));
        }
        cell.roll = (k % 5) as u32;
        cell.spot = (k as u32, 1);
        cell.size = k as u32;
        cell.speed = 100 + k as i32;
        if noise >= 100 && cell.roll < 3 {
            let spot = corner.offset(k as i64, 1);
            creatures.push(Some(if noise < 200 {
                Dynamic::RandomMover(RandomMover::new(spot, 0, 5_000 + k as u32, 100 + k as i32))
            } else {
                Dynamic::Follower(Follower::new(spot))
            }));
        }
        draws.push(cell);
    }
    assert!(stones.len() > 10 && creatures.len() > 10);
    let colours: Vec<u8> = (0..256).map(noise_of).collect();
    chunk.populate_from(&draws);
    assert_eq!(chunk.statics.len(), 256 + 1 + stones.len());
    for k in 0..256usize {
        match chunk.statics[k] {
            Static::Terrain(t) => {
                assert_eq!(
                    t.position,
                    Position::new(
                        6_400_000 + (k % 16) as i64 * 400_000,
                        -6_400_000 + (k / 16) as i64 * 400_000
                    )
                );
                assert_eq!(t.color, colours[k]);
                assert_eq!(t.size, CHUNK_TILE_SIZE);
            },
            _ => panic!("terrain comes first"),
        }
    }
    assert!(matches!(chunk.statics[256], Static::Road(s) if s.position == Position::new(2, 2)));
    assert_eq!(stones_of(&chunk), stones);
    assert!(chunk.statics[257..].iter().all(|s| matches!(s, Static::Stone(_))));
    assert_eq!(chunk.dynamics, creatures);
}
