use chunk_world::entity::dynamic::follower::Follower;
use chunk_world::entity::dynamic::random_mover::RandomMover;
use chunk_world::entity::dynamic::updatable::Dynamic;
use chunk_world::entity::statich::Static;
use chunk_world::geometry::{Position, Rect};
use chunk_world::shapes::Shape;
use chunk_world::special::camera::Camera;
use chunk_world::special::noise::NoiseConfig;
use chunk_world::special::square::Square;
use chunk_world::world::{ChunkPosition, Controls, World, NOISE_FREQUENCY};

const EXTENT: i64 = 6_400_000;

/// Flat ground: terrain only, no stone and no creature.
fn flat(_config: NoiseConfig, _x: i64, _y: i64) -> u8 {
    10
}

/// Rough ground: every range of noise occurs.
fn rough(config: NoiseConfig, x: i64, y: i64) -> u8 {
    (x / 16 * 37 + y / 16 * 11 + config.seed as i64).rem_euclid(256) as u8
}

fn east(_rotation: i32, speed: i32) -> (i64, i64) {
    (speed as i64, 0)
}

fn west(_rotation: i32, speed: i32) -> (i64, i64) {
    (-(speed as i64), 0)
}

fn still(_rotation: i32, _speed: i32) -> (i64, i64) {
    (0, 0)
}

fn idle() -> Controls {
    Controls {
        forward: false,
        backward: false,
        left: false,
        right: false,
        reset: false,
        camera: false,
    }
}

fn coordinates(world: &World) -> Vec<(i32, i32)> {
    world.chunks().iter().map(|c| (c.chunk_position.x, c.chunk_position.y)).collect()
}

fn ring(cx: i32, cy: i32) -> Vec<(i32, i32)> {
    let mut out = Vec::new();
    for dx in -1..=1 {
        for dy in -1..=1 {
            out.push((cx + dx, cy + dy));
        }
    }
    out
}

fn flat_world() -> World {
    let mut world = World::new();
    world.setup(&flat);
    world
}

#[test]
fn new_world_is_empty() {
    let world = World::new();
    assert!(world.chunks().is_empty());
    assert_eq!(world.current_seed(), 0);
    assert_eq!(world.player_square(), Square::new(Position::new(0, 0)));
    assert_eq!(world.main_camera(), Camera::new());
    assert_eq!(world.count_statics(), 0);
    assert_eq!(world.count_dynamics(), 0);
    assert!(!world.has_chunk(ChunkPosition::new(0, 0)));
    assert!(world.chunk_at(ChunkPosition::new(0, 0)).is_none());
    assert!(world.draw(Rect::new(0, 0, 100, 100)).is_empty());
    assert!(World::default().chunks().is_empty());
    assert_eq!(World::default().player_square(), world.player_square());
}

#[test]
fn setup_generates_the_neighbourhood_in_order() {
    let world = flat_world();
    assert_eq!(coordinates(&world), ring(0, 0));
    assert_eq!(
        coordinates(&world),
        vec![(-1, -1), (-1, 0), (-1, 1), (0, -1), (0, 0), (0, 1), (1, -1), (1, 0), (1, 1)]
    );
    for (x, y) in ring(0, 0) {
        let at = ChunkPosition::new(x, y);
        assert!(world.has_chunk(at));
        assert_eq!(world.chunk_at(at).map(|c| c.chunk_position), Some(at));
    }
    assert!(!world.has_chunk(ChunkPosition::new(2, 0)));
    assert_eq!(world.count_statics(), 9 * 256);
    assert_eq!(world.count_dynamics(), 0);
}

#[test]
fn setup_bakes_from_the_worlds_noise_field() {
    let probe = |config: NoiseConfig, x: i64, y: i64| {
        assert_eq!(config, NoiseConfig { seed: 0, frequency: NOISE_FREQUENCY });
        (x + y).rem_euclid(50) as u8
    };
    let mut world = World::new();
    world.setup(&probe);
    let chunk = world.chunk_at(ChunkPosition::new(1, -1)).expect("the chunk is loaded");
    assert_eq!(chunk.get_point(3, 4), ((256 + 3) + (-256 + 4) as i64).rem_euclid(50) as u8);
    assert_eq!(chunk.statics.len(), 256);
}

#[test]
fn generation_is_idempotent() {
    macroquad::rand::srand(12);
    let mut world = World::new();
    world.setup(&rough);
    let at = ChunkPosition::new(3, 3);
    world.generate_chunk(at, &rough);
    assert_eq!(world.chunks().len(), 10);
    let statics: Vec<Static> = world.chunk_at(at).expect("loaded").statics.clone();
    let dynamics = world.chunk_at(at).expect("loaded").dynamics.clone();
    let total = (world.count_statics(), world.count_dynamics());
    world.generate_chunk(at, &rough);
    world.generate_chunk(at, &flat);
    assert_eq!(world.chunks().len(), 10);
    assert_eq!(coordinates(&world).iter().filter(|c| **c == (3, 3)).count(), 1);
    let again = world.chunk_at(at).expect("loaded");
    assert_eq!(again.dynamics, dynamics);
    assert_eq!(again.statics.len(), statics.len());
    for (a, b) in again.statics.iter().zip(statics.iter()) {
        match (a, b) {
            (Static::Stone(a), Static::Stone(b)) => assert_eq!(a, b),
            (Static::Road(a), Static::Road(b)) => assert_eq!(a, b),
            (Static::Terrain(a), Static::Terrain(b)) => assert_eq!(a, b),
            _ => panic!("the statics changed"),
        }
    }
    assert_eq!((world.count_statics(), world.count_dynamics()), total);
}

#[test]
fn generate_chunks_around_fills_what_is_missing() {
    let mut world = flat_world();
    world.generate_chunks_around(ChunkPosition::new(1, 1), &flat);
    let mut expected = ring(0, 0);
    expected.extend([(0, 2), (1, 2), (2, 0), (2, 1), (2, 2)]);
    assert_eq!(coordinates(&world), expected);
    world.generate_chunks_around(ChunkPosition::new(1, 1), &flat);
    world.generate_chunks_around(ChunkPosition::new(0, 0), &flat);
    assert_eq!(coordinates(&world), expected);
}

#[test]
fn generate_chunks_around_stops_at_the_grids_end() {
    let mut world = flat_world();
    world.generate_chunks_around(ChunkPosition::new(i32::MAX, i32::MIN), &flat);
    let mut expected = ring(0, 0);
    expected.extend([
        (i32::MAX - 1, i32::MIN),
        (i32::MAX - 1, i32::MIN + 1),
        (i32::MAX, i32::MIN),
        (i32::MAX, i32::MIN + 1),
    ]);
    assert_eq!(coordinates(&world), expected);
}

#[test]
fn populated_chunks_of_a_world_are_in_layer_order() {
    macroquad::rand::srand(21);
    let mut world = World::new();
    world.setup(&rough);
    let mut stones = 0;
    for chunk in world.chunks() {
        let ranks: Vec<u8> = chunk.statics.iter().map(|s| s.rank()).collect();
        assert!(ranks.windows(2).all(|w| w[0] <= w[1]));
        assert_eq!(ranks.iter().filter(|r| **r == 0).count(), 256);
        stones += ranks.iter().filter(|r| **r == 2).count();
        assert!(chunk.dynamics.iter().all(|slot| slot.is_some()));
    }
    assert!(stones > 0);
    assert!(world.count_dynamics() > 0);
}

#[test]
fn reset_starts_over() {
    let mut world = flat_world();
    world.generate_chunks_around(ChunkPosition::new(5, 5), &flat);
    assert_eq!(world.chunks().len(), 18);
    assert!(world.add_dynamic(Dynamic::Follower(Follower::new(Position::new(5, 5)))));
    world.reset(&flat);
    assert_eq!(coordinates(&world), ring(0, 0));
    assert!(!world.has_chunk(ChunkPosition::new(5, 5)));
    assert_eq!(world.count_dynamics(), 0);
}

#[test]
fn add_dynamic_finds_the_chunk_or_drops() {
    let mut world = flat_world();
    let inside = Dynamic::Follower(Follower::new(Position::new(-1, EXTENT)));
    assert!(world.add_dynamic(inside));
    let home = world.chunk_at(ChunkPosition::new(-1, 1)).expect("loaded");
    assert_eq!(home.dynamics, vec![Some(inside)]);
    assert_eq!(world.count_dynamics(), 1);
    let lost = Dynamic::Follower(Follower::new(Position::new(2 * EXTENT, 0)));
    assert!(!world.add_dynamic(lost));
    assert_eq!(world.count_dynamics(), 1);
    assert_eq!(world.chunks().len(), 9);
}

#[test]
fn boundary_scenario() {
    macroquad::rand::srand(30);
    let mut world = flat_world();
    let on_the_edge = Position::new(0, 3_000_000);
    let mover = RandomMover::new(on_the_edge, 0, 10_000, 1_000);
    assert!(world.add_dynamic(Dynamic::RandomMover(mover)));
    let origin = ChunkPosition::new(0, 0);
    let neighbour = ChunkPosition::new(-1, 0);
    assert_eq!(world.chunk_at(origin).expect("loaded").dynamics.len(), 1);

    world.update(&west);

    assert!(world.chunk_at(origin).expect("loaded").dynamics.is_empty());
    let arrived = &world.chunk_at(neighbour).expect("loaded").dynamics;
    assert_eq!(arrived.len(), 1);
    assert_eq!(arrived[0].expect("full").get_pos(), Position::new(-1_000, 3_000_000));
    for chunk in world.chunks() {
        if chunk.chunk_position != neighbour {
            assert!(chunk.dynamics.is_empty());
        }
    }
    assert_eq!(world.count_dynamics(), 1);
}

#[test]
fn boundary_scenario_extracts_at_the_chunk() {
    macroquad::rand::srand(31);
    let mut chunk = chunk_world::special::chunk::Chunk::new(ChunkPosition::new(0, 0));
    chunk.add_random_mover(Position::new(EXTENT - 1, 5), 0, 10_000, 1);
    chunk.update(&east);
    let extracted = chunk.extract_outside_entities();
    assert!(chunk.dynamics.is_empty());
    assert_eq!(extracted.len(), 1);
    assert_eq!(extracted[0].expect("full").get_pos(), Position::new(EXTENT, 5));
}

#[test]
fn creatures_that_outrun_the_world_are_dropped() {
    macroquad::rand::srand(32);
    let mut world = flat_world();
    let start = Position::new(2 * EXTENT - 500, 0);
    assert!(world.add_dynamic(Dynamic::RandomMover(RandomMover::new(start, 0, 10_000, 1_000))));
    let stays = Position::new(10, 10);
    assert!(world.add_dynamic(Dynamic::RandomMover(RandomMover::new(stays, 0, 10_000, 1_000))));
    assert_eq!(world.count_dynamics(), 2);
    world.update(&east);
    assert_eq!(world.count_dynamics(), 1);
    let home = world.chunk_at(ChunkPosition::new(0, 0)).expect("loaded");
    assert_eq!(home.dynamics.len(), 1);
    assert_eq!(home.dynamics[0].expect("full").get_pos(), Position::new(1_010, 10));
    world.update(&east);
    assert_eq!(world.count_dynamics(), 1);
}

#[test]
fn migration_conserves_creatures() {
    macroquad::rand::srand(33);
    let mut world = flat_world();
    let mut placed = 0u128;
    for k in 0..40i64 {
        let p = Position::new(-EXTENT + k * 480_000, k * 37_000);
        if world.add_dynamic(Dynamic::RandomMover(RandomMover::new(p, 0, 10_000, 300_000))) {
            placed += 1;
        }
    }
    assert_eq!(placed, 40);
    let mut before = world.count_dynamics();
    assert_eq!(before, 40);
    let mut dropped = false;
    for _ in 0..80 {
        world.update(&east);
        let after = world.count_dynamics();
        assert!(after <= before);
        dropped = dropped || after < before;
        let mut sum = 0u128;
        for chunk in world.chunks() {
            assert!(chunk.dynamics.iter().all(|slot| slot.is_some()));
            let bounds = chunk.rect();
            for d in &chunk.dynamics {
                assert!(bounds.contains(d.expect("full").get_pos()));
            }
            sum += chunk.dynamics.len() as u128;
        }
        assert_eq!(sum, after);
        before = after;
    }
    assert!(dropped);
    assert_eq!(world.count_dynamics(), 0);
}

#[test]
fn update_leaves_far_chunks_alone() {
    macroquad::rand::srand(34);
    let mut world = flat_world();
    world.generate_chunks_around(ChunkPosition::new(7, 0), &flat);
    let far = Position::new(7 * EXTENT + 5, 5);
    let near = Position::new(5 * EXTENT + 5, 5);
    world.generate_chunks_around(ChunkPosition::new(5, 0), &flat);
    assert!(world.add_dynamic(Dynamic::RandomMover(RandomMover::new(far, 0, 10_000, 1_000))));
    assert!(world.add_dynamic(Dynamic::RandomMover(RandomMover::new(near, 0, 10_000, 1_000))));
    world.update(&east);
    let far_chunk = world.chunk_at(ChunkPosition::new(7, 0)).expect("loaded");
    assert_eq!(far_chunk.dynamics[0].expect("full").get_pos(), far);
    let near_chunk = world.chunk_at(ChunkPosition::new(5, 0)).expect("loaded");
    assert_eq!(near_chunk.dynamics[0].expect("full").get_pos(), Position::new(5 * EXTENT + 1_005, 5));
}

#[test]
fn update_moves_the_camera_onto_what_it_follows() {
    let mut world = flat_world();
    let mut camera = world.main_camera();
    camera.set_follow(Some(Position::new(7, 8)), Some(9));
    world.set_camera(camera);
    world.update(&still);
    assert_eq!(world.main_camera().target, Position::new(7, 8));
    assert_eq!(world.main_camera().rotation, 9);
}

#[test]
fn input_with_no_key_down_changes_nothing() {
    macroquad::rand::srand(39);
    let mut world = flat_world();
    world.set_player(Square { center: Position::new(123, -456), rotation: 7_000, size: 25_000 });
    let before = world.player_square();
    let chunks = coordinates(&world);
    let statics = world.count_statics();
    for _ in 0..10 {
        world.input(idle(), &flat, &east);
        assert_eq!(world.player_square(), before);
        assert_eq!(coordinates(&world), chunks);
        assert_eq!(world.count_statics(), statics);
    }
    assert_eq!(world.main_camera().followed_pos, Some(before.center));
    assert_eq!(world.main_camera().followed_rot, Some(before.rotation));
}

#[test]
fn input_moves_the_player_and_follows_it() {
    let mut world = flat_world();
    let by_speed = |_rotation: i32, speed: i32| (0i64, speed as i64);
    let forward = Controls { forward: true, backward: true, ..idle() };
    world.input(forward, &flat, &by_speed);
    let player = world.player_square();
    assert_eq!(player.center, Position::new(0, 1_000));
    assert_eq!(player.rotation, 0);
    assert_eq!(world.main_camera().followed_pos, Some(player.center));
    assert_eq!(world.main_camera().followed_rot, Some(player.rotation));

    world.input(idle(), &flat, &by_speed);
    assert_eq!(world.player_square().center, Position::new(0, 1_000));
    world.input(Controls { backward: true, ..idle() }, &flat, &by_speed);
    assert_eq!(world.player_square().center, Position::new(0, 0));
    world.input(Controls { backward: true, ..idle() }, &flat, &by_speed);
    assert_eq!(world.player_square().center, Position::new(0, -1_000));
    assert_eq!(coordinates(&world).len(), 12);
}

#[test]
fn input_turns_the_player_as_the_keys_ask() {
    let by_heading = |rotation: i32, _speed: i32| (rotation as i64, 0i64);
    let mut world = flat_world();
    world.set_player(Square { center: Position::new(0, 0), rotation: 180_000, size: 25_000 });
    world.input(Controls { left: true, right: true, ..idle() }, &flat, &still);
    assert_eq!(world.player_square().rotation, 180_000 - 573);
    assert_eq!(world.player_square().center, Position::new(0, 0));
    world.input(Controls { right: true, forward: true, ..idle() }, &flat, &by_heading);
    let p = world.player_square();
    assert_eq!(p.rotation, 180_000);
    assert_eq!(p.center, Position::new(180_000, 0));
    world.set_player(Square { center: Position::new(0, 0), rotation: 0, size: 25_000 });
    world.input(Controls { left: true, ..idle() }, &flat, &by_heading);
    assert_eq!(world.player_square().rotation, -573);
    assert_eq!(world.player_square().center, Position::new(0, 0));
}

#[test]
fn input_in_camera_mode_leaves_player_and_camera_alone() {
    let mut world = flat_world();
    let by_speed = |_rotation: i32, speed: i32| (speed as i64, 0i64);
    let keys = Controls { camera: true, forward: true, left: true, ..idle() };
    world.input(keys, &flat, &by_speed);
    assert_eq!(world.main_camera(), Camera::new());
    assert_eq!(world.player_square(), Square::new(Position::new(0, 0)));
    assert_eq!(coordinates(&world), ring(0, 0));
}

#[test]
fn input_streams_chunks_around_the_player() {
    let leap = |_rotation: i32, speed: i32| if speed > 0 { (EXTENT, 0i64) } else { (0i64, 0i64) };
    let mut world = flat_world();
    for step in 1..=3i32 {
        world.input(Controls { forward: true, ..idle() }, &flat, &leap);
        assert_eq!(world.player_square().center, Position::new(step as i64 * EXTENT, 0));
        for (x, y) in ring(step, 0) {
            assert!(world.has_chunk(ChunkPosition::new(x, y)));
        }
        assert_eq!(world.chunks().len(), 9 + 3 * step as usize);
    }
    assert!(world.has_chunk(ChunkPosition::new(-1, -1)));
    let mut expected = ring(0, 0);
    expected.extend([(2, -1), (2, 0), (2, 1), (3, -1), (3, 0), (3, 1), (4, -1), (4, 0), (4, 1)]);
    assert_eq!(coordinates(&world), expected);
}

#[test]
fn input_generates_only_on_crossing() {
    let mut world = World::new();
    world.set_player(Square::new(Position::new(EXTENT - 500, 10)));
    world.setup(&flat);
    assert_eq!(coordinates(&world), ring(0, 0));
    world.input(Controls { backward: true, ..idle() }, &flat, &east);
    assert_eq!(world.player_square().center, Position::new(EXTENT - 1_500, 10));
    assert_eq!(coordinates(&world), ring(0, 0));
    world.input(Controls { forward: true, ..idle() }, &flat, &east);
    world.input(Controls { forward: true, ..idle() }, &flat, &east);
    assert_eq!(world.player_square().center, Position::new(EXTENT + 500, 10));
    let mut expected = ring(0, 0);
    expected.extend([(2, -1), (2, 0), (2, 1)]);
    assert_eq!(coordinates(&world), expected);
}

#[test]
fn input_reset_reseeds_and_regenerates() {
    macroquad::rand::srand(44);
    let mut world = World::new();
    world.input(Controls { reset: true, camera: true, ..idle() }, &flat, &still);
    assert_eq!(coordinates(&world), ring(0, 0));
    let first = world.current_seed();
    assert!(first <= u32::MAX as u64);
    world.generate_chunks_around(ChunkPosition::new(9, 9), &flat);
    let seen = std::cell::Cell::new(0u64);
    let probe = |config: NoiseConfig, _x: i64, _y: i64| {
        seen.set(config.seed);
        10u8
    };
    world.input(Controls { reset: true, camera: true, ..idle() }, &probe, &still);
    assert_eq!(coordinates(&world), ring(0, 0));
    assert_eq!(seen.get(), world.current_seed());
    assert_ne!(world.current_seed(), first);
}

#[test]
fn draw_shows_the_chunks_near_the_player() {
    let mut world = flat_world();
    world.generate_chunks_around(ChunkPosition::new(3, 0), &flat);
    let everything = Rect::new(-100 * EXTENT, -100 * EXTENT, 200 * EXTENT, 200 * EXTENT);
    let shapes = world.draw(everything);
    let near: Vec<&chunk_world::special::chunk::Chunk> = world
        .chunks()
        .iter()
        .filter(|c| c.chunk_position.is_within(ChunkPosition::new(0, 0), 2))
        .collect();
    assert_eq!(near.len(), 12);
    let mut expected: Vec<Shape> = Vec::new();
    for chunk in near {
        expected.extend(chunk.draw(everything.inflate(EXTENT as u32)));
    }
    assert_eq!(shapes, expected);
    assert_eq!(shapes.len(), 12 * 257);
}

#[test]
fn draw_widens_the_view_by_a_chunk() {
    let world = flat_world();
    let view = Rect::new(0, 0, 1, 1);
    let shapes = world.draw(view);
    let tiles = shapes
        .iter()
        .filter(|s| matches!(s, Shape::Rectangle { w: 400_000, .. }))
        .count();
    assert_eq!(shapes.len(), 9 + tiles);
    assert_eq!(tiles, 33 * 33);
    for s in &shapes {
        if let Shape::Rectangle { corner, w: 400_000, .. } = s {
            assert!(-EXTENT <= corner.x && corner.x < EXTENT + 1);
            assert!(-EXTENT <= corner.y && corner.y < EXTENT + 1);
        }
    }
}
