use chunk_world::common::{clamped_add, div_floor, isqrt};
use chunk_world::geometry::{Position, Rect};
use chunk_world::random::{above, draw_between};
use chunk_world::special::camera::Camera;
use chunk_world::special::square::{Square, SQUARE_SIZE};
use chunk_world::world::{
    hold_i32, ChunkPosition, CHUNK_EXTENT, CHUNK_SIZE, CHUNK_TILE_SIZE, NOISE_IMAGE_SIZE,
    RENDER_DISTANCE, UPDATE_DISTANCE,
};

#[test]
fn constants_describe_the_grid() {
    assert_eq!(CHUNK_SIZE, 16);
    assert_eq!(CHUNK_TILE_SIZE, 400_000);
    assert_eq!(CHUNK_EXTENT, CHUNK_SIZE as u32 * CHUNK_TILE_SIZE);
    assert_eq!(NOISE_IMAGE_SIZE, 256);
    assert_eq!(RENDER_DISTANCE, 2);
    assert_eq!(UPDATE_DISTANCE, 5);
}

#[test]
fn clamped_add_stops_at_the_ends() {
    assert_eq!(clamped_add(5, 7), 12);
    assert_eq!(clamped_add(-5, 3), -2);
    assert_eq!(clamped_add(i64::MAX, 1), i64::MAX);
    assert_eq!(clamped_add(i64::MAX - 1, 5), i64::MAX);
    assert_eq!(clamped_add(i64::MIN, -1), i64::MIN);
    assert_eq!(clamped_add(i64::MIN, i64::MAX), -1);
}

#[test]
fn div_floor_rounds_down() {
    assert_eq!(div_floor(0, 5), 0);
    assert_eq!(div_floor(4, 5), 0);
    assert_eq!(div_floor(5, 5), 1);
    assert_eq!(div_floor(-1, 5), -1);
    assert_eq!(div_floor(-5, 5), -1);
    assert_eq!(div_floor(-6, 5), -2);
    assert_eq!(div_floor(i64::MIN, 1), i64::MIN);
    assert_eq!(div_floor(i64::MAX, 1), i64::MAX);
    assert_eq!(div_floor(i64::MIN, u32::MAX), -2147483649);
}

#[test]
fn isqrt_is_the_largest_root() {
    assert_eq!(isqrt(0), 0);
    assert_eq!(isqrt(1), 1);
    assert_eq!(isqrt(3), 1);
    assert_eq!(isqrt(4), 2);
    assert_eq!(isqrt(99), 9);
    assert_eq!(isqrt(100), 10);
    assert_eq!(isqrt(10_000_000_000), 100_000);
    assert_eq!(isqrt(u64::MAX), 0xffff_ffff);
}

#[test]
fn hold_i32_clamps() {
    assert_eq!(hold_i32(12), 12);
    assert_eq!(hold_i32(i64::MAX), i32::MAX);
    assert_eq!(hold_i32(i64::MIN), i32::MIN);
    assert_eq!(hold_i32(i32::MIN as i64), i32::MIN);
}

#[test]
fn position_offset_moves_and_clamps() {
    let p = Position::new(10, -20);
    assert_eq!(p.offset(5, 5), Position::new(15, -15));
    assert_eq!(Position::new(i64::MAX, 0).offset(1, -1), Position::new(i64::MAX, -1));
}

#[test]
fn rect_contains_left_and_top_edges_only() {
    let r = Rect::new(10, 20, 30, 40);
    assert!(r.contains(Position::new(10, 20)));
    assert!(r.contains(Position::new(39, 59)));
    assert!(!r.contains(Position::new(40, 20)));
    assert!(!r.contains(Position::new(10, 60)));
    assert!(!r.contains(Position::new(9, 20)));
    assert!(!r.contains(Position::new(10, 19)));
}

#[test]
fn rect_contains_does_not_overflow() {
    let r = Rect::new(i64::MAX - 1, i64::MAX - 1, 10, 10);
    assert!(r.contains(Position::new(i64::MAX, i64::MAX)));
    let empty = Rect::new(0, 0, 0, 0);
    assert!(!empty.contains(Position::new(0, 0)));
}

#[test]
fn rect_inflate_grows_every_side() {
    let r = Rect::new(100, 200, 50, 60).inflate(10);
    assert_eq!(r, Rect::new(90, 190, 70, 80));
}

#[test]
fn chunk_position_from_floors() {
    let e = CHUNK_EXTENT as i64;
    assert_eq!(ChunkPosition::from(Position::new(0, 0)), ChunkPosition::new(0, 0));
    assert_eq!(ChunkPosition::from(Position::new(e - 1, e - 1)), ChunkPosition::new(0, 0));
    assert_eq!(ChunkPosition::from(Position::new(e, 0)), ChunkPosition::new(1, 0));
    assert_eq!(ChunkPosition::from(Position::new(-1, -1)), ChunkPosition::new(-1, -1));
    assert_eq!(ChunkPosition::from(Position::new(-e, -e - 1)), ChunkPosition::new(-1, -2));
    assert_eq!(ChunkPosition::from(Position::new(3 * e + 5, -7 * e)), ChunkPosition::new(3, -7));
}

#[test]
fn chunk_position_from_holds_to_the_grid() {
    assert_eq!(
        ChunkPosition::from(Position::new(i64::MAX, i64::MIN)),
        ChunkPosition::new(i32::MAX, i32::MIN)
    );
}

#[test]
fn chunk_position_add_offsets() {
    let c = ChunkPosition::new(3, -4);
    assert_eq!(c.add(-1, -1), ChunkPosition::new(2, -5));
    assert_eq!(c.add(0, 0), c);
    assert_eq!(c.add(1, 1), ChunkPosition::new(4, -3));
}

#[test]
fn chunk_position_neighbour_stays_on_the_grid() {
    let c = ChunkPosition::new(i32::MAX, 0);
    assert_eq!(c.neighbour(1, 0), None);
    assert_eq!(c.neighbour(-1, 1), Some(ChunkPosition::new(i32::MAX - 1, 1)));
    assert_eq!(ChunkPosition::new(0, i32::MIN).neighbour(0, -1), None);
}

#[test]
fn chunk_position_is_within_is_chebyshev() {
    let c = ChunkPosition::new(0, 0);
    assert!(c.is_within(ChunkPosition::new(0, 0), 0));
    assert!(c.is_within(ChunkPosition::new(2, -2), 2));
    assert!(!c.is_within(ChunkPosition::new(3, 0), 2));
    assert!(!c.is_within(ChunkPosition::new(0, -3), 2));
    assert!(c.is_within(ChunkPosition::new(5, 5), 5));
    assert!(!c.is_within(ChunkPosition::new(1, 0), 0));
    assert!(!c.is_within(ChunkPosition::new(0, 0), -1));
}

#[test]
fn chunk_position_is_within_does_not_overflow() {
    let a = ChunkPosition::new(i32::MIN, i32::MIN);
    let b = ChunkPosition::new(i32::MAX, i32::MAX);
    assert!(!a.is_within(b, i32::MAX));
    assert!(!b.is_within(a, 5));
}

#[test]
fn chunk_position_offsets_scale() {
    assert_eq!(ChunkPosition::new(2, -3).offsets(256), (512, -768));
    assert_eq!(ChunkPosition::new(-1, 1).offsets(CHUNK_EXTENT), (-6_400_000, 6_400_000));
    assert_eq!(
        ChunkPosition::new(i32::MIN, i32::MAX).offsets(u32::MAX),
        (i32::MIN as i64 * u32::MAX as i64, i32::MAX as i64 * u32::MAX as i64)
    );
}

#[test]
fn draws_stay_below_the_bound() {
    macroquad::rand::srand(7);
    let mut seen_low = false;
    let mut seen_other = false;
    for _ in 0..2000 {
        let r = draw_between(-3, 2);
        assert!(-3 <= r && r < 2);
        if r == -3 {
            seen_low = true;
        } else {
            seen_other = true;
        }
    }
    assert!(seen_low && seen_other);
    for _ in 0..2000 {
        assert_eq!(draw_between(41, 42), 41);
    }
}

#[test]
fn a_draw_counts_from_the_low_end() {
    assert_eq!(above(0, 0), 0);
    assert_eq!(above(-10_000, 0), -10_000);
    assert_eq!(above(-10_000, 19_999), 9_999);
    assert_eq!(above(100, 1_399), 1_499);
    assert_eq!(above(i32::MIN, u32::MAX), i32::MAX);
    assert_eq!(above(i32::MAX, 0), i32::MAX);
}

#[test]
fn draws_cover_the_largest_range() {
    macroquad::rand::srand(11);
    for _ in 0..2000 {
        let r = draw_between(0, 0x10_0000);
        assert!(0 <= r && r < 0x10_0000);
    }
}

#[test]
fn camera_follows_what_it_is_told_to() {
    let mut camera = Camera::new();
    assert_eq!(camera.target, Position::new(0, 0));
    camera.update();
    assert_eq!(camera, Camera::new());
    camera.set_follow(Some(Position::new(5, 6)), Some(90_000));
    assert_eq!(camera.target, Position::new(0, 0));
    camera.update();
    assert_eq!(camera.target, Position::new(5, 6));
    assert_eq!(camera.rotation, 90_000);
    camera.unfollow();
    assert_eq!(camera.followed_pos, None);
    assert_eq!(camera.followed_rot, None);
    camera.update();
    assert_eq!(camera.target, Position::new(5, 6));
    camera.set_follow(None, Some(1));
    camera.update();
    assert_eq!(camera.target, Position::new(5, 6));
    assert_eq!(camera.rotation, 1);
    assert_eq!(Camera::default(), Camera::new());
}

#[test]
fn square_corners_go_round() {
    let s = Square::new(Position::new(3, 4));
    assert_eq!(s.size, SQUARE_SIZE);
    assert_eq!(s.rotation, 0);
    assert_eq!(
        Square::corners(25_000),
        [
            Position::new(-12_500, -12_500),
            Position::new(12_500, -12_500),
            Position::new(12_500, 12_500),
            Position::new(-12_500, 12_500),
        ]
    );
    assert_eq!(Square::corners(0), [Position::new(0, 0); 4]);
}

#[test]
fn square_walks_under_the_new_heading() {
    let steer = |rotation: i32, speed: i32| (rotation as i64, speed as i64);
    let mut s = Square::new(Position::new(0, 0));
    s.walk(-1_000, 500, &steer);
    assert_eq!(s.rotation, -1_000);
    assert_eq!(s.center, Position::new(-1_000, 500));
    s.walk(2_000, 0, &steer);
    assert_eq!(s.rotation, 1_000);
    assert_eq!(s.center, Position::new(-1_000, 500));
    s.walk(0, 0, &steer);
    assert_eq!(s.rotation, 1_000);
    assert_eq!(s.center, Position::new(-1_000, 500));
}
