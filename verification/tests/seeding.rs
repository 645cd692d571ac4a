use balls::ball::{Ball, GeometryError, GRAVITY, LAUNCH_VX, LAUNCH_VY};
use balls::fixed::UNIT;
use balls::seed::{Seeder, HUES, RETRY_BUDGET};
use balls::vector::vec2;

const WIDTH: u32 = 800 * UNIT as u32;
const HEIGHT: u32 = 600 * UNIT as u32;

#[test]
fn random_ball_fits_the_arena() {
    for _ in 0..200 {
        let b = Ball::new_random(WIDTH, HEIGHT).unwrap();
        assert!(b.radius() >= HEIGHT as i64 / 20);
        assert!(b.radius() < HEIGHT as i64 / 10);
        assert!(b.pos().x >= b.radius() && b.pos().x < WIDTH as i64 - b.radius());
        assert!(b.pos().y >= b.radius() && b.pos().y < HEIGHT as i64 - b.radius());
        assert!(b.hue() < HUES);
        assert_eq!(b.velocity(), vec2(LAUNCH_VX, LAUNCH_VY));
        assert_eq!(b.acceleration(), vec2(0, GRAVITY));
        assert!(!b.in_contact());
    }
}

#[test]
fn random_balls_differ() {
    let first = Ball::new_random(WIDTH, HEIGHT).unwrap();
    let mut differs = false;
    for _ in 0..50 {
        if Ball::new_random(WIDTH, HEIGHT).unwrap() != first {
            differs = true;
        }
    }
    assert!(differs);
}

#[test]
fn random_ball_needs_room() {
    assert_eq!(Ball::new_random(19, HEIGHT), Err(GeometryError::ArenaTooSmall));
    assert_eq!(Ball::new_random(WIDTH, 19), Err(GeometryError::ArenaTooSmall));
    assert_eq!(Ball::new_random(0, 0), Err(GeometryError::ArenaTooSmall));
    let smallest = Ball::new_random(20, 20).unwrap();
    assert_eq!(smallest.radius(), 1);
}

#[test]
fn narrow_arena_takes_its_shorter_side() {
    for _ in 0..50 {
        let b = Ball::new_random(40, u32::MAX).unwrap();
        assert!(b.radius() >= 2 && b.radius() < 4);
        assert!(b.pos().x >= b.radius() && b.pos().x < 40 - b.radius());
    }
}

#[test]
fn largest_arena_can_be_seeded() {
    let b = Ball::new_random(u32::MAX, u32::MAX).unwrap();
    assert!(b.radius() >= u32::MAX as i64 / 20);
    assert!(b.radius() < u32::MAX as i64 / 10);
}

#[test]
fn a_ball_is_clear_of_those_it_does_not_touch() {
    let others = vec![Ball::new(vec2(0, 0), 10, 0).unwrap(), Ball::new(vec2(100, 0), 10, 0).unwrap()];
    assert!(Ball::new(vec2(50, 0), 10, 0).unwrap().clear_of(&others));
    assert!(!Ball::new(vec2(20, 0), 10, 0).unwrap().clear_of(&others));
    assert!(!Ball::new(vec2(80, 0), 10, 0).unwrap().clear_of(&others));
    assert!(Ball::new(vec2(79, 0), 10, 0).unwrap().clear_of(&others));
    assert!(Ball::new(vec2(0, 0), 10, 0).unwrap().clear_of(&Vec::new()));
}

#[test]
fn seeder_places_what_is_clear() {
    let mut seeder = Seeder::new(3);
    assert!(!seeder.finished());
    assert!(seeder.offer(Ball::new(vec2(0, 0), 10, 0).unwrap()));
    assert!(!seeder.offer(Ball::new(vec2(20, 0), 10, 1).unwrap()));
    assert!(seeder.offer(Ball::new(vec2(21, 0), 10, 2).unwrap()));
    assert!(!seeder.offer(Ball::new(vec2(40, 0), 10, 3).unwrap()));
    assert!(!seeder.finished());
    assert!(seeder.offer(Ball::new(vec2(42, 0), 10, 4).unwrap()));
    assert!(seeder.finished());
    assert!(!seeder.offer(Ball::new(vec2(500, 500), 10, 5).unwrap()));
    let balls = seeder.into_balls();
    let hues: Vec<u16> = balls.iter().map(|b| b.hue()).collect();
    assert_eq!(hues, vec![0, 2, 4]);
}

#[test]
fn seeder_gives_up_when_the_retries_are_spent() {
    let mut seeder = Seeder::new(2);
    let first = Ball::new(vec2(0, 0), 10, 0).unwrap();
    assert!(seeder.offer(first));
    for _ in 0..RETRY_BUDGET {
        assert!(!seeder.offer(first));
        assert!(!seeder.finished());
    }
    assert!(!seeder.offer(first));
    assert!(seeder.finished());
    assert_eq!(seeder.into_balls(), vec![first]);
}

#[test]
fn a_placement_renews_the_retries() {
    let mut seeder = Seeder::new(3);
    let first = Ball::new(vec2(0, 0), 10, 0).unwrap();
    let second = Ball::new(vec2(100, 0), 10, 0).unwrap();
    assert!(seeder.offer(first));
    for _ in 0..RETRY_BUDGET {
        assert!(!seeder.offer(first));
    }
    assert!(seeder.offer(second));
    for _ in 0..RETRY_BUDGET {
        assert!(!seeder.offer(second));
        assert!(!seeder.finished());
    }
    assert!(!seeder.offer(first));
    assert!(seeder.finished());
    assert_eq!(seeder.into_balls().len(), 2);
}

#[test]
fn a_seeder_can_be_told_to_give_up() {
    let mut seeder = Seeder::new(5);
    assert!(seeder.offer(Ball::new(vec2(0, 0), 10, 0).unwrap()));
    seeder.give_up();
    assert!(seeder.finished());
    assert!(!seeder.offer(Ball::new(vec2(100, 0), 10, 0).unwrap()));
    assert_eq!(seeder.into_balls().len(), 1);
}

#[test]
fn a_seeder_that_aims_for_nothing_has_finished() {
    let mut seeder = Seeder::new(0);
    assert!(seeder.finished());
    assert!(!seeder.offer(Ball::new(vec2(0, 0), 10, 0).unwrap()));
    assert!(seeder.into_balls().is_empty());
}

#[test]
fn seeded_balls_do_not_overlap() {
    let balls = Ball::seed(60, WIDTH, HEIGHT);
    assert!(!balls.is_empty());
    assert!(balls.len() <= 60);
    for i in 0..balls.len() {
        for j in i + 1..balls.len() {
            assert!(balls[i].outer_distance(&balls[j]) > 0);
            assert!(!balls[i].collide_with(&balls[j]));
        }
    }
    for b in &balls {
        assert!(b.pos().x >= b.radius() && b.pos().x <= WIDTH as i64 - b.radius());
        assert!(b.pos().y >= b.radius() && b.pos().y <= HEIGHT as i64 - b.radius());
    }
}

#[test]
fn seeding_places_more_than_one_ball() {
    let balls = Ball::seed(10, WIDTH, HEIGHT);
    assert_eq!(balls.len(), 10);
}

#[test]
fn seeding_stops_early_in_a_crowded_arena() {
    let balls = Ball::seed(5000, WIDTH, HEIGHT);
    assert!(!balls.is_empty());
    assert!(balls.len() < 5000);
    for i in 0..balls.len() {
        for j in i + 1..balls.len() {
            assert!(balls[i].outer_distance(&balls[j]) > 0);
        }
    }
}

#[test]
fn seeding_nothing_or_nowhere_gives_nothing() {
    assert!(Ball::seed(0, WIDTH, HEIGHT).is_empty());
    assert!(Ball::seed(60, 10, 10).is_empty());
    assert_eq!(Ball::seed(1, WIDTH, HEIGHT).len(), 1);
    assert_eq!(RETRY_BUDGET, 1000);
}
