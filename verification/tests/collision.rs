use balls::ball::Ball;
use balls::fixed::{MAX_RADIUS, MAX_SPEED, UNIT};
use balls::vector::{vec2, Vec2};

fn ball(pos: Vec2, velocity: Vec2, radius: i64) -> Ball {
    Ball::new(pos, radius, 0).unwrap().with_velocity(velocity).unwrap()
}

fn momentum(balls: &[Ball]) -> (i128, i128) {
    let mut total = (0i128, 0i128);
    for b in balls {
        total.0 += b.radius() as i128 * b.velocity().x as i128;
        total.1 += b.radius() as i128 * b.velocity().y as i128;
    }
    total
}

#[test]
fn touching_balls_collide() {
    let a = ball(vec2(0, 0), vec2(0, 0), 10);
    let b = ball(vec2(20, 0), vec2(0, 0), 10);
    assert_eq!(a.outer_distance(&b), 0);
    assert!(a.collide_with(&b));
    assert!(b.collide_with(&a));
}

#[test]
fn balls_a_tick_apart_do_not_collide() {
    let a = ball(vec2(0, 0), vec2(0, 0), 10);
    let b = ball(vec2(21, 0), vec2(0, 0), 10);
    assert_eq!(a.outer_distance(&b), 1);
    assert!(!a.collide_with(&b));
}

#[test]
fn outer_distance_rounds_up() {
    let a = ball(vec2(0, 0), vec2(0, 0), 1);
    let b = ball(vec2(1, 1), vec2(0, 0), 1);
    assert_eq!(a.outer_distance(&b), 0);
    let c = ball(vec2(3, 4), vec2(0, 0), 1);
    assert_eq!(a.outer_distance(&c), 3);
    let d = ball(vec2(3, 5), vec2(0, 0), 1);
    assert_eq!(a.outer_distance(&d), 4);
    let e = ball(vec2(0, 0), vec2(0, 0), 7);
    assert_eq!(a.outer_distance(&e), -8);
}

#[test]
fn diagonal_neighbours_collide_only_within_reach() {
    let a = ball(vec2(0, 0), vec2(0, 0), 5);
    assert!(a.collide_with(&ball(vec2(6, 8), vec2(0, 0), 5)));
    assert!(!a.collide_with(&ball(vec2(6, 9), vec2(0, 0), 5)));
    assert!(!a.collide_with(&ball(vec2(7, 8), vec2(0, 0), 5)));
}

#[test]
fn equal_masses_head_on_swap_velocities() {
    let mut balls = vec![
        ball(vec2(0, 0), vec2(50 * UNIT, 0), 10 * UNIT),
        ball(vec2(20 * UNIT, 0), vec2(-50 * UNIT, 0), 10 * UNIT),
    ];
    Ball::check_and_resolve_collision(&mut balls, 0, 1);
    assert_eq!(balls[0].velocity(), vec2(-50 * UNIT, 0));
    assert_eq!(balls[1].velocity(), vec2(50 * UNIT, 0));
    assert_eq!(balls[0].pos(), vec2(0, 0));
    assert_eq!(balls[1].pos(), vec2(20 * UNIT, 0));
    assert!(balls[0].in_contact());
    assert!(balls[1].in_contact());
}

#[test]
fn heavy_ball_strikes_light_ball_at_rest() {
    let mut balls = vec![
        ball(vec2(0, 0), vec2(100 * UNIT, 0), 20 * UNIT),
        ball(vec2(25 * UNIT, 0), vec2(0, 0), 5 * UNIT),
    ];
    let before = momentum(&balls);
    Ball::check_and_resolve_collision(&mut balls, 0, 1);
    assert_eq!(balls[0].velocity(), vec2(60 * UNIT, 0));
    assert_eq!(balls[1].velocity(), vec2(160 * UNIT, 0));
    assert!(balls[0].velocity().x < balls[1].velocity().x / 2);
    assert_eq!(momentum(&balls), before);
}

#[test]
fn the_order_of_the_pair_does_not_matter() {
    let mut forward = vec![
        ball(vec2(1000, 2000), vec2(3000, -700), 300),
        ball(vec2(1300, 2400), vec2(-200, 500), 250),
    ];
    let mut backward = forward.clone();
    Ball::check_and_resolve_collision(&mut forward, 0, 1);
    Ball::check_and_resolve_collision(&mut backward, 1, 0);
    assert_eq!(forward, backward);
}

#[test]
fn oblique_collision_in_whole_ticks() {
    let mut balls = vec![
        ball(vec2(1000, 2000), vec2(3000, -700), 300),
        ball(vec2(1300, 2400), vec2(-200, 500), 250),
    ];
    assert_eq!(balls[0].outer_distance(&balls[1]), -50);
    Ball::check_and_resolve_collision(&mut balls, 0, 1);
    assert_eq!(balls[0].pos(), vec2(985, 1980));
    assert_eq!(balls[1].pos(), vec2(1315, 2420));
    assert_eq!(balls[0].velocity(), vec2(2477, -1398));
    assert_eq!(balls[1].velocity(), vec2(428, 1337));
    assert_eq!(balls[0].radius(), 300);
    assert_eq!(balls[1].radius(), 250);
}

#[test]
fn momentum_is_conserved_within_a_tick_of_the_heavier_ball() {
    let mut balls = vec![
        ball(vec2(1000, 2000), vec2(3000, -700), 300),
        ball(vec2(1300, 2400), vec2(-200, 500), 250),
    ];
    let before = momentum(&balls);
    Ball::check_and_resolve_collision(&mut balls, 0, 1);
    let after = momentum(&balls);
    assert_eq!(before, (850_000, -85_000));
    assert_eq!(after, (850_100, -85_150));
    assert!((after.0 - before.0).abs() < 300);
    assert!((after.1 - before.1).abs() < 300);
}

#[test]
fn separating_velocity_is_reversed() {
    let mut balls = vec![
        ball(vec2(1000, 2000), vec2(3000, -700), 300),
        ball(vec2(1300, 2400), vec2(-200, 500), 250),
    ];
    let axis = (-300i64, -400i64);
    let along = |balls: &Vec<Ball>| {
        (balls[0].velocity().x - balls[1].velocity().x) * axis.0
            + (balls[0].velocity().y - balls[1].velocity().y) * axis.1
    };
    let before = along(&balls);
    Ball::check_and_resolve_collision(&mut balls, 0, 1);
    let after = along(&balls);
    assert_eq!(before, -480_000);
    assert_eq!(after, 479_300);
    assert!((after + before).abs() < 2 * (300 + 400));
}

#[test]
fn tangential_velocity_is_kept() {
    let mut balls = vec![
        ball(vec2(0, 0), vec2(50 * UNIT, 30 * UNIT), 10 * UNIT),
        ball(vec2(20 * UNIT, 0), vec2(-50 * UNIT, -10 * UNIT), 10 * UNIT),
    ];
    Ball::check_and_resolve_collision(&mut balls, 0, 1);
    assert_eq!(balls[0].velocity(), vec2(-50 * UNIT, 30 * UNIT));
    assert_eq!(balls[1].velocity(), vec2(50 * UNIT, -10 * UNIT));
}

#[test]
fn overlapping_balls_are_pushed_apart() {
    let mut balls = vec![
        ball(vec2(0, 0), vec2(0, 0), 10 * UNIT),
        ball(vec2(16 * UNIT, 0), vec2(0, 0), 10 * UNIT),
    ];
    assert_eq!(balls[0].outer_distance(&balls[1]), -4 * UNIT);
    Ball::check_and_resolve_collision(&mut balls, 0, 1);
    assert_eq!(balls[0].pos(), vec2(-2 * UNIT, 0));
    assert_eq!(balls[1].pos(), vec2(18 * UNIT, 0));
    assert_eq!(balls[0].outer_distance(&balls[1]), 0);
}

#[test]
fn centres_a_tick_apart_are_pushed_to_full_distance() {
    let mut balls = vec![
        ball(vec2(1, 1), vec2(0, 0), 10_000),
        ball(vec2(0, 0), vec2(0, 0), 10_000),
    ];
    assert_eq!(balls[0].outer_distance(&balls[1]), -19_998);
    Ball::check_and_resolve_collision(&mut balls, 0, 1);
    assert_eq!(balls[0].pos(), vec2(7071, 7071));
    assert_eq!(balls[1].pos(), vec2(-7070, -7070));
    assert_eq!(balls[0].outer_distance(&balls[1]), -1);
}

#[test]
fn centres_a_few_ticks_apart_are_pushed_to_full_distance() {
    let mut balls = vec![
        ball(vec2(7, 7), vec2(0, 0), 10 * UNIT),
        ball(vec2(0, 0), vec2(0, 0), 10 * UNIT),
    ];
    Ball::check_and_resolve_collision(&mut balls, 0, 1);
    assert_eq!(balls[0].pos(), vec2(7244, 7244));
    assert_eq!(balls[1].pos(), vec2(-7237, -7237));
    assert_eq!(balls[0].outer_distance(&balls[1]), 0);
    let mut wider = vec![
        ball(vec2(70, 70), vec2(0, 0), 10 * UNIT),
        ball(vec2(0, 0), vec2(0, 0), 10 * UNIT),
    ];
    Ball::check_and_resolve_collision(&mut wider, 0, 1);
    assert_eq!(wider[0].pos(), vec2(7275, 7275));
    assert_eq!(wider[1].pos(), vec2(-7205, -7205));
    assert_eq!(wider[0].outer_distance(&wider[1]), -2);
}

#[test]
fn a_skew_offset_of_two_ticks_is_pushed_along_its_own_line() {
    let mut balls = vec![
        ball(vec2(0, 0), vec2(0, 0), 10 * UNIT),
        ball(vec2(2, -1), vec2(0, 0), 5 * UNIT),
    ];
    assert_eq!(balls[0].outer_distance(&balls[1]), -15_357);
    Ball::check_and_resolve_collision(&mut balls, 0, 1);
    assert_eq!(balls[0].pos(), vec2(-6867, 3433));
    assert_eq!(balls[1].pos(), vec2(6869, -3434));
    assert_eq!(balls[0].outer_distance(&balls[1]), -3);
}

#[test]
fn resolved_pairs_end_within_five_ticks_of_touching() {
    let mut state: u64 = 0x9e37_79b9_7f4a_7c15;
    let mut next = |bound: i64| {
        state ^= state << 13;
        state ^= state >> 7;
        state ^= state << 17;
        (state % bound as u64) as i64
    };
    let mut resolved = 0;
    for _ in 0..20_000 {
        let ra = 1 + next(40_000);
        let rb = 1 + next(40_000);
        let spread = 1 + next(ra + rb);
        let (dx, dy) = (next(2 * spread + 1) - spread, next(2 * spread + 1) - spread);
        let mut balls = vec![ball(vec2(dx, dy), vec2(0, 0), ra), ball(vec2(0, 0), vec2(0, 0), rb)];
        if !balls[0].collide_with(&balls[1]) {
            continue;
        }
        Ball::check_and_resolve_collision(&mut balls, 0, 1);
        let left = balls[0].outer_distance(&balls[1]);
        assert!(-5 <= left && left <= 0);
        resolved += 1;
    }
    assert!(resolved > 10_000);
}

#[test]
fn separate_balls_are_left_alone() {
    let mut balls = vec![
        ball(vec2(0, 0), vec2(50, 0), 10),
        ball(vec2(21, 0), vec2(-50, 0), 10),
    ];
    let before = balls.clone();
    Ball::check_and_resolve_collision(&mut balls, 0, 1);
    assert_eq!(balls, before);
    assert!(!balls[0].in_contact());
}

#[test]
fn coincident_centres_part_along_the_sweep_axis() {
    let mut balls = vec![
        ball(vec2(5000, 5000), vec2(100, 0), 300),
        ball(vec2(5000, 5000), vec2(-100, 0), 200),
    ];
    Ball::check_and_resolve_collision(&mut balls, 0, 1);
    assert_eq!(balls[0].pos(), vec2(5250, 5000));
    assert_eq!(balls[1].pos(), vec2(4750, 5000));
    assert_eq!(balls[0].velocity(), vec2(-60, 0));
    assert_eq!(balls[1].velocity(), vec2(140, 0));
}

#[test]
fn velocities_stop_at_the_edge_of_the_range() {
    let mut balls = vec![
        ball(vec2(0, 0), vec2(MAX_SPEED, 0), MAX_RADIUS),
        ball(vec2(MAX_RADIUS + 1, 0), vec2(0, 0), 1),
    ];
    Ball::check_and_resolve_collision(&mut balls, 0, 1);
    assert_eq!(balls[0].velocity(), vec2(4_294_967_281, 0));
    assert_eq!(balls[1].velocity(), vec2(MAX_SPEED, 0));
}

#[test]
fn full_scan_resolves_every_colliding_pair() {
    let mut balls = vec![
        ball(vec2(0, 0), vec2(50 * UNIT, 0), 10 * UNIT),
        ball(vec2(20 * UNIT, 0), vec2(-50 * UNIT, 0), 10 * UNIT),
        ball(vec2(0, 100 * UNIT), vec2(0, 0), 10 * UNIT),
        ball(vec2(0, 120 * UNIT), vec2(0, -8 * UNIT), 10 * UNIT),
        ball(vec2(500 * UNIT, 500 * UNIT), vec2(3, 4), 10 * UNIT),
    ];
    Ball::handle_balls_collision(&mut balls);
    assert_eq!(balls[0].velocity(), vec2(-50 * UNIT, 0));
    assert_eq!(balls[1].velocity(), vec2(50 * UNIT, 0));
    assert_eq!(balls[2].velocity(), vec2(0, -8 * UNIT));
    assert_eq!(balls[3].velocity(), vec2(0, 0));
    assert_eq!(balls[4].velocity(), vec2(3, 4));
    let marks: Vec<bool> = balls.iter().map(|b| b.in_contact()).collect();
    assert_eq!(marks, vec![true, true, true, true, false]);
}

#[test]
fn full_scan_takes_pairs_in_dictionary_order() {
    let start = vec![
        ball(vec2(0, 0), vec2(10 * UNIT, 0), 10 * UNIT),
        ball(vec2(19 * UNIT, 0), vec2(0, 0), 10 * UNIT),
        ball(vec2(38 * UNIT, 0), vec2(-10 * UNIT, 0), 10 * UNIT),
    ];
    let mut scanned = start.clone();
    Ball::handle_balls_collision(&mut scanned);
    let mut by_hand = start.clone();
    Ball::check_and_resolve_collision(&mut by_hand, 0, 1);
    Ball::check_and_resolve_collision(&mut by_hand, 0, 2);
    Ball::check_and_resolve_collision(&mut by_hand, 1, 2);
    assert_eq!(scanned, by_hand);
}

#[test]
fn contact_marks_do_not_outlive_the_frame() {
    let mut balls = vec![
        ball(vec2(0, 0), vec2(50 * UNIT, 0), 10 * UNIT),
        ball(vec2(20 * UNIT, 0), vec2(-50 * UNIT, 0), 10 * UNIT),
    ];
    Ball::handle_balls_collision(&mut balls);
    assert!(balls[0].in_contact() && balls[1].in_contact());
    let mut moved = vec![
        balls[0],
        Ball::new(vec2(500 * UNIT, 0), 10 * UNIT, 0).unwrap(),
    ];
    Ball::handle_balls_collision(&mut moved);
    assert!(!moved[0].in_contact());
    assert!(!moved[1].in_contact());
    let mut swept = vec![balls[0], balls[1]];
    swept[1] = Ball::new(vec2(500 * UNIT, 0), 10 * UNIT, 0).unwrap();
    Ball::handle_swept_collision(&mut swept);
    assert!(!swept[0].in_contact());
    Ball::clear_contacts(&mut balls);
    assert!(!balls[0].in_contact() && !balls[1].in_contact());
}

#[test]
fn an_empty_population_has_no_collisions() {
    let mut none: Vec<Ball> = Vec::new();
    Ball::handle_balls_collision(&mut none);
    assert!(none.is_empty());
    Ball::handle_swept_collision(&mut none);
    assert!(none.is_empty());
    let mut one = vec![ball(vec2(0, 0), vec2(1, 1), 10)];
    Ball::handle_balls_collision(&mut one);
    assert_eq!(one[0].velocity(), vec2(1, 1));
}
