use balls::ball::Ball;
use balls::fixed::UNIT;
use balls::vector::vec2;

fn ball(x: i64, y: i64, radius: i64) -> Ball {
    Ball::new(vec2(x, y), radius, 0).unwrap()
}

fn scattered(n: usize) -> Vec<Ball> {
    let mut state: u64 = 0x2545_f491_4f6c_dd1d;
    let mut next = |bound: i64| {
        state ^= state << 13;
        state ^= state >> 7;
        state ^= state << 17;
        (state % bound as u64) as i64
    };
    let mut balls = Vec::new();
    for _ in 0..n {
        let radius = 5 * UNIT + next(25 * UNIT);
        balls.push(ball(next(800 * UNIT), next(600 * UNIT), radius));
    }
    balls
}

#[test]
fn sweep_order_follows_the_left_edges() {
    let balls = vec![
        ball(100, 0, 10),
        ball(50, 0, 10),
        ball(105, 1000, 10),
        ball(58, 0, 10),
        ball(300, 0, 5),
    ];
    assert_eq!(Ball::sort_for_sweep(&balls), vec![1, 3, 0, 2, 4]);
}

#[test]
fn sweep_order_breaks_ties_by_index() {
    let balls = vec![ball(100, 0, 10), ball(95, 50, 5), ball(89, 7, 1), ball(120, 0, 30)];
    assert_eq!(Ball::sort_for_sweep(&balls), vec![2, 0, 1, 3]);
    let same = vec![ball(0, 0, 1), ball(0, 0, 1), ball(0, 0, 1)];
    assert_eq!(Ball::sort_for_sweep(&same), vec![0, 1, 2]);
}

#[test]
fn sweep_order_of_a_reversed_population() {
    let balls: Vec<Ball> = (0..10).map(|k| ball(1000 - 100 * k, 0, 10)).collect();
    assert_eq!(Ball::sort_for_sweep(&balls), vec![9, 8, 7, 6, 5, 4, 3, 2, 1, 0]);
}

#[test]
fn sweep_yields_pairs_whose_intervals_meet() {
    let balls = vec![
        ball(100, 0, 10),
        ball(50, 0, 10),
        ball(105, 1000, 10),
        ball(58, 0, 10),
        ball(300, 0, 5),
    ];
    assert_eq!(Ball::sweep_candidates(&balls), vec![(3, 1), (2, 0)]);
}

#[test]
fn sweep_pairs_a_ball_with_its_active_set_in_sweep_order() {
    let balls = vec![ball(30, 0, 30), ball(40, 500, 30), ball(20, 900, 30), ball(80, 0, 10)];
    assert_eq!(
        Ball::sweep_candidates(&balls),
        vec![(0, 2), (1, 2), (1, 0), (3, 1)]
    );
}

#[test]
fn intervals_that_just_touch_are_candidates() {
    let touching = vec![ball(0, 0, 10), ball(20, 0, 10)];
    assert_eq!(Ball::sweep_candidates(&touching), vec![(1, 0)]);
    let apart = vec![ball(0, 0, 10), ball(21, 0, 10)];
    assert!(Ball::sweep_candidates(&apart).is_empty());
}

#[test]
fn sweep_of_few_balls_yields_nothing() {
    assert!(Ball::sweep_candidates(&Vec::new()).is_empty());
    assert!(Ball::sweep_candidates(&vec![ball(0, 0, 10)]).is_empty());
}

#[test]
fn sweep_misses_no_collision() {
    let balls = scattered(80);
    let pairs = Ball::sweep_candidates(&balls);
    let mut colliding = 0;
    for i in 0..balls.len() {
        for j in i + 1..balls.len() {
            if balls[i].collide_with(&balls[j]) {
                colliding += 1;
                assert!(pairs.contains(&(i, j)) || pairs.contains(&(j, i)));
            }
        }
    }
    assert!(colliding > 0);
}

#[test]
fn sweep_yields_exactly_the_pairs_whose_intervals_meet() {
    let balls = scattered(80);
    let pairs = Ball::sweep_candidates(&balls);
    let mut meeting = 0;
    for i in 0..balls.len() {
        for j in i + 1..balls.len() {
            let meet = balls[i].min_extent() <= balls[j].max_extent()
                && balls[j].min_extent() <= balls[i].max_extent();
            let found = pairs.iter().filter(|p| **p == (i, j) || **p == (j, i)).count();
            assert_eq!(found, if meet { 1 } else { 0 });
            if meet {
                meeting += 1;
            }
        }
    }
    assert_eq!(pairs.len(), meeting);
    assert!(meeting < 80 * 79 / 2);
}

#[test]
fn candidates_are_resolved_in_the_order_given() {
    let start = vec![
        Ball::new(vec2(0, 0), 10 * UNIT, 0).unwrap().with_velocity(vec2(10 * UNIT, 0)).unwrap(),
        Ball::new(vec2(19 * UNIT, 0), 10 * UNIT, 0).unwrap().with_velocity(vec2(0, 0)).unwrap(),
        Ball::new(vec2(38 * UNIT, 0), 10 * UNIT, 0)
            .unwrap()
            .with_velocity(vec2(-10 * UNIT, 0))
            .unwrap(),
    ];
    let mut resolved = start.clone();
    Ball::resolve_candidates(&mut resolved, &vec![(2, 1), (1, 0)]);
    let mut by_hand = start.clone();
    Ball::check_and_resolve_collision(&mut by_hand, 2, 1);
    Ball::check_and_resolve_collision(&mut by_hand, 1, 0);
    assert_eq!(resolved, by_hand);
    assert_ne!(resolved, start);
}

#[test]
fn swept_pass_resolves_what_the_sweep_yields() {
    let start = scattered(40);
    let mut swept = start.clone();
    Ball::handle_swept_collision(&mut swept);
    let mut by_hand = start.clone();
    let pairs = Ball::sweep_candidates(&start);
    Ball::clear_contacts(&mut by_hand);
    for (i, j) in pairs {
        Ball::check_and_resolve_collision(&mut by_hand, i, j);
    }
    assert_eq!(swept, by_hand);
}

#[test]
fn swept_pass_agrees_with_the_full_scan_on_lone_pairs() {
    let start = vec![
        Ball::new(vec2(0, 0), 10 * UNIT, 0).unwrap().with_velocity(vec2(50 * UNIT, 0)).unwrap(),
        Ball::new(vec2(20 * UNIT, 0), 10 * UNIT, 0)
            .unwrap()
            .with_velocity(vec2(-50 * UNIT, 0))
            .unwrap(),
        Ball::new(vec2(200 * UNIT, 7), 10 * UNIT, 0).unwrap(),
        Ball::new(vec2(200 * UNIT, 15 * UNIT), 10 * UNIT, 0).unwrap(),
    ];
    let mut swept = start.clone();
    let mut scanned = start.clone();
    Ball::handle_swept_collision(&mut swept);
    Ball::handle_balls_collision(&mut scanned);
    assert_eq!(swept, scanned);
    assert_eq!(swept[0].velocity(), vec2(-50 * UNIT, 0));
    assert!(swept[2].in_contact() && swept[3].in_contact());
}
