use pong::broadcast::{prepare_full_state, prepare_game_state};
use pong::game_state::{AxisLineSegment, BallMove, GameState, RaySegment};
use pong::mins_by_key::{mins_by, MinsBy};
use pong::vec2::IVec2;

/// The crossing offset interpolated as the game does, in floating point.
fn offsets(g: &GameState, m: &RaySegment) -> Vec<i32> {
    g.obstacles()
        .iter()
        .map(|o| {
            let (dist, across, along) = m.crossing(o);
            ((dist as f32 / across as f32) * along as f32) as i32
        })
        .collect()
}

fn run(g: &mut GameState, m: RaySegment) -> IVec2 {
    let mut m = m;
    loop {
        assert!(g.check_follow(&m));
        let offs = offsets(g, &m);
        match g.move_ball(&m, &offs) {
            BallMove::Stopped(p) => return p,
            BallMove::Bounced(next) => m = next,
        }
    }
}

#[test]
fn default_game() {
    let g = GameState::default();
    assert_eq!(g.arena_size, IVec2::new(1000, 1500));
    assert_eq!(g.left_paddle_pos, IVec2::new(500, 100));
    assert_eq!(g.right_paddle_pos, IVec2::new(500, 1400));
    assert_eq!(g.ball_pos, IVec2::new(500, 750));
    assert_eq!(g.ball_dir, IVec2::new(1, 1));
    assert_eq!((g.paddle_size, g.ball_speed, g.paddle_speed), (100, 200, 50));
    assert_eq!(g.score, (0, 0));
    assert!(g.in_play());
}

#[test]
fn segment_ends_are_ordered() {
    let s = AxisLineSegment::new(0, 10, -4, 7);
    assert_eq!((s.axis, s.main_start, s.main_end, s.off), (0, -4, 10, 7));
    let t = AxisLineSegment::new(1, -4, 10, 7);
    assert_eq!((t.main_start, t.main_end), (-4, 10));
}

#[test]
fn obstacles_of_default_game() {
    let g = GameState::default();
    let o = g.obstacles();
    assert_eq!(o.len(), 6);
    assert_eq!(o[0], AxisLineSegment { axis: 1, main_start: 0, main_end: 1500, off: 0 });
    assert_eq!(o[1], AxisLineSegment { axis: 1, main_start: 0, main_end: 1500, off: 1000 });
    assert_eq!(o[2], AxisLineSegment { axis: 0, main_start: 0, main_end: 1000, off: 0 });
    assert_eq!(o[3], AxisLineSegment { axis: 0, main_start: 0, main_end: 1000, off: 1500 });
    assert_eq!(o[4], AxisLineSegment { axis: 0, main_start: 450, main_end: 550, off: 100 });
    assert_eq!(o[5], AxisLineSegment { axis: 0, main_start: 450, main_end: 550, off: 1400 });
}

#[test]
fn intersection() {
    let ray = RaySegment::new(IVec2::new(995, 750), IVec2::new(10, 2));
    let wall = AxisLineSegment::new(1, 0, 1500, 1000);
    assert_eq!(ray.crossing(&wall), (5, 10, 2));
    assert_eq!(ray.intersects(&wall, 1), Some(IVec2::new(1000, 751)));
    // Too short to reach
    let short = RaySegment::new(IVec2::new(995, 750), IVec2::new(4, 2));
    assert_eq!(short.intersects(&wall, 1), None);
    // Starting on the line
    let on = RaySegment::new(IVec2::new(1000, 750), IVec2::new(4, 2));
    assert_eq!(on.intersects(&wall, 0), None);
    // Parallel
    let parallel = RaySegment::new(IVec2::new(995, 750), IVec2::new(0, 2));
    assert_eq!(parallel.intersects(&wall, 0), None);
    // Misses the segment
    let paddle = AxisLineSegment::new(0, 450, 550, 100);
    let miss = RaySegment::new(IVec2::new(600, 105), IVec2::new(2, -10));
    assert_eq!(miss.intersects(&paddle, 1), None);
    let hit = RaySegment::new(IVec2::new(500, 105), IVec2::new(2, -10));
    assert_eq!(hit.intersects(&paddle, 1), Some(IVec2::new(501, 100)));
    assert!(hit.offset_fits_exec(&paddle, 2));
    assert!(!hit.offset_fits_exec(&paddle, 3));
    assert!(!hit.offset_fits_exec(&paddle, -1));
}

#[test]
fn ball_moves_freely() {
    let mut g = GameState::default();
    let m = RaySegment::new(g.ball_pos, IVec2::new(6, 6));
    let offs = offsets(&g, &m);
    assert_eq!(g.move_ball(&m, &offs), BallMove::Stopped(IVec2::new(506, 756)));
    assert_eq!(g.ball_dir, IVec2::new(1, 1));
}

#[test]
fn ball_bounces_off_wall() {
    let mut g = GameState::default();
    let m = RaySegment::new(IVec2::new(995, 750), IVec2::new(10, 2));
    let offs = offsets(&g, &m);
    let step = g.move_ball(&m, &offs);
    assert_eq!(
        step,
        BallMove::Bounced(RaySegment::new(IVec2::new(1000, 751), IVec2::new(-5, 1)))
    );
    assert_eq!(g.ball_dir, IVec2::new(-1, 1));
    let mut g = GameState::default();
    assert_eq!(run(&mut g, m), IVec2::new(995, 752));
}

#[test]
fn ball_bounces_off_corner() {
    let mut g = GameState::default();
    let m = RaySegment::new(IVec2::new(995, 1495), IVec2::new(10, 10));
    let offs = offsets(&g, &m);
    assert_eq!(
        g.move_ball(&m, &offs),
        BallMove::Bounced(RaySegment::new(IVec2::new(1000, 1500), IVec2::new(-5, -5)))
    );
    assert_eq!(g.ball_dir, IVec2::new(-1, -1));
}

#[test]
fn ball_stops_on_wall() {
    let mut g = GameState::default();
    let m = RaySegment::new(IVec2::new(990, 750), IVec2::new(10, 0));
    let offs = offsets(&g, &m);
    assert_eq!(g.move_ball(&m, &offs), BallMove::Stopped(IVec2::new(1000, 750)));
    assert_eq!(g.ball_dir, IVec2::new(-1, 1));
}

#[test]
fn ball_bounces_off_paddle() {
    let mut g = GameState::default();
    g.ball_dir = IVec2::new(1, -1);
    let m = RaySegment::new(IVec2::new(500, 105), IVec2::new(2, -10));
    assert_eq!(run(&mut g, m), IVec2::new(502, 105));
    assert_eq!(g.ball_dir, IVec2::new(1, 1));
}

#[test]
fn scoring_resets_ball() {
    let mut g = GameState::default();
    g.finish_tick(IVec2::new(300, 90));
    assert_eq!(g.score, (0, 1));
    assert_eq!(g.ball_pos, IVec2::new(500, 750));
    let mut g = GameState::default();
    g.finish_tick(IVec2::new(300, 1401));
    assert_eq!(g.score, (1, 0));
    assert_eq!(g.ball_pos, IVec2::new(500, 750));
    let mut g = GameState::default();
    g.finish_tick(IVec2::new(300, 1400));
    assert_eq!(g.score, (0, 0));
    assert_eq!(g.ball_pos, IVec2::new(300, 1400));
}

#[test]
fn paddles_move_and_stay_inside() {
    let mut g = GameState::default();
    g.left_paddle_dir = 1;
    g.right_paddle_dir = -1;
    g.finish_tick(g.ball_pos);
    assert_eq!(g.left_paddle_pos, IVec2::new(550, 100));
    assert_eq!(g.right_paddle_pos, IVec2::new(450, 1400));
    g.left_paddle_pos.x = 940;
    g.right_paddle_pos.x = 60;
    assert!(g.can_finish_tick(&g.ball_pos));
    g.finish_tick(g.ball_pos);
    assert_eq!(g.left_paddle_pos.x, 950);
    assert_eq!(g.right_paddle_pos.x, 50);
}

#[test]
fn finish_tick_limits() {
    let mut g = GameState::default();
    g.score = (0, u32::MAX);
    assert!(!g.can_finish_tick(&IVec2::new(0, 0)));
    assert!(g.can_finish_tick(&IVec2::new(0, 700)));
    g.paddle_size = 2000;
    assert!(!g.can_finish_tick(&IVec2::new(0, 700)));
}

#[test]
fn well_formed_check() {
    let mut g = GameState::default();
    assert!(g.in_play());
    g.ball_pos = IVec2::new(20000, 0);
    assert!(g.in_play());
    g.left_paddle_pos.x = i32::MAX - 10;
    assert!(!g.in_play());
    let mut g = GameState::default();
    g.ball_dir = IVec2::new(i32::MIN, 1);
    assert!(!g.in_play());
}

#[test]
fn broadcast_states() {
    let mut g = GameState::default();
    g.score = (2, 5);
    g.ball_dir = IVec2::new(-1, 1);
    let d = prepare_game_state(&g);
    assert_eq!(d.left_paddle_y, 500);
    assert_eq!(d.right_paddle_y, 500);
    assert_eq!(d.ball_position, (500, 750));
    assert_eq!(d.ball_direction, (-1, 1));
    assert_eq!((d.score_left, d.score_right), (2, 5));
    let full = prepare_full_state(&g);
    assert_eq!(full.dynamic, d);
    assert_eq!(full.fixed.left_paddle_x, 100);
    assert_eq!(full.fixed.right_paddle_x, 1400);
    assert_eq!(full.fixed.paddle_height, 100);
    assert_eq!(full.fixed.arena_size, (1000, 1500));
    g.ball_pos = IVec2::new(-1, 3);
    assert_eq!(prepare_game_state(&g).ball_position, (u32::MAX, 3));
}

#[test]
fn mins_by_key_keeps_all_least() {
    let v = vec![(1, 'a'), (0, 'b'), (3, 'c'), (0, 'd')];
    assert_eq!(v.mins_by_key(|x: &(i64, char)| x.0), vec![(0, 'b'), (0, 'd')]);
    let empty: Vec<i64> = vec![];
    assert_eq!(empty.mins_by_key(|x: &i64| *x), Vec::<i64>::new());
    assert_eq!(vec![5i64].mins_by_key(|x: &i64| *x), vec![5]);
}

#[test]
fn mins_by_fold() {
    // The first kept item is compared with each later one; `Less` replaces.
    assert_eq!(mins_by(vec![3, 1, 2, 1, 3], |a: &i32, b: &i32| a.cmp(b)), vec![3, 3]);
    assert_eq!(mins_by(vec![3, 1, 2, 1, 3], |a: &i32, b: &i32| b.cmp(a)), vec![1, 1]);
    assert_eq!(vec![2, 7, 7, 1].mins(), vec![7, 7]);
    assert_eq!(Vec::<u8>::new().mins(), Vec::<u8>::new());
}

#[test]
fn ball_leaving_past_an_end_scores() {
    // Near a far corner, heading out: the ball bounces off both walls at the
    // corner and ends behind the right paddle, which scores.
    let mut g = GameState::default();
    g.ball_pos = IVec2::new(999, 1499);
    let m = RaySegment::new(g.ball_pos, IVec2::new(5, 5));
    let end = run(&mut g, m);
    assert_eq!(end, IVec2::new(996, 1496));
    assert_eq!(g.ball_dir, IVec2::new(-1, -1));
    assert!(g.can_finish_tick(&end));
    g.finish_tick(end);
    assert_eq!(g.ball_pos, IVec2::new(500, 750));
    assert_eq!(g.score, (1, 0));
}

#[test]
fn large_arena_bounces() {
    let mut g = GameState::default();
    g.arena_size = IVec2::new(20000, 30000);
    g.left_paddle_pos = IVec2::new(10000, 100);
    g.right_paddle_pos = IVec2::new(10000, 29900);
    g.ball_pos = IVec2::new(19990, 15000);
    assert!(g.in_play());
    let m = RaySegment::new(g.ball_pos, IVec2::new(30, 30));
    let end = run(&mut g, m);
    assert_eq!(end, IVec2::new(19980, 15030));
    assert_eq!(g.ball_dir, IVec2::new(-1, 1));
}

#[test]
fn overflowing_movement_is_refused() {
    let mut g = GameState::default();
    g.ball_pos = IVec2::new(i32::MAX - 5, 700);
    let m = RaySegment { origin: g.ball_pos, size: IVec2::new(10, 10) };
    assert!(!g.check_follow(&m));
    let m = RaySegment { origin: IVec2::new(500, 700), size: IVec2::new(46341, 0) };
    assert!(!g.check_follow(&m));
    let m = RaySegment { origin: IVec2::new(500, 700), size: IVec2::new(46340, 0) };
    assert!(g.check_follow(&m));
    assert_eq!(IVec2::new(3, -4).distance_squared(&IVec2::new(0, 0)), 25);
}
