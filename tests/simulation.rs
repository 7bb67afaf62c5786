use ant_colony::colony::{
    claim_food, come_home, consume_food, emit_trails, move_ant, move_ants, spawn_ants, spawn_food,
    steer_ant, update_ant_direction, update_trails, Ant, AntState, Colony, Food, HomeTrail, World,
    FOOD_PER_CLUSTER, FULL_INTENSITY, NUM_ANTS, SEARCH_INTERVAL_MS, TRAIL_INTERVAL_MS,
};
use ant_colony::geometry::{ceil_isqrt, clamp_i64, div_toward_zero_i64, normalize_or, Vec2, UNIT, UNIT_SLACK};
use ant_colony::random::{pick_between, random_range};
use ant_colony::timer::RepeatingTimer;

fn v(x: i64, y: i64) -> Vec2 {
    Vec2 { x, y }
}

fn ant_at(x: i64, y: i64, dx: i64, dy: i64, state: AntState) -> Ant {
    Ant {
        position: v(x, y),
        direction: v(dx, dy),
        state,
        search_timer: RepeatingTimer::new(SEARCH_INTERVAL_MS),
        trail_timer: RepeatingTimer::new(TRAIL_INTERVAL_MS),
    }
}

fn norm_sq(d: Vec2) -> i64 {
    d.x * d.x + d.y * d.y
}

fn is_unit(d: Vec2) -> bool {
    let n = norm_sq(d);
    UNIT * UNIT - UNIT_SLACK <= n && n <= UNIT * UNIT
}

#[test]
fn ceil_isqrt_rounds_up() {
    assert_eq!(ceil_isqrt(1), 1);
    assert_eq!(ceil_isqrt(10), 4);
    assert_eq!(ceil_isqrt(16), 4);
    assert_eq!(ceil_isqrt(17), 5);
    assert_eq!(ceil_isqrt(25_000_000), 5000);
}

#[test]
fn normalize_exact_values() {
    let fallback = v(UNIT, 0);
    assert_eq!(normalize_or(v(3, 4), fallback), v(600, 800));
    assert_eq!(normalize_or(v(-3000, -4000), fallback), v(-600, -800));
    assert_eq!(normalize_or(v(1, 1), fallback), v(706, 706));
    assert_eq!(normalize_or(v(-800, 200), fallback), v(-970, 242));
    assert!(is_unit(normalize_or(v(1, 1), fallback)));
}

#[test]
fn normalize_zero_uses_fallback() {
    assert_eq!(normalize_or(v(0, 0), v(0, -UNIT)), v(0, -UNIT));
}

#[test]
fn division_and_clamp() {
    assert_eq!(div_toward_zero_i64(-7, 2), -3);
    assert_eq!(div_toward_zero_i64(7, 2), 3);
    assert_eq!(clamp_i64(120, 50), 50);
    assert_eq!(clamp_i64(-120, 50), -50);
    assert_eq!(clamp_i64(20, 50), 20);
}

#[test]
fn pick_between_maps_draws() {
    assert_eq!(pick_between(1, 3, 4), 2);
    assert_eq!(pick_between(-200, -210, 3), -203);
    assert_eq!(pick_between(5, 5, 99), 5);
}

#[test]
fn random_range_stays_in_bounds() {
    for _ in 0..200 {
        let r = random_range(-200, -210);
        assert!(-210 <= r && r <= -200);
        let s = random_range(-UNIT, UNIT);
        assert!(-UNIT <= s && s <= UNIT);
    }
}

#[test]
fn timer_repeats() {
    let mut t = RepeatingTimer::new(10);
    t.tick(7);
    assert!(!t.finished);
    assert_eq!(t.elapsed_ms, 7);
    t.tick(7);
    assert!(t.finished);
    assert_eq!(t.elapsed_ms, 4);
    t.reset();
    assert!(!t.finished);
    assert_eq!(t.elapsed_ms, 0);
}

#[test]
fn ant_clamps_at_wall_and_rerandomizes_heading() {
    let world = World::new(50 * UNIT, 50 * UNIT);
    let mut ant = ant_at(0, 0, UNIT, 0, AntState::Searching);
    move_ant(&mut ant, world, 1000, 500, 700);
    assert_eq!(ant.position, v(50 * UNIT, 0));
    assert_eq!(ant.direction, v(UNIT, 0));
    let mut back = ant_at(0, 0, UNIT, 0, AntState::Searching);
    move_ant(&mut back, world, 1000, -300, 700);
    assert_eq!(back.position, v(50 * UNIT, 0));
    assert_eq!(back.direction, v(-UNIT, 0));
}

#[test]
fn ant_at_wall_with_zero_bounce_turns_around() {
    let world = World::new(50 * UNIT, 50 * UNIT);
    let mut ant = ant_at(0, 0, UNIT, 0, AntState::Searching);
    move_ant(&mut ant, world, 1000, 0, 0);
    assert_eq!(ant.direction, v(-UNIT, 0));
}

#[test]
fn random_bounce_keeps_ant_in_arena() {
    let world = World::new(50 * UNIT, 50 * UNIT);
    let mut ants = vec![ant_at(0, 0, UNIT, 0, AntState::Searching)];
    move_ants(&mut ants, world, 1000);
    assert_eq!(ants[0].position, v(50 * UNIT, 0));
    assert!(-UNIT <= ants[0].direction.x && ants[0].direction.x <= UNIT);
    assert!(is_unit(ants[0].direction));
}

#[test]
fn ant_moves_by_speed_times_time() {
    let world = World::new(400 * UNIT, 300 * UNIT);
    let mut ant = ant_at(0, 0, 600, -800, AntState::Searching);
    move_ant(&mut ant, world, 16, 0, 0);
    assert_eq!(ant.position, v(960, -1280));
    assert_eq!(ant.direction, v(600, -800));
}

#[test]
fn food_in_reach_is_eaten() {
    let world = World::new(400 * UNIT, 300 * UNIT);
    let mut ants = vec![ant_at(10_500, 10_400, UNIT, 0, AntState::Searching)];
    let mut foods = vec![Food { position: v(10_000, 10_000) }];
    let taken = consume_food(&mut ants, &mut foods, world);
    assert_eq!(taken, vec![true]);
    assert_eq!(ants[0].state, AntState::Returning);
    assert!(foods.is_empty());
}

#[test]
fn food_out_of_reach_stays() {
    let world = World::new(400 * UNIT, 300 * UNIT);
    let mut ants = vec![ant_at(11_000, 10_000, UNIT, 0, AntState::Searching)];
    let mut foods = vec![Food { position: v(10_000, 10_000) }];
    let taken = consume_food(&mut ants, &mut foods, world);
    assert_eq!(taken, vec![false]);
    assert_eq!(ants[0].state, AntState::Searching);
    assert_eq!(foods.len(), 1);
}

#[test]
fn two_ants_one_food_single_removal() {
    let world = World::new(400 * UNIT, 300 * UNIT);
    let mut ants = vec![
        ant_at(10_500, 10_400, UNIT, 0, AntState::Searching),
        ant_at(9_600, 9_700, 0, UNIT, AntState::Searching),
    ];
    let foods = vec![Food { position: v(10_000, 10_000) }, Food { position: v(90_000, 0) }];
    let taken = claim_food(&mut ants, &foods, world);
    assert_eq!(taken, vec![true, false]);
    assert_eq!(ants[0].state, AntState::Returning);
    assert_eq!(ants[1].state, AntState::Searching);
}

#[test]
fn two_foods_two_ants_each_eats_one() {
    let world = World::new(400 * UNIT, 300 * UNIT);
    let mut ants = vec![
        ant_at(10_000, 10_000, UNIT, 0, AntState::Searching),
        ant_at(10_100, 10_100, UNIT, 0, AntState::Searching),
    ];
    let mut foods = vec![Food { position: v(10_200, 10_200) }, Food { position: v(10_300, 10_300) }];
    let taken = consume_food(&mut ants, &mut foods, world);
    assert_eq!(taken, vec![true, true]);
    assert!(foods.is_empty());
    assert_eq!(ants[1].state, AntState::Returning);
}

#[test]
fn trail_removed_after_lifespan() {
    let world = World { half_width: 50 * UNIT, half_height: 50 * UNIT, trail_lifespan_ms: 10_000 };
    let mut trails = vec![HomeTrail { position: v(0, 0), intensity: FULL_INTENSITY, origin: AntState::Searching }];
    let mut last = FULL_INTENSITY;
    for frame in 0..10 {
        update_trails(&mut trails, world, 1000);
        if frame < 9 {
            assert_eq!(trails.len(), 1);
            assert!(trails[0].intensity < last);
            assert!(trails[0].intensity > 0);
            last = trails[0].intensity;
        }
    }
    assert!(trails.is_empty());
}

#[test]
fn trail_decay_rounds_up() {
    let world = World::new(50 * UNIT, 50 * UNIT);
    let mut trails = vec![HomeTrail { position: v(0, 0), intensity: FULL_INTENSITY, origin: AntState::Returning }];
    update_trails(&mut trails, world, 16);
    assert_eq!(trails[0].intensity, FULL_INTENSITY - 1067);
    update_trails(&mut trails, world, 0);
    assert_eq!(trails[0].intensity, FULL_INTENSITY - 1067);
}

#[test]
fn trail_laid_when_timer_fires() {
    let world = World::new(50 * UNIT, 50 * UNIT);
    let mut ants = vec![
        ant_at(1000, 2000, UNIT, 0, AntState::Returning),
        ant_at(0, 0, UNIT, 0, AntState::Searching),
    ];
    ants[1].trail_timer.elapsed_ms = 50;
    let mut trails: Vec<HomeTrail> = Vec::new();
    emit_trails(&mut ants, &mut trails, world, 60);
    assert_eq!(trails.len(), 1);
    assert_eq!(trails[0].position, v(0, 0));
    assert_eq!(trails[0].intensity, FULL_INTENSITY);
    assert_eq!(trails[0].origin, AntState::Searching);
    assert_eq!(ants[0].trail_timer.elapsed_ms, 60);
    assert_eq!(ants[1].trail_timer.elapsed_ms, 10);
    emit_trails(&mut ants, &mut trails, world, 40);
    assert_eq!(trails.len(), 2);
    assert_eq!(trails[1].position, v(1000, 2000));
    assert_eq!(trails[1].origin, AntState::Returning);
}

#[test]
fn returning_ant_at_home_turns_around() {
    let world = World::new(50 * UNIT, 50 * UNIT);
    let mut ant = ant_at(1000, -2000, 600, 800, AntState::Returning);
    come_home(&mut ant, world);
    assert_eq!(ant.state, AntState::Searching);
    assert_eq!(ant.direction, v(-600, -800));
}

#[test]
fn round_trip_negates_heading() {
    let world = World::new(50 * UNIT, 50 * UNIT);
    let mut ants = vec![ant_at(500, 500, 600, 800, AntState::Searching)];
    let mut foods = vec![Food { position: v(0, 0) }];
    consume_food(&mut ants, &mut foods, world);
    assert_eq!(ants[0].state, AntState::Returning);
    come_home(&mut ants[0], world);
    assert_eq!(ants[0].state, AntState::Searching);
    assert_eq!(ants[0].direction, v(-600, -800));
}

#[test]
fn returning_ant_heads_home() {
    let world = World::new(50 * UNIT, 50 * UNIT);
    let mut ant = ant_at(3000, 4000, UNIT, 0, AntState::Returning);
    let foods: Vec<Food> = Vec::new();
    steer_ant(&mut ant, &foods, world, 1, 200, 200);
    assert_eq!(ant.direction, v(-600, -800));
    assert_eq!(ant.state, AntState::Returning);
    assert_eq!(ant.search_timer.elapsed_ms, 1);
}

#[test]
fn searching_ant_heads_for_last_food_in_sight() {
    let world = World::new(400 * UNIT, 300 * UNIT);
    let foods = vec![Food { position: v(30_000, 40_000) }, Food { position: v(-100_000, 0) }];
    let mut ant = ant_at(0, 0, UNIT, 0, AntState::Searching);
    steer_ant(&mut ant, &foods, world, 10, 0, 0);
    assert_eq!(ant.direction, v(-UNIT, 0));
    assert_eq!(ant.search_timer.elapsed_ms, 0);
    let mut jittered = ant_at(0, 0, UNIT, 0, AntState::Searching);
    steer_ant(&mut jittered, &foods, world, 10, 200, 200);
    assert_eq!(jittered.direction, v(-970, 242));
}

#[test]
fn food_out_of_sight_is_ignored() {
    let world = World::new(400 * UNIT, 300 * UNIT);
    let foods = vec![Food { position: v(150_000, 0) }];
    let mut ant = ant_at(0, 0, 0, UNIT, AntState::Searching);
    steer_ant(&mut ant, &foods, world, 10, 0, 0);
    assert_eq!(ant.direction, v(0, UNIT));
}

#[test]
fn random_steering_keeps_unit_heading() {
    let world = World::new(400 * UNIT, 300 * UNIT);
    let foods = spawn_food();
    let mut ants = spawn_ants(5);
    for _ in 0..50 {
        update_ant_direction(&mut ants, &foods, world, 10);
        for a in ants.iter() {
            assert!(is_unit(a.direction));
        }
    }
}

#[test]
fn spawned_ants_start_home() {
    let ants = spawn_ants(NUM_ANTS);
    assert_eq!(ants.len(), NUM_ANTS);
    for a in ants.iter() {
        assert_eq!(a.position, v(0, 0));
        assert_eq!(a.state, AntState::Searching);
        assert!(is_unit(a.direction));
        assert_eq!(a.search_timer.period_ms, SEARCH_INTERVAL_MS);
        assert_eq!(a.trail_timer.period_ms, TRAIL_INTERVAL_MS);
    }
}

#[test]
fn spawned_food_in_clusters() {
    let foods = spawn_food();
    assert_eq!(foods.len(), 3 * FOOD_PER_CLUSTER);
    for (i, f) in foods.iter().enumerate() {
        let p = f.position;
        if i < FOOD_PER_CLUSTER {
            assert!(-210_000 <= p.x && p.x <= -200_000 && -210_000 <= p.y && p.y <= -200_000);
        } else if i < 2 * FOOD_PER_CLUSTER {
            assert!(-190_000 <= p.x && p.x <= -180_000 && 210_000 <= p.y && p.y <= 220_000);
        } else {
            assert!(150_000 <= p.x && p.x <= 160_000 && 180_000 <= p.y && p.y <= 190_000);
        }
    }
}

#[test]
fn colony_keeps_invariants_over_many_frames() {
    let world = World::new(250 * UNIT, 250 * UNIT);
    let mut colony = Colony::new(world);
    let food_before = colony.food.len();
    for _ in 0..2000 {
        colony.step(16);
        for a in colony.ants.iter() {
            assert!(is_unit(a.direction));
            assert!(-world.half_width <= a.position.x && a.position.x <= world.half_width);
            assert!(-world.half_height <= a.position.y && a.position.y <= world.half_height);
        }
        for t in colony.trails.iter() {
            assert!(0 < t.intensity && t.intensity <= FULL_INTENSITY);
        }
    }
    assert_eq!(colony.ants.len(), NUM_ANTS);
    assert!(colony.food.len() <= food_before);
    assert!(!colony.trails.is_empty());
}

#[test]
fn trail_removed_after_uneven_frames_covering_lifespan() {
    let world = World { half_width: 50 * UNIT, half_height: 50 * UNIT, trail_lifespan_ms: 10_000 };
    let mut trails = vec![HomeTrail { position: v(0, 0), intensity: FULL_INTENSITY, origin: AntState::Searching }];
    for dt in [3333u64, 3333, 3333] {
        update_trails(&mut trails, world, dt);
    }
    assert_eq!(trails.len(), 1);
    assert_eq!(trails[0].intensity, FULL_INTENSITY - 3 * 333_300);
    update_trails(&mut trails, world, 1);
    assert!(trails.is_empty());
}

#[test]
fn colony_frame_lays_trails_and_moves_ants() {
    let world = World::new(250 * UNIT, 250 * UNIT);
    let mut colony = Colony::new(world);
    colony.step(100);
    assert_eq!(colony.trails.len(), NUM_ANTS);
    for (t, a) in colony.trails.iter().zip(colony.ants.iter()) {
        assert_eq!(t.position, v(0, 0));
        assert_eq!(t.intensity, FULL_INTENSITY);
        assert_eq!(t.origin, AntState::Searching);
        assert_eq!(norm_sq(a.position) <= 10 * UNIT * 10 * UNIT, true);
        assert_ne!(a.position, v(0, 0));
    }
}
