//! Engine scenarios on concrete values. Coordinates are fixed point:
//! one world unit is 1000.

use latex_sim::affinity::AffinityMatrix;
use latex_sim::ag::{default_matrix, Agent, Update};
use latex_sim::engine::{ConfigError, MyGame};
use latex_sim::vec2::Vec2;
use rayon::iter::{IntoParallelRefMutIterator, ParallelIterator};

fn engine_with_matrix(n: usize, entries: Vec<i64>) -> MyGame {
    MyGame::new(100_000, 100_000, 10, n, entries, 0, 3).unwrap()
}

fn placed_agent(id: usize, x: i64, y: i64) -> Agent {
    let mut a = Agent::new(id, Vec2 { x, y }, Vec2 { x: 0, y: 0 });
    a.color = 0;
    a
}

#[test]
fn zero_affinity_leaves_velocity_to_drag() {
    // Scenario: two agents whose mutual affinity is zero. After one tick
    // neither velocity owes anything to the other: only drag applies
    // (there is no gravity here).
    let mut game = engine_with_matrix(1, vec![0]);
    let mut a0 = placed_agent(0, 10_000, 10_000);
    a0.vel = Vec2 { x: 500, y: -300 };
    let mut a1 = placed_agent(1, 12_000, 10_000);
    a1.vel = Vec2 { x: 0, y: 0 };
    game.agents = vec![a0, a1];
    game.update_agents(vec![]);
    // drag 0.02: velocity scaled by 0.98
    assert_eq!((game.agents[0].vel.x, game.agents[0].vel.y), (490, -294));
    assert_eq!((game.agents[1].vel.x, game.agents[1].vel.y), (0, 0));
    assert_eq!((game.agents[0].pos.x, game.agents[0].pos.y), (10_500, 9_700));
}

#[test]
fn attractive_pair_accelerates_toward_each_other() {
    // Scenario: two attractive agents (affinity one) at twice the
    // preferred separation with zero velocity: after one tick each
    // velocity points toward the other.
    let mut game = engine_with_matrix(1, vec![1_000]);
    let a0 = placed_agent(0, 10_000, 10_000);
    let a1 = placed_agent(1, 18_000, 10_000);
    game.agents = vec![a0, a1];
    game.update_agents(vec![]);
    assert!(game.agents[0].vel.x > 0);
    assert_eq!(game.agents[0].vel.y, 0);
    assert!(game.agents[1].vel.x < 0);
    assert_eq!(game.agents[1].vel.y, 0);
}

#[test]
fn lone_agent_only_drag_scales_velocity() {
    // An agent with no neighbour in range and no gravity: the velocity
    // keeps its direction and is only scaled by one minus drag.
    let mut game = engine_with_matrix(2, vec![1_000, -100, 1_000, 100]);
    let mut a0 = placed_agent(0, 50_000, 50_000);
    a0.vel = Vec2 { x: 1_000, y: -500 };
    game.agents = vec![a0];
    game.update_agents(vec![]);
    assert_eq!((game.agents[0].vel.x, game.agents[0].vel.y), (980, -490));
    assert_eq!((game.agents[0].pos.x, game.agents[0].pos.y), (51_000, 49_500));
}

#[test]
fn positions_stay_inside_world() {
    let mut game = engine_with_matrix(2, vec![1_000, -100, 1_000, 100]);
    let mut a0 = placed_agent(0, 99_900, 50);
    a0.vel = Vec2 { x: 500, y: -300 };
    game.agents = vec![a0];
    for _ in 0..25 {
        game.update_agents(vec![]);
        let p = game.agents[0].pos;
        assert!(0 <= p.x && p.x < 100_000);
        assert!(0 <= p.y && p.y < 100_000);
    }
}

#[test]
fn tick_is_deterministic_and_order_free() {
    // The same snapshot, matrix and gravity give the same tick result,
    // whether the engine runs it, or the per-agent updates are mapped in
    // parallel over copies of the frozen snapshot.
    let entries = vec![1_000, -100, 1_000, 100];
    let mut g1 = engine_with_matrix(2, entries.clone());
    let mut g2 = engine_with_matrix(2, entries);
    let mut agents = Vec::new();
    for i in 0..40 {
        let mut a = placed_agent(i, (i as i64 * 2_411) % 100_000, (i as i64 * 7_877) % 100_000);
        a.color = if i % 2 == 0 { 0 } else { 180_000 };
        a.vel = Vec2 { x: (i as i64 % 7) * 100 - 300, y: (i as i64 % 5) * 100 - 200 };
        agents.push(a);
    }
    g1.agents = agents.clone();
    g2.agents = agents.clone();
    let gravity = vec![Vec2 { x: 50_000, y: 50_000 }];

    // engine tick
    g1.update_agents(gravity.clone());

    // manual parallel fan-out over the frozen snapshot
    g2.update_latex();
    let up = Update {
        w: 100_000,
        h: 100_000,
        gravity_f: 0,
        gravity,
        matrix: AffinityMatrix::new(2, vec![1_000, -100, 1_000, 100]).unwrap(),
        keep: 3,
    };
    let snapshot = g2.agents.clone();
    let mut parallel = snapshot.clone();
    parallel
        .par_iter_mut()
        .for_each(|a| a.update(&up, &g2.latex, &snapshot));

    assert_eq!(g1.agents, parallel);
}

#[test]
fn config_errors_are_reported() {
    fn err_of(r: Result<MyGame, ConfigError>) -> ConfigError {
        match r {
            Ok(_) => panic!("expected a configuration error"),
            Err(e) => e,
        }
    }
    assert_eq!(
        err_of(MyGame::new(0, 100_000, 10, 1, vec![0], 0, 3)),
        ConfigError::BadWorld
    );
    assert_eq!(
        err_of(MyGame::new(100_000, 100_000, 0, 1, vec![0], 0, 3)),
        ConfigError::BadResolution
    );
    assert_eq!(
        err_of(MyGame::new(100_000, 100_000, 10, 2, vec![0, 0, 0], 0, 3)),
        ConfigError::BadMatrix
    );
    assert_eq!(
        err_of(MyGame::new(100_000, 100_000, 10, 1, vec![0], -1, 3)),
        ConfigError::BadGravity
    );
    assert!(MyGame::new(100_000, 100_000, 10, 1, vec![0], 0, 3).is_ok());
}

#[test]
fn species_bucketing_is_total() {
    // Every hue in [0, 360) lands in exactly one bucket of [0, n).
    let m = AffinityMatrix::new(3, vec![0; 9]).unwrap();
    assert_eq!(m.bucket(0), 0);
    assert_eq!(m.bucket(119_999), 0);
    assert_eq!(m.bucket(120_000), 1);
    assert_eq!(m.bucket(239_999), 1);
    assert_eq!(m.bucket(240_000), 2);
    assert_eq!(m.bucket(359_999), 2);
    let m2 = default_matrix();
    assert_eq!(m2.bucket(0), 0);
    assert_eq!(m2.bucket(179_999), 0);
    assert_eq!(m2.bucket(180_000), 1);
    assert_eq!(m2.bucket(359_999), 1);
    assert_eq!(m2.affinity(0, 180_000), -100);
    assert_eq!(m2.affinity(180_000, 0), 1_000);
}

#[test]
fn gravity_pulls_toward_the_well() {
    let mut game = MyGame::new(100_000, 100_000, 10, 1, vec![0], 1_000, 3).unwrap();
    let a0 = placed_agent(0, 10_000, 50_000);
    game.agents = vec![a0];
    game.update_agents(vec![Vec2 { x: 90_000, y: 50_000 }]);
    assert!(game.agents[0].vel.x > 0);
    assert_eq!(game.agents[0].vel.y, 0);
}

#[test]
fn brush_nudges_only_agents_in_radius() {
    let mut game = engine_with_matrix(1, vec![0]);
    let near = placed_agent(0, 10_000, 10_000);
    let far = placed_agent(1, 80_000, 80_000);
    game.agents = vec![near, far];
    game.brush(
        Vec2 { x: 10_500, y: 10_000 },
        Vec2 { x: 800, y: -600 },
        5_000,
    );
    assert!(game.agents[0].vel.x > 0);
    assert!(game.agents[0].vel.y < 0);
    assert_eq!(game.agents[1].vel, Vec2 { x: 0, y: 0 });
    // positions are never moved by the brush
    assert_eq!(game.agents[0].pos, Vec2 { x: 10_000, y: 10_000 });
}

#[test]
fn stats_track_max_speed() {
    let mut game = engine_with_matrix(1, vec![0]);
    let mut a0 = placed_agent(0, 10_000, 10_000);
    a0.vel = Vec2 { x: 3_000, y: 4_000 };
    let a1 = placed_agent(1, 80_000, 80_000);
    game.agents = vec![a0, a1];
    game.update_agents(vec![]);
    // after drag the fast agent moves at 0.98 * 5 = 4.9 units
    assert_eq!(game.avg_stats_vel.len(), 1);
    assert_eq!(game.avg_stats_vel[0], 4_900);
    assert_eq!(game.agents[0].s_vel, 4_900);
    assert_eq!(game.avg_stats_range.len(), 1);
}

#[test]
fn init_agents_populates_world() {
    let mut game = engine_with_matrix(2, vec![1_000, -100, 1_000, 100]);
    game.init_agents(100);
    assert_eq!(game.agents.len(), 100);
    for (i, a) in game.agents.iter().enumerate() {
        assert_eq!(a.id, i);
        assert!(0 <= a.pos.x && a.pos.x < 100_000);
        assert!(0 <= a.pos.y && a.pos.y < 100_000);
        assert_eq!(a.vel, Vec2 { x: 0, y: 0 });
        assert!(a.color == 0 || a.color == 180_000);
    }
}

#[test]
fn random_draws_stay_in_range() {
    for _ in 0..200 {
        assert!(latex_sim::utils::rand_int(7) < 7);
        assert!(latex_sim::utils::rand_usize(3) < 3);
        let r = latex_sim::utils::rand_intr(-5, 5);
        assert!(-5 <= r && r < 5);
    }
}

#[test]
fn chase_rule_drifts_toward_farthest() {
    // The alternative rule pulls toward the farthest visible agent, the
    // pull limited to a thousandth of that distance: from 20 units away
    // that is a nudge of 0.020 units.
    let mut latex = latex_sim::latex::Latex2D::new(10_000, 10_000, 100_000, 100_000);
    latex.add((10_000, 10_000), 0);
    latex.add((30_000, 10_000), 1);
    let snapshot = vec![
        placed_agent(0, 10_000, 10_000),
        placed_agent(1, 30_000, 10_000),
    ];
    let up = Update {
        w: 100_000,
        h: 100_000,
        gravity_f: 0,
        gravity: vec![],
        matrix: AffinityMatrix::new(1, vec![1_000]).unwrap(),
        keep: 3,
    };
    let mut a = snapshot[0];
    a.new_update2(&up, &latex, &snapshot);
    assert_eq!((a.vel.x, a.vel.y), (20, 0));
    assert_eq!(a.pos, snapshot[0].pos);
}
