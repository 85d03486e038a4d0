use procon31_comp::algorithms::base::{solve, solve_regret_matching, solve_with, value_maps_of, EachEvalSolver};
use procon31_comp::algorithms::simple_dp::fade_at;
use procon31_comp::algorithms::{GreedySelect, SimpleDp, SimpleRegret, Solver};
use procon31_comp::api::parse::{Config, FieldData, MatchData, TeamData};
use procon31_comp::field::{Field, Point, PointUsize, State};
use procon31_comp::simulator::Act;
use rand::rngs::StdRng;
use rand::SeedableRng;

fn teams() -> Vec<TeamData> {
    vec![
        TeamData { team_id: 1, agent_id: vec![10, 11] },
        TeamData { team_id: 2, agent_id: vec![20, 21] },
    ]
}

/// A 3x3 board with the most points in the corner (2,2).
fn board() -> Field {
    let walls = vec![vec![0u32; 3]; 3];
    let mut points = vec![vec![1i8; 3]; 3];
    points[2][2] = 9;
    points[0][0] = -4;
    let agents = vec![
        vec![Some(Point::new(1, 1)), Some(Point::new(1, 2))],
        vec![Some(Point::new(0, 0)), None],
    ];
    Field::from_data(3, 3, teams(), walls, points, agents, 0, 10)
}

#[test]
fn greedy_values_are_the_points_at_once() {
    let field = board();
    let solver = GreedySelect::new(false, &field);
    assert_eq!(solver.side(), false);
    assert_eq!(solver.field().width(), 3);
    assert_eq!(solver.eval(0, Act::MoveAct(Point::new(2, 2))), Some(9));
    assert_eq!(solver.eval(1, Act::MoveAct(Point::new(0, 0))), Some(-4));
    assert_eq!(solver.eval(0, Act::StayAct), None);
    let maps = value_maps_of(false, &field, &solver);
    assert_eq!(maps.len(), 2);
    assert_eq!(maps[0].len(), 8);
    assert_eq!(maps[0][0], (Act::MoveAct(Point::new(0, 0)), -4));
    assert_eq!(maps[1].len(), 5);
}

#[test]
fn greedy_gives_the_best_tile_to_one_agent_only() {
    let field = board();
    let mut solver = GreedySelect::new(false, &field);
    let acts = solver.solve();
    assert_eq!(acts.len(), 2);
    let best = Act::MoveAct(Point::new(2, 2));
    assert_eq!(acts.iter().filter(|a| **a == best).count(), 1);
    let total: i64 = acts
        .iter()
        .map(|a| solver.eval(0, *a).unwrap())
        .sum();
    assert_eq!(total, 10);
    assert_eq!(solve(&solver), acts);
    assert_eq!(solve_with(false, &field, &solver), acts);
}

#[test]
fn greedy_removes_a_wall_that_pays() {
    let mut field = board();
    field.set_state(PointUsize::new(2, 1), State::Wall(true));
    field.set_state(PointUsize::new(2, 2), State::Wall(true));
    let mut solver = GreedySelect::new(false, &field);
    let acts = solver.solve();
    assert!(acts.contains(&Act::RemoveAct(Point::new(2, 2))));
    assert!(!acts.contains(&Act::MoveAct(Point::new(2, 2))));
}

#[test]
fn regret_solver_returns_candidates_on_different_tiles() {
    let field = board();
    let mut solver = SimpleRegret::new(true, &field);
    assert_eq!(solver.side(), true);
    let acts = solver.solve();
    assert_eq!(acts.len(), 2);
    match acts[0] {
        Act::MoveAct(p) => assert!(Point::new(0, 0).neighbor(p) && field.inside(p)),
        Act::StayAct => {}
        other => panic!("an agent on the board moves or stays, not {:?}", other),
    }
    match acts[1] {
        Act::PutAct(p) => {
            assert!(field.inside(p) && Some(p) != acts[0].pos() && p != Point::new(0, 0))
        }
        other => panic!("an agent off the board is placed, not {:?}", other),
    }
    let mut seeded = SimpleRegret::with_rng(true, &field, StdRng::seed_from_u64(99));
    assert_eq!(seeded.solve().len(), 2);
    let mut rng = StdRng::seed_from_u64(5);
    let acts = solve_regret_matching::<GreedySelect>(&mut rng, false, &field, 10);
    assert_eq!(acts.len(), 2);
    assert_ne!(acts[0].pos(), acts[1].pos());
}

#[test]
fn records_hold_what_they_are_given() {
    let team = TeamData { team_id: 3, agent_id: vec![1, 2] };
    let game = MatchData { match_id: 8, final_turn: 40, teams: vec![team.clone()] };
    assert_eq!(game.teams[0].agent_id, vec![1, 2]);
    let data = FieldData { field: board(), teams: vec![team] };
    assert_eq!(data.field.height(), 3);
    let config = Config { id: 1, token: "t".to_string(), url: "u".to_string(), visualizer: false };
    assert_eq!(config.clone().url, "u");
}

/// A 3x1 board worth 0, 2 and 4 with two turns left, or with a wall of
/// the second team on the last tile and three turns left.
fn lane(wall: bool) -> Field {
    let mut walls = vec![vec![0u32; 1]; 3];
    if wall {
        walls[2][0] = 2;
    }
    let points = vec![vec![0i8], vec![2], vec![4]];
    let agents = vec![vec![Some(Point::new(0, 0)), None], vec![None, None]];
    Field::from_data(3, 1, teams(), walls, points, agents, if wall { 7 } else { 8 }, 10)
}

#[test]
fn fade_is_three_tenths_per_turn() {
    assert_eq!(fade_at(0), 10_000_000);
    assert_eq!(fade_at(1), 3_000_000);
    assert_eq!(fade_at(2), 900_000);
    assert_eq!(fade_at(7), 2_187);
}

#[test]
fn tiles_are_valued_by_what_the_next_step_gains() {
    let field = lane(false);
    let mut solver = SimpleDp::new(false, &field);
    assert_eq!(solver.eval(0, Act::MoveAct(Point::new(1, 0))), None);
    solver.calc_dp();
    assert_eq!(
        solver.data,
        vec![vec![Some(20_000_000)], vec![Some(40_000_000)], vec![Some(0)]]
    );
    assert_eq!(solver.eval(0, Act::StayAct), Some(0));
    assert_eq!(solver.eval(0, Act::MoveAct(Point::new(1, 0))), Some(40_000_000));
    assert_eq!(solver.eval(1, Act::PutAct(Point::new(0, 0))), Some(20_000_000));
    assert_eq!(solver.eval(0, Act::RemoveAct(Point::new(1, 0))), None);
    assert_eq!(solver.eval(0, Act::MoveAct(Point::new(3, 0))), None);
    assert_eq!(solver.lookup(Point::new(2, 0)), Some(0));
    assert_eq!(solver.lookup(Point::new(0, 1)), None);
    assert_eq!(
        solver.calc_base(&vec![Point::new(1, 0)], &Point::new(1, 0), &Act::MoveAct(Point::new(1, 0))),
        Some(0)
    );
    assert_eq!(
        solver.calc_base(&vec![], &Point::new(1, 0), &Act::MoveAct(Point::new(1, 0))),
        Some(2)
    );
}

#[test]
fn a_wall_of_the_other_side_is_valued_for_its_removal() {
    let field = lane(true);
    let mut solver = SimpleDp::new(false, &field);
    solver.calc_dp();
    // removing the wall and entering its tile takes two turns and counts thirteen tenths
    assert_eq!(
        solver.data,
        vec![vec![Some(20_000_000)], vec![Some(52_000_000)], vec![Some(0)]]
    );
    assert_eq!(solver.eval(0, Act::MoveAct(Point::new(2, 0))), None);
    assert_eq!(solver.eval(0, Act::RemoveAct(Point::new(2, 0))), Some(0));
    let owner = SimpleDp::new(true, &field);
    assert_eq!(owner.eval(0, Act::RemoveAct(Point::new(2, 0))), None);
}

#[test]
fn no_turn_left_leaves_every_tile_worth_nothing() {
    let walls = vec![vec![0u32; 2]; 2];
    let points = vec![vec![5i8; 2]; 2];
    let agents = vec![vec![Some(Point::new(0, 0)), None], vec![None, None]];
    let field = Field::from_data(2, 2, teams(), walls, points, agents, 10, 10);
    let mut solver = SimpleDp::new(false, &field);
    solver.calc_dp();
    assert_eq!(solver.data, vec![vec![Some(0); 2]; 2]);
}

#[test]
fn lookahead_solver_moves_towards_value() {
    let field = lane(false);
    let mut solver = SimpleDp::new(false, &field);
    let acts = solver.solve();
    // the agent on the board goes where the most is to come, the other is placed
    assert_eq!(acts, vec![Act::MoveAct(Point::new(1, 0)), Act::PutAct(Point::new(2, 0))]);
}
