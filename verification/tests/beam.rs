use procon31_comp::algorithms::social_distance::{
    copy_state, decay_at, distinct, holds, overlap, shared_start, step_worth, DpState,
    SocialDistance, DEPTH, UNIT, WIDTH,
};
use procon31_comp::algorithms::Solver;
use procon31_comp::api::parse::TeamData;
use procon31_comp::field::{Field, Point, PointUsize, State};
use procon31_comp::simulator::Act;

fn teams() -> Vec<TeamData> {
    vec![
        TeamData { team_id: 1, agent_id: vec![10, 11] },
        TeamData { team_id: 2, agent_id: vec![20, 21] },
    ]
}

fn p(x: i8) -> Point {
    Point::new(x, 0)
}

/// A 3x1 board worth 0, 2 and 4; optionally with a wall of the second team
/// in the middle.
fn lane(wall: bool, second: Vec<Option<Point>>) -> Field {
    let mut walls = vec![vec![0u32; 1]; 3];
    if wall {
        walls[1][0] = 2;
    }
    let points = vec![vec![0i8], vec![2], vec![4]];
    Field::from_data(3, 1, teams(), walls, points, vec![vec![Some(p(0)), None], second], 0, 10)
}

#[test]
fn decay_is_three_fifths_per_turn() {
    assert_eq!(decay_at(0), 1_000_000);
    assert_eq!(decay_at(1), 600_000);
    assert_eq!(decay_at(2), 360_000);
    assert_eq!(decay_at(5), 77_760);
    assert_eq!(UNIT, 1_000_000);
}

#[test]
fn step_worth_scales_and_rounds_towards_zero() {
    assert_eq!(step_worth(20, 0, false), 2_000_000);
    assert_eq!(step_worth(20, 1, false), 1_200_000);
    assert_eq!(step_worth(30, 0, true), 4_800_000);
    assert_eq!(step_worth(-30, 1, true), -2_880_000);
    assert_eq!(step_worth(9, 7, false), 9 * 27_993 / 10);
    assert_eq!(step_worth(-9, 7, false), -(9 * 27_993 / 10));
    assert_eq!(step_worth(0, 3, true), 0);
}

#[test]
fn ways_have_depth_plus_one_positions_and_exact_values() {
    let field = lane(false, vec![None, None]);
    let solver = SocialDistance::new(false, &field);
    let plans = solver.beam_search(vec![p(0)], 2, 10);
    assert_eq!(
        plans,
        vec![
            (4_400_000, Act::MoveAct(p(1)), vec![p(0), p(1), p(2)]),
            (2_000_000, Act::MoveAct(p(1)), vec![p(0), p(1), p(0)]),
        ]
    );
    for depth in 0..5 {
        for plan in solver.beam_search(vec![p(0), p(2)], depth, 10) {
            assert_eq!(plan.2.len(), depth + 1);
        }
    }
}

#[test]
fn coming_back_to_a_tile_is_worth_nothing() {
    let field = lane(false, vec![None, None]);
    let solver = SocialDistance::new(false, &field);
    assert_eq!(solver.calc_base(&vec![p(0), p(1)], &p(1), &Act::MoveAct(p(1))), Some(0));
    assert_eq!(solver.calc_base(&vec![p(0)], &p(1), &Act::MoveAct(p(1))), Some(20));
    assert_eq!(solver.calc_base(&vec![p(0)], &p(2), &Act::StayAct), None);
    // there and back and there again: only the first visit counts
    let plans = solver.beam_search(vec![p(2)], 3, 50);
    let back = plans.iter().find(|plan| plan.2 == vec![p(2), p(1), p(2), p(1)]).unwrap();
    assert_eq!(back.0, 2_000_000);
}

#[test]
fn a_tile_with_an_opponent_counts_three_tenths() {
    let field = lane(false, vec![Some(p(1)), None]);
    let mut solver = SocialDistance::new(false, &field);
    assert_eq!(solver.calc_base(&vec![p(0)], &p(1), &Act::MoveAct(p(1))), Some(20));
    solver.note_opponents();
    assert_eq!(solver.agent_set, vec![p(1)]);
    assert_eq!(solver.calc_base(&vec![p(0)], &p(1), &Act::MoveAct(p(1))), Some(6));
    assert_eq!(solver.beam_search(vec![p(0)], 1, 10), vec![(600_000, Act::MoveAct(p(1)), vec![p(0), p(1)])]);
}

#[test]
fn removing_a_wall_takes_two_turns_unless_it_is_the_last() {
    let field = lane(true, vec![None, None]);
    let solver = SocialDistance::new(false, &field);
    assert_eq!(
        solver.beam_search(vec![p(0)], 1, 10),
        vec![(2_000_000, Act::RemoveAct(p(1)), vec![p(0), p(1)])]
    );
    assert_eq!(
        solver.beam_search(vec![p(0)], 2, 10),
        vec![(3_200_000, Act::RemoveAct(p(1)), vec![p(0), p(1), p(1)])]
    );
    // the owner of the wall just walks
    let owner = SocialDistance::new(true, &field);
    assert_eq!(
        owner.beam_search(vec![p(0)], 1, 10),
        vec![(0, Act::MoveAct(p(1)), vec![p(0), p(1)])]
    );
}

#[test]
fn width_limits_the_ways_kept() {
    let walls = vec![vec![0u32; 5]; 5];
    let points = vec![vec![1i8; 5]; 5];
    let agents = vec![vec![Some(Point::new(2, 2)), None], vec![None, None]];
    let field = Field::from_data(5, 5, teams(), walls, points, agents, 0, 10);
    let solver = SocialDistance::new(false, &field);
    let plans = solver.beam_search(vec![Point::new(2, 2)], DEPTH, WIDTH);
    assert_eq!(plans.len(), WIDTH);
    for pair in plans.windows(2) {
        assert!(pair[0].0 >= pair[1].0);
    }
    for plan in &plans {
        assert_eq!(plan.2.len(), DEPTH + 1);
        assert_eq!(plan.2[0], Point::new(2, 2));
        assert_eq!(plan.1, Act::MoveAct(plan.2[1]));
        for pair in plan.2.windows(2) {
            assert!(pair[0].neighbor(pair[1]) && pair[0] != pair[1]);
        }
    }
    assert_eq!(solver.beam_search(vec![Point::new(2, 2)], 3, 4).len(), 4);
    assert_eq!(solver.beam_search(vec![], 3, 4).len(), 0);
}

fn state(score: i64, path: Vec<Point>) -> DpState {
    DpState {
        score,
        pos: *path.last().unwrap(),
        act: Act::StayAct,
        used: path.clone(),
        poses: path,
    }
}

#[test]
fn reduction_drops_repeats_and_orders_by_value() {
    let field = lane(false, vec![None, None]);
    let solver = SocialDistance::new(false, &field);
    let cand = vec![
        state(5, vec![p(0), p(1)]),
        state(9, vec![p(0), p(1)]),
        state(7, vec![p(2), p(1)]),
    ];
    let kept = solver.reduce_cand(&cand, 0, 0, 1, 10);
    let scores: Vec<i64> = kept.iter().map(|s| s.score).collect();
    assert_eq!(scores, vec![7, 5]);
    assert_eq!(kept[0].poses, vec![p(2), p(1)]);
    let kept = solver.reduce_cand(&cand, 0, 0, 1, 1);
    assert_eq!(kept.len(), 1);
    assert_eq!(kept[0].score, 7);
}

#[test]
fn reduction_favours_ways_that_part_early() {
    let field = lane(false, vec![None, None]);
    let solver = SocialDistance::new(false, &field);
    let cand = vec![
        state(10, vec![p(0), p(1), p(2)]),
        state(9, vec![p(0), p(1), p(0)]),
        state(8, vec![p(2), p(1), p(0)]),
    ];
    // the third way shares no start with the first, the second shares two positions
    let kept = solver.reduce_cand(&cand, 2, 0, 2, 2);
    let scores: Vec<i64> = kept.iter().map(|s| s.score).collect();
    assert_eq!(scores, vec![10, 8]);
    // sharing tiles is held against a way
    let kept = solver.reduce_cand(&cand, 0, 1, 2, 2);
    let scores: Vec<i64> = kept.iter().map(|s| s.score).collect();
    assert_eq!(scores, vec![10, 9]);
}

#[test]
fn helpers_on_ways() {
    assert_eq!(shared_start(&vec![p(0), p(1), p(2)], &vec![p(0), p(1), p(0)]), 2);
    assert_eq!(shared_start(&vec![p(0)], &vec![p(0), p(1)]), 1);
    assert_eq!(shared_start(&vec![p(1)], &vec![p(0)]), 0);
    assert_eq!(overlap(&vec![p(0), p(1), p(2)], &vec![p(2), p(0)]), 2);
    assert!(holds(&vec![p(0), p(1)], p(1)));
    assert!(!holds(&vec![p(0), p(1)], p(2)));
    let st = state(3, vec![p(0), p(1)]);
    let next = st.from(p(2), Act::MoveAct(p(2)), 4, false);
    assert_eq!(next.score, 7);
    assert_eq!(next.pos, p(2));
    assert_eq!(next.act, Act::MoveAct(p(2)));
    assert_eq!(next.used, vec![p(0), p(1), p(2)]);
    assert_eq!(next.poses, vec![p(0), p(1), p(2)]);
    let again = next.from(p(1), Act::RemoveAct(p(1)), -1, true);
    assert_eq!(again.act, Act::MoveAct(p(2)));
    assert_eq!(again.used, vec![p(0), p(1), p(2)]);
    assert_eq!(again.poses, vec![p(0), p(1), p(2), p(1), p(1)]);
    assert_eq!(copy_state(&again).poses, again.poses);
}

#[test]
fn planning_and_confirming_moves() {
    let field = lane(false, vec![None, None]);
    let mut solver = SocialDistance::new(false, &field);
    solver.note_opponents();
    let (idxes, put_idxes) = solver.split_agents();
    assert_eq!(idxes, vec![0]);
    assert_eq!(put_idxes, vec![1]);
    let plans = solver.plan_moves(&idxes);
    assert_eq!(plans.len(), 1);
    assert_eq!(plans[0][0].2.len(), DEPTH + 1);
    let mut acts = vec![Act::StayAct, Act::StayAct];
    let ways = solver.move_confirm(&mut acts, &idxes, &plans, &vec![0]);
    assert_eq!(acts, vec![Act::MoveAct(p(1)), Act::StayAct]);
    assert_eq!(ways, vec![plans[0][0].2.clone()]);
    let cand = solver.put_candidates(&ways);
    assert!(!cand.is_empty());
    // the tile the planned way enters first is worth nothing for placing
    assert!(!cand.contains(&p(1)) || cand.len() == 3);
    let put_plans = solver.beam_search(cand, DEPTH - 1, 60);
    solver.put_confirm(&mut acts, &put_idxes, &put_plans);
    assert_eq!(acts[1], Act::PutAct(put_plans[0].2[0]));
    assert_eq!(acts[0], Act::MoveAct(p(1)));
}

#[test]
fn placing_prefers_tiles_no_way_crosses() {
    let walls = vec![vec![0u32; 1]; 10];
    let points = vec![vec![1i8]; 10];
    let agents = vec![vec![None, None], vec![None, None]];
    let field = Field::from_data(10, 1, teams(), walls, points, agents, 0, 10);
    let solver = SocialDistance::new(false, &field);
    let way: Vec<Point> = (0..6).map(p).collect();
    let cand = solver.put_candidates(&vec![way]);
    assert_eq!(cand, vec![p(0), p(6), p(7), p(8), p(9)]);
}

#[test]
fn planner_solves_without_weighing_plans() {
    let field = lane(false, vec![None, None]);
    let mut solver = SocialDistance::new(false, &field);
    assert_eq!(solver.side(), false);
    assert_eq!(solver.field().width(), 3);
    let acts = solver.solve();
    assert_eq!(acts.len(), 2);
    assert_eq!(acts[0], Act::MoveAct(p(1)));
    match acts[1] {
        Act::PutAct(at) => assert!(field.inside(at)),
        other => panic!("an agent off the board is placed, not {:?}", other),
    }
    // the other side has nobody on the board: everyone is placed or stays
    let mut other = SocialDistance::new(true, &field);
    for act in other.solve() {
        assert!(matches!(act, Act::PutAct(_) | Act::StayAct));
    }
}

#[test]
fn tiles_listed_twice_are_not_distinct() {
    assert!(distinct(&vec![]));
    assert!(distinct(&vec![p(0), p(1), Point::new(0, 1)]));
    assert!(!distinct(&vec![p(0), p(1), p(0)]));
}

#[test]
fn projected_walls_close_a_region_that_the_next_count_sees() {
    let mut walls = vec![vec![0u32; 3]; 3];
    walls[1][0] = 1;
    walls[0][1] = 1;
    walls[2][1] = 1;
    let mut points = vec![vec![1i8; 3]; 3];
    points[1][1] = 5;
    let field = Field::from_data(3, 3, teams(), walls, points, vec![vec![None], vec![None]], 0, 10);
    let solver = SocialDistance::new(false, &field);
    let mut board = field.clone();
    // the scores are counted before the regions are marked
    assert_eq!(solver.project(&mut board, &vec![Point::new(1, 2)]), 0);
    assert_eq!(board.tile(PointUsize::new(1, 2)).state(), State::Wall(false));
    assert_eq!(board.tile(PointUsize::new(1, 1)).state(), State::Position(false));
    assert_eq!(board.score(false).tile(), 4);
    assert_eq!(solver.project(&mut board, &vec![]), 5);
    assert_eq!(field.tile(PointUsize::new(1, 2)).state(), State::Neutral);
}

#[test]
fn a_choice_among_the_ways_decides_the_first_step() {
    let walls = vec![vec![0u32; 3]; 3];
    let points = vec![vec![1i8, 2, 3], vec![4, 5, 6], vec![7, 8, 9]];
    let agents = vec![vec![Some(Point::new(1, 1)), None], vec![None, None]];
    let field = Field::from_data(3, 3, teams(), walls, points, agents, 0, 10);
    let mut solver = SocialDistance::new(false, &field);
    let plans = solver.plan();
    assert_eq!(plans.idxes, vec![0]);
    assert_eq!(plans.put_idxes, vec![1]);
    assert_eq!(plans.bs_res.len(), 1);
    assert!(plans.bs_res[0].len() >= 2);
    for pick in 0..plans.bs_res[0].len() {
        let acts = solver.confirm(&plans, &vec![pick]);
        assert_eq!(acts.len(), 2);
        assert_eq!(acts[0], plans.bs_res[0][pick].1);
        assert!(matches!(acts[1], Act::PutAct(_)));
    }
    // the solver takes the best way of every agent
    let best = plans.bs_res[0][0].1;
    assert_eq!(SocialDistance::new(false, &field).solve()[0], best);
}

#[test]
fn nobody_on_the_board_leaves_no_ways_to_choose() {
    let field = lane(false, vec![None, None]);
    let mut solver = SocialDistance::new(true, &field);
    let plans = solver.plan();
    assert!(plans.idxes.is_empty());
    assert_eq!(plans.put_idxes, vec![0, 1]);
    assert!(plans.bs_res.is_empty());
    let acts = solver.confirm(&plans, &vec![]);
    assert_eq!(acts.len(), 2);
    // the agents of the other side are noted
    assert_eq!(solver.agent_set, vec![p(0)]);
}

#[test]
fn a_layer_is_put_in_the_order_of_its_values_before_it_is_reduced() {
    let walls = vec![vec![0u32; 1]; 3];
    let points = vec![vec![0i8], vec![0], vec![1]];
    let agents = vec![vec![Some(p(1))], vec![None]];
    let field = Field::from_data(3, 1, teams(), walls, points, agents, 0, 10);
    let solver = SocialDistance::new(false, &field);
    assert!(solver.agent_set.is_empty());
    // the way onto the tile worth a point is rated first and kept
    assert_eq!(
        solver.beam_search(vec![p(1)], 2, 1),
        vec![(1_000_000, Act::MoveAct(p(2)), vec![p(1), p(2), p(1)])]
    );
}

#[test]
fn a_new_planner_searches_without_noted_tiles() {
    let walls = vec![vec![0u32; 1]; 2];
    let points = vec![vec![5i8], vec![-3]];
    let agents = vec![vec![Some(p(0))], vec![None]];
    let field = Field::from_data(2, 1, teams(), walls, points, agents, 0, 10);
    let solver = SocialDistance::new(false, &field);
    assert_eq!(
        solver.beam_search(vec![p(0)], 1, 30),
        vec![(-3_000_000, Act::MoveAct(p(1)), vec![p(0), p(1)])]
    );
    // stepping back onto the start, worth five points, adds nothing
    assert_eq!(
        solver.beam_search(vec![p(0)], 2, 30),
        vec![(-3_000_000, Act::MoveAct(p(1)), vec![p(0), p(1), p(0)])]
    );
}

#[test]
fn three_tenths_of_the_tiles_are_worth_a_placement() {
    let walls = vec![vec![0u32; 1]; 15];
    let points: Vec<Vec<i8>> = (1..=15).map(|v| vec![v]).collect();
    let agents = vec![vec![None, None], vec![None, None]];
    let field = Field::from_data(15, 1, teams(), walls, points, agents, 0, 10);
    let solver = SocialDistance::new(false, &field);
    // of fifteen tiles the worth of the fifth best is the border
    assert_eq!(solver.put_candidates(&vec![]), vec![p(10), p(11), p(12), p(13), p(14)]);
}

#[test]
fn sharing_is_weighed_before_it_is_rounded() {
    // the second way shares one tile with one of the two ways kept before it
    let first = state(0, vec![p(0), p(1)]);
    let second = state(0, vec![p(5), p(6)]);
    let third = state(0, vec![p(7), p(1)]);
    let field = lane(false, vec![None, None]);
    let solver = SocialDistance::new(false, &field);
    let kept = solver.reduce_cand(&vec![first, second, third], 0, 1_000_000, 1, 2);
    // rated 0, 0 and -500000: the third is cut
    assert_eq!(kept.len(), 2);
    assert_eq!(kept[0].poses, vec![p(0), p(1)]);
    assert_eq!(kept[1].poses, vec![p(5), p(6)]);
    let first = state(0, vec![p(0), p(1)]);
    let second = state(0, vec![p(5), p(6)]);
    let third = state(400_000, vec![p(7), p(1)]);
    let kept = solver.reduce_cand(&vec![first, second, third], 0, 1_000_000, 1, 2);
    // rated 0, 0 and -100000: half a square costs half the weight
    assert_eq!(kept[0].poses, vec![p(0), p(1)]);
    assert_eq!(kept[1].poses, vec![p(5), p(6)]);
}
