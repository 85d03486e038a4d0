use procon31_comp::algorithms::regret::{
    accumulate, payoff_of, pick_index, regret_matching, sample_acts, sample_index, score, strategy,
};
use procon31_comp::api::parse::TeamData;
use procon31_comp::field::{Field, Point};
use procon31_comp::simulator::Act;
use rand::rngs::StdRng;
use rand::SeedableRng;

fn teams() -> Vec<TeamData> {
    vec![
        TeamData { team_id: 1, agent_id: vec![10] },
        TeamData { team_id: 2, agent_id: vec![20] },
    ]
}

fn p(x: i8) -> Point {
    Point::new(x, 0)
}

/// A 3x1 board; the agent of the first side stands on the first tile, the
/// agent of the second side is off the board.
fn lane() -> Field {
    let walls = vec![vec![0u32; 1]; 3];
    let points = vec![vec![0i8], vec![5], vec![0]];
    Field::from_data(3, 1, teams(), walls, points, vec![vec![Some(p(0))], vec![None]], 0, 10)
}

fn maps() -> Vec<Vec<Vec<(Act, i64)>>> {
    vec![
        vec![vec![(Act::StayAct, 0), (Act::MoveAct(p(1)), 5)]],
        vec![vec![(Act::PutAct(p(2)), 0), (Act::PutAct(p(1)), 3)]],
    ]
}

#[test]
fn score_of_first_entry_or_nothing() {
    let map = vec![(Act::StayAct, 4), (Act::MoveAct(p(1)), -2), (Act::StayAct, 9)];
    assert_eq!(score(&map, Act::StayAct), 4);
    assert_eq!(score(&map, Act::MoveAct(p(1))), -2);
    assert_eq!(score(&map, Act::MoveAct(p(2))), 0);
}

#[test]
fn payoff_counts_what_happens() {
    let field = lane();
    let acts = vec![vec![Act::MoveAct(p(1))], vec![Act::PutAct(p(2))]];
    assert_eq!(payoff_of(&acts, &maps(), &field), 5);
    // both aim at the middle tile: nothing happens
    let acts = vec![vec![Act::MoveAct(p(1))], vec![Act::PutAct(p(1))]];
    assert_eq!(payoff_of(&acts, &maps(), &field), 0);
    let acts = vec![vec![Act::StayAct], vec![Act::PutAct(p(1))]];
    assert_eq!(payoff_of(&acts, &maps(), &field), 3);
}

#[test]
fn regrets_grow_by_what_was_missed() {
    let field = lane();
    let mut regret = vec![vec![vec![0i128, 0]], vec![vec![0i128, 0]]];
    let acts = vec![vec![Act::StayAct], vec![Act::PutAct(p(2))]];
    accumulate(&mut regret, &acts, &maps(), &field);
    assert_eq!(regret, vec![vec![vec![0, 5]], vec![vec![0, 3]]]);
    // both on the middle tile: each would have done better elsewhere
    let acts = vec![vec![Act::MoveAct(p(1))], vec![Act::PutAct(p(1))]];
    let before = regret.clone();
    accumulate(&mut regret, &acts, &maps(), &field);
    assert_eq!(regret, vec![vec![vec![3, 5]], vec![vec![5, 3]]]);
    for s in 0..2 {
        for k in 0..2 {
            assert!(regret[s][0][k] >= before[s][0][k]);
            assert!(regret[s][0][k] >= 0);
        }
    }
}

#[test]
fn strategy_is_uniform_without_regret() {
    let map = vec![(Act::StayAct, 1), (Act::MoveAct(p(1)), 2), (Act::MoveAct(p(2)), 3)];
    let out = strategy(&vec![0, 0, 0], &map);
    // the part that rounding leaves over goes to the first action
    assert_eq!(
        out,
        vec![(Act::StayAct, 333_334), (Act::MoveAct(p(1)), 333_333), (Act::MoveAct(p(2)), 333_333)]
    );
    assert_eq!(strategy(&vec![0], &vec![(Act::StayAct, 9)]), vec![(Act::StayAct, 1_000_000)]);
    let even = strategy(&vec![0, 0], &vec![(Act::StayAct, 1), (Act::MoveAct(p(1)), 2)]);
    assert_eq!(even, vec![(Act::StayAct, 500_000), (Act::MoveAct(p(1)), 500_000)]);
}

#[test]
fn strategy_follows_the_regrets_and_sums_to_one() {
    let map = vec![(Act::StayAct, 1), (Act::MoveAct(p(1)), 2), (Act::MoveAct(p(2)), 3)];
    let out = strategy(&vec![1, 3, 0], &map);
    assert_eq!(
        out,
        vec![(Act::StayAct, 250_000), (Act::MoveAct(p(1)), 750_000), (Act::MoveAct(p(2)), 0)]
    );
    let out = strategy(&vec![1, 1, 1], &map);
    let sum: i64 = out.iter().map(|(_, v)| *v).sum();
    assert_eq!(sum, 1_000_000);
    let out = strategy(&vec![7, 11, 13], &map);
    let sum: i64 = out.iter().map(|(_, v)| *v).sum();
    assert_eq!(sum, 1_000_000);
    // 225806, 354838 and 419354 leave two parts over
    assert_eq!(out[0].1, 7 * 1_000_000 / 31 + 1);
    assert_eq!(out[1].1, 11 * 1_000_000 / 31 + 1);
    assert_eq!(out[2].1, 13 * 1_000_000 / 31);
    // seven actions of equal regret: 142857 each, and one part over
    let seven: Vec<(Act, i64)> = (0..7).map(|x| (Act::MoveAct(p(x)), 0)).collect();
    let out = strategy(&vec![5; 7], &seven);
    assert_eq!(out[0].1, 142_858);
    assert!(out[1..].iter().all(|(_, v)| *v == 142_857));
}

#[test]
fn sampling_stays_in_the_support() {
    let mut rng = StdRng::seed_from_u64(5);
    let mut seen = [0; 3];
    for _ in 0..200 {
        let k = sample_index(&mut rng, &vec![0, 4, 1]);
        assert!(k == 1 || k == 2);
        seen[k] += 1;
    }
    assert!(seen[1] > seen[2] && seen[2] > 0);
    let mut seen = [0; 3];
    for _ in 0..200 {
        seen[sample_index(&mut rng, &vec![0, 0, 0])] += 1;
    }
    assert!(seen.iter().all(|c| *c > 20));
}

#[test]
fn sampled_actions_come_from_the_maps() {
    let mut rng = StdRng::seed_from_u64(11);
    let regret = vec![vec![vec![0i128, 2]], vec![vec![0i128, 0]]];
    for _ in 0..50 {
        let acts = sample_acts(&mut rng, &regret, &maps(), 1);
        assert_eq!(acts[0], vec![Act::MoveAct(p(1))]);
        assert!(acts[1] == vec![Act::PutAct(p(2))] || acts[1] == vec![Act::PutAct(p(1))]);
    }
}

#[test]
fn regret_matching_without_rounds_is_uniform() {
    let mut rng = StdRng::seed_from_u64(3);
    let prob = regret_matching(&mut rng, false, &maps(), &lane(), 0);
    assert_eq!(prob, vec![vec![(Act::StayAct, 500_000), (Act::MoveAct(p(1)), 500_000)]]);
}

#[test]
fn regret_matching_turns_to_the_action_that_pays() {
    let scores = vec![
        vec![vec![(Act::StayAct, 0), (Act::MoveAct(p(1)), 5)]],
        vec![vec![(Act::PutAct(p(2)), 0)]],
    ];
    for seed in 0..5 {
        let mut rng = StdRng::seed_from_u64(seed);
        let prob = regret_matching(&mut rng, false, &scores, &lane(), 20);
        let total: i64 = prob[0].iter().map(|(_, v)| *v).sum();
        assert_eq!(total, 1_000_000);
        // staying is never regretted, so once moving is, it is all there is
        if prob[0][1].1 != 500_000 {
            assert_eq!(prob, vec![vec![(Act::StayAct, 0), (Act::MoveAct(p(1)), 1_000_000)]]);
        }
        let other = regret_matching(&mut rng, true, &scores, &lane(), 3);
        assert_eq!(other, vec![vec![(Act::PutAct(p(2)), 1_000_000)]]);
    }
}

#[test]
fn a_draw_selects_the_action_whose_share_it_falls_in() {
    let row = vec![0, 3, 0, 2];
    assert_eq!(pick_index(&row, 0), 1);
    assert_eq!(pick_index(&row, 2), 1);
    assert_eq!(pick_index(&row, 3), 3);
    assert_eq!(pick_index(&row, 4), 3);
    // a draw outside the sum of the regrets selects the first action
    assert_eq!(pick_index(&row, 5), 0);
    assert_eq!(pick_index(&row, -1), 0);
}

#[test]
fn rounds_in_which_everything_ties_leave_the_strategy_uniform() {
    let walls = vec![vec![0u32; 1]; 3];
    let points = vec![vec![0i8]; 3];
    let agents = vec![vec![Some(p(0))], vec![Some(p(2))]];
    let field = Field::from_data(3, 1, teams(), walls, points, agents, 0, 10);
    let scores = vec![
        vec![vec![(Act::StayAct, 0)]],
        vec![vec![(Act::StayAct, 0), (Act::MoveAct(p(1)), 0)]],
    ];
    for seed in 0..5 {
        let mut rng = StdRng::seed_from_u64(seed);
        let prob = regret_matching(&mut rng, true, &scores, &field, 2);
        assert_eq!(prob, vec![vec![(Act::StayAct, 500_000), (Act::MoveAct(p(1)), 500_000)]]);
    }
}
