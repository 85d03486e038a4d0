use procon31_comp::algorithms::assignment::{primal_dual, try_primal_dual};
use procon31_comp::api::parse::TeamData;
use procon31_comp::field::{Field, Point};
use procon31_comp::simulator::Act;

fn teams() -> Vec<TeamData> {
    vec![
        TeamData { team_id: 1, agent_id: vec![10, 11] },
        TeamData { team_id: 2, agent_id: vec![20, 21] },
    ]
}

fn board(width: usize, height: usize, points: Vec<Vec<i8>>, agents: Vec<Vec<Option<Point>>>) -> Field {
    let walls = vec![vec![0u32; height]; width];
    Field::from_data(width, height, teams(), walls, points, agents, 0, 10)
}

#[test]
fn staying_beats_a_losing_move() {
    let field = board(
        2,
        1,
        vec![vec![5], vec![-3]],
        vec![vec![Some(Point::new(0, 0)), Some(Point::new(1, 0))], vec![None, None]],
    );
    let maps = vec![
        vec![(Act::StayAct, 5), (Act::MoveAct(Point::new(1, 0)), -3)],
        vec![(Act::StayAct, 0)],
    ];
    let acts = primal_dual(false, &maps, &field);
    assert_eq!(acts[0], Act::StayAct);
    assert_eq!(acts, vec![Act::StayAct, Act::StayAct]);
}

#[test]
fn contested_tile_goes_to_the_higher_value() {
    let field = board(
        5,
        5,
        vec![vec![0; 5]; 5],
        vec![vec![Some(Point::new(1, 1)), Some(Point::new(3, 3))], vec![None, None]],
    );
    let target = Point::new(2, 2);
    let maps = vec![
        vec![(Act::StayAct, 0), (Act::MoveAct(target), 10)],
        vec![(Act::StayAct, 0), (Act::MoveAct(target), 7)],
    ];
    let acts = try_primal_dual(false, &maps, &field);
    assert_eq!(acts, Some(vec![Act::MoveAct(target), Act::StayAct]));
}

#[test]
fn no_assignment_without_enough_tiles() {
    let field = board(
        5,
        5,
        vec![vec![0; 5]; 5],
        vec![vec![Some(Point::new(1, 1)), Some(Point::new(3, 3))], vec![None, None]],
    );
    let target = Point::new(2, 2);
    let maps = vec![vec![(Act::MoveAct(target), 10)], vec![(Act::RemoveAct(target), 7)]];
    assert_eq!(try_primal_dual(false, &maps, &field), None);
}

use procon31_comp::algorithms::flow::FlowGraph;
use rand::rngs::StdRng;
use rand::Rng;
use rand::SeedableRng;

fn claimed(id: usize, act: &Act, field: &Field) -> Point {
    match act {
        Act::StayAct => field.agent(false, id).unwrap(),
        Act::PutAct(p) | Act::MoveAct(p) | Act::RemoveAct(p) => *p,
    }
}

/// The best total value of any assignment, by trying every choice.
fn brute_force(maps: &Vec<Vec<(Act, i64)>>, field: &Field) -> Option<i64> {
    fn go(
        maps: &Vec<Vec<(Act, i64)>>,
        field: &Field,
        id: usize,
        taken: &mut Vec<Point>,
        total: i64,
        best: &mut Option<i64>,
    ) {
        if id == maps.len() {
            if best.map_or(true, |b| total > b) {
                *best = Some(total);
            }
            return;
        }
        for (act, value) in &maps[id] {
            let tile = claimed(id, act, field);
            if !taken.contains(&tile) {
                taken.push(tile);
                go(maps, field, id + 1, taken, total + value, best);
                taken.pop();
            }
        }
    }
    let mut best = None;
    go(maps, field, 0, &mut Vec::new(), 0, &mut best);
    best
}

#[test]
fn assignment_is_feasible_and_optimal_on_small_instances() {
    let mut rng = StdRng::seed_from_u64(2020);
    let field = board(
        4,
        4,
        vec![vec![0; 4]; 4],
        vec![
            vec![Some(Point::new(0, 0)), Some(Point::new(1, 1)), Some(Point::new(2, 2))],
            vec![None, None, None],
        ],
    );
    let mut solved = 0;
    for _ in 0..300 {
        let mut maps = Vec::new();
        for _ in 0..3 {
            let count = rng.gen_range(1, 5);
            let mut map = Vec::new();
            for _ in 0..count {
                let tile = Point::new(rng.gen_range(0, 3), rng.gen_range(0, 2));
                let act = match rng.gen_range(0, 3) {
                    0 => Act::StayAct,
                    1 => Act::MoveAct(tile),
                    _ => Act::RemoveAct(tile),
                };
                map.push((act, rng.gen_range(-20, 21) as i64));
            }
            maps.push(map);
        }
        let expected = brute_force(&maps, &field);
        match try_primal_dual(false, &maps, &field) {
            None => assert_eq!(expected, None),
            Some(acts) => {
                solved += 1;
                assert_eq!(acts.len(), 3);
                let mut total = 0;
                let mut tiles = Vec::new();
                for (id, act) in acts.iter().enumerate() {
                    let best_of_act =
                        maps[id].iter().filter(|(a, _)| a == act).map(|(_, v)| *v).max();
                    assert!(best_of_act.is_some());
                    let tile = claimed(id, act, &field);
                    assert!(!tiles.contains(&tile));
                    tiles.push(tile);
                    total += best_of_act.unwrap();
                }
                assert_eq!(Some(total), expected);
            }
        }
    }
    assert!(solved > 50);
}

#[test]
fn assignment_prefers_the_larger_sum_over_the_largest_value() {
    let field = board(
        3,
        1,
        vec![vec![0], vec![0], vec![0]],
        vec![vec![Some(Point::new(0, 0)), Some(Point::new(2, 0))], vec![None, None]],
    );
    let mid = Point::new(1, 0);
    let maps = vec![
        vec![(Act::MoveAct(mid), 10), (Act::StayAct, 9)],
        vec![(Act::MoveAct(mid), 8), (Act::StayAct, 0)],
    ];
    // 9 + 8 beats 10 + 0
    assert_eq!(primal_dual(false, &maps, &field), vec![Act::StayAct, Act::MoveAct(mid)]);
}

#[test]
fn assignment_handles_large_and_negative_values() {
    let field = board(
        2,
        1,
        vec![vec![0], vec![0]],
        vec![vec![Some(Point::new(0, 0)), Some(Point::new(1, 0))], vec![None, None]],
    );
    let maps = vec![
        vec![(Act::StayAct, i64::MIN), (Act::MoveAct(Point::new(1, 0)), i64::MAX)],
        vec![(Act::StayAct, -5), (Act::MoveAct(Point::new(0, 0)), -4)],
    ];
    assert_eq!(
        try_primal_dual(false, &maps, &field),
        Some(vec![Act::MoveAct(Point::new(1, 0)), Act::MoveAct(Point::new(0, 0))])
    );
    let none: Vec<Vec<(Act, i64)>> = Vec::new();
    assert_eq!(try_primal_dual(false, &none, &field), Some(vec![]));
    assert_eq!(try_primal_dual(false, &vec![vec![]], &field), None);
}

#[test]
fn flow_graph_routes_along_the_cheapest_path() {
    // 0 -> 1 -> 3 costs 5, 0 -> 2 -> 3 costs 3
    let mut graph = FlowGraph::new(4);
    graph.add(0, 1, 1, 1, None);
    graph.add(1, 3, 1, 4, None);
    graph.add(0, 2, 1, 2, None);
    graph.add(2, 3, 1, 1, Some(Act::StayAct));
    let (routing, _) = graph.solve(0, 3, 1);
    assert_eq!(routing.routed, 1);
    assert_eq!(graph.edges[0][0].cap, 1);
    assert_eq!(graph.edges[0][1].cap, 0);
    assert_eq!(graph.edges[2][1].cap, 0);
    assert_eq!(graph.edges[2][1].act, Some(Act::StayAct));
    assert_eq!(graph.edges[3][1].cap, 1);
    let (routing, _) = graph.solve(0, 3, 5);
    assert_eq!(routing.routed, 1);
    assert_eq!(graph.edges[0][0].cap, 0);
    assert_eq!(routing.last.dist[3], i128::MAX);
}

#[test]
fn shortest_paths_finds_distances_and_edges() {
    let mut graph = FlowGraph::new(3);
    graph.add(0, 1, 1, 7, None);
    graph.add(1, 2, 1, 2, None);
    graph.add(0, 2, 1, 10, None);
    let (search, _) = graph.shortest_paths(0, &vec![0, 0, 0]);
    assert_eq!(search.dist, vec![0, 7, 9]);
    assert_eq!(search.prev_v[2], 1);
    assert_eq!(search.prev_e[2], 1);
    assert_eq!(search.prev_v[1], 0);
}
