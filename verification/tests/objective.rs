use procon31_comp::algorithms::objective::{
    gap_of, part_of, power_at, Weights, COLLISION, MAX_PARAM,
};
use procon31_comp::algorithms::social_distance::{SocialDistance, UNIT};
use procon31_comp::algorithms::Solver;
use procon31_comp::api::parse::TeamData;
use procon31_comp::field::{Field, Point};
use procon31_comp::simulator::Act;

fn teams() -> Vec<TeamData> {
    vec![
        TeamData { team_id: 1, agent_id: vec![10, 11] },
        TeamData { team_id: 2, agent_id: vec![20, 21] },
    ]
}

fn p(x: i8, y: i8) -> Point {
    Point::new(x, y)
}

/// A way that goes from `from` over `over` to `to` and stays there.
fn way(from: Point, over: Point, to: Point) -> (i64, Act, Vec<Point>) {
    (0, Act::MoveAct(over), vec![from, over, to, to, to, to])
}

fn nothing() -> Weights {
    Weights {
        first_move_bonus: 0,
        conf_per: UNIT,
        conf_pena: 0,
        dist_pena: 0,
        dist_pow: UNIT,
        region_per: 0,
        region_pow: UNIT,
    }
}

/// A 3x3 board of tiles worth one point, without walls or agents.
fn plain() -> Field {
    let walls = vec![vec![0u32; 3]; 3];
    let points = vec![vec![1i8; 3]; 3];
    Field::from_data(3, 3, teams(), walls, points, vec![vec![None, None], vec![None, None]], 0, 10)
}

#[test]
fn parts_and_powers_round_down() {
    assert_eq!(part_of(10, 500_000), 5);
    assert_eq!(part_of(3, 500_000), 1);
    assert_eq!(part_of(7, UNIT), 7);
    assert_eq!(part_of(7, 0), 0);
    assert_eq!(power_at(500_000, 0), UNIT);
    assert_eq!(power_at(500_000, 3), 125_000);
    assert_eq!(power_at(900_000, 4), 656_100);
    assert_eq!(power_at(333_333, 2), 111_110);
    assert_eq!(gap_of(p(0, 0), p(3, -4)), 25);
    assert_eq!(gap_of(p(2, 2), p(2, 2)), 0);
}

#[test]
fn weights_must_be_in_range() {
    assert!(nothing().fits());
    assert!(Weights { dist_pena: MAX_PARAM, ..nothing() }.fits());
    assert!(!Weights { dist_pena: MAX_PARAM + 1, ..nothing() }.fits());
    assert!(!Weights { conf_per: UNIT + 1, ..nothing() }.fits());
    assert!(!Weights { region_per: -1, ..nothing() }.fits());
}

#[test]
fn ways_count_their_value_and_their_first_step() {
    let field = plain();
    let solver = SocialDistance::new(false, &field);
    let w = Weights { first_move_bonus: 1_500_000, ..nothing() };
    let mut plan = way(p(0, 0), p(0, 1), p(1, 1));
    plan.0 = 6_000_000;
    let (score, reach) = solver.calc_score(&w, &vec![vec![plan]], &vec![0]);
    // the first step gains one point, which counts one and a half times
    assert_eq!(score, 7_500_000);
    assert_eq!(reach, vec![UNIT]);
}

#[test]
fn a_first_step_onto_one_tile_is_a_collision() {
    let field = plain();
    let solver = SocialDistance::new(false, &field);
    let first = vec![way(p(0, 0), p(1, 1), p(1, 2))];
    let second = vec![way(p(2, 0), p(2, 1), p(1, 1)), way(p(2, 0), p(1, 1), p(1, 0))];
    let bs_data = vec![first, second];
    let (score, reach) = solver.calc_score(&nothing(), &bs_data, &vec![0, 1]);
    assert_eq!(score, COLLISION as i128);
    assert_eq!(reach, vec![UNIT, UNIT]);
    let (score, _) = solver.calc_score(&nothing(), &bs_data, &vec![0, 0]);
    assert_eq!(score, 0);
}

#[test]
fn agents_that_meet_lose_by_crowding_and_by_the_tile_taken() {
    let field = plain();
    let solver = SocialDistance::new(false, &field);
    let w = Weights {
        conf_per: 500_000,
        conf_pena: 1_000_000,
        dist_pena: 1_000_000,
        dist_pow: 500_000,
        ..nothing()
    };
    let bs_data = vec![vec![way(p(0, 0), p(0, 1), p(1, 1))], vec![way(p(2, 0), p(2, 1), p(1, 1))]];
    let (score, reach) = solver.calc_score(&w, &bs_data, &vec![0, 0]);
    // crowding: 125000 two tiles apart, then 500000, 125000, 62500 and 31250 on one tile;
    // the second agent finds the tile taken by half: 250000, 125000, 62500 and 31250
    assert_eq!(score, -1_312_500);
    assert_eq!(reach, vec![UNIT, 500_000]);
    // without the weights nothing is lost, but the second agent is no surer to arrive
    let (score, reach) = solver.calc_score(&Weights { conf_per: 500_000, ..nothing() }, &bs_data, &vec![0, 0]);
    assert_eq!(score, 0);
    assert_eq!(reach, vec![UNIT, 500_000]);
}

#[test]
fn walls_on_the_way_gain_the_region_they_close() {
    let mut walls = vec![vec![0u32; 3]; 3];
    walls[1][0] = 1;
    walls[0][1] = 1;
    walls[2][1] = 1;
    let mut points = vec![vec![1i8; 3]; 3];
    points[1][1] = 5;
    let field = Field::from_data(3, 3, teams(), walls, points, vec![vec![None], vec![None]], 0, 10);
    let solver = SocialDistance::new(false, &field);
    let w = Weights { region_per: 1_000_000, region_pow: 900_000, ..nothing() };
    let bs_data = vec![vec![way(p(0, 2), p(1, 2), p(1, 2))]];
    let (score, reach) = solver.calc_score(&w, &bs_data, &vec![0]);
    // the region of five points is counted from the second turn on: 5 * (0.9 + 0.81 + 0.729 + 0.6561)
    assert_eq!(score, 15_475_500);
    assert_eq!(reach, vec![UNIT]);
    // the board of the solver is left as it was
    assert_eq!(field.score(false).region(), 0);
}
