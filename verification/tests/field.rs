use procon31_comp::api::parse::TeamData;
use procon31_comp::field::{Field, Point, PointUsize, Score, State, Tile};
use rand::rngs::StdRng;
use rand::SeedableRng;

fn teams() -> Vec<TeamData> {
    vec![
        TeamData { team_id: 1, agent_id: vec![10] },
        TeamData { team_id: 2, agent_id: vec![20] },
    ]
}

/// A 5x5 board on which the first team has walled in the centre tile.
fn ringed() -> Field {
    let mut walls = vec![vec![0u32; 5]; 5];
    for x in 1..4 {
        for y in 1..4 {
            if (x, y) != (2, 2) {
                walls[x][y] = 1;
            }
        }
    }
    let mut points = vec![vec![1i8; 5]; 5];
    points[2][2] = -7;
    points[1][1] = 4;
    let agents = vec![vec![Some(Point::new(1, 1))], vec![None]];
    Field::from_data(5, 5, teams(), walls, points, agents, 3, 30)
}

#[test]
fn point_is_neighbor_within_one_step() {
    let p = Point::new(1, 1);
    assert!(p.neighbor(Point::new(2, 2)));
    assert!(p.neighbor(Point::new(0, 1)));
    assert!(p.neighbor(p));
    assert!(!p.neighbor(Point::new(3, 1)));
    assert!(!p.neighbor(Point::new(1, -1)));
}

#[test]
fn point_add_and_conversions() {
    let p = Point::new(3, 4) + Point::new(-1, 1);
    assert_eq!(p, Point::new(2, 5));
    assert_eq!(p.usize(), PointUsize::new(2, 5));
    assert_eq!(PointUsize::new(7, 9).normal(), Point::new(7, 9));
}

#[test]
fn score_parts_and_sum() {
    let s = Score { tile: 12, region: -5 };
    assert_eq!(s.tile(), 12);
    assert_eq!(s.region(), -5);
    assert_eq!(s.sum(), 7);
}

#[test]
fn state_kinds() {
    assert!(State::Wall(true).is_wall());
    assert!(!State::Wall(false).is_position());
    assert!(State::Position(false).is_position());
    assert!(!State::Neutral.is_wall());
    assert!(!State::Neutral.is_position());
    let t = Tile { state: State::Wall(true), point: -3 };
    assert_eq!(t.state(), State::Wall(true));
    assert_eq!(t.point(), -3);
}

#[test]
fn from_data_reads_walls_points_and_agents() {
    let field = ringed();
    assert_eq!(field.width(), 5);
    assert_eq!(field.height(), 5);
    assert_eq!(field.agent_count(), 1);
    assert_eq!(field.now_turn(), 3);
    assert_eq!(field.final_turn(), 30);
    assert_eq!(field.agent(false, 0), Some(Point::new(1, 1)));
    assert_eq!(field.agent(true, 0), None);
    assert_eq!(field.tile(PointUsize::new(1, 1)), Tile { state: State::Wall(false), point: 4 });
    assert_eq!(field.tile(PointUsize::new(0, 0)), Tile { state: State::Neutral, point: 1 });
}

#[test]
fn enclosed_tile_becomes_region_of_the_encloser() {
    let field = ringed();
    assert_eq!(field.tile(PointUsize::new(2, 2)).state(), State::Position(false));
    // seven walls worth 1 and one worth 4; the enclosed tile counts by magnitude
    assert_eq!(field.score(false), Score { tile: 11, region: 7 });
    assert_eq!(field.score(true), Score { tile: 0, region: 0 });
}

#[test]
fn calc_region_sizes() {
    let field = ringed();
    let first = field.calc_region(false);
    assert_eq!(first[2][2], 1);
    assert_eq!(first[0][0], 25);
    assert_eq!(first[1][1], 25);
    let second = field.calc_region(true);
    assert_eq!(second[2][2], 25);
    assert_eq!(second[4][4], 25);
}

#[test]
fn inside_checks_both_bounds() {
    let field = ringed();
    assert!(field.inside(Point::new(0, 0)));
    assert!(field.inside(Point::new(4, 4)));
    assert!(!field.inside(Point::new(5, 0)));
    assert!(!field.inside(Point::new(0, 5)));
    assert!(!field.inside(Point::new(-1, 2)));
    assert!(!field.inside(Point::new(2, -1)));
}

#[test]
fn set_state_and_update_score() {
    let mut field = ringed();
    field.set_state(PointUsize::new(0, 0), State::Wall(true));
    field.set_state(PointUsize::new(2, 2), State::Neutral);
    field.update_score();
    assert_eq!(field.score(true), Score { tile: 1, region: 0 });
    assert_eq!(field.score(false), Score { tile: 11, region: 0 });
    field.update_region();
    assert_eq!(field.tile(PointUsize::new(2, 2)).state(), State::Position(false));
}

#[test]
fn set_agent_and_update_turn() {
    let mut field = ringed();
    field.set_agent(true, 0, Some(Point::new(4, 4)));
    assert_eq!(field.agent(true, 0), Some(Point::new(4, 4)));
    field.set_agent(false, 0, None);
    assert_eq!(field.agent(false, 0), None);
    field.update_turn();
    assert_eq!(field.now_turn(), 4);
}

#[test]
fn clone_keeps_the_board() {
    let field = ringed();
    let copy = field.clone();
    assert_eq!(copy.width(), 5);
    assert_eq!(copy.tile(PointUsize::new(2, 2)), field.tile(PointUsize::new(2, 2)));
    assert_eq!(copy.score(false), field.score(false));
}

#[test]
fn new_board_is_neutral_and_in_range() {
    let mut rng = StdRng::seed_from_u64(7);
    let field = Field::new(&mut rng, None, None, None);
    assert!((12..25).contains(&field.width()));
    assert!((12..25).contains(&field.height()));
    assert!((6..15).contains(&field.agent_count()));
    assert_eq!(field.now_turn(), 0);
    assert_eq!(field.final_turn(), 50);
    let mut negative = 0;
    for x in 0..field.width() {
        for y in 0..field.height() {
            let tile = field.tile(PointUsize::new(x, y));
            assert_eq!(tile.state(), State::Neutral);
            assert!((-16..=16).contains(&tile.point()));
            if tile.point() < 0 {
                negative += 1;
            }
        }
    }
    assert!(negative > 0);
    for id in 0..field.agent_count() {
        assert_eq!(field.agent(false, id), None);
        assert_eq!(field.agent(true, id), None);
    }
    assert_eq!(field.score(false), Score { tile: 0, region: 0 });
}

#[test]
fn new_board_takes_given_sizes() {
    let mut rng = StdRng::seed_from_u64(1);
    let field = Field::new(&mut rng, Some(3), Some(4), Some(2));
    assert_eq!(field.width(), 3);
    assert_eq!(field.height(), 4);
    assert_eq!(field.agent_count(), 2);
    let other = Field::read_field(&mut rng, "any");
    assert!((12..25).contains(&other.width()));
}
