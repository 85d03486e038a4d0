use procon31_comp::algorithms::base::{make_acts, make_neighbors, point, tile_pos};
use procon31_comp::api::parse::TeamData;
use procon31_comp::field::{Field, Point, PointUsize, State};
use procon31_comp::simulator::Act;

fn teams() -> Vec<TeamData> {
    vec![
        TeamData { team_id: 1, agent_id: vec![10, 11] },
        TeamData { team_id: 2, agent_id: vec![20, 21] },
    ]
}

/// A 3x3 board: a wall of the first team at (1,0), one of the second at
/// (0,1), the centre worth -2.
fn board(first: Vec<Option<Point>>, second: Vec<Option<Point>>) -> Field {
    let mut walls = vec![vec![0u32; 3]; 3];
    walls[1][0] = 1;
    walls[0][1] = 2;
    let mut points = vec![vec![3i8; 3]; 3];
    points[1][1] = -2;
    points[1][0] = 5;
    points[0][1] = 6;
    Field::from_data(3, 3, teams(), walls, points, vec![first, second], 0, 10)
}

#[test]
fn neighbors_of_a_corner() {
    let field = board(vec![None, None], vec![None, None]);
    assert_eq!(
        make_neighbors(Point::new(0, 0), &field),
        vec![Point::new(0, 1), Point::new(1, 0), Point::new(1, 1)]
    );
}

#[test]
fn neighbors_of_the_centre_come_column_by_column() {
    let field = board(vec![None, None], vec![None, None]);
    assert_eq!(
        make_neighbors(Point::new(1, 1), &field),
        vec![
            Point::new(0, 0),
            Point::new(0, 1),
            Point::new(0, 2),
            Point::new(1, 0),
            Point::new(1, 2),
            Point::new(2, 0),
            Point::new(2, 1),
            Point::new(2, 2),
        ]
    );
    assert_eq!(make_neighbors(Point::new(9, 9), &field), vec![]);
    assert_eq!(make_neighbors(Point::new(127, 127), &field), vec![]);
}

#[test]
fn candidates_on_a_lane_of_two() {
    let walls = vec![vec![0u32; 1]; 2];
    let points = vec![vec![5i8], vec![-3]];
    let agents = vec![vec![Some(Point::new(0, 0)), None], vec![None, None]];
    let field = Field::from_data(2, 1, teams(), walls, points, agents, 0, 10);
    assert_eq!(make_acts(false, 0, &field), vec![Act::StayAct, Act::MoveAct(Point::new(1, 0))]);
}

#[test]
fn candidates_next_to_walls() {
    let field = board(vec![Some(Point::new(0, 0)), None], vec![None, None]);
    assert_eq!(
        make_acts(false, 0, &field),
        vec![
            Act::StayAct,
            Act::RemoveAct(Point::new(0, 1)),
            Act::MoveAct(Point::new(0, 1)),
            Act::MoveAct(Point::new(1, 0)),
            Act::MoveAct(Point::new(1, 1)),
        ]
    );
}

#[test]
fn candidates_of_an_agent_off_the_board() {
    let field = board(vec![None, Some(Point::new(2, 2))], vec![Some(Point::new(0, 0)), None]);
    // not (0,0) and (2,2): taken; not (1,0): own wall; not (1,1): worth too little
    assert_eq!(
        make_acts(false, 0, &field),
        vec![
            Act::PutAct(Point::new(0, 1)),
            Act::PutAct(Point::new(0, 2)),
            Act::PutAct(Point::new(1, 2)),
            Act::PutAct(Point::new(2, 0)),
            Act::PutAct(Point::new(2, 1)),
        ]
    );
}

#[test]
fn value_of_entering_and_removing() {
    let mut field = board(vec![None, None], vec![None, None]);
    field.set_state(PointUsize::new(2, 2), State::Position(true));
    field.set_state(PointUsize::new(2, 1), State::Position(false));
    field.set_state(PointUsize::new(1, 1), State::Position(true));
    assert_eq!(point(false, Act::StayAct, &field), None);
    assert_eq!(point(false, Act::MoveAct(Point::new(0, 0)), &field), Some(3));
    assert_eq!(point(false, Act::PutAct(Point::new(0, 0)), &field), Some(3));
    assert_eq!(point(false, Act::MoveAct(Point::new(2, 2)), &field), Some(6));
    assert_eq!(point(false, Act::MoveAct(Point::new(2, 1)), &field), Some(0));
    assert_eq!(point(false, Act::MoveAct(Point::new(1, 1)), &field), Some(0));
    assert_eq!(point(true, Act::MoveAct(Point::new(1, 1)), &field), Some(-4));
    assert_eq!(point(false, Act::MoveAct(Point::new(1, 0)), &field), Some(0));
    assert_eq!(point(false, Act::MoveAct(Point::new(0, 1)), &field), None);
    assert_eq!(point(false, Act::RemoveAct(Point::new(0, 1)), &field), Some(6));
    assert_eq!(point(false, Act::RemoveAct(Point::new(1, 0)), &field), Some(-5));
    assert_eq!(point(false, Act::RemoveAct(Point::new(0, 0)), &field), None);
    assert_eq!(point(false, Act::MoveAct(Point::new(3, 0)), &field), None);
    assert_eq!(point(false, Act::RemoveAct(Point::new(0, -1)), &field), None);
}

#[test]
fn value_can_exceed_a_tile() {
    let walls = vec![vec![0u32; 1]; 1];
    let points = vec![vec![127i8]];
    let agents = vec![vec![None], vec![None]];
    let mut field = Field::from_data(1, 1, teams(), walls, points, agents, 0, 10);
    field.set_state(PointUsize::new(0, 0), State::Position(true));
    assert_eq!(point(false, Act::MoveAct(Point::new(0, 0)), &field), Some(254));
}

#[test]
fn tile_claimed_by_an_action() {
    let field = board(vec![Some(Point::new(2, 0)), None], vec![None, None]);
    assert_eq!(tile_pos(false, 0, &Act::StayAct, &field), Point::new(2, 0));
    assert_eq!(tile_pos(false, 0, &Act::MoveAct(Point::new(2, 1)), &field), Point::new(2, 1));
    assert_eq!(tile_pos(false, 1, &Act::PutAct(Point::new(0, 2)), &field), Point::new(0, 2));
    assert_eq!(tile_pos(false, 0, &Act::RemoveAct(Point::new(1, 0)), &field), Point::new(1, 0));
}
