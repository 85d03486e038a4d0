use procon31_comp::api::parse::{
    get_team_data, id_table, parse_field_data, parse_matches_data, point_table, to_result,
    transpose, AgentDescription, FieldDescription, MatchDescription, TeamData, TeamDescription,
};
use procon31_comp::api::request::{action_record, action_records, ActKind, ActionRecord};
use procon31_comp::simulator::Act;
use procon31_comp::field::{Point, PointUsize, Score, State, Tile};

fn team(team_id: u64, places: &[(u64, u64)]) -> TeamDescription {
    TeamDescription {
        team_id,
        agents: places
            .iter()
            .enumerate()
            .map(|(i, (x, y))| AgentDescription { agent_id: team_id * 10 + i as u64, x: *x, y: *y })
            .collect(),
    }
}

/// Three columns, two rows; a wall of team 5 in the upper right corner.
fn description() -> FieldDescription {
    FieldDescription {
        width: 3,
        height: 2,
        turn: 4,
        teams: vec![team(5, &[(3, 1), (0, 0)]), team(9, &[(1, 2), (0, 7)])],
        walls: vec![vec![0, 0, 5], vec![0, 9, 0]],
        points: vec![vec![1, 2, 3], vec![-4, 5, 6]],
    }
}

#[test]
fn to_result_names_what_is_missing() {
    assert_eq!(to_result(Some(3), "width"), Ok(3));
    assert_eq!(to_result::<u8>(None, "width"), Err("couldn't parse width".to_string()));
    assert_eq!(to_result::<u8>(None, ""), Err("couldn't parse ".to_string()));
}

#[test]
fn rows_become_columns() {
    assert_eq!(
        transpose(&vec![vec![1, 2, 3], vec![4, 5, 6]]),
        Some(vec![vec![1, 4], vec![2, 5], vec![3, 6]])
    );
    assert_eq!(transpose(&vec![vec![7]]), Some(vec![vec![7]]));
    assert_eq!(transpose::<u8>(&vec![vec![], vec![]]), Some(vec![]));
    assert_eq!(transpose(&vec![vec![1, 2], vec![3]]), None);
    assert_eq!(transpose::<u8>(&vec![]), None);
}

#[test]
fn tables_of_ids_and_points() {
    assert_eq!(id_table(&vec![vec![0, 4_294_967_295], vec![7]]), Some(vec![vec![0, 4_294_967_295], vec![7]]));
    assert_eq!(id_table(&vec![vec![0, -1]]), None);
    assert_eq!(id_table(&vec![vec![4_294_967_296]]), None);
    assert_eq!(point_table(&vec![vec![-128, 127]]), Some(vec![vec![-128, 127]]));
    assert_eq!(point_table(&vec![vec![128]]), None);
    assert_eq!(point_table(&vec![vec![0], vec![-129]]), None);
}

#[test]
fn two_teams_are_needed() {
    let data = get_team_data(&vec![team(5, &[(1, 1)]), team(9, &[]), team(11, &[])]).unwrap();
    assert_eq!(data.len(), 2);
    assert_eq!(data[0].team_id, 5);
    assert_eq!(data[0].agent_id, vec![50]);
    assert_eq!(data[1].agent_id, Vec::<u32>::new());
    assert_eq!(get_team_data(&vec![team(5, &[])]).unwrap_err(), "couldn't parse teams");
}

#[test]
fn matches_are_listed() {
    let list = vec![
        MatchDescription { match_id: 7, turns: 40, teams: vec![team(1, &[]), team(2, &[])] },
        MatchDescription { match_id: 1 << 32, turns: 3, teams: vec![team(3, &[]), team(4, &[])] },
    ];
    let data = parse_matches_data(&list).unwrap();
    assert_eq!(data.len(), 2);
    assert_eq!((data[0].match_id, data[0].final_turn), (7, 40));
    assert_eq!(data[1].match_id, 0);
    assert_eq!(data[1].teams[1].team_id, 4);
    let short = vec![MatchDescription { match_id: 7, turns: 40, teams: vec![team(1, &[])] }];
    assert_eq!(parse_matches_data(&short).unwrap_err(), "couldn't parse teams");
}

#[test]
fn a_board_is_made_of_its_description() {
    let data = parse_field_data(&description(), 30).unwrap();
    let field = &data.field;
    assert_eq!((field.width(), field.height(), field.agent_count()), (3, 2, 2));
    assert_eq!((field.now_turn(), field.final_turn()), (4, 30));
    assert_eq!(field.agent(false, 0), Some(Point::new(2, 0)));
    assert_eq!(field.agent(false, 1), None);
    assert_eq!(field.agent(true, 0), Some(Point::new(0, 1)));
    assert_eq!(field.agent(true, 1), None);
    assert_eq!(field.tile(PointUsize::new(2, 0)), Tile { state: State::Wall(false), point: 3 });
    assert_eq!(field.tile(PointUsize::new(1, 1)), Tile { state: State::Wall(true), point: 5 });
    assert_eq!(field.tile(PointUsize::new(0, 1)), Tile { state: State::Neutral, point: -4 });
    assert_eq!(field.score(false), Score { tile: 3, region: 0 });
    assert_eq!(field.score(true), Score { tile: 5, region: 0 });
    assert_eq!(data.teams[0].team_id, 5);
    assert_eq!(data.teams[1].agent_id, vec![90, 91]);
}

#[test]
fn what_is_no_board_is_refused() {
    let ok = description();
    let cases: Vec<(Box<dyn Fn(&mut FieldDescription)>, &str)> = vec![
        (Box::new(|d| d.width = 0), "width"),
        (Box::new(|d| d.width = 128), "width"),
        (Box::new(|d| d.height = 128), "width"),
        (Box::new(|d| d.turn = 31), "turn"),
        (Box::new(|d| d.teams.truncate(1)), "teams"),
        (Box::new(|d| d.teams[0].agents.truncate(1)), "agents"),
        (Box::new(|d| d.teams[1].agents[0].y = 0), "x"),
        (Box::new(|d| d.teams[1].agents[0].x = 129), "x"),
        (Box::new(|d| d.walls[1].truncate(2)), "walls"),
        (Box::new(|d| d.walls.truncate(1)), "walls"),
        (Box::new(|d| d.walls[0][0] = -1), "walls"),
        (Box::new(|d| d.points[0][0] = 128), "points"),
        (Box::new(|d| d.points[1][2] = -128), "points"),
        (Box::new(|d| d.points = vec![]), "points"),
        (Box::new(|d| d.width = 4), "walls"),
        (Box::new(|d| d.height = 3), "walls"),
    ];
    for (i, (change, fault)) in cases.iter().enumerate() {
        let mut d = ok.clone();
        change(&mut d);
        let message = parse_field_data(&d, 30).err();
        assert_eq!(message, Some(format!("couldn't parse {}", fault)), "case {}", i);
    }
    assert!(parse_field_data(&ok, 4).is_ok());
    // a larger table than the board asks for is fine
    let mut d = ok.clone();
    d.width = 2;
    assert_eq!(parse_field_data(&d, 30).unwrap().field.width(), 2);
}

#[test]
fn points_must_fit_a_score() {
    let side = 17;
    let d = FieldDescription {
        width: side,
        height: side,
        turn: 0,
        teams: vec![team(1, &[]), team(2, &[])],
        walls: vec![vec![0; side as usize]; side as usize],
        points: vec![vec![-127; side as usize]; side as usize],
    };
    // 289 tiles of magnitude 127 are more than 32767
    assert!(parse_field_data(&d, 10).is_err());
    let mut d = d;
    // 289 * 113 = 32657 leaves room for 110 more
    d.points = vec![vec![113; side as usize]; side as usize];
    assert!(parse_field_data(&d, 10).is_ok());
    for x in 0..7 {
        d.points[3][x] = -127;
    }
    assert!(parse_field_data(&d, 10).is_ok());
    d.points[3][7] = 126;
    assert!(parse_field_data(&d, 10).is_err());
    d.points[3][7] = 125;
    assert_eq!(parse_field_data(&d, 10).unwrap().field.height(), 17);
}

#[test]
fn the_server_is_told_targets_counted_from_one() {
    assert_eq!(
        action_record(Act::StayAct, 7),
        ActionRecord { x: 0, y: 0, kind: ActKind::Stay, agent_id: 7 }
    );
    assert_eq!(
        action_record(Act::MoveAct(Point::new(0, 126)), 8),
        ActionRecord { x: 1, y: 127, kind: ActKind::Move, agent_id: 8 }
    );
    assert_eq!(
        action_record(Act::RemoveAct(Point::new(127, -1)), 9),
        ActionRecord { x: 128, y: 0, kind: ActKind::Remove, agent_id: 9 }
    );
    let team = TeamData { team_id: 1, agent_id: vec![10, 11] };
    let acts = vec![Act::PutAct(Point::new(2, 3)), Act::StayAct, Act::StayAct];
    assert_eq!(
        action_records(&acts, &team),
        vec![
            ActionRecord { x: 3, y: 4, kind: ActKind::Put, agent_id: 10 },
            ActionRecord { x: 0, y: 0, kind: ActKind::Stay, agent_id: 11 },
        ]
    );
    assert_eq!(ActKind::Stay.name(), "stay");
    assert_eq!(ActKind::Put.name(), "put");
    assert_eq!(ActKind::Move.name(), "move");
    assert_eq!(ActKind::Remove.name(), "remove");
}
