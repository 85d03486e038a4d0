use procon31_comp::api::parse::TeamData;
use procon31_comp::field::{Field, Point, PointUsize, Score, State};
use procon31_comp::simulator::{act_list, settle, Act, Simulator};

fn teams() -> Vec<TeamData> {
    vec![
        TeamData { team_id: 1, agent_id: vec![10, 11] },
        TeamData { team_id: 2, agent_id: vec![20, 21] },
    ]
}

/// A 4x1 board with a wall of the second team on the last tile.
fn lane(first: Vec<Option<Point>>, second: Vec<Option<Point>>) -> Field {
    let mut walls = vec![vec![0u32; 1]; 4];
    walls[3][0] = 2;
    let points = vec![vec![1i8], vec![2], vec![3], vec![4]];
    Field::from_data(4, 1, teams(), walls, points, vec![first, second], 0, 5)
}

fn p(x: i8) -> Point {
    Point::new(x, 0)
}

#[test]
fn act_kinds_and_targets() {
    assert!(Act::MoveAct(p(1)).move_remove());
    assert!(Act::RemoveAct(p(1)).move_remove());
    assert!(!Act::PutAct(p(1)).move_remove());
    assert!(!Act::StayAct.move_remove());
    assert_eq!(Act::PutAct(p(2)).pos(), Some(p(2)));
    assert_eq!(Act::StayAct.pos(), None);
}

#[test]
fn settle_keeps_only_what_the_rules_allow() {
    let field = lane(vec![Some(p(2)), None], vec![None, None]);
    assert_eq!(settle(&field, false, Some(p(2)), Act::MoveAct(p(1))), Act::MoveAct(p(1)));
    // a wall of the other side cannot be entered, but removed
    assert_eq!(settle(&field, false, Some(p(2)), Act::MoveAct(p(3))), Act::StayAct);
    assert_eq!(settle(&field, false, Some(p(2)), Act::RemoveAct(p(3))), Act::RemoveAct(p(3)));
    // its owner may enter it
    assert_eq!(settle(&field, true, Some(p(2)), Act::MoveAct(p(3))), Act::MoveAct(p(3)));
    // not a neighbour, not on the board, no wall to remove
    assert_eq!(settle(&field, false, Some(p(0)), Act::MoveAct(p(2))), Act::StayAct);
    assert_eq!(settle(&field, false, Some(p(0)), Act::MoveAct(p(-1))), Act::StayAct);
    assert_eq!(settle(&field, false, Some(p(0)), Act::RemoveAct(p(1))), Act::StayAct);
    // placing is for agents off the board
    assert_eq!(settle(&field, false, None, Act::PutAct(p(1))), Act::PutAct(p(1)));
    assert_eq!(settle(&field, false, None, Act::PutAct(p(3))), Act::StayAct);
    assert_eq!(settle(&field, false, None, Act::PutAct(p(9))), Act::StayAct);
    assert_eq!(settle(&field, false, Some(p(0)), Act::PutAct(p(1))), Act::StayAct);
    assert_eq!(settle(&field, false, None, Act::MoveAct(p(1))), Act::StayAct);
}

#[test]
fn a_lone_move_happens() {
    let field = lane(vec![Some(p(0)), None], vec![None, None]);
    let acts = vec![vec![Act::MoveAct(p(1)), Act::StayAct], vec![Act::StayAct, Act::StayAct]];
    assert_eq!(act_list(&acts, &field), vec![(false, 0, Act::MoveAct(p(1)))]);
}

#[test]
fn two_agents_aiming_at_one_tile_both_fail() {
    let field = lane(vec![Some(p(0)), None], vec![Some(p(2)), None]);
    let acts = vec![vec![Act::MoveAct(p(1)), Act::StayAct], vec![Act::MoveAct(p(1)), Act::StayAct]];
    assert_eq!(act_list(&acts, &field), vec![]);
}

#[test]
fn a_tile_that_is_left_can_be_entered() {
    let field = lane(vec![Some(p(0)), Some(p(1))], vec![None, None]);
    let acts = vec![vec![Act::MoveAct(p(1)), Act::MoveAct(p(2))], vec![Act::StayAct, Act::StayAct]];
    assert_eq!(
        act_list(&acts, &field),
        vec![(false, 1, Act::MoveAct(p(2))), (false, 0, Act::MoveAct(p(1)))]
    );
}

#[test]
fn agents_that_swap_tiles_both_fail() {
    let field = lane(vec![Some(p(0)), Some(p(1))], vec![None, None]);
    let acts = vec![vec![Act::MoveAct(p(1)), Act::MoveAct(p(0))], vec![Act::StayAct, Act::StayAct]];
    assert_eq!(act_list(&acts, &field), vec![]);
}

#[test]
fn a_move_that_is_not_allowed_is_listed_as_staying() {
    let field = lane(vec![Some(p(0)), None], vec![None, None]);
    let acts = vec![vec![Act::MoveAct(p(2)), Act::StayAct], vec![Act::StayAct, Act::StayAct]];
    assert_eq!(act_list(&acts, &field), vec![(false, 0, Act::StayAct)]);
}

#[test]
fn an_occupied_tile_blocks_unless_its_agent_moves() {
    let field = lane(vec![Some(p(0)), Some(p(1))], vec![None, None]);
    let acts = vec![vec![Act::MoveAct(p(1)), Act::StayAct], vec![Act::StayAct, Act::StayAct]];
    assert_eq!(act_list(&acts, &field), vec![]);
    // removing does not free the tile the remover stands on
    let acts = vec![vec![Act::MoveAct(p(1)), Act::RemoveAct(p(2))], vec![Act::StayAct, Act::StayAct]];
    assert_eq!(act_list(&acts, &field), vec![(false, 1, Act::StayAct)]);
}

#[test]
fn simulator_starts_with_everyone_staying() {
    let field = lane(vec![Some(p(0)), None], vec![None, None]);
    let sim = Simulator::new(field);
    assert_eq!(sim.get_acts(0), vec![Act::StayAct, Act::StayAct]);
    assert_eq!(sim.get_act(true, 1), Act::StayAct);
    assert_eq!(sim.get_field().width(), 4);
}

#[test]
fn turn_does_not_change_until_both_sides_have_chosen() {
    let field = lane(vec![Some(p(0)), None], vec![None, None]);
    let mut sim = Simulator::new(field);
    sim.set_act(false, 0, Act::MoveAct(p(1)));
    assert_eq!(sim.get_act(false, 0), Act::MoveAct(p(1)));
    sim.change_turn();
    assert_eq!(sim.get_field().now_turn(), 0);
    assert_eq!(sim.get_field().agent(false, 0), Some(p(0)));
    assert_eq!(sim.get_act(false, 0), Act::MoveAct(p(1)));
}

#[test]
fn change_turn_moves_builds_removes_and_counts() {
    let field = lane(vec![Some(p(0)), Some(p(2))], vec![None, None]);
    let mut sim = Simulator::new(field);
    sim.set_act(false, 0, Act::MoveAct(p(1)));
    sim.set_act(false, 1, Act::RemoveAct(p(3)));
    sim.set_act(true, 0, Act::StayAct);
    sim.change_turn();
    let field = sim.get_field();
    assert_eq!(field.now_turn(), 1);
    assert_eq!(field.agent(false, 0), Some(p(1)));
    assert_eq!(field.agent(false, 1), Some(p(2)));
    assert_eq!(field.tile(PointUsize::new(1, 0)).state(), State::Wall(false));
    assert_eq!(field.tile(PointUsize::new(3, 0)).state(), State::Neutral);
    assert_eq!(field.score(false), Score { tile: 2, region: 0 });
    assert_eq!(field.score(true), Score { tile: 0, region: 0 });
    assert_eq!(sim.get_acts(0), vec![Act::StayAct, Act::StayAct]);
    // the flags are down again
    sim.change_turn();
    assert_eq!(sim.get_field().now_turn(), 1);
}

#[test]
fn change_turn_places_agents() {
    let field = lane(vec![None, None], vec![None, None]);
    let mut sim = Simulator::new(field);
    sim.set_act(false, 1, Act::PutAct(p(2)));
    sim.set_act(true, 0, Act::PutAct(p(3)));
    sim.change_turn();
    assert_eq!(sim.get_field().agent(false, 1), Some(p(2)));
    assert_eq!(sim.get_field().agent(true, 0), Some(p(3)));
    assert_eq!(sim.get_field().tile(PointUsize::new(2, 0)).state(), State::Neutral);
}

#[test]
fn no_turn_after_the_last() {
    let walls = vec![vec![0u32; 1]; 2];
    let points = vec![vec![1i8], vec![2]];
    let agents = vec![vec![Some(p(0))], vec![None]];
    let field = Field::from_data(2, 1, teams(), walls, points, agents, 5, 5);
    let mut sim = Simulator::new(field);
    sim.set_act(false, 0, Act::MoveAct(p(1)));
    sim.set_act(true, 0, Act::StayAct);
    sim.change_turn();
    assert_eq!(sim.get_field().now_turn(), 5);
    assert_eq!(sim.get_field().agent(false, 0), Some(p(0)));
}

#[test]
fn field_can_be_replaced_and_changed_in_place() {
    let field = lane(vec![Some(p(0)), None], vec![None, None]);
    let other = lane(vec![Some(p(1)), None], vec![None, None]);
    let mut sim = Simulator::new(field);
    sim.set_field(&other);
    assert_eq!(sim.get_field().agent(false, 0), Some(p(1)));
    sim.get_mut_field().set_agent(false, 0, Some(p(2)));
    assert_eq!(sim.get_field().agent(false, 0), Some(p(2)));
    let copy = sim.clone();
    assert_eq!(copy.get_field().agent(false, 0), Some(p(2)));
}
