//! What a match server is told of the actions of a team.
use crate::api::parse::TeamData;
use crate::simulator::Act;
use vstd::prelude::*;

verus! {

/// The kinds of action that the server knows.
#[derive(Clone, Copy, PartialEq, Eq, Debug)]
pub enum ActKind {
    Stay,
    Put,
    Move,
    Remove,
}

impl ActKind {
    /// The word by which the server knows the kind.
    pub open spec fn spec_name(self) -> Seq<char> {
        match self {
            ActKind::Stay => "stay"@,
            ActKind::Put => "put"@,
            ActKind::Move => "move"@,
            ActKind::Remove => "remove"@,
        }
    }

    /// The word by which the server knows the kind.
    pub fn name(&self) -> (word: &'static str)
        ensures
            word@ == self.spec_name(),
    {
        match self {
            ActKind::Stay => "stay",
            ActKind::Put => "put",
            ActKind::Move => "move",
            ActKind::Remove => "remove",
        }
    }
}

/// The action of one agent as the server is told it: the coordinates of
/// the target count from one, and are zero for an agent that stays.
#[derive(Clone, Copy, PartialEq, Eq, Debug)]
pub struct ActionRecord {
    pub x: i16,
    pub y: i16,
    pub kind: ActKind,
    pub agent_id: u32,
}

/// What the server is told of the action of the agent with the id
/// `agent_id`.
pub open spec fn record_of(act: Act, agent_id: u32) -> ActionRecord {
    match act {
        Act::StayAct => ActionRecord { x: 0, y: 0, kind: ActKind::Stay, agent_id },
        Act::PutAct(p) => ActionRecord {
            x: (p.x + 1) as i16,
            y: (p.y + 1) as i16,
            kind: ActKind::Put,
            agent_id,
        },
        Act::MoveAct(p) => ActionRecord {
            x: (p.x + 1) as i16,
            y: (p.y + 1) as i16,
            kind: ActKind::Move,
            agent_id,
        },
        Act::RemoveAct(p) => ActionRecord {
            x: (p.x + 1) as i16,
            y: (p.y + 1) as i16,
            kind: ActKind::Remove,
            agent_id,
        },
    }
}

/// What the server is told of the action of one agent.
pub fn action_record(act: Act, agent_id: u32) -> (record: ActionRecord)
    ensures
        record == record_of(act, agent_id),
{
    match act {
        Act::StayAct => ActionRecord { x: 0, y: 0, kind: ActKind::Stay, agent_id },
        Act::PutAct(p) => ActionRecord {
            x: p.x as i16 + 1,
            y: p.y as i16 + 1,
            kind: ActKind::Put,
            agent_id,
        },
        Act::MoveAct(p) => ActionRecord {
            x: p.x as i16 + 1,
            y: p.y as i16 + 1,
            kind: ActKind::Move,
            agent_id,
        },
        Act::RemoveAct(p) => ActionRecord {
            x: p.x as i16 + 1,
            y: p.y as i16 + 1,
            kind: ActKind::Remove,
            agent_id,
        },
    }
}

/// What the server is told of the actions of a team: one record for every
/// action that has an agent of the team to it, in their order.
pub fn action_records(acts: &Vec<Act>, team: &TeamData) -> (records: Vec<ActionRecord>)
    ensures
        records.len() == if acts.len() <= team.agent_id.len() {
            acts.len()
        } else {
            team.agent_id.len()
        },
        forall|i: int|
            0 <= i < records.len() ==> (#[trigger] records[i]) == record_of(acts[i], team.agent_id[i]),
{
    let mut records: Vec<ActionRecord> = Vec::new();
    let mut i: usize = 0;
    while i < acts.len() && i < team.agent_id.len()
        invariant
            i <= acts.len(),
            i <= team.agent_id.len(),
            records.len() == i,
            forall|k: int|
                0 <= k < i ==> (#[trigger] records[k]) == record_of(acts[k], team.agent_id[k]),
        decreases acts.len() - i,
    {
        records.push(action_record(acts[i], team.agent_id[i]));
        i += 1;
    }
    records
}

} // verus!
