//! The actions of a turn and the rules that decide which of them happen.
use crate::field::{side_index, table_of, Field, FieldView, Point, State};
use vstd::prelude::*;

verus! {

/// What an agent does in a turn.
#[derive(Copy, Clone, PartialEq, Eq, Hash, Debug, Structural)]
pub enum Act {
    StayAct,
    PutAct(Point),
    MoveAct(Point),
    RemoveAct(Point),
}

impl Act {
    pub open spec fn spec_move_remove(self) -> bool {
        self is MoveAct || self is RemoveAct
    }

    pub open spec fn spec_pos(self) -> Option<Point> {
        match self {
            Act::PutAct(p) | Act::MoveAct(p) | Act::RemoveAct(p) => Some(p),
            Act::StayAct => None,
        }
    }

    /// Whether the action moves the agent or removes a wall.
    pub fn move_remove(&self) -> (b: bool)
        ensures
            b == self.spec_move_remove(),
    {
        match self {
            Act::MoveAct(_) | Act::RemoveAct(_) => true,
            _ => false,
        }
    }

    /// The tile the action aims at; staying aims at none.
    pub fn pos(&self) -> (p: Option<Point>)
        ensures
            p == self.spec_pos(),
    {
        match self {
            Act::PutAct(x) | Act::MoveAct(x) | Act::RemoveAct(x) => Some(*x),
            Act::StayAct => None,
        }
    }
}

/// The action that the rules let stand for an agent of `side` at `agent`
/// that asks for `act`: a move to a neighbouring tile on the board that is
/// no wall of the other side, the removal of a neighbouring wall, a
/// placement of an agent that is off the board onto a tile on the board that
/// is no wall of the other side. Anything else counts as staying.
pub open spec fn settled_act(fv: FieldView, side: bool, agent: Option<Point>, act: Act) -> Act {
    match agent {
        Some(from) => match act {
            Act::MoveAct(to) => if fv.inside(to) && from.spec_neighbor(to) && fv.tile_at(to).state
                != State::Wall(!side) {
                act
            } else {
                Act::StayAct
            },
            Act::RemoveAct(to) => if fv.inside(to) && from.spec_neighbor(to) && fv.tile_at(
                to,
            ).state is Wall {
                act
            } else {
                Act::StayAct
            },
            _ => Act::StayAct,
        },
        None => match act {
            Act::PutAct(to) => if fv.inside(to) && fv.tile_at(to).state != State::Wall(!side) {
                act
            } else {
                Act::StayAct
            },
            _ => Act::StayAct,
        },
    }
}

/// Agent `i` of side `s` aims at `p`.
pub open spec fn targets(acts: Seq<Seq<Act>>, s: bool, i: int, p: Point) -> bool {
    acts[side_index(s)][i].spec_pos() == Some(p)
}

/// Agent `i` of side `s` aims at `p`, and no other agent does.
pub open spec fn sole_claimant(acts: Seq<Seq<Act>>, n: int, p: Point, s: bool, i: int) -> bool {
    &&& 0 <= i < n
    &&& targets(acts, s, i, p)
    &&& forall|s2: bool, i2: int|
        0 <= i2 < n && #[trigger] targets(acts, s2, i2, p) ==> s2 == s && i2 == i
}

/// An agent stands on `p`.
pub open spec fn occupied(fv: FieldView, p: Point) -> bool {
    exists|s: bool, i: int| 0 <= i < fv.agent_count() && #[trigger] fv.agent(s, i) == Some(p)
}

/// The action that stands for agent `i` of side `s`.
pub open spec fn settled(fv: FieldView, acts: Seq<Seq<Act>>, s: bool, i: int) -> Act {
    settled_act(fv, s, fv.agent(s, i), acts[side_index(s)][i])
}

/// Tile `p` is free after at most `k` rounds of agents leaving: no agent
/// stood on it, or one that stood on it moves away, being the only one to
/// aim at a tile that was free a round earlier.
pub open spec fn free_within(fv: FieldView, acts: Seq<Seq<Act>>, p: Point, k: nat) -> bool
    decreases k,
{
    if k == 0 {
        !occupied(fv, p)
    } else {
        free_within(fv, acts, p, (k - 1) as nat) || exists|s: bool, i: int|
            0 <= i < fv.agent_count() && #[trigger] fv.agent(s, i) == Some(p) && settled(
                fv,
                acts,
                s,
                i,
            ) is MoveAct && acts[side_index(s)][i].spec_pos() is Some && sole_claimant(
                acts,
                fv.agent_count(),
                acts[side_index(s)][i].spec_pos()->0,
                s,
                i,
            ) && free_within(fv, acts, acts[side_index(s)][i].spec_pos()->0, (k - 1) as nat)
    }
}

/// The action of agent `i` of side `s` happens within `k` rounds: it aims
/// at a tile, it alone, and the tile is free by then.
pub open spec fn executes_within(fv: FieldView, acts: Seq<Seq<Act>>, s: bool, i: int, k: nat) -> bool {
    &&& 0 <= i < fv.agent_count()
    &&& acts[side_index(s)][i].spec_pos() is Some
    &&& sole_claimant(acts, fv.agent_count(), acts[side_index(s)][i].spec_pos()->0, s, i)
    &&& free_within(fv, acts, acts[side_index(s)][i].spec_pos()->0, k)
}

/// The action of agent `i` of side `s` happens this turn.
pub open spec fn executes(fv: FieldView, acts: Seq<Seq<Act>>, s: bool, i: int) -> bool {
    exists|k: nat| executes_within(fv, acts, s, i, k)
}

/// The tile that the agent of an entry aims at.
pub open spec fn aim(acts: Seq<Seq<Act>>, entry: (bool, usize, Act)) -> Point {
    acts[side_index(entry.0)][entry.1 as int].spec_pos()->0
}

/// An agent that stood on `p` is among the first `b` entries, with a move.
pub open spec fn left_before(fv: FieldView, out: Seq<(bool, usize, Act)>, p: Point, b: int) -> bool {
    exists|a: int|
        0 <= a < b && (#[trigger] out[a]).2 is MoveAct && fv.agent(out[a].0, out[a].1 as int)
            == Some(p)
}

/// Every entry stands behind the move by which the tile it aims at became
/// free, if an agent stood on the tile.
pub open spec fn in_turn(fv: FieldView, acts: Seq<Seq<Act>>, out: Seq<(bool, usize, Act)>) -> bool {
    forall|b: int|
        0 <= b < out.len() && occupied(fv, aim(acts, #[trigger] out[b])) ==> left_before(
            fv,
            out,
            aim(acts, out[b]),
            b,
        )
}

/// `out` lists, each once, the agents whose action happens, each with the
/// action that stands for it; an agent that aims at a tile on which an
/// agent stood comes after the agent that left the tile.
pub open spec fn resolves(fv: FieldView, acts: Seq<Seq<Act>>, out: Seq<(bool, usize, Act)>) -> bool {
    &&& in_turn(fv, acts, out)
    &&& forall|a: int, b: int|
        0 <= a < b < out.len() ==> !((#[trigger] out[a]).0 == (#[trigger] out[b]).0 && out[a].1
            == out[b].1)
    &&& forall|a: int|
        0 <= a < out.len() ==> executes(fv, acts, (#[trigger] out[a]).0, out[a].1 as int)
            && out[a].2 == settled(fv, acts, out[a].0, out[a].1 as int)
    &&& forall|s: bool, i: int|
        0 <= i < fv.agent_count() && #[trigger] executes(fv, acts, s, i) ==> listed(out, s, i)
}

/// Agent `i` of side `s` has an entry in `out`.
pub open spec fn listed(out: Seq<(bool, usize, Act)>, s: bool, i: int) -> bool {
    exists|a: int| 0 <= a < out.len() && (#[trigger] out[a]).0 == s && out[a].1 == i
}

/// Some agent aims at `p`.
pub open spec fn targeted(acts: Seq<Seq<Act>>, n: int, p: Point) -> bool {
    exists|s: bool, i: int| 0 <= i < n && #[trigger] targets(acts, s, i, p)
}

/// Every tile that lost its agent, and every tile aimed at that never had
/// one, is in the queue.
spec fn queue_covers(
    fv: FieldView,
    acts: Seq<Seq<Act>>,
    queue: Seq<Point>,
    blocked: Seq<Point>,
) -> bool {
    &&& forall|p: Point| #[trigger] blocked.contains(p) ==> occupied(fv, p)
    &&& forall|p: Point|
        occupied(fv, p) && !blocked.contains(p) ==> #[trigger] queue.contains(p)
    &&& forall|p: Point|
        targeted(acts, fv.agent_count(), p) && !occupied(fv, p) ==> #[trigger] queue.contains(p)
}

/// For every tile of the queue before `head`, the only agent that aims at
/// it is listed, and the tile it moved away from is no longer blocked.
spec fn handled(
    fv: FieldView,
    acts: Seq<Seq<Act>>,
    queue: Seq<Point>,
    head: int,
    blocked: Seq<Point>,
    out: Seq<(bool, usize, Act)>,
) -> bool {
    forall|j: int, s: bool, i: int|
        0 <= j < head && #[trigger] sole_claimant(acts, fv.agent_count(), queue[j], s, i) ==> {
            &&& listed(out, s, i)
            &&& (settled(fv, acts, s, i) is MoveAct && fv.agent(s, i) is Some
                ==> !blocked.contains(fv.agent(s, i)->0))
        }
}

/// When the queue is exhausted, a tile that is free within `k` rounds and
/// that matters (an agent aims at it or stood on it) has been in the queue.
proof fn lemma_free_queued(
    fv: FieldView,
    acts: Seq<Seq<Act>>,
    queue: Seq<Point>,
    blocked: Seq<Point>,
    out: Seq<(bool, usize, Act)>,
    p: Point,
    k: nat,
)
    requires
        queue_covers(fv, acts, queue, blocked),
        handled(fv, acts, queue, queue.len() as int, blocked, out),
        free_within(fv, acts, p, k),
        targeted(acts, fv.agent_count(), p) || occupied(fv, p),
    ensures
        queue.contains(p),
    decreases k,
{
    if k == 0 {
    } else if free_within(fv, acts, p, (k - 1) as nat) {
        lemma_free_queued(fv, acts, queue, blocked, out, p, (k - 1) as nat);
    } else {
        let (s, i) = choose|s: bool, i: int|
            0 <= i < fv.agent_count() && #[trigger] fv.agent(s, i) == Some(p) && settled(
                fv,
                acts,
                s,
                i,
            ) is MoveAct && acts[side_index(s)][i].spec_pos() is Some && sole_claimant(
                acts,
                fv.agent_count(),
                acts[side_index(s)][i].spec_pos()->0,
                s,
                i,
            ) && free_within(fv, acts, acts[side_index(s)][i].spec_pos()->0, (k - 1) as nat);
        let t = acts[side_index(s)][i].spec_pos()->0;
        assert(targets(acts, s, i, t));
        assert(targeted(acts, fv.agent_count(), t));
        lemma_free_queued(fv, acts, queue, blocked, out, t, (k - 1) as nat);
        let j = choose|j: int| 0 <= j < queue.len() && queue[j] == t;
        assert(sole_claimant(acts, fv.agent_count(), queue[j], s, i));
        assert(!blocked.contains(p));
        assert(occupied(fv, p));
    }
}

/// The action that stands for an agent, computed.
pub fn settle(field: &Field, side: bool, agent: Option<Point>, act: Act) -> (r: Act)
    requires
        field.wf(),
    ensures
        r == settled_act(field@, side, agent, act),
{
    match agent {
        Some(from) => match act {
            Act::MoveAct(to) => {
                if field.inside(to) && from.neighbor(to) {
                    let state = field.tile(to.usize()).state();
                    match state {
                        State::Wall(owner) => if owner != side {
                            Act::StayAct
                        } else {
                            act
                        },
                        _ => act,
                    }
                } else {
                    Act::StayAct
                }
            },
            Act::RemoveAct(to) => {
                if field.inside(to) && from.neighbor(to) && field.tile(to.usize()).state().is_wall() {
                    act
                } else {
                    Act::StayAct
                }
            },
            _ => Act::StayAct,
        },
        None => match act {
            Act::PutAct(to) => {
                if field.inside(to) {
                    let state = field.tile(to.usize()).state();
                    match state {
                        State::Wall(owner) => if owner != side {
                            Act::StayAct
                        } else {
                            act
                        },
                        _ => act,
                    }
                } else {
                    Act::StayAct
                }
            },
            _ => Act::StayAct,
        },
    }
}

fn side_slot(side: bool) -> (i: usize)
    ensures
        i == side_index(side),
{
    if side {
        1
    } else {
        0
    }
}

fn contains_point(v: &Vec<Point>, p: Point) -> (b: bool)
    ensures
        b == v@.contains(p),
{
    let mut i: usize = 0;
    while i < v.len()
        invariant
            i <= v.len(),
            forall|k: int| 0 <= k < i ==> v[k] != p,
        decreases v.len() - i,
    {
        if v[i] == p {
            return true;
        }
        i += 1;
    }
    false
}

/// Takes every copy of `p` out of `v`.
fn remove_point(v: &mut Vec<Point>, p: Point)
    ensures
        !final(v)@.contains(p),
        forall|q: Point| q != p ==> final(v)@.contains(q) == old(v)@.contains(q),
        final(v)@.len() <= old(v)@.len(),
        old(v)@.contains(p) ==> final(v)@.len() < old(v)@.len(),
{
    let mut out: Vec<Point> = Vec::new();
    let mut i: usize = 0;
    while i < v.len()
        invariant
            i <= v.len(),
            v@ == old(v)@,
            out.len() <= i,
            !out@.contains(p),
            forall|q: Point|
                q != p ==> out@.contains(q) == (exists|k: int| 0 <= k < i && v[k] == q),
            (exists|k: int| 0 <= k < i && v[k] == p) ==> out.len() < i,
        decreases v.len() - i,
    {
        let q = v[i];
        let ghost prev = out@;
        if q != p {
            out.push(q);
            proof {
                assert(out@[prev.len() as int] == q);
                assert forall|r: Point| r != p implies out@.contains(r) == (exists|k: int|
                    0 <= k < i + 1 && v[k] == r) by {
                    if out@.contains(r) {
                        let j = choose|j: int| 0 <= j < out@.len() && out@[j] == r;
                        if j < prev.len() {
                            assert(prev[j] == r);
                            assert(prev.contains(r));
                        } else {
                            assert(v[i as int] == r);
                        }
                    }
                    if exists|k: int| 0 <= k < i + 1 && v[k] == r {
                        let k = choose|k: int| 0 <= k < i + 1 && v[k] == r;
                        if k < i {
                            assert(prev.contains(r));
                            let j = choose|j: int| 0 <= j < prev.len() && prev[j] == r;
                            assert(out@[j] == r);
                        } else {
                            assert(out@[prev.len() as int] == r);
                        }
                    }
                }
                assert(!out@.contains(p)) by {
                    if out@.contains(p) {
                        let j = choose|j: int| 0 <= j < out@.len() && out@[j] == p;
                        if j < prev.len() {
                            assert(prev[j] == p);
                            assert(prev.contains(p));
                        }
                    }
                }
            }
        }
        i += 1;
    }
    proof {
        assert forall|q: Point| q != p implies out@.contains(q) == old(v)@.contains(q) by {
            if old(v)@.contains(q) {
                let k = choose|k: int| 0 <= k < old(v)@.len() && old(v)@[k] == q;
                assert(v[k] == q);
            }
        }
        if old(v)@.contains(p) {
            let k = choose|k: int| 0 <= k < old(v)@.len() && old(v)@[k] == p;
            assert(v[k] == p);
        }
    }
    *v = out;
}

/// The positions of all agents that stand on the board.
fn standing(field: &Field) -> (v: Vec<Point>)
    requires
        field.wf(),
    ensures
        forall|p: Point| v@.contains(p) <==> occupied(field@, p),
{
    let n = field.agent_count();
    let ghost fv = field@;
    let mut v: Vec<Point> = Vec::new();
    let mut f: usize = 0;
    while f < 2
        invariant
            field.wf(),
            fv == field@,
            n == fv.agent_count(),
            f <= 2,
            forall|p: Point| #[trigger]
                v@.contains(p) <==> exists|s: bool, i: int|
                    0 <= i < n && side_index(s) < f && #[trigger] fv.agent(s, i) == Some(p),
        decreases 2 - f,
    {
        let side = f == 1;
        let mut i: usize = 0;
        while i < n
            invariant
                field.wf(),
                fv == field@,
                n == fv.agent_count(),
                f < 2,
                side == (f == 1),
                i <= n,
                forall|p: Point| #[trigger]
                    v@.contains(p) <==> exists|s: bool, k: int|
                        0 <= k < n && (side_index(s) < f || (s == side && k < i))
                            && #[trigger] fv.agent(s, k) == Some(p),
            decreases n - i,
        {
            let ghost prev = v@;
            match field.agent(side, i) {
                Some(q) => {
                    v.push(q);
                    proof {
                        assert(v@[prev.len() as int] == q);
                        assert forall|p: Point| #[trigger]
                            v@.contains(p) <==> exists|s: bool, k: int|
                                0 <= k < n && (side_index(s) < f || (s == side && k < i + 1))
                                    && #[trigger] fv.agent(s, k) == Some(p) by {
                            if v@.contains(p) {
                                let j = choose|j: int| 0 <= j < v@.len() && v@[j] == p;
                                if j < prev.len() {
                                    assert(prev[j] == p);
                                    assert(prev.contains(p));
                                } else {
                                    assert(fv.agent(side, i as int) == Some(p));
                                }
                            }
                            if exists|s: bool, k: int|
                                0 <= k < n && (side_index(s) < f || (s == side && k < i + 1))
                                    && #[trigger] fv.agent(s, k) == Some(p) {
                                let (s, k) = choose|s: bool, k: int|
                                    0 <= k < n && (side_index(s) < f || (s == side && k < i + 1))
                                        && #[trigger] fv.agent(s, k) == Some(p);
                                if s == side && k == i {
                                    assert(v@[prev.len() as int] == p);
                                } else {
                                    assert(prev.contains(p));
                                    let j = choose|j: int| 0 <= j < prev.len() && prev[j] == p;
                                    assert(v@[j] == p);
                                }
                            }
                        }
                    }
                },
                None => {
                    proof {
                        assert forall|p: Point| #[trigger]
                            v@.contains(p) <==> exists|s: bool, k: int|
                                0 <= k < n && (side_index(s) < f || (s == side && k < i + 1))
                                    && #[trigger] fv.agent(s, k) == Some(p) by {
                            if exists|s: bool, k: int|
                                0 <= k < n && (side_index(s) < f || (s == side && k < i + 1))
                                    && #[trigger] fv.agent(s, k) == Some(p) {
                                let (s, k) = choose|s: bool, k: int|
                                    0 <= k < n && (side_index(s) < f || (s == side && k < i + 1))
                                        && #[trigger] fv.agent(s, k) == Some(p);
                                assert(!(s == side && k == i));
                            }
                        }
                    }
                },
            }
            i += 1;
        }
        f += 1;
    }
    proof {
        assert forall|p: Point| v@.contains(p) <==> occupied(fv, p) by {
            if occupied(fv, p) {
                let (s, i) = choose|s: bool, i: int|
                    0 <= i < fv.agent_count() && #[trigger] fv.agent(s, i) == Some(p);
                assert(side_index(s) < 2);
            }
        }
    }
    v
}

/// The agent that alone aims at `p`, if there is exactly one.
fn claimant(acts_: &Vec<Vec<Act>>, n: usize, p: Point) -> (r: Option<(bool, usize)>)
    requires
        acts_.len() == 2,
        acts_[0].len() >= n,
        acts_[1].len() >= n,
    ensures
        match r {
            Some((s, i)) => sole_claimant(table_of(*acts_), n as int, p, s, i as int),
            None => forall|s: bool, i: int| !sole_claimant(table_of(*acts_), n as int, p, s, i),
        },
{
    let ghost acts = table_of(*acts_);
    let mut count: usize = 0;
    let mut who: (bool, usize) = (false, 0);
    let ghost mut other: (bool, int) = (false, 0);
    let mut f: usize = 0;
    while f < 2
        invariant
            acts == table_of(*acts_),
            acts_.len() == 2,
            acts_[0].len() >= n,
            acts_[1].len() >= n,
            f <= 2,
            count <= 2,
            count == 0 ==> forall|s: bool, k: int|
                0 <= k < n && side_index(s) < f ==> !#[trigger] targets(acts, s, k, p),
            count == 1 ==> side_index(who.0) < f,
            count == 1 ==> who.1 < n && targets(acts, who.0, who.1 as int, p) && forall|
                s: bool,
                k: int,
            |
                0 <= k < n && side_index(s) < f && #[trigger] targets(acts, s, k, p) ==> s == who.0
                    && k == who.1,
            count == 2 ==> who.1 < n && 0 <= other.1 < n && targets(acts, who.0, who.1 as int, p)
                && targets(acts, other.0, other.1, p) && !(who.0 == other.0 && who.1 == other.1),
        decreases 2 - f,
    {
        let side = f == 1;
        let mut i: usize = 0;
        while i < n
            invariant
                acts == table_of(*acts_),
                acts_.len() == 2,
                acts_[0].len() >= n,
                acts_[1].len() >= n,
                f < 2,
                side == (f == 1),
                i <= n,
                count <= 2,
                count == 0 ==> forall|s: bool, k: int|
                    0 <= k < n && (side_index(s) < f || (s == side && k < i)) ==> !#[trigger] targets(
                        acts,
                        s,
                        k,
                        p,
                    ),
                count == 1 ==> side_index(who.0) < f || (who.0 == side && who.1 < i),
                count == 1 ==> who.1 < n && targets(acts, who.0, who.1 as int, p) && forall|
                    s: bool,
                    k: int,
                |
                    0 <= k < n && (side_index(s) < f || (s == side && k < i)) && #[trigger] targets(
                        acts,
                        s,
                        k,
                        p,
                    ) ==> s == who.0 && k == who.1,
                count == 2 ==> who.1 < n && 0 <= other.1 < n && targets(
                    acts,
                    who.0,
                    who.1 as int,
                    p,
                ) && targets(acts, other.0, other.1, p) && !(who.0 == other.0 && who.1
                    == other.1),
            decreases n - i,
        {
            assert(acts[f as int] == acts_[f as int]@);
            let aim = acts_[f][i].pos();
            let hit = match aim {
                Some(t) => t == p,
                None => false,
            };
            assert(hit == targets(acts, side, i as int, p));
            if hit {
                if count == 0 {
                    who = (side, i);
                    count = 1;
                } else if count == 1 {
                    proof {
                        other = (side, i as int);
                    }
                    count = 2;
                }
            }
            i += 1;
        }
        f += 1;
    }
    if count == 1 {
        assert forall|s: bool, k: int| 0 <= k < n && #[trigger] targets(acts, s, k, p) implies s
            == who.0 && k == who.1 by {
            assert(side_index(s) < 2);
        }
        Some(who)
    } else {
        proof {
            assert forall|s: bool, i: int| !sole_claimant(acts, n as int, p, s, i) by {
                if sole_claimant(acts, n as int, p, s, i) {
                    if count == 0 {
                        assert(side_index(s) < 2);
                        assert(!targets(acts, s, i, p));
                    } else {
                        assert(targets(acts, who.0, who.1 as int, p));
                        assert(targets(acts, other.0, other.1, p));
                    }
                }
            }
        }
        None
    }
}

/// The tiles that agents aim at and that no agent stands on, each once.
fn open_targets(acts_: &Vec<Vec<Act>>, field: &Field, blocked: &Vec<Point>) -> (queue: Vec<Point>)
    requires
        field.wf(),
        acts_.len() == 2,
        acts_[0].len() >= field@.agent_count(),
        acts_[1].len() >= field@.agent_count(),
        forall|p: Point| blocked@.contains(p) <==> occupied(field@, p),
    ensures
        queue@.no_duplicates(),
        forall|j: int| 0 <= j < queue.len() ==> !occupied(field@, #[trigger] queue[j]),
        forall|p: Point|
            targeted(table_of(*acts_), field@.agent_count(), p) && !occupied(field@, p)
                ==> #[trigger] queue@.contains(p),
{
    let n = field.agent_count();
    let ghost fv = field@;
    let ghost acts = table_of(*acts_);
    let mut queue: Vec<Point> = Vec::new();
    let mut f: usize = 0;
    while f < 2
        invariant
            field.wf(),
            fv == field@,
            acts == table_of(*acts_),
            n == fv.agent_count(),
            acts_.len() == 2,
            acts_[0].len() >= n,
            acts_[1].len() >= n,
            forall|p: Point| blocked@.contains(p) <==> occupied(fv, p),
            f <= 2,
            queue@.no_duplicates(),
            forall|j: int| 0 <= j < queue.len() ==> !occupied(fv, #[trigger] queue[j]),
            forall|s: bool, k: int, p: Point|
                0 <= k < n && side_index(s) < f && #[trigger] targets(acts, s, k, p) && !occupied(
                    fv,
                    p,
                ) ==> queue@.contains(p),
        decreases 2 - f,
    {
        let side = f == 1;
        let mut i: usize = 0;
        while i < n
            invariant
                field.wf(),
                fv == field@,
                acts == table_of(*acts_),
                n == fv.agent_count(),
                acts_.len() == 2,
                acts_[0].len() >= n,
                acts_[1].len() >= n,
                forall|p: Point| blocked@.contains(p) <==> occupied(fv, p),
                f < 2,
                side == (f == 1),
                i <= n,
                queue@.no_duplicates(),
                forall|j: int| 0 <= j < queue.len() ==> !occupied(fv, #[trigger] queue[j]),
                forall|s: bool, k: int, p: Point|
                    0 <= k < n && (side_index(s) < f || (s == side && k < i)) && #[trigger] targets(
                        acts,
                        s,
                        k,
                        p,
                    ) && !occupied(fv, p) ==> queue@.contains(p),
            decreases n - i,
        {
            assert(acts[f as int] == acts_[f as int]@);
            let ghost prev = queue@;
            match acts_[f][i].pos() {
                Some(t) => {
                    if !contains_point(blocked, t) && !contains_point(&queue, t) {
                        queue.push(t);
                        assert(queue@[prev.len() as int] == t);
                    }
                    proof {
                        assert(!occupied(fv, t) ==> queue@.contains(t)) by {
                            if !occupied(fv, t) {
                                if prev.contains(t) {
                                    let j = choose|j: int| 0 <= j < prev.len() && prev[j] == t;
                                    assert(queue@[j] == t);
                                }
                            }
                        }
                        assert forall|s: bool, k: int, p: Point|
                            0 <= k < n && (side_index(s) < f || (s == side && k < i + 1))
                                && #[trigger] targets(acts, s, k, p) && !occupied(
                                fv,
                                p,
                            ) implies queue@.contains(p) by {
                            if s == side && k == i {
                                assert(p == t);
                            } else {
                                assert(prev.contains(p));
                                let j = choose|j: int| 0 <= j < prev.len() && prev[j] == p;
                                assert(queue@[j] == p);
                            }
                        }
                    }
                },
                None => {},
            }
            i += 1;
        }
        f += 1;
    }
    proof {
        assert forall|p: Point| targeted(acts, fv.agent_count(), p) && !occupied(fv, p) implies
            #[trigger] queue@.contains(p) by {
            let (s, k) = choose|s: bool, k: int| 0 <= k < n && #[trigger] targets(acts, s, k, p);
            assert(side_index(s) < 2);
        }
    }
    queue
}

/// Decides which of the actions asked for happen this turn.
///
/// An action aims at a tile or at none. An action happens when its agent is
/// the only one to aim at its tile and the tile is free: no agent stood on
/// it, or one that did moves away this turn. What happens is the action that
/// the rules let stand, which may be staying. The result lists each such
/// agent once, by side and number, with that action; an agent that aims at
/// a tile on which an agent stood is listed after the agent that left the
/// tile.
pub fn act_list(acts_: &Vec<Vec<Act>>, field: &Field) -> (out: Vec<(bool, usize, Act)>)
    requires
        field.wf(),
        acts_.len() == 2,
        acts_[0].len() >= field@.agent_count(),
        acts_[1].len() >= field@.agent_count(),
    ensures
        resolves(field@, table_of(*acts_), out@),
{
    let n = field.agent_count();
    let ghost fv = field@;
    let ghost acts = table_of(*acts_);
    let mut blocked = standing(field);
    let mut queue = open_targets(acts_, field, &blocked);
    let ghost mut ranks: Seq<nat> = Seq::new(queue@.len(), |j: int| 0nat);
    let mut out: Vec<(bool, usize, Act)> = Vec::new();
    let mut head: usize = 0;
    proof {
        assert(queue_covers(fv, acts, queue@, blocked@));
        assert forall|j: int| 0 <= j < queue.len() implies !blocked@.contains(
            #[trigger] queue[j],
        ) by {}
    }
    while head < queue.len()
        invariant
            field.wf(),
            fv == field@,
            acts == table_of(*acts_),
            n == fv.agent_count(),
            acts_.len() == 2,
            acts_[0].len() >= n,
            acts_[1].len() >= n,
            head <= queue.len(),
            ranks.len() == queue.len(),
            forall|j: int| 0 <= j < queue.len() ==> free_within(fv, acts, #[trigger] queue[j], ranks[j]),
            queue@.no_duplicates(),
            forall|j: int| 0 <= j < queue.len() ==> !blocked@.contains(#[trigger] queue[j]),
            queue_covers(fv, acts, queue@, blocked@),
            handled(fv, acts, queue@, head as int, blocked@, out@),
            forall|a: int|
                0 <= a < out.len() ==> (#[trigger] out[a]).1 < n && executes(
                    fv,
                    acts,
                    out[a].0,
                    out[a].1 as int,
                ) && out[a].2 == settled(fv, acts, out[a].0, out[a].1 as int) && exists|j: int|
                    0 <= j < head && targets(acts, out[a].0, out[a].1 as int, #[trigger] queue[j]),
            forall|a: int, b: int|
                0 <= a < b < out.len() ==> !((#[trigger] out[a]).0 == (#[trigger] out[b]).0
                    && out[a].1 == out[b].1),
            in_turn(fv, acts, out@),
            forall|j: int|
                0 <= j < queue.len() && occupied(fv, #[trigger] queue[j]) ==> left_before(
                    fv,
                    out@,
                    queue[j],
                    out.len() as int,
                ),
        decreases 2 * blocked.len() + queue.len() - head,
    {
        let p = queue[head];
        let ghost k = ranks[head as int];
        let ghost queue0 = queue@;
        let ghost blocked0 = blocked@;
        let ghost out0 = out@;
        let found = claimant(acts_, n, p);
        match found {
            Some((s, i)) => {
                let slot = side_slot(s);
                assert(acts[slot as int] == acts_[slot as int]@);
                let agent = field.agent(s, i);
                let act = settle(field, s, agent, acts_[slot][i]);
                proof {
                    assert(targets(acts, s, i as int, p));
                    assert(executes_within(fv, acts, s, i as int, k));
                    assert forall|a: int| 0 <= a < out0.len() implies !((#[trigger] out0[a]).0 == s
                        && out0[a].1 == i) by {
                        if out0[a].0 == s && out0[a].1 == i {
                            let j = choose|j: int|
                                0 <= j < head && targets(
                                    acts,
                                    out0[a].0,
                                    out0[a].1 as int,
                                    #[trigger] queue0[j],
                                );
                            assert(queue0[j] == p);
                        }
                    }
                }
                out.push((s, i, act));
                let mut moved = false;
                if let Some(b) = agent {
                    if let Act::MoveAct(_) = act {
                        if contains_point(&blocked, b) {
                            remove_point(&mut blocked, b);
                            queue.push(b);
                            moved = true;
                            proof {
                                ranks = ranks.push(k + 1);
                                assert(free_within(fv, acts, b, k + 1)) by {
                                    assert(fv.agent(s, i as int) == Some(b));
                                }
                                assert(queue@[queue0.len() as int] == b);
                                assert(queue@.no_duplicates());
                            }
                        }
                    }
                }
                proof {
                    assert(out@[out0.len() as int] == (s, i, act));
                    assert(in_turn(fv, acts, out@)) by {
                        assert forall|b: int|
                            0 <= b < out@.len() && occupied(
                                fv,
                                aim(acts, #[trigger] out@[b]),
                            ) implies left_before(fv, out@, aim(acts, out@[b]), b) by {
                            let q = aim(acts, out@[b]);
                            if b < out0.len() {
                                assert(out@[b] == out0[b]);
                                assert(left_before(fv, out0, q, b));
                                let a = choose|a: int|
                                    0 <= a < b && (#[trigger] out0[a]).2 is MoveAct && fv.agent(
                                        out0[a].0,
                                        out0[a].1 as int,
                                    ) == Some(q);
                                assert(out@[a] == out0[a]);
                            } else {
                                assert(q == p);
                                assert(queue0[head as int] == p);
                                assert(left_before(fv, out0, p, out0.len() as int));
                                let a = choose|a: int|
                                    0 <= a < out0.len() && (#[trigger] out0[a]).2 is MoveAct
                                        && fv.agent(out0[a].0, out0[a].1 as int) == Some(p);
                                assert(out@[a] == out0[a]);
                            }
                        }
                    }
                    assert forall|j: int|
                        0 <= j < queue.len() && occupied(fv, #[trigger] queue[j]) implies left_before(
                        fv,
                        out@,
                        queue[j],
                        out.len() as int,
                    ) by {
                        if j < queue0.len() {
                            assert(queue[j] == queue0[j]);
                            assert(left_before(fv, out0, queue0[j], out0.len() as int));
                            let a = choose|a: int|
                                0 <= a < out0.len() && (#[trigger] out0[a]).2 is MoveAct && fv.agent(
                                    out0[a].0,
                                    out0[a].1 as int,
                                ) == Some(queue0[j]);
                            assert(out@[a] == out0[a]);
                        } else {
                            assert(moved && agent == Some(queue[j]));
                            assert(out@[out0.len() as int].2 is MoveAct);
                            assert(fv.agent(s, i as int) == Some(queue[j]));
                        }
                    }
                    assert forall|j: int| 0 <= j < queue.len() implies free_within(
                        fv,
                        acts,
                        #[trigger] queue[j],
                        ranks[j],
                    ) by {
                        if j < queue0.len() {
                            assert(queue[j] == queue0[j]);
                        }
                    }
                    assert forall|j: int| 0 <= j < queue.len() implies !blocked@.contains(
                        #[trigger] queue[j],
                    ) by {
                        if j < queue0.len() {
                            assert(queue[j] == queue0[j]);
                            assert(!blocked0.contains(queue0[j]));
                        }
                    }
                    assert(queue_covers(fv, acts, queue@, blocked@)) by {
                        assert forall|q: Point| #[trigger] queue0.contains(q) implies queue@.contains(
                            q,
                        ) by {
                            let j = choose|j: int| 0 <= j < queue0.len() && queue0[j] == q;
                            assert(queue@[j] == q);
                        }
                        assert forall|q: Point| occupied(fv, q) && !blocked@.contains(
                            q,
                        ) implies #[trigger] queue@.contains(q) by {
                            if blocked0.contains(q) {
                                assert(moved && agent == Some(q));
                                assert(queue@[queue0.len() as int] == q);
                            } else {
                                assert(queue0.contains(q));
                            }
                        }
                        assert forall|q: Point|
                            targeted(acts, fv.agent_count(), q) && !occupied(
                                fv,
                                q,
                            ) implies #[trigger] queue@.contains(q) by {
                            assert(queue0.contains(q));
                        }
                    }
                    assert(handled(fv, acts, queue@, head + 1, blocked@, out@)) by {
                        assert forall|j: int, s2: bool, i2: int|
                            0 <= j < head + 1 && #[trigger] sole_claimant(
                                acts,
                                fv.agent_count(),
                                queue@[j],
                                s2,
                                i2,
                            ) implies listed(out@, s2, i2) && (settled(fv, acts, s2, i2) is MoveAct
                            && fv.agent(s2, i2) is Some ==> !blocked@.contains(
                            fv.agent(s2, i2)->0,
                        )) by {
                            assert(queue@[j] == queue0[j]);
                            if j < head {
                                assert(listed(out0, s2, i2));
                                let a = choose|a: int|
                                    0 <= a < out0.len() && (#[trigger] out0[a]).0 == s2
                                        && out0[a].1 == i2;
                                assert(out@[a] == out0[a]);
                            } else {
                                assert(targets(acts, s, i as int, p));
                                assert(s2 == s && i2 == i);
                                assert(out@[out0.len() as int].0 == s);
                            }
                        }
                    }
                    assert forall|a: int| 0 <= a < out.len() implies (#[trigger] out[a]).1 < n
                        && executes(fv, acts, out[a].0, out[a].1 as int) && out[a].2 == settled(
                        fv,
                        acts,
                        out[a].0,
                        out[a].1 as int,
                    ) && exists|j: int|
                        0 <= j < head + 1 && targets(
                            acts,
                            out[a].0,
                            out[a].1 as int,
                            #[trigger] queue[j],
                        ) by {
                        if a < out0.len() {
                            assert(out[a] == out0[a]);
                            let j = choose|j: int|
                                0 <= j < head && targets(
                                    acts,
                                    out0[a].0,
                                    out0[a].1 as int,
                                    #[trigger] queue0[j],
                                );
                            assert(queue[j] == queue0[j]);
                        } else {
                            assert(queue[head as int] == p);
                        }
                    }
                }
            },
            None => {
                proof {
                    assert(handled(fv, acts, queue@, head + 1, blocked@, out@));
                    assert forall|a: int| 0 <= a < out.len() implies exists|j: int|
                        0 <= j < head + 1 && targets(
                            acts,
                            (#[trigger] out[a]).0,
                            out[a].1 as int,
                            #[trigger] queue[j],
                        ) by {
                        let j = choose|j: int|
                            0 <= j < head && targets(
                                acts,
                                out[a].0,
                                out[a].1 as int,
                                #[trigger] queue[j],
                            );
                        assert(0 <= j < head + 1);
                    }
                }
            },
        }
        head += 1;
    }
    proof {
        assert forall|s: bool, i: int|
            0 <= i < fv.agent_count() && #[trigger] executes(fv, acts, s, i) implies listed(
            out@,
            s,
            i,
        ) by {
            let k = choose|k: nat| executes_within(fv, acts, s, i, k);
            let t = acts[side_index(s)][i].spec_pos()->0;
            assert(targets(acts, s, i, t));
            assert(targeted(acts, fv.agent_count(), t));
            lemma_free_queued(fv, acts, queue@, blocked@, out@, t, k);
            let j = choose|j: int| 0 <= j < queue@.len() && queue@[j] == t;
            assert(sole_claimant(acts, fv.agent_count(), queue@[j], s, i));
        }
    }
    out
}

/// The board after one listed action: a placement puts the agent on its
/// tile, a move puts it there and builds a wall of its side, a removal
/// makes the tile neutral.
pub open spec fn applied(fv: FieldView, entry: (bool, usize, Act)) -> FieldView {
    match entry.2 {
        Act::PutAct(p) => fv.with_agent(entry.0, entry.1 as int, Some(p)),
        Act::MoveAct(p) => fv.with_agent(entry.0, entry.1 as int, Some(p)).with_state(
            p.x as int,
            p.y as int,
            State::Wall(entry.0),
        ),
        Act::RemoveAct(p) => fv.with_state(p.x as int, p.y as int, State::Neutral),
        Act::StayAct => fv,
    }
}

/// The board after the first `n` listed actions, in their order.
pub open spec fn applied_all(fv: FieldView, out: Seq<(bool, usize, Act)>, n: int) -> FieldView
    decreases n,
{
    if n <= 0 {
        fv
    } else {
        applied(applied_all(fv, out, n - 1), out[n - 1])
    }
}

/// The mathematical content of a [`Simulator`].
pub struct SimulatorView {
    pub field: FieldView,
    pub acts: Seq<Seq<Act>>,
    pub act_flag: Seq<bool>,
}

impl SimulatorView {
    /// A well-formed board, and one action for each agent of each side.
    pub open spec fn wf(self) -> bool {
        &&& self.field.wf()
        &&& self.acts.len() == 2
        &&& self.acts[0].len() == self.field.agent_count()
        &&& self.acts[1].len() == self.field.agent_count()
        &&& self.act_flag.len() == 2
    }

    /// The turn can change: the match is not over and both sides have set
    /// an action since the last turn.
    pub open spec fn ready(self) -> bool {
        self.field.now_turn != self.field.final_turn && self.act_flag[0] && self.act_flag[1]
    }

    /// `after` is this state one turn later, where `out` lists the actions
    /// that happen: they change the board in their order, regions and
    /// scores are computed anew, the turn counter goes up, and everyone
    /// stays again.
    pub open spec fn turned(self, out: Seq<(bool, usize, Act)>, after: SimulatorView) -> bool {
        &&& resolves(self.field, self.acts, out)
        &&& after.field == (FieldView {
            now_turn: (self.field.now_turn + 1) as u8,
            ..applied_all(self.field, out, out.len() as int).regioned().rescored()
        })
        &&& after.acts == Seq::new(
            2,
            |s: int| Seq::new(self.field.agent_count() as nat, |i: int| Act::StayAct),
        )
        &&& after.act_flag == seq![false, false]
    }
}

/// A board together with the actions asked for in the running turn.
pub struct Simulator {
    field: Field,
    acts: Vec<Vec<Act>>,
    flag_first: bool,
    flag_second: bool,
}

impl View for Simulator {
    type V = SimulatorView;

    closed spec fn view(&self) -> SimulatorView {
        SimulatorView {
            field: self.field@,
            acts: table_of(self.acts),
            act_flag: seq![self.flag_first, self.flag_second],
        }
    }
}

fn stay_table(n: usize) -> (acts: Vec<Vec<Act>>)
    ensures
        table_of(acts) == Seq::new(2, |s: int| Seq::new(n as nat, |i: int| Act::StayAct)),
{
    let mut acts: Vec<Vec<Act>> = Vec::new();
    let mut s: usize = 0;
    while s < 2
        invariant
            s <= 2,
            acts.len() == s,
            forall|a: int| 0 <= a < s ==> (#[trigger] acts[a])@ == Seq::new(n as nat, |i: int| Act::StayAct),
        decreases 2 - s,
    {
        let mut row: Vec<Act> = Vec::new();
        let mut i: usize = 0;
        while i < n
            invariant
                i <= n,
                row.len() == i,
                forall|b: int| 0 <= b < i ==> (#[trigger] row[b]) == Act::StayAct,
            decreases n - i,
        {
            row.push(Act::StayAct);
            i += 1;
        }
        assert(row@ =~= Seq::new(n as nat, |i: int| Act::StayAct));
        acts.push(row);
        s += 1;
    }
    assert(table_of(acts) =~= Seq::new(2, |s: int| Seq::new(n as nat, |i: int| Act::StayAct)));
    acts
}

impl Clone for Simulator {
    fn clone(&self) -> (r: Simulator)
        ensures
            r@ == self@,
    {
        let mut acts: Vec<Vec<Act>> = Vec::new();
        let mut s: usize = 0;
        while s < self.acts.len()
            invariant
                s <= self.acts.len(),
                acts.len() == s,
                forall|a: int| 0 <= a < s ==> (#[trigger] acts[a])@ == self.acts[a]@,
            decreases self.acts.len() - s,
        {
            let row = copy_acts(&self.acts[s]);
            acts.push(row);
            s += 1;
        }
        assert(table_of(acts) =~= table_of(self.acts));
        Simulator {
            field: self.field.clone(),
            acts,
            flag_first: self.flag_first,
            flag_second: self.flag_second,
        }
    }
}

fn copy_acts(src: &Vec<Act>) -> (dst: Vec<Act>)
    ensures
        dst@ == src@,
{
    let mut dst: Vec<Act> = Vec::new();
    let mut i: usize = 0;
    while i < src.len()
        invariant
            i <= src.len(),
            dst.len() == i,
            forall|b: int| 0 <= b < i ==> #[trigger] dst[b] == src[b],
        decreases src.len() - i,
    {
        dst.push(src[i]);
        i += 1;
    }
    assert(dst@ =~= src@);
    dst
}

impl Simulator {
    pub open spec fn wf(&self) -> bool {
        self@.wf()
    }

    /// A simulator on `field` in which every agent stays and no side has
    /// set an action yet.
    pub fn new(field: Field) -> (sim: Simulator)
        requires
            field.wf(),
        ensures
            sim.wf(),
            sim@.field == field@,
            sim@.acts == Seq::new(
                2,
                |s: int| Seq::new(field@.agent_count() as nat, |i: int| Act::StayAct),
            ),
            sim@.act_flag == seq![false, false],
    {
        let n = field.agent_count();
        Simulator { field, acts: stay_table(n), flag_first: false, flag_second: false }
    }

    pub fn get_field(&self) -> (field: &Field)
        ensures
            field@ == self@.field,
    {
        &self.field
    }

    /// The board, to change in place. The simulator stays well formed as
    /// long as the board does and keeps its number of agents.
    pub fn get_mut_field(&mut self) -> (field: &mut Field)
        ensures
            field@ == old(self)@.field,
            final(self)@ == (SimulatorView { field: final(field)@, ..old(self)@ }),
    {
        &mut self.field
    }

    /// Replaces the board by a copy of `field`.
    pub fn set_field(&mut self, field: &Field)
        ensures
            final(self)@ == (SimulatorView { field: field@, ..old(self)@ }),
    {
        self.field = field.clone();
    }

    pub fn get_act(&self, side: bool, id: usize) -> (act: Act)
        requires
            self.wf(),
            id < self@.field.agent_count(),
        ensures
            act == self@.acts[side_index(side)][id as int],
    {
        let slot = side_slot(side);
        assert(self@.acts[slot as int] == self.acts[slot as int]@);
        self.acts[slot][id]
    }

    pub fn get_acts(&self, side: usize) -> (acts: Vec<Act>)
        requires
            self.wf(),
            side < 2,
        ensures
            acts@ == self@.acts[side as int],
    {
        copy_acts(&self.acts[side])
    }

    /// Sets the action of one agent and notes that its side has chosen.
    pub fn set_act(&mut self, side: bool, id: usize, act: Act)
        requires
            old(self).wf(),
            id < old(self)@.field.agent_count(),
        ensures
            final(self).wf(),
            final(self)@ == (SimulatorView {
                acts: old(self)@.acts.update(
                    side_index(side),
                    old(self)@.acts[side_index(side)].update(id as int, act),
                ),
                act_flag: old(self)@.act_flag.update(side_index(side), true),
                ..old(self)@
            }),
    {
        let slot = side_slot(side);
        assert(self@.acts[slot as int] == self.acts[slot as int]@);
        let ghost before = self@;
        self.acts[slot][id] = act;
        if side {
            self.flag_second = true;
        } else {
            self.flag_first = true;
        }
        proof {
            assert(self@.acts =~~= before.acts.update(
                side_index(side),
                before.acts[side_index(side)].update(id as int, act),
            ));
            assert(self@.act_flag =~= before.act_flag.update(side_index(side), true));
        }
    }

    /// Plays the turn, if the match is not over and both sides have set an
    /// action: the actions that happen change the board in the order in
    /// which they are listed, regions and scores are computed anew, the
    /// turn counter goes up by one, and every agent is set to stay again.
    /// Otherwise nothing changes.
    pub fn change_turn(&mut self)
        requires
            old(self).wf(),
        ensures
            final(self).wf(),
            !old(self)@.ready() ==> final(self)@ == old(self)@,
            old(self)@.ready() ==> exists|out: Seq<(bool, usize, Act)>| #[trigger]
                old(self)@.turned(out, final(self)@),
    {
        if self.field.now_turn() == self.field.final_turn() || !self.flag_first
            || !self.flag_second {
            return ;
        }
        let ghost before = self@;
        let ghost fv = self.field@;
        let n = self.field.agent_count();
        let out = act_list(&self.acts, &self.field);
        let mut j: usize = 0;
        while j < out.len()
            invariant
                j <= out.len(),
                fv.wf(),
                resolves(fv, before.acts, out@),
                self.field.wf(),
                self.field@ == applied_all(fv, out@, j as int),
                self.field@.width() == fv.width(),
                self.field@.height() == fv.height(),
                self.field@.agent_count() == fv.agent_count(),
                self.field@.now_turn == fv.now_turn,
                self.field@.final_turn == fv.final_turn,
                table_of(self.acts) == before.acts,
                before.acts == old(self)@.acts,
            decreases out.len() - j,
        {
            let (side, id, act) = out[j];
            assert(executes(fv, before.acts, out@[j as int].0, out@[j as int].1 as int));
            assert(act == settled(fv, before.acts, side, id as int));
            match act {
                Act::PutAct(p) => {
                    self.field.set_agent(side, id, Some(p));
                },
                Act::MoveAct(p) => {
                    self.field.set_agent(side, id, Some(p));
                    self.field.set_state(p.usize(), State::Wall(side));
                },
                Act::RemoveAct(p) => {
                    self.field.set_state(p.usize(), State::Neutral);
                },
                Act::StayAct => {},
            }
            j += 1;
        }
        self.field.update_region();
        self.field.update_score();
        self.field.update_turn();
        self.acts = stay_table(n);
        self.flag_first = false;
        self.flag_second = false;
        proof {
            assert(self@.act_flag =~= seq![false, false]);
            assert(before.turned(out@, self@));
        }
    }
}

} // verus!
