//! Planning several turns ahead: a beam search over the ways an agent can
//! walk, which keeps the ways apart from each other, and the bookkeeping
//! of an annealing that picks one way per agent.
use crate::algorithms::base::{make_neighbors, neighbors, point, spec_point, Solver};
use crate::field::{side_index, table_of, Field, FieldView, Point, PointUsize, State};
use crate::simulator::Act;
use vstd::prelude::*;

verus! {

/// How many turns the search looks ahead.
pub const DEPTH: usize = 5;

/// How many ways per agent the search keeps at each depth.
pub const WIDTH: usize = 30;

/// How many ways the search keeps when it places agents.
pub const PUT_WIDTH: usize = 60;

/// The value of one point. All values of ways are in millionths of a
/// point.
pub const UNIT: i64 = 1_000_000;

/// The deepest a search may look.
pub const MAX_DEPTH: usize = 1000;

/// The bonus for a way that leaves the ways kept so far at once, per
/// square of the turns that it stays apart.
pub const LCP_PER: i64 = 2_000_000;

/// The penalty per square of the number of tiles that a way shares with a
/// way kept so far, averaged over those ways.
pub const SAME_TILE_PER: i64 = 1_000_000;

/// What a point gained `t` turns ahead is worth now: three fifths for
/// every turn, rounded down each time.
pub open spec fn decay(t: nat) -> int
    decreases t,
{
    if t == 0 {
        UNIT as int
    } else {
        decay((t - 1) as nat) * 3 / 5
    }
}

pub proof fn lemma_decay_bounds(t: nat)
    ensures
        0 <= decay(t) <= UNIT,
    decreases t,
{
    if t > 0 {
        lemma_decay_bounds((t - 1) as nat);
    }
}

/// What a point gained `t` turns ahead is worth now.
pub fn decay_at(t: usize) -> (d: i64)
    ensures
        d == decay(t as nat),
        0 <= d <= UNIT,
{
    let mut d: i64 = UNIT;
    let mut k: usize = 0;
    while k < t
        invariant
            k <= t,
            d == decay(k as nat),
            0 <= d <= UNIT,
        decreases t - k,
    {
        proof {
            lemma_decay_bounds((k + 1) as nat);
        }
        d = d * 3 / 5;
        k += 1;
    }
    d
}

/// The value of stepping onto `nex` by `act`, in tenths of a point: the
/// points of the action, counted in full, or at three tenths where an
/// agent of the other side stands. Nothing if the way has been on `nex`
/// before. `None` where the action has no points.
pub open spec fn base_value(
    fv: FieldView,
    side: bool,
    agents: Seq<Point>,
    used: Seq<Point>,
    nex: Point,
    act: Act,
) -> Option<int> {
    match spec_point(fv, side, act) {
        Some(p) => Some(
            if used.contains(nex) {
                0int
            } else if agents.contains(nex) {
                p * 3
            } else {
                p * 10
            },
        ),
        None => None,
    }
}

/// The value of a base of `tenths` gained `t` turns ahead. A removal that
/// is followed by the move onto the tile counts eight fifths. Fractions
/// of a millionth are dropped.
pub open spec fn step_value(tenths: int, t: nat, long: bool) -> int {
    let size = if tenths < 0 {
        -tenths
    } else {
        tenths
    };
    let worth = if long {
        size * decay(t) * 8 / 50
    } else {
        size * decay(t) / 10
    };
    if tenths < 0 {
        -worth
    } else {
        worth
    }
}

/// A step onto this tile is the removal of a wall of the other side.
pub open spec fn is_removal(fv: FieldView, side: bool, p: Point) -> bool {
    fv.tile_at(p).state == State::Wall(!side)
}

/// The action of a step onto `p`.
pub open spec fn step_act(fv: FieldView, side: bool, p: Point) -> Act {
    if is_removal(fv, side, p) {
        Act::RemoveAct(p)
    } else {
        Act::MoveAct(p)
    }
}

/// A step from `from` to a different tile of the board that touches it.
pub open spec fn steps_to(fv: FieldView, from: Point, to: Point) -> bool {
    fv.inside(to) && from.spec_neighbor(to) && from != to
}

/// The first `j` positions of `path` are a way on the board for a search
/// of depth `md`: it starts on the board, and every turn it steps to a
/// neighbouring tile. The removal of a wall of the other side takes two
/// turns, in which the way stays on the wall's tile, unless it happens in
/// the last turn.
pub open spec fn walk_ok(fv: FieldView, side: bool, md: int, path: Seq<Point>, j: int) -> bool
    decreases j,
{
    if j <= 0 {
        false
    } else if j == 1 {
        fv.inside(path[0])
    } else if path[j - 1] == path[j - 2] {
        &&& j >= 3
        &&& walk_ok(fv, side, md, path, j - 2)
        &&& steps_to(fv, path[j - 3], path[j - 2])
        &&& is_removal(fv, side, path[j - 2])
        &&& j - 1 <= md
    } else {
        &&& walk_ok(fv, side, md, path, j - 1)
        &&& steps_to(fv, path[j - 2], path[j - 1])
        &&& (is_removal(fv, side, path[j - 1]) ==> j - 1 == md)
    }
}

/// The value of the first `j` positions of a way: the sum of the values of
/// its steps, each discounted by the turn in which it is taken.
pub open spec fn path_value(
    fv: FieldView,
    side: bool,
    agents: Seq<Point>,
    path: Seq<Point>,
    j: int,
) -> int
    decreases j,
{
    if j <= 1 {
        0
    } else if path[j - 1] == path[j - 2] {
        path_value(fv, side, agents, path, j - 2) + (match base_value(
            fv,
            side,
            agents,
            path.subrange(0, j - 2),
            path[j - 2],
            Act::RemoveAct(path[j - 2]),
        ) {
            Some(b) => step_value(b, (j - 3) as nat, true),
            None => 0,
        })
    } else {
        path_value(fv, side, agents, path, j - 1) + (match base_value(
            fv,
            side,
            agents,
            path.subrange(0, j - 1),
            path[j - 1],
            step_act(fv, side, path[j - 1]),
        ) {
            Some(b) => step_value(b, (j - 2) as nat, false),
            None => 0,
        })
    }
}

/// The first action of a way: staying if the way has one position, else
/// the action of its first step.
pub open spec fn first_act(fv: FieldView, side: bool, path: Seq<Point>) -> Act {
    if path.len() <= 1 {
        Act::StayAct
    } else {
        step_act(fv, side, path[1])
    }
}

/// An agent of `side` stands on `p`.
pub open spec fn stands(fv: FieldView, side: bool, p: Point) -> bool {
    exists|id: int| 0 <= id < fv.agent_count() && #[trigger] fv.agent(side, id) == Some(p)
}

/// The tiles on which the first `k` agents of `side` stand, in the order
/// of the agents.
pub open spec fn standing_upto(fv: FieldView, side: bool, k: int) -> Seq<Point>
    decreases k,
{
    if k <= 0 {
        Seq::empty()
    } else {
        match fv.agent(side, k - 1) {
            Some(p) => standing_upto(fv, side, k - 1).push(p),
            None => standing_upto(fv, side, k - 1),
        }
    }
}

/// The numbers of the first `k` agents of `side` that stand on the board.
pub open spec fn placed_upto(fv: FieldView, side: bool, k: int) -> Seq<usize>
    decreases k,
{
    if k <= 0 {
        Seq::empty()
    } else if fv.agent(side, k - 1) is Some {
        placed_upto(fv, side, k - 1).push((k - 1) as usize)
    } else {
        placed_upto(fv, side, k - 1)
    }
}

/// The numbers of the first `k` agents of `side` that are off the board.
pub open spec fn unplaced_upto(fv: FieldView, side: bool, k: int) -> Seq<usize>
    decreases k,
{
    if k <= 0 {
        Seq::empty()
    } else if fv.agent(side, k - 1) is None {
        unplaced_upto(fv, side, k - 1).push((k - 1) as usize)
    } else {
        unplaced_upto(fv, side, k - 1)
    }
}

/// One of the first `upto` agents of `side` stands on `p`.
pub open spec fn stands_among(fv: FieldView, side: bool, upto: int, p: Point) -> bool {
    exists|id: int| 0 <= id < upto && #[trigger] fv.agent(side, id) == Some(p)
}

pub proof fn lemma_stands_among_step(fv: FieldView, side: bool, upto: int, p: Point)
    requires
        0 <= upto,
    ensures
        stands_among(fv, side, upto + 1, p) <==> (stands_among(fv, side, upto, p) || fv.agent(
            side,
            upto,
        ) == Some(p)),
{
    if stands_among(fv, side, upto + 1, p) {
        let id = choose|id: int| 0 <= id < upto + 1 && #[trigger] fv.agent(side, id) == Some(p);
        if id < upto {
            assert(stands_among(fv, side, upto, p));
        }
    }
    if stands_among(fv, side, upto, p) {
        let id = choose|id: int| 0 <= id < upto && #[trigger] fv.agent(side, id) == Some(p);
        assert(0 <= id < upto + 1 && fv.agent(side, id) == Some(p));
    }
    if fv.agent(side, upto) == Some(p) {
        assert(0 <= upto < upto + 1 && fv.agent(side, upto) == Some(p));
    }
}

/// A list with one more point holds what it held, and that point.
pub proof fn lemma_push_contains(s: Seq<Point>, x: Point, p: Point)
    ensures
        s.push(x).contains(p) <==> (s.contains(p) || p == x),
{
    if s.push(x).contains(p) {
        let j = choose|j: int| 0 <= j < s.push(x).len() && s.push(x)[j] == p;
        if j < s.len() {
            assert(s[j] == p);
        }
    }
    if s.contains(p) {
        let j = choose|j: int| 0 <= j < s.len() && s[j] == p;
        assert(s.push(x)[j] == p);
    }
    if p == x {
        assert(s.push(x)[s.len() as int] == p);
    }
}

/// A way that the search has found, `poses`, with its value, its last
/// position, its first action and the tiles it has been on.
#[derive(Clone, Debug)]
pub struct DpState {
    pub score: i64,
    pub pos: Point,
    pub act: Act,
    pub used: Vec<Point>,
    pub poses: Vec<Point>,
}

/// A way as plain values.
pub struct Way {
    pub score: int,
    pub pos: Point,
    pub act: Act,
    pub used: Seq<Point>,
    pub poses: Seq<Point>,
}

impl View for DpState {
    type V = Way;

    open spec fn view(&self) -> Way {
        Way {
            score: self.score as int,
            pos: self.pos,
            act: self.act,
            used: self.used@,
            poses: self.poses@,
        }
    }
}

/// The ways that a list of states holds.
pub open spec fn ways_of(list: Seq<DpState>) -> Seq<Way> {
    Seq::new(list.len(), |i: int| list[i]@)
}

/// The plans of one side on a board. `agent_set` holds the tiles on which
/// agents of the other side stand.
pub struct SocialDistance<'a> {
    pub field: &'a Field,
    pub agent_set: Vec<Point>,
    pub side: bool,
}

/// The largest magnitude of the value of a way.
pub const MAX_VALUE: i64 = 1_000_000_000_000_000;

impl<'a> SocialDistance<'a> {
    /// The state is a way of `len` positions with what belongs to it.
    pub open spec fn state_ok(&self, md: int, st: DpState, len: int) -> bool {
        &&& st.poses.len() == len
        &&& 1 <= len <= md + 1
        &&& walk_ok(self.field@, self.side, md, st.poses@, len)
        &&& st.pos == st.poses[len - 1]
        &&& st.act == first_act(self.field@, self.side, st.poses@)
        &&& forall|p: Point| st.used@.contains(p) <==> st.poses@.contains(p)
        &&& st.used@.no_duplicates()
        &&& st.used.len() <= len
        &&& st.score == path_value(self.field@, self.side, self.agent_set@, st.poses@, len)
        &&& -len * 500_000_000 <= st.score <= len * 500_000_000
    }

    /// The tiles noted once the tiles on which the agents of the other
    /// side stand have been added.
    pub open spec fn noted(&self) -> Seq<Point> {
        self.agent_set@ + standing_upto(self.field@, !self.side, self.field@.agent_count())
    }

    /// Notes the tiles on which the agents of the other side stand.
    pub fn note_opponents(&mut self)
        requires
            old(self).field.wf(),
        ensures
            final(self).field == old(self).field,
            final(self).side == old(self).side,
            final(self).agent_set@ == old(self).noted(),
            forall|p: Point| #[trigger]
                final(self).agent_set@.contains(p) <==> (old(self).agent_set@.contains(p)
                    || stands(old(self).field@, !old(self).side, p)),
    {
        let n = self.field.agent_count();
        let ghost start = self.agent_set@;
        let ghost fv = self.field@;
        let ghost other = !self.side;
        assert(start + standing_upto(fv, other, 0) =~= start);
        let mut id: usize = 0;
        while id < n
            invariant
                self.field.wf(),
                self.field == old(self).field,
                self.side == old(self).side,
                fv == self.field@,
                other == !self.side,
                start == old(self).agent_set@,
                n == fv.agent_count(),
                id <= n,
                self.agent_set@ == start + standing_upto(fv, other, id as int),
                forall|p: Point| #[trigger]
                    self.agent_set@.contains(p) <==> (start.contains(p) || stands_among(
                        fv,
                        other,
                        id as int,
                        p,
                    )),
            decreases n - id,
        {
            let ghost before = self.agent_set@;
            let found = self.field.agent(!self.side, id);
            assert(found == fv.agent(other, id as int));
            match found {
                Some(pos) => {
                    self.agent_set.push(pos);
                    proof {
                        assert(self.agent_set@ == before.push(pos));
                        assert(self.agent_set@ =~= start + standing_upto(fv, other, id + 1));
                        assert forall|p: Point| #[trigger]
                            self.agent_set@.contains(p) <==> (start.contains(p) || stands_among(
                                fv,
                                other,
                                id + 1,
                                p,
                            )) by {
                            lemma_stands_among_step(fv, other, id as int, p);
                            lemma_push_contains(before, pos, p);
                            assert(before.contains(p) <==> (start.contains(p) || stands_among(
                                fv,
                                other,
                                id as int,
                                p,
                            )));
                        }
                    }
                },
                None => {
                    proof {
                        assert forall|p: Point| #[trigger]
                            self.agent_set@.contains(p) <==> (start.contains(p) || stands_among(
                                fv,
                                other,
                                id + 1,
                                p,
                            )) by {
                            lemma_stands_among_step(fv, other, id as int, p);
                        }
                    }
                },
            }
            id += 1;
        }
        proof {
            assert(start + standing_upto(fv, other, 0) =~= start);
            assert forall|p: Point| #[trigger]
                self.agent_set@.contains(p) <==> (start.contains(p) || stands(fv, other, p)) by {
                assert(stands(fv, other, p) == stands_among(fv, other, n as int, p));
            }
        }
    }

    /// The value of stepping onto `nex_pos` by `act`, in tenths of a
    /// point. A tile that the way has been on before is worth nothing.
    pub fn calc_base(&self, used: &Vec<Point>, nex_pos: &Point, act: &Act) -> (value: Option<i64>)
        requires
            self.field.wf(),
        ensures
            match value {
                Some(v) => base_value(
                    self.field@,
                    self.side,
                    self.agent_set@,
                    used@,
                    *nex_pos,
                    *act,
                ) == Some(v as int) && -2560 <= v <= 2540,
                None => base_value(self.field@, self.side, self.agent_set@, used@, *nex_pos, *act)
                    is None,
            },
            used@.contains(*nex_pos) && value is Some ==> value == Some(0i64),
    {
        match point(self.side, *act, self.field) {
            Some(p) => Some(
                if holds(used, *nex_pos) {
                    0
                } else if holds(&self.agent_set, *nex_pos) {
                    p as i64 * 3
                } else {
                    p as i64 * 10
                },
            ),
            None => None,
        }
    }
}

/// What a way is worth and whether it is a way depends only on the
/// positions looked at.
pub proof fn lemma_walk_prefix(
    fv: FieldView,
    side: bool,
    agents: Seq<Point>,
    md: int,
    a: Seq<Point>,
    b: Seq<Point>,
    j: int,
)
    requires
        j <= a.len() <= b.len(),
        forall|k: int| 0 <= k < a.len() ==> a[k] == b[k],
    ensures
        walk_ok(fv, side, md, a, j) == walk_ok(fv, side, md, b, j),
        path_value(fv, side, agents, a, j) == path_value(fv, side, agents, b, j),
    decreases j,
{
    if j >= 2 {
        lemma_walk_prefix(fv, side, agents, md, a, b, j - 1);
        lemma_walk_prefix(fv, side, agents, md, a, b, j - 2);
        assert(a.subrange(0, j - 1) =~= b.subrange(0, j - 1));
        assert(a.subrange(0, j - 2) =~= b.subrange(0, j - 2));
    }
}

/// The value of a step depends on the tiles used only through whether the
/// tile stepped on is among them.
pub proof fn lemma_base_value_used(
    fv: FieldView,
    side: bool,
    agents: Seq<Point>,
    used: Seq<Point>,
    other: Seq<Point>,
    nex: Point,
    act: Act,
)
    requires
        used.contains(nex) == other.contains(nex),
    ensures
        base_value(fv, side, agents, used, nex, act) == base_value(
            fv,
            side,
            agents,
            other,
            nex,
            act,
        ),
{
}

impl DpState {
    /// The way continued by a step onto `nex_pos`, which adds `add_score`
    /// to its value. With `twice` the way stays on that tile for a second
    /// turn. The first action is `nex_act` if the way had none yet.
    pub fn from(&self, nex_pos: Point, nex_act: Act, add_score: i64, twice: bool) -> (st: DpState)
        requires
            self.pos != nex_pos,
            i64::MIN <= self.score + add_score <= i64::MAX,
        ensures
            st.score == self.score + add_score,
            st.pos == nex_pos,
            st.act == (if self.act == Act::StayAct {
                nex_act
            } else {
                self.act
            }),
            st.used@ == (if self.used@.contains(nex_pos) {
                self.used@
            } else {
                self.used@.push(nex_pos)
            }),
            forall|p: Point| st.used@.contains(p) <==> (self.used@.contains(p) || p == nex_pos),
            self.used@.no_duplicates() ==> st.used@.no_duplicates(),
            st.used.len() <= self.used.len() + 1,
            st.poses@ == (if twice {
                self.poses@.push(nex_pos).push(nex_pos)
            } else {
                self.poses@.push(nex_pos)
            }),
    {
        let mut used: Vec<Point> = Vec::new();
        let mut i: usize = 0;
        while i < self.used.len()
            invariant
                i <= self.used.len(),
                used@ == self.used@.subrange(0, i as int),
            decreases self.used.len() - i,
        {
            used.push(self.used[i]);
            assert(used@ =~= self.used@.subrange(0, i as int + 1));
            i += 1;
        }
        assert(used@ =~= self.used@);
        if !holds(&used, nex_pos) {
            used.push(nex_pos);
        }
        let mut poses: Vec<Point> = Vec::new();
        let mut i: usize = 0;
        while i < self.poses.len()
            invariant
                i <= self.poses.len(),
                poses@ == self.poses@.subrange(0, i as int),
            decreases self.poses.len() - i,
        {
            poses.push(self.poses[i]);
            assert(poses@ =~= self.poses@.subrange(0, i as int + 1));
            i += 1;
        }
        assert(poses@ =~= self.poses@);
        poses.push(nex_pos);
        if twice {
            poses.push(nex_pos);
        }
        proof {
            assert forall|p: Point| used@.contains(p) <==> (self.used@.contains(p) || p
                == nex_pos) by {
                lemma_push_contains(self.used@, nex_pos, p);
            }
            assert(self.used@.no_duplicates() ==> used@.no_duplicates());
        }
        DpState {
            score: self.score + add_score,
            pos: nex_pos,
            act: match self.act {
                Act::StayAct => nex_act,
                _ => self.act,
            },
            used,
            poses,
        }
    }
}

/// The way `st` of `t + 1` positions continued by a step onto the
/// neighbouring tile `nex`, and the number of turns the longer way takes;
/// `None` if the step has no value. The removal of a wall of the other
/// side takes two turns unless it is the last; the first action of the way
/// stays what it is once it is set.
pub open spec fn step_way(
    fv: FieldView,
    side: bool,
    agents: Seq<Point>,
    st: Way,
    nex: Point,
    t: int,
    md: int,
) -> Option<(Way, int)> {
    let act = step_act(fv, side, nex);
    let long = is_removal(fv, side, nex) && t != md - 1;
    match base_value(fv, side, agents, st.used, nex, act) {
        Some(b) => Some(
            (
                Way {
                    score: st.score + step_value(b, t as nat, long),
                    pos: nex,
                    act: if st.act == Act::StayAct {
                        act
                    } else {
                        st.act
                    },
                    used: if st.used.contains(nex) {
                        st.used
                    } else {
                        st.used.push(nex)
                    },
                    poses: if long {
                        st.poses.push(nex).push(nex)
                    } else {
                        st.poses.push(nex)
                    },
                },
                if long {
                    t + 2
                } else {
                    t + 1
                },
            ),
        ),
        None => None,
    }
}

impl<'a> SocialDistance<'a> {
    /// The way `st` of `t + 1` positions continued by a step onto the
    /// neighbouring tile `nex`, and the number of turns the longer way
    /// takes. `None` if the step has no value.
    pub fn extend(&self, st: &DpState, nex: Point, t: usize, md: usize) -> (r: Option<
        (DpState, usize),
    >)
        requires
            self.field.wf(),
            md <= MAX_DEPTH,
            t < md,
            self.state_ok(md as int, *st, t + 1),
            steps_to(self.field@, st.pos, nex),
        ensures
            r matches Some((next, turn)) ==> t < turn <= md && self.state_ok(
                md as int,
                next,
                turn + 1,
            ) && next.poses[0] == st.poses[0],
            match r {
                Some((next, turn)) => step_way(
                    self.field@,
                    self.side,
                    self.agent_set@,
                    st@,
                    nex,
                    t as int,
                    md as int,
                ) == Some((next@, turn as int)),
                None => step_way(
                    self.field@,
                    self.side,
                    self.agent_set@,
                    st@,
                    nex,
                    t as int,
                    md as int,
                ) is None,
            },
    {
        let ghost fv = self.field@;
        let ghost path = st.poses@;
        let tile = self.field.tile(nex.usize());
        let removal = match tile.state() {
            State::Wall(owner) => owner != self.side,
            _ => false,
        };
        assert(removal == is_removal(fv, self.side, nex));
        let act = if removal {
            Act::RemoveAct(nex)
        } else {
            Act::MoveAct(nex)
        };
        let long = removal && t != md - 1;
        match self.calc_base(&st.used, &nex, &act) {
            Some(base) => {
                let add = step_worth(base, t, long);
                let next = st.from(nex, act, add, long);
                let turn = if long {
                    t + 2
                } else {
                    t + 1
                };
                proof {
                    let new_path = next.poses@;
                    let len = t + 1;
                    lemma_walk_prefix(fv, self.side, self.agent_set@, md as int, path, new_path, len as int);
                    assert(new_path.subrange(0, len as int) =~= path);
                    lemma_base_value_used(
                        fv,
                        self.side,
                        self.agent_set@,
                        st.used@,
                        path,
                        nex,
                        act,
                    );
                    assert(forall|p: Point| next.used@.contains(p) <==> next.poses@.contains(p)) by {
                        assert forall|p: Point| next.used@.contains(p) <==> next.poses@.contains(
                            p,
                        ) by {
                            lemma_push_contains(path, nex, p);
                            lemma_push_contains(path.push(nex), nex, p);
                        }
                    }
                    assert(next.act == first_act(fv, self.side, new_path)) by {
                        if len == 1 {
                            assert(st.act == Act::StayAct);
                            assert(new_path[1] == nex);
                        } else {
                            assert(new_path[1] == path[1]);
                            assert(st.act != Act::StayAct);
                        }
                    }
                    if long {
                        assert(new_path[len as int] == nex);
                        assert(new_path[len + 1] == nex);
                        assert(new_path[len - 1] == st.pos);
                    } else {
                        assert(new_path[len as int] == nex);
                        assert(new_path[len - 1] == st.pos);
                    }
                }
                Some((next, turn))
            },
            None => None,
        }
    }
}

/// Two states hold the same way with the same value.
pub open spec fn same_state(a: DpState, b: DpState) -> bool {
    &&& a.score == b.score
    &&& a.pos == b.pos
    &&& a.act == b.act
    &&& a.used@ == b.used@
    &&& a.poses@ == b.poses@
}

/// The state is one of the list.
pub open spec fn among(st: DpState, list: Seq<DpState>) -> bool {
    exists|i: int| 0 <= i < list.len() && same_state(st, #[trigger] list[i])
}

/// A copy of a list of points.
pub fn copy_points(src: &Vec<Point>) -> (dst: Vec<Point>)
    ensures
        dst@ == src@,
{
    let mut dst: Vec<Point> = Vec::new();
    let mut i: usize = 0;
    while i < src.len()
        invariant
            i <= src.len(),
            dst@ == src@.subrange(0, i as int),
        decreases src.len() - i,
    {
        dst.push(src[i]);
        assert(dst@ =~= src@.subrange(0, i as int + 1));
        i += 1;
    }
    assert(dst@ =~= src@);
    dst
}

/// A copy of a state.
pub fn copy_state(st: &DpState) -> (r: DpState)
    ensures
        same_state(r, *st),
{
    DpState {
        score: st.score,
        pos: st.pos,
        act: st.act,
        used: copy_points(&st.used),
        poses: copy_points(&st.poses),
    }
}

/// The number of positions in which two ways agree from their start on.
pub open spec fn common_prefix(a: Seq<Point>, b: Seq<Point>, k: int) -> int
    decreases a.len() - k,
{
    if 0 <= k < a.len() && k < b.len() && a[k] == b[k] {
        common_prefix(a, b, k + 1)
    } else {
        k
    }
}

/// The number of positions in which two ways agree from their start on,
/// computed.
pub fn shared_start(a: &Vec<Point>, b: &Vec<Point>) -> (k: usize)
    ensures
        k == common_prefix(a@, b@, 0),
        k <= a.len(),
        k <= b.len(),
{
    let mut k: usize = 0;
    while k < a.len() && k < b.len() && a[k] == b[k]
        invariant
            k <= a.len(),
            k <= b.len(),
            common_prefix(a@, b@, 0) == common_prefix(a@, b@, k as int),
        decreases a.len() - k,
    {
        k += 1;
    }
    k
}

/// The number of the first `k` points of `a` that `b` holds.
pub open spec fn shared_tiles(a: Seq<Point>, b: Seq<Point>, k: int) -> int
    decreases k,
{
    if k <= 0 {
        0
    } else {
        shared_tiles(a, b, k - 1) + if b.contains(a[k - 1]) {
            1int
        } else {
            0int
        }
    }
}

/// The number of points of `a` that `b` holds, computed.
pub fn overlap(a: &Vec<Point>, b: &Vec<Point>) -> (n: usize)
    ensures
        n == shared_tiles(a@, b@, a.len() as int),
        n <= a.len(),
{
    let mut n: usize = 0;
    let mut k: usize = 0;
    while k < a.len()
        invariant
            k <= a.len(),
            n == shared_tiles(a@, b@, k as int),
            n <= k,
        decreases a.len() - k,
    {
        if holds(b, a[k]) {
            n += 1;
        }
        k += 1;
    }
    n
}

/// The largest magnitude of a bonus or penalty per square for which a
/// rating stays within what an `i64` holds: a million points.
pub const MAX_WEIGHT: i64 = 1_000_000_000_000;

/// The place in the list, from `from` on, of the first item whose key is
/// smaller than `key`.
pub open spec fn below(list: Seq<(i64, usize)>, key: i64, from: int) -> int
    decreases list.len() - from,
{
    if 0 <= from < list.len() && list[from].0 >= key {
        below(list, key, from + 1)
    } else {
        from
    }
}

/// The list with `item` put in behind all items whose key is no smaller,
/// where the list is ordered by falling keys.
pub open spec fn put_falling(list: Seq<(i64, usize)>, item: (i64, usize)) -> Seq<(i64, usize)> {
    list.insert(below(list, item.0, 0), item)
}

/// The list is ordered by falling keys.
pub open spec fn falling(list: Seq<(i64, usize)>) -> bool {
    forall|a: int, b: int| 0 <= a < b < list.len() ==> list[a].0 >= list[b].0
}

pub proof fn lemma_below_bounds(list: Seq<(i64, usize)>, key: i64, from: int)
    requires
        0 <= from <= list.len(),
    ensures
        from <= below(list, key, from) <= list.len(),
        forall|k: int| from <= k < below(list, key, from) ==> (#[trigger] list[k]).0 >= key,
        below(list, key, from) < list.len() ==> list[below(list, key, from)].0 < key,
    decreases list.len() - from,
{
    if from < list.len() && list[from].0 >= key {
        lemma_below_bounds(list, key, from + 1);
    }
}

/// Putting an item into a list ordered by falling keys keeps the order,
/// and the list then holds what it held, and the item.
pub proof fn lemma_put_falling(list: Seq<(i64, usize)>, item: (i64, usize))
    requires
        falling(list),
    ensures
        falling(put_falling(list, item)),
        put_falling(list, item).len() == list.len() + 1,
        forall|a: int|
            0 <= a < put_falling(list, item).len() ==> (#[trigger] put_falling(list, item)[a])
                == item || list.contains(put_falling(list, item)[a]),
{
    let at = below(list, item.0, 0);
    lemma_below_bounds(list, item.0, 0);
    let out = put_falling(list, item);
    assert forall|a: int| 0 <= a < out.len() implies (#[trigger] out[a]) == item || list.contains(
        out[a],
    ) by {
        if a < at {
            assert(out[a] == list[a]);
        } else if a > at {
            assert(out[a] == list[a - 1]);
        }
    }
    assert forall|a: int, b: int| 0 <= a < b < out.len() implies out[a].0 >= out[b].0 by {
        let va = if a < at {
            list[a]
        } else if a == at {
            item
        } else {
            list[a - 1]
        };
        let vb = if b < at {
            list[b]
        } else if b == at {
            item
        } else {
            list[b - 1]
        };
        assert(out[a] == va);
        assert(out[b] == vb);
        if at < list.len() {
            assert(list[at].0 < item.0);
        }
    }
}

/// Puts `item` into a list that is ordered by falling keys, behind all
/// items whose key is no smaller.
fn insert_falling(list: &mut Vec<(i64, usize)>, item: (i64, usize))
    requires
        falling(old(list)@),
    ensures
        final(list)@ == put_falling(old(list)@, item),
        falling(final(list)@),
        final(list).len() == old(list).len() + 1,
        forall|a: int|
            0 <= a < final(list).len() ==> (#[trigger] final(list)[a]) == item || old(
                list,
            )@.contains(final(list)[a]),
{
    let mut at: usize = 0;
    while at < list.len() && list[at].0 >= item.0
        invariant
            at <= list.len(),
            list@ == old(list)@,
            below(list@, item.0, 0) == below(list@, item.0, at as int),
        decreases list.len() - at,
    {
        at += 1;
    }
    proof {
        lemma_put_falling(list@, item);
    }
    list.insert(at, item);
}

/// The most positions that `poses` shares from the start with one of the
/// first `k` ways kept.
pub open spec fn apart_from(cand: Seq<Way>, kept: Seq<usize>, poses: Seq<Point>, k: int) -> int
    decreases k,
{
    if k <= 0 {
        0
    } else {
        let before = apart_from(cand, kept, poses, k - 1);
        let here = common_prefix(poses, cand[kept[k - 1] as int].poses, 0);
        if here > before {
            here
        } else {
            before
        }
    }
}

/// The sum, over the first `k` ways kept, of the squares of the number of
/// tiles that each shares with `used`.
pub open spec fn crowding(cand: Seq<Way>, kept: Seq<usize>, used: Seq<Point>, k: int) -> int
    decreases k,
{
    if k <= 0 {
        0
    } else {
        let other = cand[kept[k - 1] as int].used;
        let n = shared_tiles(other, used, other.len() as int);
        crowding(cand, kept, used, k - 1) + n * n
    }
}

/// What the tiles shared with the ways kept so far cost a way:
/// `same_tile_per` for the average of the squares of the numbers of tiles
/// that it shares with each of them, rounded towards nothing.
pub open spec fn sharing_cost(squares: int, kept: int, same_tile_per: int) -> int {
    if kept <= 0 {
        0
    } else if same_tile_per >= 0 {
        same_tile_per * squares / kept
    } else {
        -((-same_tile_per) * squares / kept)
    }
}

/// The rating of a way against the ways kept so far: its value, plus
/// `lcp_per` for every square of the turns by which it stays apart from
/// them, less `same_tile_per` for the average of the squares of the tiles
/// it shares with them.
pub open spec fn rating(
    cand: Seq<Way>,
    kept: Seq<usize>,
    st: Way,
    lcp_per: int,
    same_tile_per: int,
    depth: int,
) -> int {
    let lcp = apart_from(cand, kept, st.poses, kept.len() as int);
    let apart = depth + 1 - (if lcp < 1 {
        1
    } else {
        lcp
    });
    st.score + lcp_per * (apart * apart) - sharing_cost(
        crowding(cand, kept, st.used, kept.len() as int),
        kept.len() as int,
        same_tile_per,
    )
}

/// The way repeats a way kept so far.
pub open spec fn repeats(cand: Seq<Way>, kept: Seq<usize>, st: Way) -> bool {
    apart_from(cand, kept, st.poses, kept.len() as int) == st.poses.len()
}

/// The numbers of the ways kept among the first `i`: all but those that
/// repeat a way kept before them.
pub open spec fn kept_upto(cand: Seq<Way>, i: int) -> Seq<usize>
    decreases i,
{
    if i <= 0 {
        Seq::empty()
    } else {
        let before = kept_upto(cand, i - 1);
        if repeats(cand, before, cand[i - 1]) {
            before
        } else {
            before.push((i - 1) as usize)
        }
    }
}

/// The ways kept among the first `i`, each with its rating against the
/// ways kept before it, by falling rating; of equal ratings the earlier
/// one first.
pub open spec fn rated_upto(
    cand: Seq<Way>,
    i: int,
    lcp_per: int,
    same_tile_per: int,
    depth: int,
) -> Seq<(i64, usize)>
    decreases i,
{
    if i <= 0 {
        Seq::empty()
    } else {
        let before = kept_upto(cand, i - 1);
        let list = rated_upto(cand, i - 1, lcp_per, same_tile_per, depth);
        if repeats(cand, before, cand[i - 1]) {
            list
        } else {
            put_falling(
                list,
                (
                    rating(cand, before, cand[i - 1], lcp_per, same_tile_per, depth) as i64,
                    (i - 1) as usize,
                ),
            )
        }
    }
}

/// The first `k` ways of `top`, each with its value, by falling value; of
/// equal values the one first in `top` first.
pub open spec fn by_value(cand: Seq<Way>, top: Seq<(i64, usize)>, k: int) -> Seq<(i64, usize)>
    decreases k,
{
    if k <= 0 {
        Seq::empty()
    } else {
        put_falling(
            by_value(cand, top, k - 1),
            (cand[top[k - 1].1 as int].score as i64, top[k - 1].1),
        )
    }
}

/// The numbers of the first `k` ways, each with the value of its way, by
/// falling value; of equal values the earlier way first.
pub open spec fn value_order(cand: Seq<Way>, k: int) -> Seq<(i64, usize)>
    decreases k,
{
    if k <= 0 {
        Seq::empty()
    } else {
        put_falling(value_order(cand, k - 1), (cand[k - 1].score as i64, (k - 1) as usize))
    }
}

/// The ways by falling value; of equal values the earlier one first.
pub open spec fn sorted_ways(cand: Seq<Way>) -> Seq<Way> {
    let order = value_order(cand, cand.len() as int);
    Seq::new(order.len(), |r: int| cand[order[r].1 as int])
}

/// The states by falling value; of equal values the earlier one first.
pub fn sort_states(cand: &Vec<DpState>) -> (sorted: Vec<DpState>)
    ensures
        ways_of(sorted@) == sorted_ways(ways_of(cand@)),
        sorted.len() == cand.len(),
        forall|r: int| 0 <= r < sorted.len() ==> among(#[trigger] sorted[r], cand@),
        forall|a: int, b: int| 0 <= a < b < sorted.len() ==> sorted[a].score >= sorted[b].score,
{
    let ghost cw = ways_of(cand@);
    let mut order: Vec<(i64, usize)> = Vec::new();
    let mut i: usize = 0;
    while i < cand.len()
        invariant
            i <= cand.len(),
            cw == ways_of(cand@),
            order.len() == i,
            order@ == value_order(cw, i as int),
            falling(order@),
            forall|k: int| 0 <= k < order.len() ==> (#[trigger] order[k]).1 < cand.len(),
            forall|k: int|
                0 <= k < order.len() ==> (#[trigger] order[k]).0 == cand[order[k].1 as int].score,
        decreases cand.len() - i,
    {
        let ghost before = order@;
        assert(cw[i as int] == cand[i as int]@);
        insert_falling(&mut order, (cand[i].score, i));
        proof {
            assert forall|k: int| 0 <= k < order.len() implies (#[trigger] order[k]).1 < cand.len()
                && order[k].0 == cand[order[k].1 as int].score by {
                if order[k] != (cand[i as int].score, i) {
                    assert(before.contains(order[k]));
                    let j = choose|j: int| 0 <= j < before.len() && before[j] == order[k];
                    assert(before[j].1 < cand.len());
                }
            }
        }
        i += 1;
    }
    let mut sorted: Vec<DpState> = Vec::new();
    let mut r: usize = 0;
    while r < order.len()
        invariant
            r <= order.len(),
            sorted.len() == r,
            forall|k: int| 0 <= k < order.len() ==> (#[trigger] order[k]).1 < cand.len(),
            forall|k: int| 0 <= k < r ==> same_state(#[trigger] sorted[k], cand[order[k].1 as int]),
        decreases order.len() - r,
    {
        sorted.push(copy_state(&cand[order[r].1]));
        r += 1;
    }
    proof {
        assert forall|k: int| 0 <= k < sorted.len() implies among(#[trigger] sorted[k], cand@) by {
            assert(same_state(sorted[k], cand@[order[k].1 as int]));
        }
        assert(ways_of(sorted@) =~= sorted_ways(cw)) by {
            assert forall|k: int| 0 <= k < sorted.len() implies ways_of(sorted@)[k] == sorted_ways(
                cw,
            )[k] by {
                assert(same_state(sorted[k], cand[order[k].1 as int]));
                assert(cw[order[k].1 as int] == cand[order[k].1 as int]@);
            }
        }
        assert forall|a: int, b: int| 0 <= a < b < sorted.len() implies sorted[a].score
            >= sorted[b].score by {
            assert(same_state(sorted[a], cand[order[a].1 as int]));
            assert(same_state(sorted[b], cand[order[b].1 as int]));
            assert(order[a].0 >= order[b].0);
        }
    }
    sorted
}

/// The ways that a reduction keeps, by falling value: the `width` best
/// rated of the ways that repeat no way kept before them.
pub open spec fn reduced(
    cand: Seq<Way>,
    lcp_per: int,
    same_tile_per: int,
    depth: int,
    width: int,
) -> Seq<(i64, usize)> {
    let rated = rated_upto(cand, cand.len() as int, lcp_per, same_tile_per, depth);
    by_value(
        cand,
        rated,
        if rated.len() < width {
            rated.len() as int
        } else {
            width
        },
    )
}

/// The ways that a reduction keeps, in the order in which it returns them.
pub open spec fn picked(
    cand: Seq<Way>,
    lcp_per: int,
    same_tile_per: int,
    depth: int,
    width: int,
) -> Seq<Way> {
    let order = reduced(cand, lcp_per, same_tile_per, depth, width);
    Seq::new(order.len(), |r: int| cand[order[r].1 as int])
}

impl<'a> SocialDistance<'a> {
    /// Keeps at most `width` of the ways in `cand`, and returns them by
    /// falling value.
    ///
    /// The ways are gone through in their order. A way that repeats a way
    /// kept so far is dropped. Each other way is rated: its value, plus
    /// `lcp_per` for every square of the turns by which it stays apart
    /// from the ways kept so far, less `same_tile_per` for the square of
    /// the number of tiles it shares with a way kept so far, averaged over
    /// those ways. The `width` best rated ways are kept; of equal ratings
    /// the earlier one.
    pub fn reduce_cand(
        &self,
        cand: &Vec<DpState>,
        lcp_per: i64,
        same_tile_per: i64,
        depth: usize,
        width: usize,
    ) -> (selected: Vec<DpState>)
        requires
            depth <= MAX_DEPTH,
            -MAX_WEIGHT <= lcp_per <= MAX_WEIGHT,
            -MAX_WEIGHT <= same_tile_per <= MAX_WEIGHT,
            forall|i: int|
                0 <= i < cand.len() ==> 1 <= (#[trigger] cand[i]).poses.len() <= depth + 1
                    && cand[i].used.len() <= depth + 1 && -MAX_VALUE <= cand[i].score
                    <= MAX_VALUE,
        ensures
            ways_of(selected@) == picked(
                ways_of(cand@),
                lcp_per as int,
                same_tile_per as int,
                depth as int,
                width as int,
            ),
            selected.len() <= width,
            selected.len() <= cand.len(),
            cand.len() >= 1 && width >= 1 ==> selected.len() >= 1,
            forall|r: int| 0 <= r < selected.len() ==> among(#[trigger] selected[r], cand@),
            forall|a: int, b: int|
                0 <= a < b < selected.len() ==> selected[a].score >= selected[b].score,
    {
        let ghost lp = lcp_per as int;
        let ghost sp = same_tile_per as int;
        let ghost dp = depth as int;
        let ghost cw = ways_of(cand@);
        let mut rated: Vec<(i64, usize)> = Vec::new();
        let mut kept: Vec<usize> = Vec::new();
        let mut i: usize = 0;
        while i < cand.len()
            invariant
                depth <= MAX_DEPTH,
                -MAX_WEIGHT <= lcp_per <= MAX_WEIGHT,
                -MAX_WEIGHT <= same_tile_per <= MAX_WEIGHT,
                lp == lcp_per,
                sp == same_tile_per,
                dp == depth,
                forall|k: int|
                    0 <= k < cand.len() ==> 1 <= (#[trigger] cand[k]).poses.len() <= depth + 1
                        && cand[k].used.len() <= depth + 1 && -MAX_VALUE <= cand[k].score
                        <= MAX_VALUE,
                i <= cand.len(),
                cw == ways_of(cand@),
                kept@ == kept_upto(cw, i as int),
                rated@ == rated_upto(cw, i as int, lp, sp, dp),
                kept.len() <= i,
                rated.len() == kept.len(),
                i >= 1 ==> kept.len() >= 1,
                forall|k: int| 0 <= k < kept.len() ==> (#[trigger] kept[k]) < i,
                forall|k: int| 0 <= k < rated.len() ==> (#[trigger] rated[k]).1 < i,
                falling(rated@),
            decreases cand.len() - i,
        {
            let state = &cand[i];
            let len = state.poses.len();
            let mut lcp: usize = 0;
            let mut squares: i128 = 0;
            let mut a: usize = 0;
            while a < kept.len()
                invariant
                    depth <= MAX_DEPTH,
                    i < cand.len(),
                    forall|k: int|
                        0 <= k < cand.len() ==> 1 <= (#[trigger] cand[k]).poses.len() <= depth + 1
                            && cand[k].used.len() <= depth + 1,
                    forall|k: int| 0 <= k < kept.len() ==> (#[trigger] kept[k]) < i,
                    state == &cand[i as int],
                    len == state.poses.len(),
                    a <= kept.len(),
                    lcp <= len,
                    cw == ways_of(cand@),
                    lcp == apart_from(cw, kept@, state.poses@, a as int),
                    squares == crowding(cw, kept@, state.used@, a as int),
                    0 <= squares <= a * 1_002_001,
                decreases kept.len() - a,
            {
                let other = &cand[kept[a]];
                assert(cw[kept[a as int] as int] == other@);
                let shared = shared_start(&state.poses, &other.poses);
                if shared > lcp {
                    lcp = shared;
                }
                let hs = overlap(&other.used, &state.used);
                assert(0 <= hs * hs <= 1001 * 1001) by (nonlinear_arith)
                    requires
                        0 <= hs <= 1001,
                ;
                assert((a + 1) * 1_002_001 == a * 1_002_001 + 1_002_001) by (nonlinear_arith);
                squares = squares + (hs as i128) * (hs as i128);
                a += 1;
            }
            if len != lcp {
                let apart: i64 = (depth + 1 - if lcp < 1 {
                    1
                } else {
                    lcp
                }) as i64;
                assert(0 <= apart * apart <= 1001 * 1001) by (nonlinear_arith)
                    requires
                        0 <= apart <= 1001,
                ;
                assert(-MAX_WEIGHT * 1_002_001 <= lcp_per * (apart * apart) <= MAX_WEIGHT * 1_002_001)
                    by (nonlinear_arith)
                    requires
                        -MAX_WEIGHT <= lcp_per <= MAX_WEIGHT,
                        0 <= apart * apart <= 1_002_001,
                ;
                let bonus: i64 = lcp_per * (apart * apart);
                let cost: i64 = if kept.len() == 0 {
                    0
                } else {
                    let size: i128 = if same_tile_per < 0 {
                        -(same_tile_per as i128)
                    } else {
                        same_tile_per as i128
                    };
                    let n: i128 = kept.len() as i128;
                    assert(0 <= size * squares <= size * 1_002_001 * n) by (nonlinear_arith)
                        requires
                            0 <= size <= MAX_WEIGHT,
                            0 <= squares <= n * 1_002_001,
                    ;
                    assert(size * 1_002_001 * n <= MAX_WEIGHT * 1_002_001 * n) by (nonlinear_arith)
                        requires
                            0 <= size <= MAX_WEIGHT,
                            0 <= n,
                    ;
                    assert(MAX_WEIGHT * 1_002_001 * n <= MAX_WEIGHT * 1_002_001 * 0x1_0000_0000_0000_0000)
                        by (nonlinear_arith)
                        requires
                            0 <= n <= 0x1_0000_0000_0000_0000,
                    ;
                    let whole: i128 = size * squares;
                    assert(0 <= whole / n <= size * 1_002_001) by (nonlinear_arith)
                        requires
                            0 <= whole <= size * 1_002_001 * n,
                            n >= 1,
                    ;
                    let part: i64 = (whole / n) as i64;
                    if same_tile_per < 0 {
                        -part
                    } else {
                        part
                    }
                };
                assert(cost == sharing_cost(squares as int, kept.len() as int, sp));
                let rate: i64 = state.score + bonus - cost;
                assert(cw[i as int] == state@);
                assert(rate == rating(cw, kept@, cw[i as int], lp, sp, dp));
                kept.push(i);
                let ghost before = rated@;
                insert_falling(&mut rated, (rate, i));
                proof {
                    assert forall|k: int| 0 <= k < rated.len() implies (#[trigger] rated[k]).1 < i
                        + 1 by {
                        if rated[k] != (rate, i) {
                            assert(before.contains(rated[k]));
                            let j = choose|j: int| 0 <= j < before.len() && before[j] == rated[k];
                            assert(before[j].1 < i);
                        }
                    }
                }
            } else {
                assert(lcp >= 1);
                assert(cw[i as int] == state@);
                assert(kept.len() >= 1) by {
                    if kept.len() == 0 {
                        assert(apart_from(cw, kept@, state.poses@, 0) == 0);
                    }
                }
            }
            i += 1;
        }
        let size = if rated.len() < width {
            rated.len()
        } else {
            width
        };
        let mut order: Vec<(i64, usize)> = Vec::new();
        let mut r: usize = 0;
        while r < size
            invariant
                size <= rated.len(),
                r <= size,
                order.len() == r,
                cw == ways_of(cand@),
                order@ == by_value(cw, rated@, r as int),
                forall|k: int| 0 <= k < rated.len() ==> (#[trigger] rated[k]).1 < cand.len(),
                forall|k: int| 0 <= k < order.len() ==> (#[trigger] order[k]).1 < cand.len(),
                forall|k: int|
                    0 <= k < order.len() ==> (#[trigger] order[k]).0 == cand[order[k].1 as int].score,
                falling(order@),
            decreases size - r,
        {
            let idx = rated[r].1;
            let ghost before = order@;
            assert(cw[idx as int] == cand[idx as int]@);
            insert_falling(&mut order, (cand[idx].score, idx));
            proof {
                assert forall|k: int| 0 <= k < order.len() implies (#[trigger] order[k]).1
                    < cand.len() && order[k].0 == cand[order[k].1 as int].score by {
                    if order[k] != (cand[idx as int].score, idx) {
                        assert(before.contains(order[k]));
                        let j = choose|j: int| 0 <= j < before.len() && before[j] == order[k];
                        assert(before[j].1 < cand.len());
                    }
                }
            }
            r += 1;
        }
        assert(order@ == reduced(cw, lp, sp, dp, width as int));
        let mut selected: Vec<DpState> = Vec::new();
        let mut r: usize = 0;
        while r < order.len()
            invariant
                r <= order.len(),
                selected.len() == r,
                forall|k: int| 0 <= k < order.len() ==> (#[trigger] order[k]).1 < cand.len(),
                forall|k: int|
                    0 <= k < order.len() ==> (#[trigger] order[k]).0 == cand[order[k].1 as int].score,
                falling(order@),
                forall|k: int|
                    0 <= k < r ==> same_state(#[trigger] selected[k], cand[order[k].1 as int]),
            decreases order.len() - r,
        {
            selected.push(copy_state(&cand[order[r].1]));
            r += 1;
        }
        proof {
            assert forall|k: int| 0 <= k < selected.len() implies among(
                #[trigger] selected[k],
                cand@,
            ) by {
                assert(same_state(selected[k], cand@[order[k].1 as int]));
            }
            assert(ways_of(selected@) =~= picked(cw, lp, sp, dp, width as int)) by {
                assert forall|k: int| 0 <= k < selected.len() implies ways_of(selected@)[k] == picked(
                    cw,
                    lp,
                    sp,
                    dp,
                    width as int,
                )[k] by {
                    assert(same_state(selected[k], cand[order[k].1 as int]));
                    assert(cw[order[k].1 as int] == cand[order[k].1 as int]@);
                }
            }
            assert forall|a: int, b: int| 0 <= a < b < selected.len() implies selected[a].score
                >= selected[b].score by {
                assert(same_state(selected[a], cand[order[a].1 as int]));
                assert(same_state(selected[b], cand[order[b].1 as int]));
                assert(order[a].0 >= order[b].0);
            }
        }
        selected
    }
}

/// The plan holds the value, the first action and the positions of the
/// way.
pub open spec fn plan_is(plan: (i64, Act, Vec<Point>), way: Way) -> bool {
    plan.0 == way.score && plan.1 == way.act && plan.2@ == way.poses
}

/// The ways of no step yet: one from every start, worth nothing.
pub open spec fn start_ways(start: Seq<Point>) -> Seq<Way> {
    Seq::new(
        start.len(),
        |i: int|
            Way {
                score: 0,
                pos: start[i],
                act: Act::StayAct,
                used: seq![start[i]],
                poses: seq![start[i]],
            },
    )
}

/// The layers before any turn: the ways of no step in the first, none in
/// the others.
pub open spec fn start_layers(start: Seq<Point>, md: int) -> Seq<Seq<Way>> {
    Seq::new(
        (md + 1) as nat,
        |l: int|
            if l == 0 {
                start_ways(start)
            } else {
                Seq::<Way>::empty()
            },
    )
}

/// The layers after the way `st` of turn `t` has been continued by a step
/// onto each of the first `q` of its neighbours: every continuation joins
/// the end of the layer of its turn.
pub open spec fn spread_way(
    fv: FieldView,
    side: bool,
    agents: Seq<Point>,
    layers: Seq<Seq<Way>>,
    st: Way,
    around: Seq<Point>,
    q: int,
    t: int,
    md: int,
) -> Seq<Seq<Way>>
    decreases q,
{
    if q <= 0 {
        layers
    } else {
        let before = spread_way(fv, side, agents, layers, st, around, q - 1, t, md);
        match step_way(fv, side, agents, st, around[q - 1], t, md) {
            Some((next, turn)) => before.update(turn, before[turn].push(next)),
            None => before,
        }
    }
}

/// The layers after the first `s` of the ways `bef` of turn `t` have been
/// continued.
pub open spec fn spread_layer(
    fv: FieldView,
    side: bool,
    agents: Seq<Point>,
    layers: Seq<Seq<Way>>,
    bef: Seq<Way>,
    s: int,
    t: int,
    md: int,
) -> Seq<Seq<Way>>
    decreases s,
{
    if s <= 0 {
        layers
    } else {
        let before = spread_layer(fv, side, agents, layers, bef, s - 1, t, md);
        let around = neighbors(fv, bef[s - 1].pos);
        spread_way(fv, side, agents, before, bef[s - 1], around, around.len() as int, t, md)
    }
}

/// The layers after the first `t` turns of a search: turn by turn the
/// ways of the turn are put in the order of their values, the best
/// first, and reduced to `width`, and the ways kept are continued.
pub open spec fn searched_layers(
    fv: FieldView,
    side: bool,
    agents: Seq<Point>,
    start: Seq<Point>,
    md: int,
    width: int,
    t: int,
) -> Seq<Seq<Way>>
    decreases t,
{
    if t <= 0 {
        start_layers(start, md)
    } else {
        let before = searched_layers(fv, side, agents, start, md, width, t - 1);
        let bef = picked(
            sorted_ways(before[t - 1]),
            LCP_PER as int,
            SAME_TILE_PER as int,
            md,
            width,
        );
        spread_layer(fv, side, agents, before, bef, bef.len() as int, t - 1, md)
    }
}

/// The ways that a search of `md` turns from the starts finds: those that
/// the reduction keeps of the ways of the last turn.
pub open spec fn found(
    fv: FieldView,
    side: bool,
    agents: Seq<Point>,
    start: Seq<Point>,
    md: int,
    width: int,
) -> Seq<Way> {
    picked(
        searched_layers(fv, side, agents, start, md, width, md)[md],
        LCP_PER as int,
        SAME_TILE_PER as int,
        md,
        width,
    )
}

/// The layers that the lists of states hold.
pub open spec fn layers_view(cand: Vec<Vec<DpState>>) -> Seq<Seq<Way>> {
    Seq::new(cand.len() as nat, |l: int| ways_of(cand[l]@))
}

impl<'a> SocialDistance<'a> {
    /// Every state of the layer is a way of `len` positions from one of
    /// the starts.
    pub open spec fn layer_ok(&self, md: int, start: Seq<Point>, layer: Seq<DpState>, len: int) -> bool {
        forall|k: int|
            0 <= k < layer.len() ==> self.state_ok(md, #[trigger] layer[k], len) && start.contains(
                layer[k].poses[0],
            )
    }

    /// The entry is a way of `md + 1` positions from one of the starts,
    /// with its value and its first action.
    pub open spec fn plan_ok(&self, md: int, start: Seq<Point>, entry: (i64, Act, Vec<Point>)) -> bool {
        &&& entry.2.len() == md + 1
        &&& walk_ok(self.field@, self.side, md, entry.2@, md + 1)
        &&& start.contains(entry.2[0])
        &&& entry.0 == path_value(self.field@, self.side, self.agent_set@, entry.2@, md + 1)
        &&& entry.1 == first_act(self.field@, self.side, entry.2@)
    }

    /// Searches the ways of `max_depth` turns from the starts and returns
    /// at most `width` of them, by falling value: each with its value, its
    /// first action, and its positions turn by turn.
    ///
    /// Turn by turn the ways found so far are put in the order of their
    /// values, the best first, and reduced to `width` by
    /// [`reduce_cand`](Self::reduce_cand), and every way kept is continued
    /// by a step onto each neighbouring tile. The ways of the last turn
    /// are reduced in the order in which they were found. A step onto a wall of the
    /// other side removes the wall; unless it is the last turn the way
    /// then stays for the move onto the tile, and the step is worth eight
    /// fifths. A step is worth the points of its action, three fifths less
    /// for every turn it lies ahead; three tenths of that where an agent
    /// of the other side stands; and nothing on a tile the way has been
    /// on before.
    pub fn beam_search(&self, start_poses: Vec<Point>, max_depth: usize, width: usize) -> (res: Vec<
        (i64, Act, Vec<Point>),
    >)
        requires
            self.field.wf(),
            max_depth <= MAX_DEPTH,
            forall|i: int| 0 <= i < start_poses.len() ==> self.field@.inside(#[trigger] start_poses[i]),
        ensures
            res.len() == found(
                self.field@,
                self.side,
                self.agent_set@,
                start_poses@,
                max_depth as int,
                width as int,
            ).len(),
            forall|r: int|
                0 <= r < res.len() ==> plan_is(
                    #[trigger] res[r],
                    found(
                        self.field@,
                        self.side,
                        self.agent_set@,
                        start_poses@,
                        max_depth as int,
                        width as int,
                    )[r],
                ),
            res.len() <= width,
            forall|r: int|
                0 <= r < res.len() ==> self.plan_ok(max_depth as int, start_poses@, #[trigger] res[r]),
            forall|r: int, k: int|
                0 <= r < res.len() && 0 <= k <= max_depth ==> self.field@.inside(
                    #[trigger] res[r].2[k],
                ),
            forall|a: int, b: int| 0 <= a < b < res.len() ==> res[a].0 >= res[b].0,
    {
        let ghost fv = self.field@;
        let ghost start = start_poses@;
        let ghost md = max_depth as int;
        let ghost wd = width as int;
        let ghost ag = self.agent_set@;
        let mut cand: Vec<Vec<DpState>> = Vec::new();
        let mut l: usize = 0;
        while l < max_depth + 1
            invariant
                max_depth <= MAX_DEPTH,
                l <= max_depth + 1,
                cand.len() == l,
                forall|k: int| 0 <= k < l ==> (#[trigger] cand[k]).len() == 0,
            decreases max_depth + 1 - l,
        {
            cand.push(Vec::new());
            l += 1;
        }
        let mut i: usize = 0;
        while i < start_poses.len()
            invariant
                self.field.wf(),
                fv == self.field@,
                start == start_poses@,
                md == max_depth,
                forall|k: int| 0 <= k < start.len() ==> fv.inside(#[trigger] start[k]),
                i <= start_poses.len(),
                cand.len() == max_depth + 1,
                forall|k: int| 1 <= k < cand.len() ==> (#[trigger] cand[k]).len() == 0,
                self.layer_ok(md, start, cand[0]@, 1),
                cand[0].len() == i,
                forall|k: int| 0 <= k < i ==> (#[trigger] cand[0][k])@ == start_ways(start)[k],
            decreases start_poses.len() - i,
        {
            let start_pos = start_poses[i];
            let mut used: Vec<Point> = Vec::new();
            used.push(start_pos);
            let mut poses: Vec<Point> = Vec::new();
            poses.push(start_pos);
            let st = DpState { score: 0, pos: start_pos, act: Act::StayAct, used, poses };
            proof {
                assert(st.poses@ =~= seq![start_pos]);
                assert(st.used@ =~= seq![start_pos]);
                assert(fv.inside(start[i as int]));
                assert(self.state_ok(md, st, 1));
                assert(start.contains(st.poses[0]));
            }
            let ghost before = cand[0]@;
            cand[0].push(st);
            proof {
                assert forall|k: int| 0 <= k < cand[0]@.len() implies self.state_ok(
                    md,
                    #[trigger] cand[0]@[k],
                    1,
                ) && start.contains(cand[0]@[k].poses[0]) by {
                    if k < before.len() {
                        assert(cand[0]@[k] == before[k]);
                    }
                }
                assert forall|k: int| 0 <= k < i + 1 implies (#[trigger] cand[0][k])@ == start_ways(
                    start,
                )[k] by {
                    if k < i {
                        assert(cand[0]@[k] == before[k]);
                    }
                }
            }
            i += 1;
        }
        proof {
            assert(layers_view(cand) =~= start_layers(start, md)) by {
                assert forall|l: int| 0 <= l < cand.len() implies layers_view(cand)[l] == start_layers(
                    start,
                    md,
                )[l] by {
                    if l == 0 {
                        assert(ways_of(cand[0]@) =~= start_ways(start));
                    } else {
                        assert(cand[l].len() == 0);
                        assert(ways_of(cand[l]@) =~= Seq::<Way>::empty());
                    }
                }
            }
        }
        let mut t: usize = 0;
        while t < max_depth
            invariant
                self.field.wf(),
                fv == self.field@,
                ag == self.agent_set@,
                start == start_poses@,
                md == max_depth,
                wd == width,
                max_depth <= MAX_DEPTH,
                t <= max_depth,
                cand.len() == max_depth + 1,
                forall|k: int| 0 <= k < cand.len() ==> self.layer_ok(md, start, (#[trigger] cand[k])@, k + 1),
                layers_view(cand) == searched_layers(fv, self.side, ag, start, md, wd, t as int),
            decreases max_depth - t,
        {
            proof {
                assert(self.layer_ok(md, start, cand[t as int]@, t + 1));
                assert forall|k: int| 0 <= k < cand[t as int].len() implies 1 <= (
                #[trigger] cand[t as int][k]).poses.len() <= max_depth + 1 && cand[t as int][k].used.len()
                    <= max_depth + 1 && -MAX_VALUE <= cand[t as int][k].score <= MAX_VALUE by {
                    assert(self.state_ok(md, cand[t as int]@[k], t + 1));
                }
            }
            let layer = sort_states(&cand[t]);
            proof {
                assert forall|k: int| 0 <= k < layer.len() implies self.state_ok(
                    md,
                    #[trigger] layer[k],
                    t + 1,
                ) && start.contains(layer[k].poses[0]) by {
                    assert(among(layer[k], cand[t as int]@));
                    let j = choose|j: int|
                        0 <= j < cand[t as int]@.len() && same_state(layer[k], #[trigger] cand[t as int]@[j]);
                    assert(self.state_ok(md, cand[t as int]@[j], t + 1));
                }
            }
            let bef = self.reduce_cand(&layer, LCP_PER, SAME_TILE_PER, max_depth, width);
            let ghost before_layers = layers_view(cand);
            let ghost bef_ways = ways_of(bef@);
            proof {
                assert(before_layers[t as int] == ways_of(cand[t as int]@));
                assert forall|k: int| 0 <= k < bef.len() implies self.state_ok(
                    md,
                    #[trigger] bef[k],
                    t + 1,
                ) && start.contains(bef[k].poses[0]) by {
                    assert(among(bef[k], layer@));
                    let j = choose|j: int| 0 <= j < layer@.len() && same_state(bef[k], #[trigger] layer@[j]);
                    assert(self.state_ok(md, layer@[j], t + 1));
                }
            }
            let mut s: usize = 0;
            while s < bef.len()
                invariant
                    self.field.wf(),
                    fv == self.field@,
                    ag == self.agent_set@,
                    start == start_poses@,
                    md == max_depth,
                    max_depth <= MAX_DEPTH,
                    t < max_depth,
                    s <= bef.len(),
                    bef_ways == ways_of(bef@),
                    cand.len() == max_depth + 1,
                    forall|k: int|
                        0 <= k < cand.len() ==> self.layer_ok(md, start, (#[trigger] cand[k])@, k + 1),
                    forall|k: int|
                        0 <= k < bef.len() ==> self.state_ok(md, #[trigger] bef[k], t + 1)
                            && start.contains(bef[k].poses[0]),
                    layers_view(cand) == spread_layer(
                        fv,
                        self.side,
                        ag,
                        before_layers,
                        bef_ways,
                        s as int,
                        t as int,
                        md,
                    ),
                decreases bef.len() - s,
            {
                let now_state = &bef[s];
                let around = make_neighbors(now_state.pos, self.field);
                let ghost layers_s = layers_view(cand);
                assert(bef_ways[s as int] == now_state@);
                let mut q: usize = 0;
                while q < around.len()
                    invariant
                        self.field.wf(),
                        fv == self.field@,
                        ag == self.agent_set@,
                        start == start_poses@,
                        md == max_depth,
                        max_depth <= MAX_DEPTH,
                        t < max_depth,
                        s < bef.len(),
                        now_state == &bef[s as int],
                        q <= around.len(),
                        around@ == neighbors(fv, now_state.pos),
                        forall|j: int| 0 <= j < around.len() ==> fv.inside(#[trigger] around[j]),
                        forall|j: int|
                            0 <= j < around.len() ==> now_state.pos.spec_neighbor(
                                #[trigger] around[j],
                            ) && around[j] != now_state.pos,
                        cand.len() == max_depth + 1,
                        forall|k: int|
                            0 <= k < cand.len() ==> self.layer_ok(
                                md,
                                start,
                                (#[trigger] cand[k])@,
                                k + 1,
                            ),
                        forall|k: int|
                            0 <= k < bef.len() ==> self.state_ok(md, #[trigger] bef[k], t + 1)
                                && start.contains(bef[k].poses[0]),
                        layers_view(cand) == spread_way(
                            fv,
                            self.side,
                            ag,
                            layers_s,
                            now_state@,
                            around@,
                            q as int,
                            t as int,
                            md,
                        ),
                    decreases around.len() - q,
                {
                    let nex = around[q];
                    assert(self.state_ok(md, bef[s as int], t + 1));
                    let ghost layers_q = layers_view(cand);
                    match self.extend(now_state, nex, t, max_depth) {
                        Some((next, turn)) => {
                            let ghost before = cand@;
                            cand[turn].push(next);
                            proof {
                                assert forall|k: int| 0 <= k < cand.len() implies self.layer_ok(
                                    md,
                                    start,
                                    (#[trigger] cand[k])@,
                                    k + 1,
                                ) by {
                                    assert(self.layer_ok(md, start, before[k]@, k + 1));
                                    if k == turn {
                                        assert forall|j: int|
                                            0 <= j < cand[k]@.len() implies self.state_ok(
                                            md,
                                            #[trigger] cand[k]@[j],
                                            k + 1,
                                        ) && start.contains(cand[k]@[j].poses[0]) by {
                                            if j < before[k]@.len() {
                                                assert(cand[k]@[j] == before[k]@[j]);
                                            }
                                        }
                                    } else {
                                        assert(cand[k]@ == before[k]@);
                                    }
                                }
                                assert(layers_view(cand) =~= layers_q.update(
                                    turn as int,
                                    layers_q[turn as int].push(next@),
                                )) by {
                                    assert forall|k: int| 0 <= k < cand.len() implies layers_view(
                                        cand,
                                    )[k] == layers_q.update(
                                        turn as int,
                                        layers_q[turn as int].push(next@),
                                    )[k] by {
                                        assert(layers_q[k] == ways_of(before[k]@));
                                        if k == turn {
                                            assert(ways_of(cand[k]@) =~= ways_of(before[k]@).push(
                                                next@,
                                            ));
                                        } else {
                                            assert(cand[k]@ == before[k]@);
                                        }
                                    }
                                }
                            }
                        },
                        None => {},
                    }
                    q += 1;
                }
                s += 1;
            }
            proof {
                assert(bef_ways == picked(
                    sorted_ways(before_layers[t as int]),
                    LCP_PER as int,
                    SAME_TILE_PER as int,
                    md,
                    wd,
                ));
            }
            t += 1;
        }
        proof {
            assert(self.layer_ok(md, start, cand[max_depth as int]@, md + 1));
            assert forall|k: int| 0 <= k < cand[max_depth as int].len() implies 1 <= (
            #[trigger] cand[max_depth as int][k]).poses.len() <= max_depth + 1
                && cand[max_depth as int][k].used.len() <= max_depth + 1 && -MAX_VALUE
                <= cand[max_depth as int][k].score <= MAX_VALUE by {
                assert(self.state_ok(md, cand[max_depth as int]@[k], md + 1));
            }
        }
        let final_res = self.reduce_cand(
            &cand[max_depth],
            LCP_PER,
            SAME_TILE_PER,
            max_depth,
            width,
        );
        let ghost goal = found(fv, self.side, ag, start, md, wd);
        proof {
            assert(layers_view(cand)[md] == ways_of(cand[max_depth as int]@));
            assert(ways_of(final_res@) == goal);
        }
        let mut res: Vec<(i64, Act, Vec<Point>)> = Vec::new();
        let mut r: usize = 0;
        while r < final_res.len()
            invariant
                fv == self.field@,
                start == start_poses@,
                md == max_depth,
                r <= final_res.len(),
                res.len() == r,
                self.layer_ok(md, start, cand[max_depth as int]@, md + 1),
                cand.len() == max_depth + 1,
                ways_of(final_res@) == goal,
                forall|k: int| 0 <= k < final_res.len() ==> among(#[trigger] final_res[k], cand[max_depth as int]@),
                forall|k: int| 0 <= k < r ==> self.plan_ok(md, start, #[trigger] res[k]),
                forall|k: int| 0 <= k < r ==> (#[trigger] res[k]).0 == final_res[k].score,
                forall|k: int| 0 <= k < r ==> plan_is(#[trigger] res[k], goal[k]),
            decreases final_res.len() - r,
        {
            let top = &final_res[r];
            proof {
                assert(among(final_res[r as int], cand[max_depth as int]@));
                let j = choose|j: int|
                    0 <= j < cand[max_depth as int]@.len() && same_state(
                        final_res[r as int],
                        #[trigger] cand[max_depth as int]@[j],
                    );
                assert(self.state_ok(md, cand[max_depth as int]@[j], md + 1));
                assert(ways_of(final_res@)[r as int] == final_res[r as int]@);
            }
            res.push((top.score, top.act, copy_points(&top.poses)));
            r += 1;
        }
        proof {
            assert(goal.len() == final_res.len());
        }
        proof {
            assert forall|r: int, k: int| 0 <= r < res.len() && 0 <= k <= max_depth implies fv.inside(
                #[trigger] res[r].2[k],
            ) by {
                assert(self.plan_ok(md, start, res[r]));
                lemma_walk_inside(fv, self.side, md, res[r].2@, md + 1, k);
            }
        }
        res
    }
}

/// Every position of a way lies on the board.
pub proof fn lemma_walk_inside(fv: FieldView, side: bool, md: int, path: Seq<Point>, j: int, k: int)
    requires
        walk_ok(fv, side, md, path, j),
        0 <= k < j,
    ensures
        fv.inside(path[k]),
    decreases j,
{
    if j >= 2 {
        if path[j - 1] == path[j - 2] {
            if k < j - 2 {
                lemma_walk_inside(fv, side, md, path, j - 2, k);
            }
        } else {
            if k < j - 1 {
                lemma_walk_inside(fv, side, md, path, j - 1, k);
            }
        }
    }
}

/// What a tile that a planned way crosses `j` turns ahead keeps of its
/// worth for placing an agent, in millionths: nothing at the first turn,
/// and more the later the way comes by.
pub open spec fn left_after(j: int) -> int {
    if j <= 1 {
        0
    } else if j == 2 {
        300_000
    } else if j == 3 {
        510_000
    } else if j == 4 {
        657_000
    } else {
        759_900
    }
}

/// The entry holds a worth and the place where the list holds that worth.
pub open spec fn worth_at(flat: Seq<i64>, item: (i64, usize)) -> bool {
    item.1 < flat.len() && flat[item.1 as int] == item.0
}

/// The worth of a wall of the other side as a place to put an agent.
pub const PUT_WALL_SCORE: i64 = -20_000_000;

/// The plans hold the ways, one by one.
pub open spec fn plans_are(plans: Seq<(i64, Act, Vec<Point>)>, ways: Seq<Way>) -> bool {
    plans.len() == ways.len() && forall|r: int|
        0 <= r < plans.len() ==> plan_is(#[trigger] plans[r], ways[r])
}

impl<'a> SocialDistance<'a> {
    /// The ways that a search of [`DEPTH`] turns finds for agent `id`.
    pub open spec fn plans_for(&self, id: int) -> Seq<Way> {
        found(
            self.field@,
            self.side,
            self.agent_set@,
            seq![self.field@.agent(self.side, id)->0],
            DEPTH as int,
            WIDTH as int,
        )
    }

    /// The numbers of the agents of this side that stand on the board,
    /// and of those that do not.
    pub fn split_agents(&self) -> (r: (Vec<usize>, Vec<usize>))
        requires
            self.field.wf(),
        ensures
            r.0@ == placed_upto(self.field@, self.side, self.field@.agent_count()),
            r.1@ == unplaced_upto(self.field@, self.side, self.field@.agent_count()),
            r.0.len() + r.1.len() == self.field@.agent_count(),
            forall|k: int|
                0 <= k < r.0.len() ==> (#[trigger] r.0[k]) < self.field@.agent_count()
                    && self.field@.agent(self.side, r.0[k] as int) is Some,
            forall|k: int|
                0 <= k < r.1.len() ==> (#[trigger] r.1[k]) < self.field@.agent_count()
                    && self.field@.agent(self.side, r.1[k] as int) is None,
            forall|a: int, b: int| 0 <= a < b < r.0.len() ==> r.0[a] < r.0[b],
            forall|a: int, b: int| 0 <= a < b < r.1.len() ==> r.1[a] < r.1[b],
    {
        let n = self.field.agent_count();
        let mut idxes: Vec<usize> = Vec::new();
        let mut put_idxes: Vec<usize> = Vec::new();
        let mut id: usize = 0;
        while id < n
            invariant
                self.field.wf(),
                n == self.field@.agent_count(),
                id <= n,
                idxes@ == placed_upto(self.field@, self.side, id as int),
                put_idxes@ == unplaced_upto(self.field@, self.side, id as int),
                idxes.len() + put_idxes.len() == id,
                forall|k: int|
                    0 <= k < idxes.len() ==> (#[trigger] idxes[k]) < id && self.field@.agent(
                        self.side,
                        idxes[k] as int,
                    ) is Some,
                forall|k: int|
                    0 <= k < put_idxes.len() ==> (#[trigger] put_idxes[k]) < id
                        && self.field@.agent(self.side, put_idxes[k] as int) is None,
                forall|a: int, b: int| 0 <= a < b < idxes.len() ==> idxes[a] < idxes[b],
                forall|a: int, b: int| 0 <= a < b < put_idxes.len() ==> put_idxes[a] < put_idxes[b],
            decreases n - id,
        {
            match self.field.agent(self.side, id) {
                Some(_) => {
                    idxes.push(id);
                },
                None => {
                    put_idxes.push(id);
                },
            }
            id += 1;
        }
        (idxes, put_idxes)
    }

    /// For every agent of `idxes` the ways it can walk in [`DEPTH`] turns,
    /// as [`beam_search`](Self::beam_search) finds them.
    pub fn plan_moves(&self, idxes: &Vec<usize>) -> (bs_res: Vec<Vec<(i64, Act, Vec<Point>)>>)
        requires
            self.field.wf(),
            forall|k: int|
                0 <= k < idxes.len() ==> (#[trigger] idxes[k]) < self.field@.agent_count()
                    && self.field@.agent(self.side, idxes[k] as int) is Some
                    && self.field@.inside(self.field@.agent(self.side, idxes[k] as int)->0),
        ensures
            bs_res.len() == idxes.len(),
            forall|k: int|
                0 <= k < bs_res.len() ==> plans_are(
                    #[trigger] bs_res[k]@,
                    self.plans_for(idxes[k] as int),
                ),
            forall|k: int, r: int|
                0 <= k < bs_res.len() && 0 <= r < bs_res[k].len() ==> self.plan_ok(
                    DEPTH as int,
                    seq![self.field@.agent(self.side, idxes[k] as int)->0],
                    #[trigger] bs_res[k][r],
                ),
            forall|k: int| 0 <= k < bs_res.len() ==> (#[trigger] bs_res[k]).len() <= WIDTH,
    {
        let mut bs_res: Vec<Vec<(i64, Act, Vec<Point>)>> = Vec::new();
        let mut k: usize = 0;
        while k < idxes.len()
            invariant
                self.field.wf(),
                forall|j: int|
                    0 <= j < idxes.len() ==> (#[trigger] idxes[j]) < self.field@.agent_count()
                        && self.field@.agent(self.side, idxes[j] as int) is Some
                        && self.field@.inside(self.field@.agent(self.side, idxes[j] as int)->0),
                k <= idxes.len(),
                bs_res.len() == k,
                forall|j: int|
                    0 <= j < bs_res.len() ==> plans_are(
                        #[trigger] bs_res[j]@,
                        self.plans_for(idxes[j] as int),
                    ),
                forall|j: int, r: int|
                    0 <= j < bs_res.len() && 0 <= r < bs_res[j].len() ==> self.plan_ok(
                        DEPTH as int,
                        seq![self.field@.agent(self.side, idxes[j] as int)->0],
                        #[trigger] bs_res[j][r],
                    ),
                forall|j: int| 0 <= j < bs_res.len() ==> (#[trigger] bs_res[j]).len() <= WIDTH,
            decreases idxes.len() - k,
        {
            let pos = self.field.agent(self.side, idxes[k]).unwrap();
            let mut start: Vec<Point> = Vec::new();
            start.push(pos);
            assert(start@ =~= seq![pos]);
            let ghost before = bs_res@;
            let found = self.beam_search(start, DEPTH, WIDTH);
            bs_res.push(found);
            proof {
                assert forall|j: int| 0 <= j < bs_res.len() implies plans_are(
                    #[trigger] bs_res[j]@,
                    self.plans_for(idxes[j] as int),
                ) by {
                    if j < k {
                        assert(bs_res[j] == before[j]);
                    }
                }
                assert forall|j: int, r: int|
                    0 <= j < bs_res.len() && 0 <= r < bs_res[j].len() implies self.plan_ok(
                    DEPTH as int,
                    seq![self.field@.agent(self.side, idxes[j] as int)->0],
                    #[trigger] bs_res[j][r],
                ) by {
                    if j < k {
                        assert(bs_res[j] == before[j]);
                    }
                }
            }
            k += 1;
        }
        bs_res
    }

    /// Gives every agent of `idxes` the first action of the plan selected
    /// for it, and returns the ways of the plans selected.
    pub fn move_confirm(
        &self,
        acts: &mut Vec<Act>,
        idxes: &Vec<usize>,
        bs_res: &Vec<Vec<(i64, Act, Vec<Point>)>>,
        res: &Vec<usize>,
    ) -> (move_pos_list: Vec<Vec<Point>>)
        requires
            idxes.len() == bs_res.len(),
            res.len() == bs_res.len(),
            forall|k: int| 0 <= k < idxes.len() ==> (#[trigger] idxes[k]) < old(acts).len(),
            forall|a: int, b: int| 0 <= a < b < idxes.len() ==> idxes[a] < idxes[b],
            forall|k: int| 0 <= k < res.len() ==> (#[trigger] res[k]) < bs_res[k].len(),
        ensures
            final(acts).len() == old(acts).len(),
            move_pos_list.len() == idxes.len(),
            forall|k: int|
                0 <= k < idxes.len() ==> final(acts)[(#[trigger] idxes[k]) as int]
                    == bs_res[k][res[k] as int].1,
            forall|k: int|
                0 <= k < idxes.len() ==> (#[trigger] move_pos_list[k])@ == bs_res[k][res[k] as int].2@,
            forall|i: int|
                0 <= i < final(acts).len() && (forall|k: int|
                    0 <= k < idxes.len() ==> (#[trigger] idxes[k]) != i) ==> final(acts)[i] == old(
                    acts,
                )[i],
    {
        let mut move_pos_list: Vec<Vec<Point>> = Vec::new();
        let mut i: usize = 0;
        while i < idxes.len()
            invariant
                idxes.len() == bs_res.len(),
                res.len() == bs_res.len(),
                acts.len() == old(acts).len(),
                forall|k: int| 0 <= k < idxes.len() ==> (#[trigger] idxes[k]) < acts.len(),
                forall|a: int, b: int| 0 <= a < b < idxes.len() ==> idxes[a] < idxes[b],
                forall|k: int| 0 <= k < res.len() ==> (#[trigger] res[k]) < bs_res[k].len(),
                i <= idxes.len(),
                move_pos_list.len() == i,
                forall|k: int|
                    0 <= k < i ==> acts[(#[trigger] idxes[k]) as int] == bs_res[k][res[k] as int].1,
                forall|k: int|
                    0 <= k < i ==> (#[trigger] move_pos_list[k])@ == bs_res[k][res[k] as int].2@,
                forall|j: int|
                    0 <= j < acts.len() && (forall|k: int|
                        0 <= k < i ==> (#[trigger] idxes[k]) != j) ==> acts[j] == old(acts)[j],
            decreases idxes.len() - i,
        {
            let plan = &bs_res[i][res[i]];
            move_pos_list.push(copy_points(&plan.2));
            let ghost before = acts@;
            acts[idxes[i]] = plan.1;
            proof {
                assert forall|k: int| 0 <= k < i + 1 implies acts[(#[trigger] idxes[k]) as int]
                    == bs_res[k][res[k] as int].1 by {
                    if k < i {
                        assert(idxes[k] < idxes[i as int]);
                        assert(before[idxes[k] as int] == bs_res[k][res[k] as int].1);
                    }
                }
                assert forall|j: int|
                    0 <= j < acts.len() && (forall|k: int|
                        0 <= k < i + 1 ==> (#[trigger] idxes[k]) != j) implies acts[j] == old(
                    acts,
                )[j] by {
                    assert(idxes[i as int] != j);
                    assert(forall|k: int| 0 <= k < i ==> (#[trigger] idxes[k]) != j);
                }
            }
            i += 1;
        }
        move_pos_list
    }
}

/// What a tile that a planned way crosses `j` turns ahead keeps of its
/// worth, computed.
pub fn left_after_at(j: usize) -> (v: i64)
    ensures
        v == left_after(j as int),
        0 <= v <= UNIT,
{
    if j <= 1 {
        0
    } else if j == 2 {
        300_000
    } else if j == 3 {
        510_000
    } else if j == 4 {
        657_000
    } else {
        759_900
    }
}

/// What tile `p` keeps of its worth, in millionths, once the planned ways
/// have been gone through turn by turn, up to way `k` of turn `j`: every
/// way that crosses the tile in a turn leaves it [`left_after`] of what it
/// had, rounded down.
pub open spec fn share_left(ways: Seq<Seq<Point>>, p: Point, j: int, k: int) -> int
    decreases j, k,
{
    if j <= 0 {
        UNIT as int
    } else if k <= 0 {
        share_left(ways, p, j - 1, ways.len() as int)
    } else {
        let before = share_left(ways, p, j, k - 1);
        if ways[k - 1][j] == p {
            before * left_after(j) / (UNIT as int)
        } else {
            before
        }
    }
}

pub proof fn lemma_share_left_bounds(ways: Seq<Seq<Point>>, p: Point, j: int, k: int)
    requires
        0 <= k <= ways.len(),
    ensures
        0 <= share_left(ways, p, j, k) <= UNIT,
    decreases j, k,
{
    if j <= 0 {
    } else if k <= 0 {
        lemma_share_left_bounds(ways, p, j - 1, ways.len() as int);
    } else {
        lemma_share_left_bounds(ways, p, j, k - 1);
        let before = share_left(ways, p, j, k - 1);
        let keep = left_after(j);
        assert(0 <= before * keep / (UNIT as int) <= UNIT) by (nonlinear_arith)
            requires
                0 <= before <= UNIT,
                0 <= keep <= UNIT,
                UNIT == 1_000_000,
        ;
    }
}

/// The worth of tile `p` as a place to put an agent: its points by what the
/// planned ways leave of them; for a wall of the other side
/// [`PUT_WALL_SCORE`].
pub open spec fn put_worth(fv: FieldView, side: bool, ways: Seq<Seq<Point>>, p: Point) -> int {
    if fv.tile_at(p).state == State::Wall(!side) {
        PUT_WALL_SCORE as int
    } else {
        fv.tile_at(p).point * share_left(ways, p, DEPTH as int, ways.len() as int)
    }
}

/// The worths of the tiles that come before `(x, y)` column by column, by
/// falling worth, each with its place in that order of the tiles.
pub open spec fn worths_sorted(
    fv: FieldView,
    side: bool,
    ways: Seq<Seq<Point>>,
    x: int,
    y: int,
) -> Seq<(i64, usize)>
    decreases x, y,
{
    if x <= 0 && y <= 0 {
        Seq::empty()
    } else if y <= 0 {
        worths_sorted(fv, side, ways, x - 1, fv.height())
    } else {
        put_falling(
            worths_sorted(fv, side, ways, x, y - 1),
            (
                put_worth(fv, side, ways, Point { x: x as i8, y: (y - 1) as i8 }) as i64,
                (x * fv.height() + y - 1) as usize,
            ),
        )
    }
}

/// The worth that a tile must reach to be a place for an agent: the worth
/// that stands after three tenths of the tiles when they are ordered by
/// falling worth.
pub open spec fn put_border(fv: FieldView, side: bool, ways: Seq<Seq<Point>>) -> int {
    let sorted = worths_sorted(fv, side, ways, fv.width(), 0);
    let third = sorted.len() as int * 3 / 10;
    sorted[if third < sorted.len() - 1 {
        third
    } else {
        sorted.len() - 1
    }].0 as int
}

/// The tiles among the first `y` of column `x` that are worth at least
/// `border`.
pub open spec fn worthy_in_column(
    fv: FieldView,
    side: bool,
    ways: Seq<Seq<Point>>,
    border: int,
    x: int,
    y: int,
) -> Seq<Point>
    decreases y,
{
    if y <= 0 {
        Seq::empty()
    } else if put_worth(fv, side, ways, Point { x: x as i8, y: (y - 1) as i8 }) >= border {
        worthy_in_column(fv, side, ways, border, x, y - 1).push(
            Point { x: x as i8, y: (y - 1) as i8 },
        )
    } else {
        worthy_in_column(fv, side, ways, border, x, y - 1)
    }
}

/// The tiles of the first `x` columns that are worth at least `border`.
pub open spec fn worthy_upto(
    fv: FieldView,
    side: bool,
    ways: Seq<Seq<Point>>,
    border: int,
    x: int,
) -> Seq<Point>
    decreases x,
{
    if x <= 0 {
        Seq::empty()
    } else {
        worthy_upto(fv, side, ways, border, x - 1) + worthy_in_column(
            fv,
            side,
            ways,
            border,
            x - 1,
            fv.height(),
        )
    }
}

/// The list of worths, column by column, holds the worth of tile `(a, b)`.
pub open spec fn holds_worth(
    flat: Seq<i64>,
    fv: FieldView,
    side: bool,
    ways: Seq<Seq<Point>>,
    a: int,
    b: int,
) -> bool {
    flat[a * fv.height() + b] == put_worth(fv, side, ways, Point { x: a as i8, y: b as i8 })
}

impl<'a> SocialDistance<'a> {
    /// The tiles on which an agent may well be placed, column by column:
    /// those whose worth is among the best three tenths. The worth of a
    /// tile is its points, less for every planned way that crosses it; a
    /// wall of the other side is worth less than any other tile.
    pub fn put_candidates(&self, move_pos_list: &Vec<Vec<Point>>) -> (cand: Vec<Point>)
        requires
            self.field.wf(),
            self.field@.height() >= 1,
            forall|k: int| 0 <= k < move_pos_list.len() ==> (#[trigger] move_pos_list[k]).len() == DEPTH + 1,
            forall|k: int, j: int|
                0 <= k < move_pos_list.len() && 0 <= j <= DEPTH ==> self.field@.inside(
                    #[trigger] move_pos_list[k][j],
                ),
        ensures
            cand@ == worthy_upto(
                self.field@,
                self.side,
                table_of(*move_pos_list),
                put_border(self.field@, self.side, table_of(*move_pos_list)),
                self.field@.width(),
            ),
            cand.len() >= 1,
            forall|k: int| 0 <= k < cand.len() ==> self.field@.inside(#[trigger] cand[k]),
    {
        let ghost fv = self.field@;
        let ghost ways = table_of(*move_pos_list);
        let width = self.field.width();
        let height = self.field.height();
        proof {
            assert forall|k: int| 0 <= k < ways.len() implies #[trigger] ways[k] == move_pos_list[k]@ by {}
        }
        let mut per: Vec<Vec<i64>> = Vec::new();
        let mut x: usize = 0;
        while x < width
            invariant
                x <= width,
                per.len() == x,
                forall|a: int| 0 <= a < x ==> (#[trigger] per[a]).len() == height,
                forall|a: int, b: int| 0 <= a < x && 0 <= b < height ==> (#[trigger] per[a][b]) == UNIT,
            decreases width - x,
        {
            let mut col: Vec<i64> = Vec::new();
            let mut y: usize = 0;
            while y < height
                invariant
                    y <= height,
                    col.len() == y,
                    forall|b: int| 0 <= b < y ==> (#[trigger] col[b]) == UNIT,
                decreases height - y,
            {
                col.push(UNIT);
                y += 1;
            }
            per.push(col);
            x += 1;
        }
        let mut j: usize = 1;
        while j <= DEPTH
            invariant
                self.field.wf(),
                fv == self.field@,
                ways == table_of(*move_pos_list),
                width == fv.width(),
                height == fv.height(),
                1 <= j <= DEPTH + 1,
                forall|k: int|
                    0 <= k < move_pos_list.len() ==> (#[trigger] move_pos_list[k]).len() == DEPTH + 1,
                forall|k: int, d: int|
                    0 <= k < move_pos_list.len() && 0 <= d <= DEPTH ==> fv.inside(
                        #[trigger] move_pos_list[k][d],
                    ),
                forall|k: int| 0 <= k < ways.len() ==> #[trigger] ways[k] == move_pos_list[k]@,
                per.len() == width,
                forall|a: int| 0 <= a < width ==> (#[trigger] per[a]).len() == height,
                forall|a: int, b: int|
                    0 <= a < width && 0 <= b < height ==> (#[trigger] per[a][b]) == share_left(
                        ways,
                        Point { x: a as i8, y: b as i8 },
                        j - 1,
                        ways.len() as int,
                    ),
            decreases DEPTH + 1 - j,
        {
            let keep = left_after_at(j);
            let mut k: usize = 0;
            while k < move_pos_list.len()
                invariant
                    self.field.wf(),
                    fv == self.field@,
                    ways == table_of(*move_pos_list),
                    width == fv.width(),
                    height == fv.height(),
                    1 <= j <= DEPTH,
                    keep == left_after(j as int),
                    0 <= keep <= UNIT,
                    k <= move_pos_list.len(),
                    forall|q: int|
                        0 <= q < move_pos_list.len() ==> (#[trigger] move_pos_list[q]).len() == DEPTH
                            + 1,
                    forall|q: int, d: int|
                        0 <= q < move_pos_list.len() && 0 <= d <= DEPTH ==> fv.inside(
                            #[trigger] move_pos_list[q][d],
                        ),
                    forall|q: int| 0 <= q < ways.len() ==> #[trigger] ways[q] == move_pos_list[q]@,
                    per.len() == width,
                    forall|a: int| 0 <= a < width ==> (#[trigger] per[a]).len() == height,
                    forall|a: int, b: int|
                        0 <= a < width && 0 <= b < height ==> (#[trigger] per[a][b]) == share_left(
                            ways,
                            Point { x: a as i8, y: b as i8 },
                            j as int,
                            k as int,
                        ),
                decreases move_pos_list.len() - k,
            {
                let at = move_pos_list[k][j];
                assert(fv.inside(move_pos_list[k as int][j as int]));
                assert(ways[k as int][j as int] == at);
                let ax = at.x as usize;
                let ay = at.y as usize;
                let old_per = per[ax][ay];
                proof {
                    lemma_share_left_bounds(ways, at, j as int, k as int);
                    lemma_share_left_bounds(ways, at, j as int, k as int + 1);
                    assert(at == (Point { x: ax as i8, y: ay as i8 }));
                }
                assert(0 <= old_per * keep <= UNIT * UNIT) by (nonlinear_arith)
                    requires
                        0 <= old_per <= UNIT,
                        0 <= keep <= UNIT,
                ;
                let ghost before = per@;
                per[ax][ay] = old_per * keep / UNIT;
                proof {
                    assert forall|a: int, b: int| 0 <= a < width && 0 <= b < height implies (
                    #[trigger] per[a][b]) == share_left(
                        ways,
                        Point { x: a as i8, y: b as i8 },
                        j as int,
                        k as int + 1,
                    ) by {
                        if a == ax && b == ay {
                        } else {
                            assert(per[a][b] == before[a][b]);
                            assert((Point { x: a as i8, y: b as i8 }) != at);
                        }
                    }
                }
                k += 1;
            }
            j += 1;
        }
        let mut flat: Vec<i64> = Vec::new();
        let mut sorted: Vec<(i64, usize)> = Vec::new();
        let mut x: usize = 0;
        while x < width
            invariant
                self.field.wf(),
                fv == self.field@,
                ways == table_of(*move_pos_list),
                width == fv.width(),
                height == fv.height(),
                height >= 1,
                x <= width,
                per.len() == width,
                forall|a: int| 0 <= a < width ==> (#[trigger] per[a]).len() == height,
                forall|a: int, b: int|
                    0 <= a < width && 0 <= b < height ==> (#[trigger] per[a][b]) == share_left(
                        ways,
                        Point { x: a as i8, y: b as i8 },
                        DEPTH as int,
                        ways.len() as int,
                    ),
                flat.len() == x * height,
                sorted.len() == flat.len(),
                sorted@ == worths_sorted(fv, self.side, ways, x as int, 0),
                falling(sorted@),
                forall|q: int| 0 <= q < sorted.len() ==> worth_at(flat@, #[trigger] sorted[q]),
                forall|a: int, b: int|
                    0 <= a < x && 0 <= b < height ==> #[trigger] holds_worth(
                        flat@,
                        fv,
                        self.side,
                        ways,
                        a,
                        b,
                    ),
            decreases width - x,
        {
            let mut y: usize = 0;
            assert(x * height + height == (x + 1) * height) by (nonlinear_arith);
            assert(x * height + height <= 127 * 127) by (nonlinear_arith)
                requires
                    x < 127,
                    height <= 127,
            ;
            proof {
                if x > 0 {
                    assert(worths_sorted(fv, self.side, ways, x as int, 0) == worths_sorted(
                        fv,
                        self.side,
                        ways,
                        x - 1,
                        height as int,
                    ));
                }
            }
            let ghost start = sorted@;
            while y < height
                invariant
                    self.field.wf(),
                    fv == self.field@,
                    ways == table_of(*move_pos_list),
                    width == fv.width(),
                    height == fv.height(),
                    x < width,
                    y <= height,
                    per.len() == width,
                    forall|a: int| 0 <= a < width ==> (#[trigger] per[a]).len() == height,
                    forall|a: int, b: int|
                        0 <= a < width && 0 <= b < height ==> (#[trigger] per[a][b]) == share_left(
                            ways,
                            Point { x: a as i8, y: b as i8 },
                            DEPTH as int,
                            ways.len() as int,
                        ),
                    flat.len() == x * height + y,
                    x * height + height <= 127 * 127,
                    sorted.len() == flat.len(),
                    y == 0 ==> sorted@ == start,
                    start == worths_sorted(fv, self.side, ways, x as int, 0),
                    y > 0 ==> sorted@ == worths_sorted(fv, self.side, ways, x as int, y as int),
                    falling(sorted@),
                    forall|q: int| 0 <= q < sorted.len() ==> worth_at(flat@, #[trigger] sorted[q]),
                    forall|a: int, b: int|
                        0 <= a < x && 0 <= b < height ==> #[trigger] holds_worth(
                            flat@,
                            fv,
                            self.side,
                            ways,
                            a,
                            b,
                        ),
                    forall|b: int|
                        0 <= b < y ==> #[trigger] holds_worth(flat@, fv, self.side, ways, x as int, b),
                decreases height - y,
            {
                let tile = self.field.tile(PointUsize::new(x, y));
                let blocked = match tile.state() {
                    State::Wall(owner) => owner != self.side,
                    _ => false,
                };
                let share = per[x][y];
                let points = tile.point() as i64;
                proof {
                    lemma_share_left_bounds(
                        ways,
                        Point { x: x as i8, y: y as i8 },
                        DEPTH as int,
                        ways.len() as int,
                    );
                }
                assert(-128 * UNIT <= points * share <= 127 * UNIT) by (nonlinear_arith)
                    requires
                        -128 <= points <= 127,
                        0 <= share <= UNIT,
                ;
                let value: i64 = if blocked {
                    PUT_WALL_SCORE
                } else {
                    points * share
                };
                assert(value == put_worth(fv, self.side, ways, Point { x: x as i8, y: y as i8 }));
                let ghost flat_before = flat@;
                let ghost sorted_mid = sorted@;
                let at = flat.len();
                flat.push(value);
                insert_falling(&mut sorted, (value, at));
                proof {
                    assert(sorted_mid == worths_sorted(fv, self.side, ways, x as int, y as int)) by {
                        if y == 0 {
                            if x == 0 {
                                assert(worths_sorted(fv, self.side, ways, 0, 0)
                                    == Seq::<(i64, usize)>::empty());
                            }
                        }
                    }
                    assert forall|q: int| 0 <= q < sorted.len() implies worth_at(
                        flat@,
                        #[trigger] sorted[q],
                    ) by {
                        if sorted[q] != (value, at) {
                            assert(sorted_mid.contains(sorted[q]));
                            let w = choose|w: int| 0 <= w < sorted_mid.len() && sorted_mid[w] == sorted[q];
                            assert(worth_at(flat_before, sorted_mid[w]));
                        }
                    }
                    assert forall|a: int, b: int| 0 <= a < x && 0 <= b < height implies #[trigger] holds_worth(
                        flat@,
                        fv,
                        self.side,
                        ways,
                        a,
                        b,
                    ) by {
                        assert(a * height + b < x * height) by (nonlinear_arith)
                            requires
                                0 <= a < x,
                                0 <= b < height,
                        ;
                        assert(holds_worth(flat_before, fv, self.side, ways, a, b));
                        assert(flat[a * height + b] == flat_before[a * height + b]);
                    }
                    assert forall|b: int| 0 <= b < y + 1 implies #[trigger] holds_worth(
                        flat@,
                        fv,
                        self.side,
                        ways,
                        x as int,
                        b,
                    ) by {
                        if b < y {
                            assert(holds_worth(flat_before, fv, self.side, ways, x as int, b));
                            assert(flat[x * height + b] == flat_before[x * height + b]);
                        }
                    }
                }
                y += 1;
            }
            proof {
                assert(worths_sorted(fv, self.side, ways, x + 1, 0) == worths_sorted(
                    fv,
                    self.side,
                    ways,
                    x as int,
                    height as int,
                ));
                assert forall|a: int, b: int| 0 <= a < x + 1 && 0 <= b < height implies #[trigger] holds_worth(
                    flat@,
                    fv,
                    self.side,
                    ways,
                    a,
                    b,
                ) by {}
            }
            x += 1;
        }
        assert(width * height >= 1) by (nonlinear_arith)
            requires
                width >= 1,
                height >= 1,
        ;
        assert(width * height <= 127 * 127) by (nonlinear_arith)
            requires
                width <= 127,
                height <= 127,
        ;
        let len = sorted.len();
        let third = len * 3 / 10;
        let at = if third < len - 1 {
            third
        } else {
            len - 1
        };
        let border = sorted[at].0;
        let border_at = sorted[at].1;
        assert(worth_at(flat@, sorted[at as int]));
        assert(border == put_border(fv, self.side, ways));
        let mut cand: Vec<Point> = Vec::new();
        let mut x: usize = 0;
        while x < width
            invariant
                self.field.wf(),
                fv == self.field@,
                width == fv.width(),
                height == fv.height(),
                x <= width,
                flat.len() == width * height,
                border_at < flat.len(),
                flat[border_at as int] == border,
                border_at < x * height ==> cand.len() >= 1,
                forall|k: int| 0 <= k < cand.len() ==> fv.inside(#[trigger] cand[k]),
                forall|a: int, b: int|
                    0 <= a < width && 0 <= b < height ==> #[trigger] holds_worth(
                        flat@,
                        fv,
                        self.side,
                        ways,
                        a,
                        b,
                    ),
                cand@ == worthy_upto(fv, self.side, ways, border as int, x as int),
            decreases width - x,
        {
            let mut y: usize = 0;
            assert(x * height + height == (x + 1) * height) by (nonlinear_arith);
            assert((x + 1) * height <= width * height) by (nonlinear_arith)
                requires
                    x < width,
                    0 <= height,
            ;
            let ghost start = cand@;
            while y < height
                invariant
                    self.field.wf(),
                    fv == self.field@,
                    width == fv.width(),
                    height == fv.height(),
                    x < width,
                    y <= height,
                    flat.len() == width * height,
                    x * height + height <= flat.len(),
                    border_at < flat.len(),
                    flat[border_at as int] == border,
                    border_at < x * height + y ==> cand.len() >= 1,
                    forall|k: int| 0 <= k < cand.len() ==> fv.inside(#[trigger] cand[k]),
                    forall|a: int, b: int|
                        0 <= a < width && 0 <= b < height ==> #[trigger] holds_worth(
                            flat@,
                            fv,
                            self.side,
                            ways,
                            a,
                            b,
                        ),
                    cand@ == start + worthy_in_column(
                        fv,
                        self.side,
                        ways,
                        border as int,
                        x as int,
                        y as int,
                    ),
                decreases height - y,
            {
                assert(holds_worth(flat@, fv, self.side, ways, x as int, y as int));
                if flat[x * height + y] >= border {
                    cand.push(Point { x: x as i8, y: y as i8 });
                    assert(cand@ =~= start + worthy_in_column(
                        fv,
                        self.side,
                        ways,
                        border as int,
                        x as int,
                        y as int + 1,
                    ));
                }
                y += 1;
            }
            x += 1;
        }
        cand
    }

    /// Places the agents of `put_idxes`, as far as there are plans for
    /// them: each at the start of a plan of its own, in the order of the
    /// plans.
    pub fn put_confirm(
        &self,
        acts: &mut Vec<Act>,
        put_idxes: &Vec<usize>,
        put_bs_res: &Vec<(i64, Act, Vec<Point>)>,
    )
        requires
            forall|k: int| 0 <= k < put_idxes.len() ==> (#[trigger] put_idxes[k]) < old(acts).len(),
            forall|a: int, b: int| 0 <= a < b < put_idxes.len() ==> put_idxes[a] < put_idxes[b],
            forall|k: int| 0 <= k < put_bs_res.len() ==> (#[trigger] put_bs_res[k]).2.len() >= 1,
        ensures
            final(acts).len() == old(acts).len(),
            forall|k: int|
                0 <= k < put_idxes.len() && k < put_bs_res.len() ==> final(acts)[(
                #[trigger] put_idxes[k]) as int] == Act::PutAct(put_bs_res[k].2[0]),
            forall|i: int|
                0 <= i < final(acts).len() && (forall|k: int|
                    0 <= k < put_idxes.len() && k < put_bs_res.len() ==> (#[trigger] put_idxes[k])
                        != i) ==> final(acts)[i] == old(acts)[i],
    {
        let mut i: usize = 0;
        while i < put_idxes.len() && i < put_bs_res.len()
            invariant
                acts.len() == old(acts).len(),
                forall|k: int| 0 <= k < put_idxes.len() ==> (#[trigger] put_idxes[k]) < acts.len(),
                forall|a: int, b: int| 0 <= a < b < put_idxes.len() ==> put_idxes[a] < put_idxes[b],
                forall|k: int| 0 <= k < put_bs_res.len() ==> (#[trigger] put_bs_res[k]).2.len() >= 1,
                i <= put_idxes.len(),
                i <= put_bs_res.len(),
                forall|k: int|
                    0 <= k < i ==> acts[(#[trigger] put_idxes[k]) as int] == Act::PutAct(
                        put_bs_res[k].2[0],
                    ),
                forall|j: int|
                    0 <= j < acts.len() && (forall|k: int|
                        0 <= k < i ==> (#[trigger] put_idxes[k]) != j) ==> acts[j] == old(acts)[j],
            decreases put_idxes.len() - i,
        {
            let ghost before = acts@;
            let at = put_bs_res[i].2[0];
            acts[put_idxes[i]] = Act::PutAct(at);
            proof {
                assert forall|k: int| 0 <= k < i + 1 implies acts[(#[trigger] put_idxes[k]) as int]
                    == Act::PutAct(put_bs_res[k].2[0]) by {
                    if k < i {
                        assert(put_idxes[k] < put_idxes[i as int]);
                        assert(before[put_idxes[k] as int] == Act::PutAct(put_bs_res[k].2[0]));
                    }
                }
                assert forall|j: int|
                    0 <= j < acts.len() && (forall|k: int|
                        0 <= k < i + 1 ==> (#[trigger] put_idxes[k]) != j) implies acts[j] == old(
                    acts,
                )[j] by {
                    assert(put_idxes[i as int] != j);
                    assert(forall|k: int| 0 <= k < i ==> (#[trigger] put_idxes[k]) != j);
                }
            }
            i += 1;
        }
    }
}

/// The first step of a way of two or more positions leads to a
/// neighbouring tile of the board.
pub proof fn lemma_walk_first_step(fv: FieldView, side: bool, md: int, path: Seq<Point>, j: int)
    requires
        walk_ok(fv, side, md, path, j),
        j >= 2,
    ensures
        steps_to(fv, path[0], path[1]),
    decreases j,
{
    if path[j - 1] == path[j - 2] {
        if j > 3 {
            lemma_walk_first_step(fv, side, md, path, j - 2);
        }
    } else {
        if j > 2 {
            lemma_walk_first_step(fv, side, md, path, j - 1);
        }
    }
}

/// The action is one that an agent at `agent` may plan: staying; for an
/// agent on the board a step onto a neighbouring tile; for an agent off
/// the board a placement on the board.
pub open spec fn allowed(fv: FieldView, side: bool, agent: Option<Point>, act: Act) -> bool {
    act == Act::StayAct || match agent {
        Some(pos) => exists|to: Point| #[trigger] steps_to(fv, pos, to) && act == step_act(fv, side, to),
        None => act matches Act::PutAct(p) && fv.inside(p),
    }
}

/// The ways that a search of [`DEPTH`] turns finds for agent `id`.
pub open spec fn ways_for(fv: FieldView, side: bool, agents: Seq<Point>, id: int) -> Seq<Way> {
    found(fv, side, agents, seq![fv.agent(side, id)->0], DEPTH as int, WIDTH as int)
}

/// The agents on the board move: there is one, all stand on tiles of the
/// board, and the search finds a way for each.
pub open spec fn moving(fv: FieldView, side: bool, agents: Seq<Point>) -> bool {
    let idx = placed_upto(fv, side, fv.agent_count());
    &&& idx.len() > 0
    &&& forall|k: int| 0 <= k < idx.len() ==> fv.inside(fv.agent(side, (#[trigger] idx[k]) as int)->0)
    &&& forall|k: int|
        0 <= k < idx.len() ==> ways_for(fv, side, agents, (#[trigger] idx[k]) as int).len() >= 1
}

/// The ways that the agents on the board take: of the ways of each the
/// one that `res` names, or none if they do not move.
pub open spec fn planned_ways(fv: FieldView, side: bool, agents: Seq<Point>, res: Seq<usize>) -> Seq<
    Seq<Point>,
> {
    let idx = placed_upto(fv, side, fv.agent_count());
    if moving(fv, side, agents) {
        Seq::new(idx.len(), |k: int| ways_for(fv, side, agents, idx[k] as int)[res[k] as int].poses)
    } else {
        Seq::empty()
    }
}

/// The ways from the tiles that are worth a placement, given the ways that
/// the agents on the board take.
pub open spec fn put_plans(fv: FieldView, side: bool, agents: Seq<Point>, res: Seq<usize>) -> Seq<Way> {
    let ways = planned_ways(fv, side, agents, res);
    found(
        fv,
        side,
        agents,
        worthy_upto(fv, side, ways, put_border(fv, side, ways), fv.width()),
        DEPTH - 1,
        PUT_WIDTH as int,
    )
}

/// The actions are the plan of `side` by the choice `res`: every agent on
/// the board takes the first action of the way that `res` names among its
/// ways, if the agents on the board move; the agents off the board are
/// placed, in their order, at the starts of the ways from the tiles worth
/// a placement, as far as there are such ways; everyone else stays.
pub open spec fn planned(
    fv: FieldView,
    side: bool,
    agents: Seq<Point>,
    res: Seq<usize>,
    acts: Seq<Act>,
) -> bool {
    let idx = placed_upto(fv, side, fv.agent_count());
    let put = unplaced_upto(fv, side, fv.agent_count());
    &&& acts.len() == fv.agent_count()
    &&& forall|k: int|
        0 <= k < idx.len() ==> acts[(#[trigger] idx[k]) as int] == (if moving(fv, side, agents) {
            ways_for(fv, side, agents, idx[k] as int)[res[k] as int].act
        } else {
            Act::StayAct
        })
    &&& forall|i: int|
        0 <= i < put.len() ==> acts[(#[trigger] put[i]) as int] == (if fv.height() >= 1 && i
            < put_plans(fv, side, agents, res).len() {
            Act::PutAct(put_plans(fv, side, agents, res)[i].poses[0])
        } else {
            Act::StayAct
        })
}

/// The choice of the best way of each of `n` agents.
pub open spec fn first_choice(n: nat) -> Seq<usize> {
    Seq::new(n, |k: int| 0usize)
}

/// The choice names one of the ways of every agent.
pub open spec fn fits_choice(bs_res: Seq<Vec<(i64, Act, Vec<Point>)>>, res: Seq<usize>) -> bool {
    res.len() == bs_res.len() && forall|k: int| 0 <= k < res.len() ==> (#[trigger] res[k]) < bs_res[k].len()
}

/// What a planner has found before it chooses: the agents of its side on
/// the board and off it, and the ways of each agent on the board, or no
/// ways at all if the agents on the board do not move.
pub struct Plans {
    pub idxes: Vec<usize>,
    pub put_idxes: Vec<usize>,
    pub bs_res: Vec<Vec<(i64, Act, Vec<Point>)>>,
}

impl<'a> SocialDistance<'a> {
    /// The plans are what [`plan`](Self::plan) finds on the board of the
    /// planner, with the tiles that the planner has noted.
    pub open spec fn planned_by(&self, plans: Plans) -> bool {
        let fv = self.field@;
        &&& plans.idxes@ == placed_upto(fv, self.side, fv.agent_count())
        &&& plans.put_idxes@ == unplaced_upto(fv, self.side, fv.agent_count())
        &&& if moving(fv, self.side, self.agent_set@) {
            &&& plans.bs_res.len() == plans.idxes.len()
            &&& forall|k: int|
                0 <= k < plans.bs_res.len() ==> plans_are(
                    #[trigger] plans.bs_res[k]@,
                    ways_for(fv, self.side, self.agent_set@, plans.idxes[k] as int),
                )
            &&& forall|k: int, r: int|
                0 <= k < plans.bs_res.len() && 0 <= r < plans.bs_res[k].len() ==> self.plan_ok(
                    DEPTH as int,
                    seq![fv.agent(self.side, plans.idxes[k] as int)->0],
                    #[trigger] plans.bs_res[k][r],
                )
        } else {
            plans.bs_res.len() == 0
        }
    }

    /// Notes where the agents of the other side stand, and searches the
    /// ways of every agent of the planner's side that is on the board.
    /// There are no ways at all unless every such agent has one.
    pub fn plan(&mut self) -> (plans: Plans)
        requires
            old(self).field.wf(),
        ensures
            final(self).field == old(self).field,
            final(self).side == old(self).side,
            final(self).agent_set@ == old(self).noted(),
            final(self).planned_by(plans),
    {
        let ghost fv = self.field@;
        let ghost ag = self.noted();
        let n = self.field.agent_count();
        self.note_opponents();
        let (idxes, put_idxes) = self.split_agents();
        let ghost idx = placed_upto(fv, self.side, n as int);
        let mut on_board = true;
        let mut k: usize = 0;
        while k < idxes.len()
            invariant
                self.field.wf(),
                fv == self.field@,
                k <= idxes.len(),
                forall|j: int|
                    0 <= j < idxes.len() ==> (#[trigger] idxes[j]) < fv.agent_count() && fv.agent(
                        self.side,
                        idxes[j] as int,
                    ) is Some,
                on_board ==> forall|j: int|
                    0 <= j < k ==> fv.inside(fv.agent(self.side, (#[trigger] idxes[j]) as int)->0),
                !on_board ==> exists|j: int|
                    0 <= j < k && !fv.inside(fv.agent(self.side, (#[trigger] idxes[j]) as int)->0),
            decreases idxes.len() - k,
        {
            let pos = self.field.agent(self.side, idxes[k]).unwrap();
            if !self.field.inside(pos) {
                on_board = false;
                assert(!fv.inside(fv.agent(self.side, idxes[k as int] as int)->0));
            }
            k += 1;
        }
        if on_board && idxes.len() > 0 {
            let bs_res = self.plan_moves(&idxes);
            let mut all = true;
            let mut k: usize = 0;
            while k < bs_res.len()
                invariant
                    k <= bs_res.len(),
                    all ==> forall|j: int| 0 <= j < k ==> (#[trigger] bs_res[j]).len() >= 1,
                    !all ==> exists|j: int| 0 <= j < k && (#[trigger] bs_res[j]).len() == 0,
                decreases bs_res.len() - k,
            {
                if bs_res[k].len() == 0 {
                    all = false;
                }
                k += 1;
            }
            proof {
                assert forall|j: int| 0 <= j < idxes.len() implies bs_res[j].len() == ways_for(
                    fv,
                    self.side,
                    ag,
                    (#[trigger] idx[j]) as int,
                ).len() by {
                    assert(plans_are(bs_res[j]@, self.plans_for(idxes[j] as int)));
                }
                if all {
                    assert(moving(fv, self.side, ag));
                } else {
                    let j = choose|j: int| 0 <= j < bs_res.len() && (#[trigger] bs_res[j]).len() == 0;
                    assert(ways_for(fv, self.side, ag, idx[j] as int).len() == 0);
                    assert(!moving(fv, self.side, ag));
                }
            }
            if all {
                return Plans { idxes, put_idxes, bs_res };
            }
        } else {
            proof {
                if idxes.len() > 0 {
                    let j = choose|j: int|
                        0 <= j < idxes.len() && !fv.inside(
                            fv.agent(self.side, (#[trigger] idxes[j]) as int)->0,
                        );
                    assert(!fv.inside(fv.agent(self.side, idx[j] as int)->0));
                }
                assert(!moving(fv, self.side, ag));
            }
        }
        Plans { idxes, put_idxes, bs_res: Vec::new() }
    }

    /// The actions of the plans by the choice `res`, which names one way
    /// of every agent on the board: the agent takes the first action of
    /// that way. The agents off the board are placed at the starts of the
    /// best ways from the tiles that are worth a placement, given the
    /// ways chosen.
    pub fn confirm(&self, plans: &Plans, res: &Vec<usize>) -> (acts: Vec<Act>)
        requires
            self.field.wf(),
            self.planned_by(*plans),
            fits_choice(plans.bs_res@, res@),
        ensures
            acts.len() == self.field@.agent_count(),
            planned(self.field@, self.side, self.agent_set@, res@, acts@),
            forall|id: int|
                0 <= id < acts.len() ==> allowed(
                    self.field@,
                    self.side,
                    self.field@.agent(self.side, id),
                    #[trigger] acts[id],
                ),
    {
        let ghost fv = self.field@;
        let ghost ag = self.agent_set@;
        let n = self.field.agent_count();
        let idxes = &plans.idxes;
        let put_idxes = &plans.put_idxes;
        let bs_res = &plans.bs_res;
        let ghost idx = placed_upto(fv, self.side, n as int);
        let ghost put = unplaced_upto(fv, self.side, n as int);
        let mut acts: Vec<Act> = Vec::new();
        let mut id: usize = 0;
        while id < n
            invariant
                id <= n,
                acts.len() == id,
                forall|k: int| 0 <= k < id ==> (#[trigger] acts[k]) == Act::StayAct,
            decreases n - id,
        {
            acts.push(Act::StayAct);
            id += 1;
        }
        proof {
            lemma_split_facts(fv, self.side, n as int);
        }
        let mut ways: Vec<Vec<Point>> = Vec::new();
        if bs_res.len() > 0 {
            let ghost before = acts@;
            assert(moving(fv, self.side, ag));
            ways = self.move_confirm(&mut acts, idxes, bs_res, res);
            proof {
                assert forall|id: int| 0 <= id < acts.len() implies allowed(
                    fv,
                    self.side,
                    fv.agent(self.side, id),
                    #[trigger] acts[id],
                ) by {
                    if exists|j: int| 0 <= j < idxes.len() && (#[trigger] idxes[j]) == id {
                        let j = choose|j: int| 0 <= j < idxes.len() && (#[trigger] idxes[j]) == id;
                        let plan = bs_res[j][res[j] as int];
                        assert(acts[idxes[j] as int] == bs_res[j][res[j] as int].1);
                        let pos = fv.agent(self.side, idxes[j] as int)->0;
                        assert(self.plan_ok(DEPTH as int, seq![pos], plan));
                        lemma_walk_first_step(fv, self.side, DEPTH as int, plan.2@, DEPTH + 1);
                        assert(seq![pos].contains(plan.2[0]));
                        assert(plan.2[0] == pos);
                        assert(steps_to(fv, pos, plan.2[1]));
                    } else {
                        assert(forall|j: int| 0 <= j < idxes.len() ==> (#[trigger] idxes[j]) != id);
                        assert(acts[id] == before[id]);
                    }
                }
                assert forall|j: int| 0 <= j < ways.len() implies (#[trigger] ways[j]).len() == DEPTH
                    + 1 by {
                    let pos = fv.agent(self.side, idxes[j] as int)->0;
                    assert(self.plan_ok(DEPTH as int, seq![pos], bs_res[j][res[j] as int]));
                }
                assert forall|j: int, d: int| 0 <= j < ways.len() && 0 <= d <= DEPTH implies fv.inside(
                    #[trigger] ways[j][d],
                ) by {
                    let pos = fv.agent(self.side, idxes[j] as int)->0;
                    assert(self.plan_ok(DEPTH as int, seq![pos], bs_res[j][res[j] as int]));
                    lemma_walk_inside(
                        fv,
                        self.side,
                        DEPTH as int,
                        bs_res[j][res[j] as int].2@,
                        DEPTH + 1,
                        d,
                    );
                    assert(ways[j]@ == bs_res[j][res[j] as int].2@);
                }
                assert(table_of(ways) =~= planned_ways(fv, self.side, ag, res@)) by {
                    assert forall|j: int| 0 <= j < ways.len() implies table_of(ways)[j]
                        == planned_ways(fv, self.side, ag, res@)[j] by {
                        assert(plans_are(bs_res[j]@, ways_for(fv, self.side, ag, idxes[j] as int)));
                        assert(plan_is(
                            bs_res[j]@[res[j] as int],
                            ways_for(fv, self.side, ag, idxes[j] as int)[res[j] as int],
                        ));
                        assert(ways[j]@ == bs_res[j][res[j] as int].2@);
                    }
                }
                assert forall|j: int| 0 <= j < idx.len() implies acts[(#[trigger] idx[j]) as int]
                    == ways_for(fv, self.side, ag, idx[j] as int)[res[j] as int].act by {
                    assert(acts[idxes[j] as int] == bs_res[j][res[j] as int].1);
                    assert(plans_are(bs_res[j]@, ways_for(fv, self.side, ag, idxes[j] as int)));
                    assert(plan_is(
                        bs_res[j]@[res[j] as int],
                        ways_for(fv, self.side, ag, idxes[j] as int)[res[j] as int],
                    ));
                }
                assert forall|i: int| 0 <= i < put.len() implies acts[(#[trigger] put[i]) as int]
                    == Act::StayAct by {
                    assert(forall|j: int| 0 <= j < idxes.len() ==> (#[trigger] idxes[j]) != put[i]) by {
                        assert(fv.agent(self.side, put_idxes[i] as int) is None);
                    }
                }
            }
        } else {
            proof {
                assert(table_of(ways) =~= planned_ways(fv, self.side, ag, res@));
            }
        }
        let ghost mid = acts@;
        if put_idxes.len() > 0 && self.field.height() >= 1 {
            let cand = self.put_candidates(&ways);
            let put_bs_res = self.beam_search(cand, DEPTH - 1, PUT_WIDTH);
            let ghost before = acts@;
            proof {
                assert forall|j: int| 0 <= j < put_bs_res.len() implies (
                #[trigger] put_bs_res[j]).2.len() >= 1 by {
                    assert(self.plan_ok(DEPTH - 1, cand@, put_bs_res[j]));
                }
            }
            self.put_confirm(&mut acts, put_idxes, &put_bs_res);
            proof {
                let found = put_plans(fv, self.side, ag, res@);
                assert(put_bs_res.len() == found.len());
                assert forall|id: int| 0 <= id < acts.len() implies allowed(
                    fv,
                    self.side,
                    fv.agent(self.side, id),
                    #[trigger] acts[id],
                ) by {
                    if exists|j: int|
                        0 <= j < put_idxes.len() && j < put_bs_res.len() && (#[trigger] put_idxes[j])
                            == id {
                        let j = choose|j: int|
                            0 <= j < put_idxes.len() && j < put_bs_res.len() && (
                            #[trigger] put_idxes[j]) == id;
                        assert(acts[put_idxes[j] as int] == Act::PutAct(put_bs_res[j].2[0]));
                        assert(fv.inside(put_bs_res[j].2[0]));
                        assert(fv.agent(self.side, put_idxes[j] as int) is None);
                    } else {
                        assert(forall|j: int|
                            0 <= j < put_idxes.len() && j < put_bs_res.len() ==> (
                            #[trigger] put_idxes[j]) != id);
                        assert(acts[id] == before[id]);
                    }
                }
                assert forall|i: int| 0 <= i < put.len() implies acts[(#[trigger] put[i]) as int] == (if i
                    < found.len() {
                    Act::PutAct(found[i].poses[0])
                } else {
                    Act::StayAct
                }) by {
                    if i < put_bs_res.len() {
                        assert(acts[put_idxes[i] as int] == Act::PutAct(put_bs_res[i].2[0]));
                        assert(plan_is(put_bs_res[i], found[i]));
                    } else {
                        assert forall|j: int|
                            0 <= j < put_idxes.len() && j < put_bs_res.len() implies (
                        #[trigger] put_idxes[j]) != put[i] by {
                            assert(put_idxes[j] < put_idxes[i]);
                        }
                        assert(acts[put[i] as int] == before[put[i] as int]);
                    }
                }
                assert forall|j: int| 0 <= j < idx.len() implies acts[(#[trigger] idx[j]) as int]
                    == before[idx[j] as int] by {
                    assert forall|i: int|
                        0 <= i < put_idxes.len() && i < put_bs_res.len() implies (
                    #[trigger] put_idxes[i]) != idx[j] by {
                        assert(fv.agent(self.side, put_idxes[i] as int) is None);
                        assert(fv.agent(self.side, idxes[j] as int) is Some);
                    }
                }
            }
        }
        proof {
            assert(planned(fv, self.side, ag, res@, acts@)) by {
                assert forall|i: int| 0 <= i < put.len() implies mid[(#[trigger] put[i]) as int]
                    == Act::StayAct by {
                    assert(put_idxes[i] < n);
                }
                assert forall|j: int| 0 <= j < idx.len() implies mid[(#[trigger] idx[j]) as int] == (if moving(
                    fv,
                    self.side,
                    ag,
                ) {
                    ways_for(fv, self.side, ag, idx[j] as int)[res[j] as int].act
                } else {
                    Act::StayAct
                }) by {
                    assert(idxes[j] < n);
                }
            }
        }
        acts
    }
}

/// The agents on the board and those off it are numbered below the number
/// of agents, each list in rising order, and are what their lists say.
pub proof fn lemma_split_facts(fv: FieldView, side: bool, n: int)
    requires
        0 <= n <= fv.agent_count(),
        n <= usize::MAX,
    ensures
        forall|k: int|
            0 <= k < placed_upto(fv, side, n).len() ==> (#[trigger] placed_upto(fv, side, n)[k]) < n
                && fv.agent(side, placed_upto(fv, side, n)[k] as int) is Some,
        forall|k: int|
            0 <= k < unplaced_upto(fv, side, n).len() ==> (#[trigger] unplaced_upto(fv, side, n)[k])
                < n && fv.agent(side, unplaced_upto(fv, side, n)[k] as int) is None,
        forall|a: int, b: int|
            0 <= a < b < placed_upto(fv, side, n).len() ==> placed_upto(fv, side, n)[a]
                < placed_upto(fv, side, n)[b],
        forall|a: int, b: int|
            0 <= a < b < unplaced_upto(fv, side, n).len() ==> unplaced_upto(fv, side, n)[a]
                < unplaced_upto(fv, side, n)[b],
    decreases n,
{
    if n > 0 {
        lemma_split_facts(fv, side, n - 1);
    }
}

impl<'a> Solver<'a> for SocialDistance<'a> {
    open spec fn spec_field(&self) -> FieldView {
        self.field@
    }

    open spec fn spec_side(&self) -> bool {
        self.side
    }

    open spec fn inv(&self) -> bool {
        self.field.wf()
    }

    open spec fn solvable(&self) -> bool {
        true
    }

    open spec fn solved(&self) -> bool {
        true
    }

    /// The actions are the plan of the side by the choice of the best way
    /// of every agent, given the tiles noted and those on which agents of
    /// the other side stand; every agent gets an action that it may plan.
    open spec fn solution(&self, acts: Seq<Act>) -> bool {
        &&& planned(
            self.field@,
            self.side,
            self.noted(),
            first_choice(placed_upto(self.field@, self.side, self.field@.agent_count()).len()),
            acts,
        )
        &&& forall|id: int|
            0 <= id < acts.len() ==> allowed(
                self.field@,
                self.side,
                self.field@.agent(self.side, id),
                #[trigger] acts[id],
            )
    }

    /// A planner for `side` that does not know yet where the agents of the
    /// other side stand.
    fn new(side: bool, field: &'a Field) -> (solver: SocialDistance<'a>)
        ensures
            solver.field == field,
            solver.side == side,
            solver.agent_set@ == Seq::<Point>::empty(),
    {
        SocialDistance { field, side, agent_set: Vec::new() }
    }

    fn field(&self) -> (field: &Field) {
        self.field
    }

    fn side(&self) -> (side: bool) {
        self.side
    }

    /// Plans without weighing the ways of the agents against each other:
    /// every agent on the board takes the first action of its best way,
    /// and the agents off the board are placed at the starts of the best
    /// ways from the tiles that are worth a placement.
    fn solve(&mut self) -> (acts: Vec<Act>) {
        let ghost fv = self.field@;
        let ghost ag = self.noted();
        let plans = self.plan();
        let mut res: Vec<usize> = Vec::new();
        let mut k: usize = 0;
        while k < plans.bs_res.len()
            invariant
                k <= plans.bs_res.len(),
                res.len() == k,
                forall|j: int| 0 <= j < k ==> (#[trigger] res[j]) == 0,
            decreases plans.bs_res.len() - k,
        {
            res.push(0);
            k += 1;
        }
        proof {
            if moving(fv, self.side, ag) {
                assert forall|j: int| 0 <= j < res.len() implies (#[trigger] res[j])
                    < plans.bs_res[j].len() by {
                    assert(plans_are(
                        plans.bs_res[j]@,
                        ways_for(fv, self.side, ag, plans.idxes[j] as int),
                    ));
                }
            }
        }
        let acts = self.confirm(&plans, &res);
        proof {
            let first = first_choice(placed_upto(fv, self.side, fv.agent_count()).len());
            if moving(fv, self.side, ag) {
                assert(res@ =~= first);
            } else {
                assert(planned_ways(fv, self.side, ag, res@) == planned_ways(fv, self.side, ag, first));
            }
            assert(planned(fv, self.side, ag, first, acts@));
        }
        acts
    }
}

/// Whether the list holds the point.
pub fn holds(v: &Vec<Point>, p: Point) -> (b: bool)
    ensures
        b == v@.contains(p),
{
    let mut i: usize = 0;
    while i < v.len()
        invariant
            i <= v.len(),
            forall|k: int| 0 <= k < i ==> v[k] != p,
        decreases v.len() - i,
    {
        if v[i] == p {
            return true;
        }
        i += 1;
    }
    false
}

/// The value of a base gained `t` turns ahead, computed.
pub fn step_worth(tenths: i64, t: usize, long: bool) -> (v: i64)
    requires
        -2560 <= tenths <= 2540,
    ensures
        v == step_value(tenths as int, t as nat, long),
        -500_000_000 <= v <= 500_000_000,
{
    let d = decay_at(t);
    let size: i64 = if tenths < 0 {
        -tenths
    } else {
        tenths
    };
    assert(0 <= size * d <= 2560 * UNIT) by (nonlinear_arith)
        requires
            0 <= size <= 2560,
            0 <= d <= UNIT,
    ;
    let worth: i64 = if long {
        size * d * 8 / 50
    } else {
        size * d / 10
    };
    if tenths < 0 {
        -worth
    } else {
        worth
    }
}

/// The board with walls of `side` built on the first `k` of the tiles.
pub open spec fn walled_upto(fv: FieldView, side: bool, tiles: Seq<Point>, k: int) -> FieldView
    decreases k,
{
    if k <= 0 {
        fv
    } else {
        walled_upto(fv, side, tiles, k - 1).with_state(
            tiles[k - 1].x as int,
            tiles[k - 1].y as int,
            State::Wall(side),
        )
    }
}

/// No tile is listed twice.
pub open spec fn apart(tiles: Seq<Point>) -> bool {
    forall|i: int, j: int| 0 <= i < j < tiles.len() ==> tiles[i] != tiles[j]
}

/// Whether no tile is listed twice: whether agents that go to the tiles
/// keep out of each other's way.
pub fn distinct(tiles: &Vec<Point>) -> (b: bool)
    ensures
        b == apart(tiles@),
{
    let mut j: usize = 0;
    while j < tiles.len()
        invariant
            j <= tiles.len(),
            forall|a: int, b: int| 0 <= a < b < j ==> tiles[a] != tiles[b],
        decreases tiles.len() - j,
    {
        let mut i: usize = 0;
        while i < j
            invariant
                i <= j < tiles.len(),
                forall|a: int| 0 <= a < i ==> tiles[a] != tiles[j as int],
            decreases j - i,
        {
            if tiles[i] == tiles[j] {
                return false;
            }
            i += 1;
        }
        j += 1;
    }
    true
}

impl<'a> SocialDistance<'a> {
    /// Builds walls of the planner's side on the tiles of `board`, counts
    /// the scores and then marks the regions anew; the region score
    /// counted for the side is returned.
    pub fn project(&self, board: &mut Field, tiles: &Vec<Point>) -> (region: i16)
        requires
            old(board).wf(),
            forall|k: int| 0 <= k < tiles.len() ==> old(board)@.inside(#[trigger] tiles[k]),
        ensures
            final(board).wf(),
            final(board)@ == walled_upto(
                old(board)@,
                self.side,
                tiles@,
                tiles.len() as int,
            ).rescored().regioned(),
            region == final(board)@.scores[side_index(self.side)].region,
            final(board)@.width() == old(board)@.width(),
            final(board)@.height() == old(board)@.height(),
    {
        let mut k: usize = 0;
        while k < tiles.len()
            invariant
                k <= tiles.len(),
                board.wf(),
                board@.width() == old(board)@.width(),
                board@.height() == old(board)@.height(),
                forall|k: int| 0 <= k < tiles.len() ==> old(board)@.inside(#[trigger] tiles[k]),
                board@ == walled_upto(old(board)@, self.side, tiles@, k as int),
            decreases tiles.len() - k,
        {
            assert(old(board)@.inside(tiles[k as int]));
            board.set_state(tiles[k].usize(), State::Wall(self.side));
            k += 1;
        }
        board.update_score();
        board.update_region();
        board.score(self.side).region()
    }
}

} // verus!
