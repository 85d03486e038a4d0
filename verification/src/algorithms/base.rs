//! What every solver builds on: the candidate actions of an agent and the
//! value of one action.
use crate::algorithms::assignment::{
    acts_of, assignable, candidate_count, is_assignment, is_best, primal_dual, MAX_ASSIGN,
};
use crate::algorithms::regret::{
    lemma_table_weaken, maps_of, playable, played, regret_matching, rounds_played, scores_bounded,
    strategies_of, table_ok, MAX_ACTS, MAX_AGENTS, MAX_GAIN, MAX_REGRET, MAX_ROUNDS,
};
use crate::field::{abs, side_index, table_of, Field, FieldView, Point, PointUsize, State};
use crate::simulator::Act;
use rand::rngs::StdRng;
use vstd::prelude::*;

verus! {

/// A placement onto a tile worth less than this is no candidate.
pub const PUT_BORDER: i8 = 0;

/// The `k`-th of the nine points around and including `pos`, column by
/// column; the fifth (`k == 4`) is `pos` itself.
pub open spec fn around(pos: Point, k: int) -> (int, int) {
    (pos.x + k / 3 - 1, pos.y + k % 3 - 1)
}

/// Whether the integer pair is a tile of the board.
pub open spec fn on_board(fv: FieldView, q: (int, int)) -> bool {
    0 <= q.0 < fv.width() && 0 <= q.1 < fv.height()
}

/// The neighbours of `pos` on the board among the first `k` points around
/// it, in their order.
pub open spec fn neighbors_upto(fv: FieldView, pos: Point, k: int) -> Seq<Point>
    decreases k,
{
    if k <= 0 {
        Seq::empty()
    } else {
        let q = around(pos, k - 1);
        if k - 1 != 4 && on_board(fv, q) {
            neighbors_upto(fv, pos, k - 1).push(Point { x: q.0 as i8, y: q.1 as i8 })
        } else {
            neighbors_upto(fv, pos, k - 1)
        }
    }
}

/// The up to eight tiles of the board that touch `pos`, column by column.
pub open spec fn neighbors(fv: FieldView, pos: Point) -> Seq<Point> {
    neighbors_upto(fv, pos, 9)
}

/// Every listed neighbour is a tile of the board next to `pos`, and is not
/// `pos`.
pub proof fn lemma_neighbors_sound(fv: FieldView, pos: Point, k: int)
    requires
        fv.wf(),
        0 <= k <= 9,
    ensures
        neighbors_upto(fv, pos, k).len() <= k,
        forall|j: int|
            0 <= j < neighbors_upto(fv, pos, k).len() ==> {
                let q = #[trigger] neighbors_upto(fv, pos, k)[j];
                fv.inside(q) && pos.spec_neighbor(q) && q != pos
            },
    decreases k,
{
    if k > 0 {
        lemma_neighbors_sound(fv, pos, k - 1);
    }
}

/// The tiles of the board that touch `pos`.
pub fn make_neighbors(pos: Point, field: &Field) -> (v: Vec<Point>)
    requires
        field.wf(),
    ensures
        v@ == neighbors(field@, pos),
        forall|j: int| 0 <= j < v.len() ==> field@.inside(#[trigger] v[j]),
        forall|j: int| 0 <= j < v.len() ==> pos.spec_neighbor(#[trigger] v[j]) && v[j] != pos,
{
    let width = field.width();
    let height = field.height();
    let mut v: Vec<Point> = Vec::new();
    let mut k: u8 = 0;
    while k < 9
        invariant
            field.wf(),
            width == field@.width(),
            height == field@.height(),
            k <= 9,
            v@ == neighbors_upto(field@, pos, k as int),
        decreases 9 - k,
    {
        let x: i16 = pos.x as i16 + (k / 3) as i16 - 1;
        let y: i16 = pos.y as i16 + (k % 3) as i16 - 1;
        if k != 4 && 0 <= x && 0 <= y && (x as usize) < width && (y as usize) < height {
            v.push(Point { x: x as i8, y: y as i8 });
        }
        k += 1;
    }
    proof {
        lemma_neighbors_sound(field@, pos, 9);
    }
    v
}

/// The actions towards one neighbouring tile: a move onto a tile that is no
/// wall; a move onto a wall of the agent's own side; onto a wall of the
/// other side its removal and then a move.
pub open spec fn acts_towards(fv: FieldView, side: bool, to: Point) -> Seq<Act> {
    match fv.tile_at(to).state {
        State::Wall(owner) => if owner == side {
            seq![Act::MoveAct(to)]
        } else {
            seq![Act::RemoveAct(to), Act::MoveAct(to)]
        },
        _ => seq![Act::MoveAct(to)],
    }
}

/// Staying, followed by the actions towards the first `k` neighbours.
pub open spec fn moves_upto(fv: FieldView, side: bool, around: Seq<Point>, k: int) -> Seq<Act>
    decreases k,
{
    if k <= 0 {
        seq![Act::StayAct]
    } else {
        moves_upto(fv, side, around, k - 1) + acts_towards(fv, side, around[k - 1])
    }
}

/// Whether an agent of `side` that is off the board may be placed on tile
/// `(x, y)`: no agent stands there, it is no wall of that side, and it is
/// worth at least [`PUT_BORDER`].
pub open spec fn may_put(fv: FieldView, side: bool, x: int, y: int) -> bool {
    &&& fv.tiles[x][y].state != State::Wall(side)
    &&& fv.tiles[x][y].point >= PUT_BORDER
    &&& forall|s: bool, i: int|
        0 <= i < fv.agent_count() ==> #[trigger] fv.agent(s, i) != Some(
            Point { x: x as i8, y: y as i8 },
        )
}

/// The placements onto the first `y` tiles of column `x`.
pub open spec fn puts_in_column(fv: FieldView, side: bool, x: int, y: int) -> Seq<Act>
    decreases y,
{
    if y <= 0 {
        Seq::empty()
    } else if may_put(fv, side, x, y - 1) {
        puts_in_column(fv, side, x, y - 1).push(
            Act::PutAct(Point { x: x as i8, y: (y - 1) as i8 }),
        )
    } else {
        puts_in_column(fv, side, x, y - 1)
    }
}

/// The placements onto the first `x` columns.
pub open spec fn puts_upto(fv: FieldView, side: bool, x: int) -> Seq<Act>
    decreases x,
{
    if x <= 0 {
        Seq::empty()
    } else {
        puts_upto(fv, side, x - 1) + puts_in_column(fv, side, x - 1, fv.height())
    }
}

/// The candidate actions of agent `id` of `side`. An agent on the board
/// may stay or act towards each neighbouring tile; an agent off the board
/// may be placed on any tile that allows it, column by column.
pub open spec fn candidates(fv: FieldView, side: bool, id: int) -> Seq<Act> {
    match fv.agent(side, id) {
        Some(pos) => moves_upto(
            fv,
            side,
            neighbors(fv, pos),
            neighbors(fv, pos).len() as int,
        ),
        None => puts_upto(fv, side, fv.width()),
    }
}

/// Whether any agent stands on `p`.
fn taken(field: &Field, p: Point) -> (b: bool)
    requires
        field.wf(),
    ensures
        b == !(forall|s: bool, i: int|
            0 <= i < field@.agent_count() ==> #[trigger] field@.agent(s, i) != Some(p)),
{
    let n = field.agent_count();
    let mut i: usize = 0;
    while i < n
        invariant
            field.wf(),
            n == field@.agent_count(),
            i <= n,
            forall|s: bool, k: int| 0 <= k < i ==> #[trigger] field@.agent(s, k) != Some(p),
        decreases n - i,
    {
        if field.agent(false, i) == Some(p) || field.agent(true, i) == Some(p) {
            return true;
        }
        proof {
            assert forall|s: bool, k: int| 0 <= k < i + 1 implies #[trigger] field@.agent(s, k)
                != Some(p) by {
                if k == i {
                    if s {
                        assert(field@.agent(true, i as int) != Some(p));
                    } else {
                        assert(field@.agent(false, i as int) != Some(p));
                    }
                }
            }
        }
        i += 1;
    }
    false
}

/// The candidate actions of agent `id` of `side`.
pub fn make_acts(side: bool, id: usize, field: &Field) -> (cand: Vec<Act>)
    requires
        field.wf(),
        id < field@.agent_count(),
    ensures
        cand@ == candidates(field@, side, id as int),
{
    let ghost fv = field@;
    match field.agent(side, id) {
        Some(pos) => {
            let mut cand: Vec<Act> = Vec::new();
            cand.push(Act::StayAct);
            let moves = make_neighbors(pos, field);
            let mut k: usize = 0;
            assert(cand@ =~= moves_upto(fv, side, moves@, 0));
            while k < moves.len()
                invariant
                    field.wf(),
                    fv == field@,
                    k <= moves.len(),
                    forall|j: int| 0 <= j < moves.len() ==> fv.inside(#[trigger] moves[j]),
                    cand@ == moves_upto(fv, side, moves@, k as int),
                decreases moves.len() - k,
            {
                let mov = moves[k];
                let ghost prev = cand@;
                match field.tile(mov.usize()).state() {
                    State::Wall(owner) => {
                        if owner == side {
                            cand.push(Act::MoveAct(mov));
                        } else {
                            cand.push(Act::RemoveAct(mov));
                            cand.push(Act::MoveAct(mov));
                        }
                    },
                    _ => {
                        cand.push(Act::MoveAct(mov));
                    },
                }
                assert(cand@ =~= prev + acts_towards(fv, side, mov));
                k += 1;
            }
            cand
        },
        None => {
            let width = field.width();
            let height = field.height();
            let mut cand: Vec<Act> = Vec::new();
            let mut x: usize = 0;
            while x < width
                invariant
                    field.wf(),
                    fv == field@,
                    width == fv.width(),
                    height == fv.height(),
                    x <= width,
                    cand@ == puts_upto(fv, side, x as int),
                decreases width - x,
            {
                let ghost before = cand@;
                let mut y: usize = 0;
                while y < height
                    invariant
                        field.wf(),
                        fv == field@,
                        width == fv.width(),
                        height == fv.height(),
                        x < width,
                        y <= height,
                        cand@ == before + puts_in_column(fv, side, x as int, y as int),
                    decreases height - y,
                {
                    let tile = field.tile(PointUsize::new(x, y));
                    let here = Point { x: x as i8, y: y as i8 };
                    let own_wall = match tile.state() {
                        State::Wall(owner) => owner == side,
                        _ => false,
                    };
                    let ghost prev = cand@;
                    if !own_wall && tile.point() >= PUT_BORDER && !taken(field, here) {
                        cand.push(Act::PutAct(here));
                        assert(cand@ =~= before + puts_in_column(fv, side, x as int, y as int + 1));
                    } else {
                        assert(!may_put(fv, side, x as int, y as int));
                    }
                    y += 1;
                }
                x += 1;
            }
            cand
        },
    }
}

/// The value of an action for `side`, or `None` where the action has no
/// value of its own or is not allowed.
///
/// Staying has none. Entering a neutral tile is worth its points; entering
/// a tile that the other side holds is worth its points and their
/// magnitude; a tile that the own side holds, its points less their
/// magnitude; an own wall nothing; a wall of the other side cannot be
/// entered. Removing a wall of the other side is worth the tile's points,
/// removing an own wall costs them; where no wall stands nothing can be
/// removed. An action that aims off the board is not allowed.
pub open spec fn spec_point(fv: FieldView, side: bool, act: Act) -> Option<int> {
    match act {
        Act::StayAct => None,
        Act::PutAct(pos) | Act::MoveAct(pos) => if !fv.inside(pos) {
            None
        } else {
            let tile = fv.tile_at(pos);
            match tile.state {
                State::Wall(owner) => if owner != side {
                    None
                } else {
                    Some(0int)
                },
                State::Neutral => Some(tile.point as int),
                State::Position(owner) => if owner != side {
                    Some(tile.point + abs(tile.point as int))
                } else {
                    Some(tile.point - abs(tile.point as int))
                },
            }
        },
        Act::RemoveAct(pos) => if !fv.inside(pos) {
            None
        } else {
            let tile = fv.tile_at(pos);
            match tile.state {
                State::Wall(owner) => if owner == side {
                    Some(-(tile.point as int))
                } else {
                    Some(tile.point as int)
                },
                _ => None,
            }
        },
    }
}

/// The value of an action for `side`. The result is wider than a tile's
/// points, since it can be twice as large.
pub fn point(side: bool, act: Act, field: &Field) -> (value: Option<i16>)
    requires
        field.wf(),
    ensures
        match value {
            Some(v) => spec_point(field@, side, act) == Some(v as int),
            None => spec_point(field@, side, act) is None,
        },
        value matches Some(v) ==> -256 <= v <= 254,
{
    match act {
        Act::StayAct => None,
        Act::PutAct(pos) | Act::MoveAct(pos) => {
            if !field.inside(pos) {
                return None;
            }
            let tile = field.tile(pos.usize());
            let p: i16 = tile.point() as i16;
            let magnitude: i16 = if p < 0 {
                -p
            } else {
                p
            };
            match tile.state() {
                State::Wall(owner) => if owner != side {
                    None
                } else {
                    Some(0)
                },
                State::Neutral => Some(p),
                State::Position(owner) => if owner != side {
                    Some(p + magnitude)
                } else {
                    Some(p - magnitude)
                },
            }
        },
        Act::RemoveAct(pos) => {
            if !field.inside(pos) {
                return None;
            }
            let tile = field.tile(pos.usize());
            let p: i16 = tile.point() as i16;
            match tile.state() {
                State::Wall(owner) => if owner == side {
                    Some(-p)
                } else {
                    Some(p)
                },
                _ => None,
            }
        },
    }
}

/// The tile an action claims: the tile it aims at, or for staying the tile
/// the agent stands on.
pub open spec fn spec_tile_pos(fv: FieldView, side: bool, id: int, act: Act) -> Point {
    match act.spec_pos() {
        Some(pos) => pos,
        None => fv.agent(side, id)->0,
    }
}

/// The tile an action claims. Staying needs an agent that stands on the
/// board.
pub fn tile_pos(side: bool, id: usize, act: &Act, field: &Field) -> (pos: Point)
    requires
        field.wf(),
        id < field@.agent_count(),
        *act is StayAct ==> field@.agent(side, id as int) is Some,
    ensures
        pos == spec_tile_pos(field@, side, id as int, *act),
{
    match act {
        Act::PutAct(pos) | Act::MoveAct(pos) | Act::RemoveAct(pos) => *pos,
        Act::StayAct => field.agent(side, id).unwrap(),
    }
}

/// A solver for one side of a board: it chooses an action for every agent
/// of its side.
pub trait Solver<'a>: Sized {
    /// The board the solver works on.
    spec fn spec_field(&self) -> FieldView;

    /// The side the solver plays.
    spec fn spec_side(&self) -> bool;

    /// What holds of every solver that `new` made.
    spec fn inv(&self) -> bool;

    /// The states in which `solve` can find a joint action.
    spec fn solvable(&self) -> bool;

    /// What `solve` promises of the actions it returns from state `self`.
    spec fn solution(&self, acts: Seq<Act>) -> bool;

    /// What holds of a solver once it has solved.
    spec fn solved(&self) -> bool;

    fn new(side: bool, field: &'a Field) -> (solver: Self)
        requires
            field.wf(),
        ensures
            solver.inv(),
            solver.spec_side() == side,
            solver.spec_field() == field@,
    ;

    fn field(&self) -> (field: &Field)
        requires
            self.inv(),
        ensures
            field.wf(),
            field@ == self.spec_field(),
    ;

    fn side(&self) -> (side: bool)
        ensures
            side == self.spec_side(),
    ;

    /// One action for every agent of the solver's side.
    fn solve(&mut self) -> (acts: Vec<Act>)
        requires
            old(self).inv(),
            old(self).solvable(),
        ensures
            final(self).inv(),
            final(self).solved(),
            final(self).spec_side() == old(self).spec_side(),
            final(self).spec_field() == old(self).spec_field(),
            acts.len() == old(self).spec_field().agent_count(),
            old(self).solution(acts@),
    ;
}

/// A solver that values each action of each agent on its own.
pub trait EachEvalSolver {
    /// The value of `act` for agent `id`, or `None` where the action is
    /// not to be considered.
    spec fn spec_eval(&self, id: int, act: Act) -> Option<i64>;

    /// The states in which `eval` can be asked.
    spec fn can_eval(&self) -> bool;

    fn eval(&self, id: usize, act: Act) -> (value: Option<i64>)
        requires
            self.can_eval(),
        ensures
            value == self.spec_eval(id as int, act),
    ;
}

/// The first `k` of the actions that the solver gives a value for agent
/// `id`, each with its value.
pub open spec fn valued_upto<T: EachEvalSolver>(solver: T, id: int, acts: Seq<Act>, k: int) -> Seq<
    (Act, i64),
>
    decreases k,
{
    if k <= 0 {
        Seq::empty()
    } else {
        match solver.spec_eval(id, acts[k - 1]) {
            Some(v) => valued_upto(solver, id, acts, k - 1).push((acts[k - 1], v)),
            None => valued_upto(solver, id, acts, k - 1),
        }
    }
}

/// The candidate actions of agent `id` that the solver gives a value, each
/// with its value, in the order of the candidates.
pub open spec fn value_map<T: EachEvalSolver>(fv: FieldView, side: bool, id: int, solver: T) -> Seq<
    (Act, i64),
> {
    valued_upto(solver, id, candidates(fv, side, id), candidates(fv, side, id).len() as int)
}

/// The value maps of all agents of `side`.
pub open spec fn value_maps<T: EachEvalSolver>(fv: FieldView, side: bool, solver: T) -> Seq<
    Seq<(Act, i64)>,
> {
    Seq::new(fv.agent_count() as nat, |id: int| value_map(fv, side, id, solver))
}

/// Every valued action is one of the actions given.
pub proof fn lemma_valued_from<T: EachEvalSolver>(
    solver: T,
    id: int,
    acts: Seq<Act>,
    k: int,
    j: int,
)
    requires
        0 <= k <= acts.len(),
        0 <= j < valued_upto(solver, id, acts, k).len(),
    ensures
        exists|a: int| 0 <= a < k && #[trigger] acts[a] == valued_upto(solver, id, acts, k)[j].0,
    decreases k,
{
    if k > 0 {
        let before = valued_upto(solver, id, acts, k - 1);
        if j < before.len() {
            lemma_valued_from(solver, id, acts, k - 1, j);
            let a = choose|a: int| 0 <= a < k - 1 && #[trigger] acts[a] == before[j].0;
            assert(acts[a] == valued_upto(solver, id, acts, k)[j].0);
        } else {
            assert(acts[k - 1] == valued_upto(solver, id, acts, k)[j].0);
        }
    }
}

/// An agent that is off the board has only placements as candidates.
pub proof fn lemma_puts_only(fv: FieldView, side: bool, x: int, j: int)
    requires
        0 <= x,
        0 <= j < puts_upto(fv, side, x).len(),
    ensures
        puts_upto(fv, side, x)[j] is PutAct,
    decreases x,
{
    if x > 0 {
        let before = puts_upto(fv, side, x - 1);
        if j >= before.len() {
            lemma_puts_in_column_only(fv, side, x - 1, fv.height(), j - before.len());
        } else {
            lemma_puts_only(fv, side, x - 1, j);
        }
    }
}

/// A column gives only placements.
pub proof fn lemma_puts_in_column_only(fv: FieldView, side: bool, x: int, y: int, j: int)
    requires
        0 <= j < puts_in_column(fv, side, x, y).len(),
    ensures
        puts_in_column(fv, side, x, y)[j] is PutAct,
    decreases y,
{
    if y > 0 {
        let before = puts_in_column(fv, side, x, y - 1);
        if j < before.len() {
            lemma_puts_in_column_only(fv, side, x, y - 1, j);
        }
    }
}

/// The value maps can be assigned: staying is a candidate only of agents
/// that stand on the board.
pub proof fn lemma_value_maps_assignable<T: EachEvalSolver>(fv: FieldView, side: bool, solver: T)
    requires
        fv.wf(),
    ensures
        assignable(fv, side, value_maps(fv, side, solver)),
{
    let maps = value_maps(fv, side, solver);
    assert forall|i: int, c: int|
        0 <= i < maps.len() && 0 <= c < maps[i].len() && (#[trigger] maps[i][c]).0
            is StayAct implies fv.agent(side, i) is Some by {
        if fv.agent(side, i) is None {
            let cand = candidates(fv, side, i);
            lemma_valued_from(solver, i, cand, cand.len() as int, c);
            let a = choose|a: int| 0 <= a < cand.len() && #[trigger] cand[a] == maps[i][c].0;
            lemma_puts_only(fv, side, fv.width(), a);
        }
    }
}

/// The value maps of all agents of `side`, computed: for every agent its
/// candidate actions that `solver` gives a value, each with that value.
pub fn value_maps_of<T: EachEvalSolver>(side: bool, field: &Field, solver: &T) -> (maps: Vec<
    Vec<(Act, i64)>,
>)
    requires
        field.wf(),
        solver.can_eval(),
    ensures
        table_of(maps) == value_maps(field@, side, *solver),
        maps.len() == field@.agent_count(),
{
    let ghost fv = field@;
    let ghost maps = value_maps(fv, side, *solver);
    let n = field.agent_count();
    let mut eval_scores: Vec<Vec<(Act, i64)>> = Vec::new();
    let mut id: usize = 0;
    while id < n
        invariant
            field.wf(),
            fv == field@,
            solver.can_eval(),
            maps == value_maps(fv, side, *solver),
            n == fv.agent_count(),
            id <= n,
            eval_scores.len() == id,
            forall|a: int| 0 <= a < id ==> (#[trigger] eval_scores[a])@ == maps[a],
        decreases n - id,
    {
        let cand = make_acts(side, id, field);
        let mut ev: Vec<(Act, i64)> = Vec::new();
        let mut k: usize = 0;
        while k < cand.len()
            invariant
                solver.can_eval(),
                k <= cand.len(),
                ev@ == valued_upto(*solver, id as int, cand@, k as int),
            decreases cand.len() - k,
        {
            let act = cand[k];
            match solver.eval(id, act) {
                Some(score) => {
                    ev.push((act, score));
                },
                None => {},
            }
            k += 1;
        }
        eval_scores.push(ev);
        id += 1;
    }
    proof {
        assert(table_of(eval_scores) =~= maps);
    }
    eval_scores
}

/// Chooses for every agent of `side` one of its candidate actions that
/// `solver` gives a value, so that no two agents claim the same tile and
/// the values sum to the most that can be reached.
pub fn solve_with<T: EachEvalSolver>(side: bool, field: &Field, solver: &T) -> (acts: Vec<Act>)
    requires
        field.wf(),
        solver.can_eval(),
        field@.agent_count() <= MAX_ASSIGN,
        candidate_count(value_maps(field@, side, *solver), field@.agent_count()) <= MAX_ASSIGN,
        exists|choice: Seq<int>| #[trigger]
            is_assignment(field@, side, value_maps(field@, side, *solver), choice),
    ensures
        acts.len() == field@.agent_count(),
        exists|choice: Seq<int>| #[trigger]
            is_best(field@, side, value_maps(field@, side, *solver), choice) && acts@ == acts_of(
                value_maps(field@, side, *solver),
                choice,
            ),
{
    let eval_scores = value_maps_of(side, field, solver);
    proof {
        lemma_value_maps_assignable(field@, side, *solver);
    }
    primal_dual(side, &eval_scores, field)
}

/// Chooses for every agent of the solver's side one of its candidate
/// actions that the solver gives a value, so that no two agents claim the
/// same tile and the values sum to the most that can be reached.
pub fn solve<'a, T: Solver<'a> + EachEvalSolver>(solver: &T) -> (acts: Vec<Act>)
    requires
        solver.inv(),
        solver.can_eval(),
        solver.spec_field().agent_count() <= MAX_ASSIGN,
        candidate_count(
            value_maps(solver.spec_field(), solver.spec_side(), *solver),
            solver.spec_field().agent_count(),
        ) <= MAX_ASSIGN,
        exists|choice: Seq<int>| #[trigger]
            is_assignment(
                solver.spec_field(),
                solver.spec_side(),
                value_maps(solver.spec_field(), solver.spec_side(), *solver),
                choice,
            ),
    ensures
        acts.len() == solver.spec_field().agent_count(),
        exists|choice: Seq<int>| #[trigger]
            is_best(
                solver.spec_field(),
                solver.spec_side(),
                value_maps(solver.spec_field(), solver.spec_side(), *solver),
                choice,
            ) && acts@ == acts_of(
                value_maps(solver.spec_field(), solver.spec_side(), *solver),
                choice,
            ),
{
    solve_with(solver.side(), solver.field(), solver)
}

/// Two lists of maps hold the same actions in the same places.
pub open spec fn same_acts(a: Seq<Seq<(Act, i64)>>, b: Seq<Seq<(Act, i64)>>) -> bool {
    &&& a.len() == b.len()
    &&& forall|i: int| 0 <= i < a.len() ==> (#[trigger] a[i]).len() == b[i].len()
    &&& forall|i: int, k: int|
        0 <= i < a.len() && 0 <= k < a[i].len() ==> (#[trigger] a[i][k]).0 == b[i][k].0
}

/// Whether a choice is an assignment depends on the actions alone.
pub proof fn lemma_same_acts_assignment(
    fv: FieldView,
    side: bool,
    a: Seq<Seq<(Act, i64)>>,
    b: Seq<Seq<(Act, i64)>>,
    choice: Seq<int>,
)
    requires
        same_acts(a, b),
        is_assignment(fv, side, a, choice),
    ensures
        is_assignment(fv, side, b, choice),
{
    assert forall|i: int| 0 <= i < b.len() implies 0 <= #[trigger] choice[i] < b[i].len() by {
        assert(a[i].len() == b[i].len());
    }
    assert forall|i: int, k: int| 0 <= i < k < b.len() implies crate::algorithms::assignment::claim(
        fv,
        side,
        b,
        i,
        #[trigger] choice[i],
    ) != crate::algorithms::assignment::claim(fv, side, b, k, #[trigger] choice[k]) by {
        assert(a[i].len() == b[i].len());
        assert(a[k].len() == b[k].len());
        assert(a[i][choice[i]].0 == b[i][choice[i]].0);
        assert(a[k][choice[k]].0 == b[k][choice[k]].0);
        assert(crate::algorithms::assignment::claim(fv, side, a, i, choice[i])
            != crate::algorithms::assignment::claim(fv, side, a, k, choice[k]));
    }
}

/// The number of candidates depends on the lengths of the maps alone.
pub proof fn lemma_same_acts_count(a: Seq<Seq<(Act, i64)>>, b: Seq<Seq<(Act, i64)>>, n: int)
    requires
        same_acts(a, b),
        0 <= n <= a.len(),
    ensures
        candidate_count(a, n) == candidate_count(b, n),
    decreases n,
{
    if n > 0 {
        lemma_same_acts_count(a, b, n - 1);
    }
}

/// The strategies that regrets give hold the actions of the maps.
pub proof fn lemma_strategies_same_acts(
    scores: Seq<Seq<Seq<(Act, i64)>>>,
    table: Seq<Seq<Seq<i128>>>,
    s: int,
)
    requires
        0 <= s < 2,
        table_ok(scores, table, MAX_REGRET as int),
    ensures
        same_acts(strategies_of(scores, table, s), scores[s]),
{
}

/// What a solver must offer for regret matching on a board: it can solve
/// and value, gives every agent between one and [`MAX_ACTS`] valued
/// actions with bounded scores, and its valued actions allow every agent a
/// tile of its own.
pub open spec fn fit_for_regret<T: EachEvalSolver>(fv: FieldView, side: bool, solver: T) -> bool {
    let maps = value_maps(fv, side, solver);
    &&& solver.can_eval()
    &&& candidate_count(maps, fv.agent_count()) <= MAX_ASSIGN
    &&& forall|i: int|
        0 <= i < fv.agent_count() ==> 1 <= (#[trigger] maps[i]).len() <= MAX_ACTS && scores_bounded(
            maps[i],
        )
    &&& exists|choice: Seq<int>| #[trigger] is_assignment(fv, side, maps, choice)
}

/// The maps of both sides by which regret matching plays: the actions
/// that the solver of each side gives a value.
pub open spec fn both_maps<T: EachEvalSolver>(fv: FieldView, first: T, second: T) -> Seq<
    Seq<Seq<(Act, i64)>>,
> {
    seq![value_maps(fv, false, first), value_maps(fv, true, second)]
}

/// The actions are a best assignment of the strategies of `side` after
/// `rounds` rounds of regret matching on the values of the two solvers,
/// in which the joint actions `draws` were played.
pub open spec fn regret_answer<T: EachEvalSolver>(
    fv: FieldView,
    side: bool,
    first: T,
    second: T,
    draws: Seq<Seq<Seq<Act>>>,
    rounds: int,
    choice: Seq<int>,
    acts: Seq<Act>,
) -> bool {
    let maps = both_maps(fv, first, second);
    let prob = strategies_of(maps, played(fv, maps, draws, rounds), side_index(side));
    &&& rounds_played(fv, maps, draws, rounds)
    &&& is_best(fv, side, prob, choice)
    &&& acts == acts_of(prob, choice)
}

/// Lets a solver of each side value the candidate actions, runs
/// `num_iter` rounds of regret matching on those values, and assigns the
/// agents of `side_` so that the probabilities of the actions chosen sum
/// to the most.
pub fn solve_regret_matching<'a, T: Solver<'a> + EachEvalSolver>(
    rng: &mut StdRng,
    side_: bool,
    field: &'a Field,
    num_iter: usize,
) -> (acts: Vec<Act>)
    requires
        field.wf(),
        field@.agent_count() <= MAX_AGENTS,
        num_iter <= MAX_ROUNDS,
        forall|solver: T| #[trigger]
            solver.inv() && solver.spec_field() == field@ ==> solver.solvable() && (solver.solved()
                ==> fit_for_regret(field@, solver.spec_side(), solver)),
    ensures
        acts.len() == field@.agent_count(),
        exists|first: T, second: T, draws: Seq<Seq<Seq<Act>>>, choice: Seq<int>|
            first.inv() && first.solved() && !first.spec_side() && first.spec_field() == field@
                && second.inv() && second.solved() && second.spec_side() && second.spec_field()
                == field@ && #[trigger] regret_answer(
                field@,
                side_,
                first,
                second,
                draws,
                num_iter as int,
                choice,
                acts@,
            ),
{
    let ghost fv = field@;
    let mut first = T::new(false, field);
    first.solve();
    let mut second = T::new(true, field);
    second.solve();
    let maps_first = value_maps_of(false, field, &first);
    let maps_second = value_maps_of(true, field, &second);
    let ghost own = if side_ {
        value_maps(fv, true, second)
    } else {
        value_maps(fv, false, first)
    };
    let mut eval_scores: Vec<Vec<Vec<(Act, i64)>>> = Vec::new();
    eval_scores.push(maps_first);
    eval_scores.push(maps_second);
    let ghost scores = maps_of(eval_scores);
    proof {
        assert(fit_for_regret(fv, false, first));
        assert(fit_for_regret(fv, true, second));
        assert(scores[0] == table_of(eval_scores[0]));
        assert(scores[1] == table_of(eval_scores[1]));
        assert(scores[0] == value_maps(fv, false, first));
        assert(scores[1] == value_maps(fv, true, second));
        assert(scores[side_index(side_)] == own);
        assert(scores =~= both_maps(fv, first, second));
        assert(playable(fv, scores)) by {
            assert forall|s: int, i: int| 0 <= s < 2 && 0 <= i < fv.agent_count() implies 1 <= (
            #[trigger] scores[s][i]).len() <= MAX_ACTS && scores_bounded(scores[s][i]) by {
                if s == 0 {
                    assert(1 <= value_maps(fv, false, first)[i].len() <= MAX_ACTS);
                } else {
                    assert(1 <= value_maps(fv, true, second)[i].len() <= MAX_ACTS);
                }
            }
        }
    }
    let prob = regret_matching(rng, side_, &eval_scores, field, num_iter);
    proof {
        let draws = choose|draws: Seq<Seq<Seq<Act>>>| #[trigger]
            rounds_played(fv, scores, draws, num_iter as int) && table_of(prob) == strategies_of(
                scores,
                played(fv, scores, draws, num_iter as int),
                side_index(side_),
            );
        let table = played(fv, scores, draws, num_iter as int);
        assert(num_iter * MAX_GAIN <= MAX_ROUNDS * MAX_GAIN) by (nonlinear_arith)
            requires
                0 <= num_iter <= MAX_ROUNDS,
                MAX_GAIN >= 0,
        ;
        lemma_table_weaken(scores, table, num_iter * MAX_GAIN, MAX_REGRET as int);
        lemma_strategies_same_acts(scores, table, side_index(side_));
        assert(same_acts(table_of(prob), own));
        lemma_same_acts_count(table_of(prob), own, fv.agent_count());
        let choice = choose|choice: Seq<int>| #[trigger] is_assignment(fv, side_, own, choice);
        assert(same_acts(own, table_of(prob)));
        lemma_same_acts_assignment(fv, side_, own, table_of(prob), choice);
        if side_ {
            lemma_value_maps_assignable(fv, true, second);
        } else {
            lemma_value_maps_assignable(fv, false, first);
        }
        assert(assignable(fv, side_, table_of(prob))) by {
            assert forall|i: int, c: int|
                0 <= i < table_of(prob).len() && 0 <= c < table_of(prob)[i].len() && (
                #[trigger] table_of(prob)[i][c]).0 is StayAct implies fv.agent(side_, i) is Some by {
                assert(own[i][c].0 is StayAct);
            }
        }
    }
    let acts = primal_dual(side_, &prob, field);
    proof {
        let choice = choose|choice: Seq<int>| #[trigger]
            is_best(fv, side_, table_of(prob), choice) && acts@ == acts_of(table_of(prob), choice);
        let draws = choose|draws: Seq<Seq<Seq<Act>>>| #[trigger]
            rounds_played(fv, scores, draws, num_iter as int) && table_of(prob) == strategies_of(
                scores,
                played(fv, scores, draws, num_iter as int),
                side_index(side_),
            );
        assert(regret_answer(fv, side_, first, second, draws, num_iter as int, choice, acts@));
    }
    acts
}

} // verus!
