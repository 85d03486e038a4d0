//! The solver that values a tile by what can be gained from it in the
//! turns to come.
use crate::algorithms::assignment::{
    acts_of, candidate_count, is_assignment, is_best, MAX_ASSIGN,
};
use crate::algorithms::base::{
    make_neighbors, neighbors, point, solve_with, spec_point, value_maps, EachEvalSolver, Solver,
};
use crate::algorithms::social_distance::{copy_points, holds};
use crate::field::{Field, FieldView, Point, State};
use crate::simulator::Act;
use vstd::prelude::*;

verus! {

/// How many turns the values look ahead at most.
pub const TURN: u8 = 7;

/// The value of one point. All values of tiles are in ten-millionths of a
/// point.
pub const DP_UNIT: i64 = 10_000_000;

/// The largest value that a tile can have.
pub const DP_MAX: i64 = 40_000_000_000;

/// What a point gained `t` turns ahead is worth now: three tenths for
/// every turn, rounded down each time.
pub open spec fn fade(t: nat) -> int
    decreases t,
{
    if t == 0 {
        DP_UNIT as int
    } else {
        fade((t - 1) as nat) * 3 / 10
    }
}

pub proof fn lemma_fade_bounds(t: nat)
    ensures
        0 <= fade(t) <= DP_UNIT,
    decreases t,
{
    if t > 0 {
        lemma_fade_bounds((t - 1) as nat);
    }
}

/// What a point gained `t` turns ahead is worth now, computed.
pub fn fade_at(t: usize) -> (d: i64)
    ensures
        d == fade(t as nat),
        0 <= d <= DP_UNIT,
{
    let mut d: i64 = DP_UNIT;
    let mut k: usize = 0;
    while k < t
        invariant
            k <= t,
            d == fade(k as nat),
            0 <= d <= DP_UNIT,
        decreases t - k,
    {
        proof {
            lemma_fade_bounds((k + 1) as nat);
        }
        d = d * 3 / 10;
        k += 1;
    }
    d
}

/// The best way found to a tile in a number of turns: its value, the tiles
/// it has been on, and the tile and turn it came from.
pub struct DpCell {
    pub score: i64,
    pub used: Vec<Point>,
    pub prev_pos: Option<Point>,
    pub prev_turn: Option<usize>,
}

/// What a [`DpCell`] holds.
pub ghost struct Kept {
    pub score: int,
    pub used: Seq<Point>,
    pub prev_pos: Option<Point>,
    pub prev_turn: Option<int>,
}

impl View for DpCell {
    type V = Kept;

    open spec fn view(&self) -> Kept {
        Kept {
            score: self.score as int,
            used: self.used@,
            prev_pos: self.prev_pos,
            prev_turn: match self.prev_turn {
                Some(t) => Some(t as int),
                None => None,
            },
        }
    }
}

/// Values every tile by the best way from it that a search over the next
/// turns finds, and an action by the value of the tile it aims at.
pub struct SimpleDp<'a> {
    pub field: &'a Field,
    pub side: bool,
    pub data: Vec<Vec<Option<i64>>>,
}

/// The number of turns to look ahead: [`TURN`], or fewer if the match ends
/// before.
pub open spec fn horizon(fv: FieldView) -> int {
    if fv.final_turn - fv.now_turn < TURN {
        fv.final_turn - fv.now_turn
    } else {
        TURN as int
    }
}

/// What a cell holds, if there is one.
pub open spec fn cell_view(cell: Option<DpCell>) -> Option<Kept> {
    match cell {
        Some(c) => Some(c@),
        None => None,
    }
}

/// What the layers hold: for every number of turns and every tile, the
/// best way found.
pub open spec fn layers_of(dp: Vec<Vec<Vec<Option<DpCell>>>>) -> Seq<Seq<Seq<Option<Kept>>>> {
    Seq::new(
        dp.len() as nat,
        |t: int|
            Seq::new(
                dp[t].len() as nat,
                |x: int| Seq::new(dp[t][x].len() as nat, |y: int| cell_view(dp[t][x][y])),
            ),
    )
}

/// The layers before the search: every tile is reached in no turns, with
/// nothing gained, and in no other number of turns.
pub open spec fn start_layers(fv: FieldView, turn: int) -> Seq<Seq<Seq<Option<Kept>>>> {
    Seq::new(
        (turn + 1) as nat,
        |t: int| Seq::new(fv.width() as nat, |x: int| Seq::new(fv.height() as nat, |y: int| start_cell(t))),
    )
}

/// The cell of a tile in layer `t` before the search.
pub open spec fn start_cell(t: int) -> Option<Kept> {
    if t == 0 {
        Some(Kept { score: 0, used: Seq::empty(), prev_pos: None, prev_turn: None })
    } else {
        None
    }
}

/// The layers with `cell` on tile `at` of layer `t`.
pub open spec fn put_cell(layers: Seq<Seq<Seq<Option<Kept>>>>, t: int, at: Point, cell: Kept) -> Seq<
    Seq<Seq<Option<Kept>>>,
> {
    layers.update(
        t,
        layers[t].update(at.x as int, layers[t][at.x as int].update(at.y as int, Some(cell))),
    )
}

/// The layers with `cell` on tile `at` of layer `t` if the tile has no
/// cell there or one of a smaller value.
pub open spec fn kept_better(layers: Seq<Seq<Seq<Option<Kept>>>>, t: int, at: Point, cell: Kept) -> Seq<
    Seq<Seq<Option<Kept>>>,
> {
    match layers[t][at.x as int][at.y as int] {
        Some(there) => if there.score < cell.score {
            put_cell(layers, t, at, cell)
        } else {
            layers
        },
        None => put_cell(layers, t, at, cell),
    }
}

/// Thirteen tenths of `v`, rounded towards nothing.
pub open spec fn longer(v: int) -> int {
    if v >= 0 {
        v * 13 / 10
    } else {
        -((-v) * 13 / 10)
    }
}

/// The layers after the way `cell`, which reaches `pos` in `t` turns, has
/// been continued onto the neighbouring tile `nex`. A wall of the other
/// side is removed, any other tile entered. The step gains the points of
/// the action, or nothing if the way has been on the tile, times what a
/// point is worth `t` turns ahead. A removal before the last turn takes
/// two turns and gains thirteen tenths.
pub open spec fn stepped(
    fv: FieldView,
    side: bool,
    layers: Seq<Seq<Seq<Option<Kept>>>>,
    t: int,
    turn: int,
    pos: Point,
    cell: Kept,
    nex: Point,
) -> Seq<Seq<Seq<Option<Kept>>>> {
    let removal = fv.tile_at(nex).state == State::Wall(!side);
    let act = if removal {
        Act::RemoveAct(nex)
    } else {
        Act::MoveAct(nex)
    };
    match spec_point(fv, side, act) {
        None => layers,
        Some(p) => {
            let base = if cell.used.contains(nex) {
                0
            } else {
                p as int
            };
            let long = removal && t != turn - 1;
            let gain = if long {
                longer(base * fade(t as nat))
            } else {
                base * fade(t as nat)
            };
            kept_better(
                layers,
                if long {
                    t + 2
                } else {
                    t + 1
                },
                nex,
                Kept {
                    score: cell.score + gain,
                    used: cell.used.push(nex),
                    prev_pos: Some(pos),
                    prev_turn: Some(t),
                },
            )
        },
    }
}

/// The layers after the way `cell` has been continued onto the first `q`
/// neighbours of `pos`.
pub open spec fn spread_upto(
    fv: FieldView,
    side: bool,
    layers: Seq<Seq<Seq<Option<Kept>>>>,
    t: int,
    turn: int,
    pos: Point,
    cell: Kept,
    q: int,
) -> Seq<Seq<Seq<Option<Kept>>>>
    decreases q,
{
    if q <= 0 {
        layers
    } else {
        stepped(
            fv,
            side,
            spread_upto(fv, side, layers, t, turn, pos, cell, q - 1),
            t,
            turn,
            pos,
            cell,
            neighbors(fv, pos)[q - 1],
        )
    }
}

/// The layers after the best way to `pos` in `t` turns, if there is one,
/// has been continued onto every neighbour of `pos`.
pub open spec fn spread_cell(
    fv: FieldView,
    side: bool,
    layers: Seq<Seq<Seq<Option<Kept>>>>,
    t: int,
    turn: int,
    pos: Point,
) -> Seq<Seq<Seq<Option<Kept>>>> {
    match layers[t][pos.x as int][pos.y as int] {
        Some(cell) => spread_upto(
            fv,
            side,
            layers,
            t,
            turn,
            pos,
            cell,
            neighbors(fv, pos).len() as int,
        ),
        None => layers,
    }
}

/// The layers after the ways of `t` turns to the first `y` tiles of column
/// `x` have been continued.
pub open spec fn spread_column(
    fv: FieldView,
    side: bool,
    layers: Seq<Seq<Seq<Option<Kept>>>>,
    t: int,
    turn: int,
    x: int,
    y: int,
) -> Seq<Seq<Seq<Option<Kept>>>>
    decreases y,
{
    if y <= 0 {
        layers
    } else {
        spread_cell(
            fv,
            side,
            spread_column(fv, side, layers, t, turn, x, y - 1),
            t,
            turn,
            Point { x: x as i8, y: (y - 1) as i8 },
        )
    }
}

/// The layers after the ways of `t` turns to the tiles of the first `x`
/// columns have been continued.
pub open spec fn spread_board(
    fv: FieldView,
    side: bool,
    layers: Seq<Seq<Seq<Option<Kept>>>>,
    t: int,
    turn: int,
    x: int,
) -> Seq<Seq<Seq<Option<Kept>>>>
    decreases x,
{
    if x <= 0 {
        layers
    } else {
        spread_column(
            fv,
            side,
            spread_board(fv, side, layers, t, turn, x - 1),
            t,
            turn,
            x - 1,
            fv.height() as int,
        )
    }
}

/// The layers after the ways of fewer than `t` turns have been continued,
/// the shorter ways first.
pub open spec fn spread_layers(
    fv: FieldView,
    side: bool,
    layers: Seq<Seq<Seq<Option<Kept>>>>,
    turn: int,
    t: int,
) -> Seq<Seq<Seq<Option<Kept>>>>
    decreases t,
{
    if t <= 0 {
        layers
    } else {
        spread_board(
            fv,
            side,
            spread_layers(fv, side, layers, turn, t - 1),
            t - 1,
            turn,
            fv.width() as int,
        )
    }
}

/// The layers after the way that the best way to `pos` in `t` turns
/// continues has taken over its value, if that is the larger one.
pub open spec fn lifted_cell(layers: Seq<Seq<Seq<Option<Kept>>>>, t: int, pos: Point) -> Seq<
    Seq<Seq<Option<Kept>>>,
> {
    match layers[t][pos.x as int][pos.y as int] {
        Some(cell) => match (cell.prev_turn, cell.prev_pos) {
            (Some(pt), Some(pp)) => match layers[pt][pp.x as int][pp.y as int] {
                Some(parent) => if parent.score < cell.score {
                    put_cell(
                        layers,
                        pt,
                        pp,
                        Kept {
                            score: cell.score,
                            used: parent.used,
                            prev_pos: parent.prev_pos,
                            prev_turn: parent.prev_turn,
                        },
                    )
                } else {
                    layers
                },
                None => layers,
            },
            _ => layers,
        },
        None => layers,
    }
}

/// The layers after the values of the first `y` tiles of column `x` in
/// layer `t` have been handed back.
pub open spec fn lift_column(layers: Seq<Seq<Seq<Option<Kept>>>>, t: int, x: int, y: int) -> Seq<
    Seq<Seq<Option<Kept>>>,
>
    decreases y,
{
    if y <= 0 {
        layers
    } else {
        lifted_cell(lift_column(layers, t, x, y - 1), t, Point { x: x as i8, y: (y - 1) as i8 })
    }
}

/// The layers after the values of the first `x` columns of layer `t` have
/// been handed back.
pub open spec fn lift_board(
    fv: FieldView,
    layers: Seq<Seq<Seq<Option<Kept>>>>,
    t: int,
    x: int,
) -> Seq<Seq<Seq<Option<Kept>>>>
    decreases x,
{
    if x <= 0 {
        layers
    } else {
        lift_column(lift_board(fv, layers, t, x - 1), t, x - 1, fv.height() as int)
    }
}

/// The layers after the values of the `n` layers below layer `turn` have
/// been handed back, the longer ways first.
pub open spec fn lift_layers(
    fv: FieldView,
    layers: Seq<Seq<Seq<Option<Kept>>>>,
    turn: int,
    n: int,
) -> Seq<Seq<Seq<Option<Kept>>>>
    decreases n,
{
    if n <= 0 {
        layers
    } else {
        lift_board(fv, lift_layers(fv, layers, turn, n - 1), turn - n, fv.width() as int)
    }
}

/// The layers at the end of the search: every way is continued, the
/// shorter ways first, and then the values are handed back from every
/// layer but the first and the last.
pub open spec fn tile_layers(fv: FieldView, side: bool) -> Seq<Seq<Seq<Option<Kept>>>> {
    let turn = horizon(fv);
    lift_layers(
        fv,
        spread_layers(fv, side, start_layers(fv, turn), turn, turn),
        turn,
        if turn >= 1 {
            turn - 1
        } else {
            0
        },
    )
}

/// The value of tile `(x, y)` for `side`: what the way of no turns there
/// holds at the end of the search.
pub open spec fn tile_value(fv: FieldView, side: bool, x: int, y: int) -> int {
    match tile_layers(fv, side)[0][x][y] {
        Some(cell) => cell.score,
        None => 0,
    }
}

/// The cell came from a tile of the board that has a cell in an earlier
/// layer, or it is a start.
pub open spec fn cell_ok(
    fv: FieldView,
    dp: Seq<Seq<Seq<Option<Kept>>>>,
    t: int,
    cell: Kept,
    lifted: bool,
) -> bool {
    &&& -t * 4_000_000_000 <= cell.score <= (if lifted {
        TURN as int
    } else {
        t
    }) * 4_000_000_000
    &&& t == 0 ==> cell.prev_turn is None
    &&& t > 0 ==> {
        &&& cell.prev_turn is Some
        &&& cell.prev_pos is Some
        &&& 0 <= cell.prev_turn->0 < t
        &&& fv.inside(cell.prev_pos->0)
        &&& dp[cell.prev_turn->0][cell.prev_pos->0.x as int][cell.prev_pos->0.y as int] is Some
    }
}

/// The layers have the shape of the board, and every cell is in order.
/// Before values are handed back, a way of `t` turns has gained at most
/// what `t` steps gain.
pub open spec fn layers_ok(
    fv: FieldView,
    dp: Seq<Seq<Seq<Option<Kept>>>>,
    turn: int,
    lifted: bool,
) -> bool {
    &&& dp.len() == turn + 1
    &&& forall|t: int| 0 <= t <= turn ==> (#[trigger] dp[t]).len() == fv.width()
    &&& forall|t: int, x: int|
        0 <= t <= turn && 0 <= x < fv.width() ==> (#[trigger] dp[t][x]).len() == fv.height()
    &&& forall|t: int, x: int, y: int|
        0 <= t <= turn && 0 <= x < fv.width() && 0 <= y < fv.height() && (
        #[trigger] dp[t][x][y]) is Some ==> cell_ok(fv, dp, t, dp[t][x][y]->0, lifted)
}

/// Layers in order stay in order when a cell in order is put on a tile.
pub proof fn lemma_put_ok(
    fv: FieldView,
    dp: Seq<Seq<Seq<Option<Kept>>>>,
    turn: int,
    t: int,
    at: Point,
    cell: Kept,
    lifted: bool,
)
    requires
        fv.wf(),
        0 <= t <= turn,
        fv.inside(at),
        layers_ok(fv, dp, turn, lifted),
        cell_ok(fv, dp, t, cell, lifted),
    ensures
        layers_ok(fv, put_cell(dp, t, at, cell), turn, lifted),
{
    let v1 = put_cell(dp, t, at, cell);
    assert forall|a: int, x: int, y: int|
        0 <= a <= turn && 0 <= x < fv.width() && 0 <= y < fv.height() implies (#[trigger] v1[a][x][y])
        == (if a == t && x == at.x && y == at.y {
        Some(cell)
    } else {
        dp[a][x][y]
    }) by {
        assert(dp[a].len() == fv.width());
        assert(dp[a][x].len() == fv.height());
    }
    assert forall|a: int| 0 <= a <= turn implies (#[trigger] v1[a]).len() == fv.width() by {
        assert(dp[a].len() == fv.width());
    }
    assert forall|a: int, x: int| 0 <= a <= turn && 0 <= x < fv.width() implies (#[trigger] v1[a][x]).len()
        == fv.height() by {
        assert(dp[a].len() == fv.width());
        assert(dp[a][x].len() == fv.height());
    }
    assert forall|a: int, x: int, y: int|
        0 <= a <= turn && 0 <= x < fv.width() && 0 <= y < fv.height() && (#[trigger] v1[a][x][y])
            is Some implies cell_ok(fv, v1, a, v1[a][x][y]->0, lifted) by {
        let c = v1[a][x][y]->0;
        if !(a == t && x == at.x && y == at.y) {
            assert(dp[a][x][y] is Some);
            assert(cell_ok(fv, dp, a, dp[a][x][y]->0, lifted));
        }
        if a > 0 {
            let pt = c.prev_turn->0;
            let pp = c.prev_pos->0;
            assert(dp[pt][pp.x as int][pp.y as int] is Some);
            assert(v1[pt][pp.x as int][pp.y as int] is Some);
        }
    }
}

impl<'a> SimpleDp<'a> {
    /// Every tile of the board has its value, which is not negative.
    pub open spec fn valued(&self) -> bool {
        &&& self.data.len() == self.field@.width()
        &&& forall|x: int| 0 <= x < self.data.len() ==> (#[trigger] self.data[x]).len() == self.field@.height()
        &&& forall|x: int, y: int|
            0 <= x < self.data.len() && 0 <= y < self.data[x].len() ==> (
            #[trigger] self.data[x][y]) is Some && self.data[x][y]->0 == tile_value(
                self.field@,
                self.side,
                x,
                y,
            ) && 0 <= self.data[x][y]->0 <= DP_MAX
    }

    /// The value of tile `pos`, if the tiles have been valued.
    pub open spec fn value_at(&self, pos: Point) -> Option<i64> {
        if 0 <= pos.x < self.data.len() && 0 <= pos.y < self.data[pos.x as int].len() {
            self.data[pos.x as int][pos.y as int]
        } else {
            None
        }
    }

    /// The value of stepping onto `nex_pos` by `act` for a way that has
    /// been on the tiles `used`: the points of the action, or nothing if
    /// the way has been there before.
    pub fn calc_base(&self, used: &Vec<Point>, nex_pos: &Point, act: &Act) -> (value: Option<i64>)
        requires
            self.field.wf(),
        ensures
            match value {
                Some(v) => spec_point(self.field@, self.side, *act) is Some && v == (if used@.contains(
                    *nex_pos,
                ) {
                    0
                } else {
                    spec_point(self.field@, self.side, *act)->0
                }) && -256 <= v <= 254,
                None => spec_point(self.field@, self.side, *act) is None,
            },
    {
        match point(self.side, *act, self.field) {
            Some(p) => Some(
                if holds(used, *nex_pos) {
                    0
                } else {
                    p as i64
                },
            ),
            None => None,
        }
    }

    /// Values every tile: the most that a way from the tile gains in the
    /// turns to come, as far as the search keeps the way. The search keeps,
    /// for every tile and number of turns, the best way it finds there; a
    /// gain `t` turns ahead counts three tenths for every turn; the removal
    /// of a wall of the other side takes two turns and counts thirteen
    /// tenths, unless it is the last.
    pub fn calc_dp(&mut self)
        requires
            old(self).field.wf(),
        ensures
            final(self).field == old(self).field,
            final(self).side == old(self).side,
            final(self).valued(),
    {
        let ghost fv = self.field@;
        let ghost side = self.side;
        let width = self.field.width();
        let height = self.field.height();
        let left = self.field.final_turn() - self.field.now_turn();
        let turn: usize = if left < TURN {
            left as usize
        } else {
            TURN as usize
        };
        let mut dp: Vec<Vec<Vec<Option<DpCell>>>> = Vec::new();
        let mut t: usize = 0;
        while t <= turn
            invariant
                turn <= TURN,
                t <= turn + 1,
                width == fv.width(),
                height == fv.height(),
                dp.len() == t,
                forall|a: int| 0 <= a < t ==> (#[trigger] dp[a]).len() == width,
                forall|a: int, x: int|
                    0 <= a < t && 0 <= x < width ==> (#[trigger] dp[a][x]).len() == height,
                forall|a: int, x: int, y: int|
                    0 <= a < t && 0 <= x < width && 0 <= y < height ==> cell_view(
                        #[trigger] dp[a][x][y],
                    ) == start_cell(a),
            decreases turn + 1 - t,
        {
            let mut layer: Vec<Vec<Option<DpCell>>> = Vec::new();
            let mut x: usize = 0;
            while x < width
                invariant
                    x <= width,
                    layer.len() == x,
                    forall|a: int| 0 <= a < x ==> (#[trigger] layer[a]).len() == height,
                    forall|a: int, b: int|
                        0 <= a < x && 0 <= b < height ==> cell_view(#[trigger] layer[a][b])
                            == start_cell(t as int),
                decreases width - x,
            {
                let mut col: Vec<Option<DpCell>> = Vec::new();
                let mut y: usize = 0;
                while y < height
                    invariant
                        y <= height,
                        col.len() == y,
                        forall|b: int|
                            0 <= b < y ==> cell_view(#[trigger] col[b]) == start_cell(t as int),
                    decreases height - y,
                {
                    if t == 0 {
                        let used: Vec<Point> = Vec::new();
                        assert(used@ =~= Seq::empty());
                        col.push(Some(DpCell { score: 0, used, prev_pos: None, prev_turn: None }));
                    } else {
                        col.push(None);
                    }
                    y += 1;
                }
                layer.push(col);
                x += 1;
            }
            dp.push(layer);
            t += 1;
        }
        let ghost start = start_layers(fv, turn as int);
        proof {
            assert(layers_of(dp) =~~= start);
            assert(layers_ok(fv, start, turn as int, false));
        }
        let mut t: usize = 0;
        while t < turn
            invariant
                self.field == old(self).field,
                self.side == old(self).side,
                self.field.wf(),
                fv == self.field@,
                side == self.side,
                width == fv.width(),
                height == fv.height(),
                turn <= TURN,
                t <= turn,
                layers_ok(fv, layers_of(dp), turn as int, false),
                layers_of(dp) == spread_layers(fv, side, start, turn as int, t as int),
            decreases turn - t,
        {
            let worth = fade_at(t);
            let ghost base_t = layers_of(dp);
            let mut x: usize = 0;
            while x < width
                invariant
                    self.field == old(self).field,
                    self.side == old(self).side,
                    self.field.wf(),
                    fv == self.field@,
                    side == self.side,
                    width == fv.width(),
                    height == fv.height(),
                    turn <= TURN,
                    t < turn,
                    worth == fade(t as nat),
                    x <= width,
                    layers_ok(fv, layers_of(dp), turn as int, false),
                    layers_of(dp) == spread_board(fv, side, base_t, t as int, turn as int, x as int),
                decreases width - x,
            {
                let ghost base_x = layers_of(dp);
                let mut y: usize = 0;
                while y < height
                    invariant
                        self.field == old(self).field,
                        self.side == old(self).side,
                        self.field.wf(),
                        fv == self.field@,
                        side == self.side,
                        width == fv.width(),
                        height == fv.height(),
                        turn <= TURN,
                        t < turn,
                        worth == fade(t as nat),
                        x < width,
                        y <= height,
                        layers_ok(fv, layers_of(dp), turn as int, false),
                        layers_of(dp) == spread_column(
                            fv,
                            side,
                            base_x,
                            t as int,
                            turn as int,
                            x as int,
                            y as int,
                        ),
                    decreases height - y,
                {
                    self.spread(&mut dp, t, turn, x, y, worth);
                    y += 1;
                }
                x += 1;
            }
            t += 1;
        }
        let ghost spread = layers_of(dp);
        proof {
            lemma_layers_lifted(fv, layers_of(dp), turn as int);
        }
        let mut t: usize = turn;
        while t > 1
            invariant
                fv == self.field@,
                fv.wf(),
                self.field == old(self).field,
                self.side == old(self).side,
                width == fv.width(),
                height == fv.height(),
                turn <= TURN,
                t <= turn,
                turn >= 1 ==> t >= 1,
                layers_ok(fv, layers_of(dp), turn as int, true),
                layers_of(dp) == lift_layers(fv, spread, turn as int, turn - t),
            decreases t,
        {
            t -= 1;
            let ghost base_t = layers_of(dp);
            let mut x: usize = 0;
            while x < width
                invariant
                    fv == self.field@,
                    fv.wf(),
                    width == fv.width(),
                    height == fv.height(),
                    turn <= TURN,
                    1 <= t < turn,
                    x <= width,
                    layers_ok(fv, layers_of(dp), turn as int, true),
                    layers_of(dp) == lift_board(fv, base_t, t as int, x as int),
                decreases width - x,
            {
                let ghost base_x = layers_of(dp);
                let mut y: usize = 0;
                while y < height
                    invariant
                        fv == self.field@,
                        fv.wf(),
                        width == fv.width(),
                        height == fv.height(),
                        turn <= TURN,
                        1 <= t < turn,
                        x < width,
                        y <= height,
                        layers_ok(fv, layers_of(dp), turn as int, true),
                        layers_of(dp) == lift_column(base_x, t as int, x as int, y as int),
                    decreases height - y,
                {
                    lift(&mut dp, Ghost(fv), t, turn, x, y);
                    y += 1;
                }
                x += 1;
            }
        }
        proof {
            assert(turn == horizon(fv));
            assert(layers_of(dp) == tile_layers(fv, side));
        }
        let mut data: Vec<Vec<Option<i64>>> = Vec::new();
        let mut x: usize = 0;
        while x < width
            invariant
                width == fv.width(),
                height == fv.height(),
                turn <= TURN,
                dp.len() == turn + 1,
                layers_ok(fv, layers_of(dp), turn as int, true),
                layers_of(dp) == tile_layers(fv, side),
                x <= width,
                data.len() == x,
                forall|a: int| 0 <= a < x ==> (#[trigger] data[a]).len() == height,
                forall|a: int, b: int|
                    0 <= a < x && 0 <= b < height ==> (#[trigger] data[a][b]) is Some && data[a][b]->0
                        == tile_value(fv, side, a, b) && 0 <= data[a][b]->0 <= DP_MAX,
            decreases width - x,
        {
            let mut col: Vec<Option<i64>> = Vec::new();
            let mut y: usize = 0;
            while y < height
                invariant
                    width == fv.width(),
                    height == fv.height(),
                    turn <= TURN,
                    dp.len() == turn + 1,
                    layers_ok(fv, layers_of(dp), turn as int, true),
                    layers_of(dp) == tile_layers(fv, side),
                    x < width,
                    y <= height,
                    col.len() == y,
                    forall|b: int|
                        0 <= b < y ==> (#[trigger] col[b]) is Some && col[b]->0 == tile_value(
                            fv,
                            side,
                            x as int,
                            b,
                        ) && 0 <= col[b]->0 <= DP_MAX,
                decreases height - y,
            {
                proof {
                    let v = layers_of(dp);
                    assert(v[0].len() == fv.width());
                    assert(v[0][x as int].len() == fv.height());
                    assert(v[0][x as int][y as int] == cell_view(dp[0][x as int][y as int]));
                    if v[0][x as int][y as int] is Some {
                        assert(cell_ok(fv, v, 0, v[0][x as int][y as int]->0, true));
                    }
                }
                let v = match &dp[0][x][y] {
                    Some(cell) => cell.score,
                    None => 0,
                };
                col.push(Some(v));
                y += 1;
            }
            data.push(col);
            x += 1;
        }
        self.data = data;
    }

    /// Continues the best way to tile `(x, y)` in `t` turns, if there is
    /// one, by a step onto each neighbouring tile, and keeps the longer
    /// way where it is the best to its end so far.
    fn spread(
        &self,
        dp: &mut Vec<Vec<Vec<Option<DpCell>>>>,
        t: usize,
        turn: usize,
        x: usize,
        y: usize,
        worth: i64,
    )
        requires
            self.field.wf(),
            turn <= TURN,
            t < turn,
            x < self.field@.width(),
            y < self.field@.height(),
            worth == fade(t as nat),
            layers_ok(self.field@, layers_of(*old(dp)), turn as int, false),
        ensures
            layers_ok(self.field@, layers_of(*final(dp)), turn as int, false),
            layers_of(*final(dp)) == spread_cell(
                self.field@,
                self.side,
                layers_of(*old(dp)),
                t as int,
                turn as int,
                Point { x: x as i8, y: y as i8 },
            ),
    {
        let ghost fv = self.field@;
        let ghost v0 = layers_of(*dp);
        proof {
            lemma_fade_bounds(t as nat);
            assert(v0[t as int].len() == fv.width());
            assert(v0[t as int][x as int].len() == fv.height());
            assert(v0[t as int][x as int][y as int] == cell_view(dp[t as int][x as int][y as int]));
        }
        let (score, used) = match &dp[t][x][y] {
            Some(cell) => (cell.score, copy_points(&cell.used)),
            None => {
                return ;
            },
        };
        let ghost from = v0[t as int][x as int][y as int]->0;
        proof {
            assert(cell_ok(fv, v0, t as int, from, false));
        }
        let pos = Point { x: x as i8, y: y as i8 };
        let around = make_neighbors(pos, self.field);
        let mut q: usize = 0;
        while q < around.len()
            invariant
                self.field.wf(),
                fv == self.field@,
                turn <= TURN,
                t < turn,
                x < fv.width(),
                y < fv.height(),
                pos == (Point { x: x as i8, y: y as i8 }),
                worth == fade(t as nat),
                0 <= worth <= DP_UNIT,
                -t * 4_000_000_000 <= score <= t * 4_000_000_000,
                score == from.score,
                used@ == from.used,
                layers_of(*dp)[t as int][x as int][y as int] is Some,
                q <= around.len(),
                around@ == neighbors(fv, pos),
                forall|j: int| 0 <= j < around.len() ==> fv.inside(#[trigger] around[j]),
                layers_ok(fv, layers_of(*dp), turn as int, false),
                layers_of(*dp) == spread_upto(
                    fv,
                    self.side,
                    v0,
                    t as int,
                    turn as int,
                    pos,
                    from,
                    q as int,
                ),
            decreases around.len() - q,
        {
            let nex = around[q];
            let tile = self.field.tile(nex.usize());
            let removal = match tile.state() {
                State::Wall(owner) => owner != self.side,
                _ => false,
            };
            let act = if removal {
                Act::RemoveAct(nex)
            } else {
                Act::MoveAct(nex)
            };
            match self.calc_base(&used, &nex, &act) {
                Some(base) => {
                    let long = removal && t != turn - 1;
                    assert(-256 * DP_UNIT <= base * worth <= 256 * DP_UNIT) by (nonlinear_arith)
                        requires
                            -256 <= base <= 254,
                            0 <= worth <= DP_UNIT,
                    ;
                    let plain: i64 = base * worth;
                    let gain: i64 = if !long {
                        plain
                    } else if plain >= 0 {
                        plain * 13 / 10
                    } else {
                        -((-plain) * 13 / 10)
                    };
                    let nex_turn = if long {
                        t + 2
                    } else {
                        t + 1
                    };
                    let nex_score = score + gain;
                    let mut nex_used = copy_points(&used);
                    nex_used.push(nex);
                    let cell = DpCell {
                        score: nex_score,
                        used: nex_used,
                        prev_pos: Some(pos),
                        prev_turn: Some(t),
                    };
                    keep_better(dp, Ghost(fv), nex_turn, turn, nex, cell, false);
                },
                None => {},
            }
            q += 1;
        }
    }
}

/// What holds of ways before their values are handed back holds after.
pub proof fn lemma_layers_lifted(fv: FieldView, dp: Seq<Seq<Seq<Option<Kept>>>>, turn: int)
    requires
        turn <= TURN,
        layers_ok(fv, dp, turn, false),
    ensures
        layers_ok(fv, dp, turn, true),
{
    assert forall|t: int, x: int, y: int|
        0 <= t <= turn && 0 <= x < fv.width() && 0 <= y < fv.height() && (#[trigger] dp[t][x][y])
            is Some implies cell_ok(fv, dp, t, dp[t][x][y]->0, true) by {
        assert(cell_ok(fv, dp, t, dp[t][x][y]->0, false));
    }
}

impl<'a> Solver<'a> for SimpleDp<'a> {
    open spec fn spec_field(&self) -> FieldView {
        self.field@
    }

    open spec fn spec_side(&self) -> bool {
        self.side
    }

    open spec fn inv(&self) -> bool {
        self.field.wf()
    }

    /// There are not too many agents and candidates, and by the values of
    /// the tiles the candidates that have a value allow every agent a tile
    /// of its own.
    open spec fn solvable(&self) -> bool {
        &&& self.field@.agent_count() <= MAX_ASSIGN
        &&& forall|v: SimpleDp<'a>| #[trigger]
            v.valued() && v.field == self.field && v.side == self.side ==> candidate_count(
                value_maps(self.field@, self.side, v),
                self.field@.agent_count(),
            ) <= MAX_ASSIGN && exists|choice: Seq<int>| #[trigger]
                is_assignment(self.field@, self.side, value_maps(self.field@, self.side, v), choice)
    }

    /// The actions are a best assignment of the candidates by the values
    /// of the tiles.
    open spec fn solution(&self, acts: Seq<Act>) -> bool {
        exists|v: SimpleDp<'a>, choice: Seq<int>|
            v.valued() && v.field == self.field && v.side == self.side && #[trigger] is_best(
                self.field@,
                self.side,
                value_maps(self.field@, self.side, v),
                choice,
            ) && acts == acts_of(value_maps(self.field@, self.side, v), choice)
    }

    /// A solver that has not valued the tiles yet.
    fn new(side: bool, field: &'a Field) -> (solver: SimpleDp<'a>)
        ensures
            solver.field == field,
            solver.side == side,
            solver.data.len() == 0,
    {
        SimpleDp { field, side, data: Vec::new() }
    }

    /// The tiles have been valued.
    open spec fn solved(&self) -> bool {
        self.valued()
    }

    fn field(&self) -> (field: &Field) {
        self.field
    }

    fn side(&self) -> (side: bool) {
        self.side
    }

    /// Values the tiles and assigns the agents by those values.
    fn solve(&mut self) -> (acts: Vec<Act>) {
        self.calc_dp();
        let acts = solve_with(self.side, self.field, &*self);
        proof {
            let choice = choose|choice: Seq<int>| #[trigger]
                is_best(self.field@, self.side, value_maps(self.field@, self.side, *self), choice)
                    && acts@ == acts_of(value_maps(self.field@, self.side, *self), choice);
            assert(self.valued() && is_best(
                self.field@,
                self.side,
                value_maps(self.field@, self.side, *self),
                choice,
            ));
        }
        acts
    }
}

impl<'a> EachEvalSolver for SimpleDp<'a> {
    /// Staying is worth nothing. Entering a tile is worth the value of the
    /// tile, unless a wall of the other side stands on it; removing such a
    /// wall is worth the value of its tile. Anything else has no value.
    open spec fn spec_eval(&self, id: int, act: Act) -> Option<i64> {
        match act {
            Act::StayAct => Some(0i64),
            Act::PutAct(pos) | Act::MoveAct(pos) => if !self.field@.inside(pos)
                || self.field@.tile_at(pos).state == State::Wall(!self.side) {
                None
            } else {
                self.value_at(pos)
            },
            Act::RemoveAct(pos) => if self.field@.inside(pos) && self.field@.tile_at(pos).state
                == State::Wall(!self.side) {
                self.value_at(pos)
            } else {
                None
            },
        }
    }

    open spec fn can_eval(&self) -> bool {
        self.field.wf()
    }

    fn eval(&self, _id: usize, act: Act) -> (value: Option<i64>) {
        match act {
            Act::StayAct => Some(0),
            Act::PutAct(pos) | Act::MoveAct(pos) => {
                if !self.field.inside(pos) {
                    return None;
                }
                match self.field.tile(pos.usize()).state() {
                    State::Wall(owner) => if owner != self.side {
                        None
                    } else {
                        self.lookup(pos)
                    },
                    _ => self.lookup(pos),
                }
            },
            Act::RemoveAct(pos) => {
                if !self.field.inside(pos) {
                    return None;
                }
                match self.field.tile(pos.usize()).state() {
                    State::Wall(owner) => if owner != self.side {
                        self.lookup(pos)
                    } else {
                        None
                    },
                    _ => None,
                }
            },
        }
    }
}

impl<'a> SimpleDp<'a> {
    /// The value of tile `pos`, if it has one.
    pub fn lookup(&self, pos: Point) -> (value: Option<i64>)
        ensures
            value == self.value_at(pos),
    {
        if pos.x < 0 || pos.y < 0 || pos.x as usize >= self.data.len() {
            return None;
        }
        if pos.y as usize >= self.data[pos.x as usize].len() {
            return None;
        }
        self.data[pos.x as usize][pos.y as usize]
    }
}

/// Puts `cell` on tile `at` of layer `t` if the tile has no cell there or
/// one of a smaller value.
fn keep_better(
    dp: &mut Vec<Vec<Vec<Option<DpCell>>>>,
    Ghost(fv): Ghost<FieldView>,
    t: usize,
    turn: usize,
    at: Point,
    cell: DpCell,
    lifted: bool,
)
    requires
        fv.wf(),
        1 <= t <= turn <= TURN,
        fv.inside(at),
        layers_ok(fv, layers_of(*old(dp)), turn as int, lifted),
        cell_ok(fv, layers_of(*old(dp)), t as int, cell@, lifted),
    ensures
        layers_ok(fv, layers_of(*final(dp)), turn as int, lifted),
        layers_of(*final(dp)) == kept_better(layers_of(*old(dp)), t as int, at, cell@),
{
    let ghost v0 = layers_of(*dp);
    let ax = at.x as usize;
    let ay = at.y as usize;
    proof {
        assert(v0[t as int].len() == fv.width());
        assert(v0[t as int][ax as int].len() == fv.height());
        assert(v0[t as int][ax as int][ay as int] == cell_view(dp[t as int][ax as int][ay as int]));
    }
    let better = match &dp[t][ax][ay] {
        Some(there) => there.score < cell.score,
        None => true,
    };
    if better {
        let ghost kept = cell@;
        dp[t][ax][ay] = Some(cell);
        proof {
            lemma_put_ok(fv, v0, turn as int, t as int, at, kept, lifted);
            lemma_put_view(*old(dp), *dp, fv, turn as int, t as int, at, kept);
        }
    }
}

/// Putting a cell into the layers puts what it holds into their view.
proof fn lemma_put_view(
    before: Vec<Vec<Vec<Option<DpCell>>>>,
    after: Vec<Vec<Vec<Option<DpCell>>>>,
    fv: FieldView,
    turn: int,
    t: int,
    at: Point,
    cell: Kept,
)
    requires
        fv.wf(),
        0 <= t <= turn,
        fv.inside(at),
        layers_of(before).len() == turn + 1,
        forall|a: int| 0 <= a <= turn ==> (#[trigger] layers_of(before)[a]).len() == fv.width(),
        forall|a: int, x: int|
            0 <= a <= turn && 0 <= x < fv.width() ==> (#[trigger] layers_of(before)[a][x]).len()
                == fv.height(),
        after.len() == before.len(),
        forall|a: int| 0 <= a <= turn ==> (#[trigger] after[a]).len() == before[a].len(),
        forall|a: int, x: int|
            0 <= a <= turn && 0 <= x < fv.width() ==> (#[trigger] after[a][x]).len()
                == before[a][x].len(),
        forall|a: int, x: int, y: int|
            0 <= a <= turn && 0 <= x < fv.width() && 0 <= y < fv.height() ==> cell_view(
                #[trigger] after[a][x][y],
            ) == (if a == t && x == at.x && y == at.y {
                Some(cell)
            } else {
                cell_view(before[a][x][y])
            }),
    ensures
        layers_of(after) == put_cell(layers_of(before), t, at, cell),
{
    let v0 = layers_of(before);
    let v1 = layers_of(after);
    let w = put_cell(v0, t, at, cell);
    assert(v1.len() == w.len());
    assert forall|a: int| 0 <= a < v1.len() implies v1[a] == w[a] by {
        assert(v0[a].len() == fv.width());
        assert(before[a].len() == fv.width());
        assert(v1[a].len() == w[a].len());
        assert forall|x: int| 0 <= x < v1[a].len() implies v1[a][x] == w[a][x] by {
            assert(v0[a][x].len() == fv.height());
            assert(before[a][x].len() == fv.height());
            assert(after[a][x].len() == fv.height());
            assert(v1[a][x].len() == w[a][x].len());
            assert forall|y: int| 0 <= y < v1[a][x].len() implies v1[a][x][y] == w[a][x][y] by {
                assert(v1[a][x][y] == cell_view(after[a][x][y]));
                assert(v0[a][x][y] == cell_view(before[a][x][y]));
            }
            assert(v1[a][x] =~= w[a][x]);
        }
        assert(v1[a] =~= w[a]);
    }
    assert(v1 =~= w);
}

/// Lets the way that tile `(x, y)` of layer `t` came from take over its
/// value, if that is the larger one.
fn lift(
    dp: &mut Vec<Vec<Vec<Option<DpCell>>>>,
    Ghost(fv): Ghost<FieldView>,
    t: usize,
    turn: usize,
    x: usize,
    y: usize,
)
    requires
        fv.wf(),
        1 <= t < turn <= TURN,
        x < fv.width(),
        y < fv.height(),
        layers_ok(fv, layers_of(*old(dp)), turn as int, true),
    ensures
        layers_ok(fv, layers_of(*final(dp)), turn as int, true),
        layers_of(*final(dp)) == lifted_cell(
            layers_of(*old(dp)),
            t as int,
            Point { x: x as i8, y: y as i8 },
        ),
{
    let ghost v0 = layers_of(*dp);
    proof {
        assert(v0[t as int].len() == fv.width());
        assert(v0[t as int][x as int].len() == fv.height());
        assert(v0[t as int][x as int][y as int] == cell_view(dp[t as int][x as int][y as int]));
    }
    let (score, pt, pp) = match &dp[t][x][y] {
        Some(cell) => {
            proof {
                assert(cell_ok(fv, v0, t as int, v0[t as int][x as int][y as int]->0, true));
            }
            match (cell.prev_turn, cell.prev_pos) {
                (Some(pt), Some(pp)) => (cell.score, pt, pp),
                _ => {
                    return ;
                },
            }
        },
        None => {
            return ;
        },
    };
    let px = pp.x as usize;
    let py = pp.y as usize;
    proof {
        assert(v0[pt as int].len() == fv.width());
        assert(v0[pt as int][px as int].len() == fv.height());
        assert(v0[pt as int][px as int][py as int] == cell_view(dp[pt as int][px as int][py as int]));
        assert(cell_ok(fv, v0, pt as int, v0[pt as int][px as int][py as int]->0, true));
    }
    let found = match &dp[pt][px][py] {
        Some(parent) => if parent.score < score {
            Some((copy_points(&parent.used), parent.prev_pos, parent.prev_turn))
        } else {
            None
        },
        None => None,
    };
    match found {
        Some((used, prev_pos, prev_turn)) => {
            let new_cell = DpCell { score, used, prev_pos, prev_turn };
            let ghost kept = new_cell@;
            let ghost parent = v0[pt as int][px as int][py as int]->0;
            proof {
                assert(kept == (Kept {
                    score: score as int,
                    used: parent.used,
                    prev_pos: parent.prev_pos,
                    prev_turn: parent.prev_turn,
                }));
                assert(cell_ok(fv, v0, pt as int, kept, true));
            }
            dp[pt][px][py] = Some(new_cell);
            proof {
                lemma_put_ok(fv, v0, turn as int, pt as int, pp, kept, true);
                lemma_put_view(*old(dp), *dp, fv, turn as int, pt as int, pp, kept);
            }
        },
        None => {},
    }
}

} // verus!
