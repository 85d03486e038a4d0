//! The board: tiles with an owner state and a point value, the agents of the
//! two sides, the turn counter and the score of each side.
use crate::api::parse::TeamData;
use crate::random::{draw_range, draw_ratio};
use rand::rngs::StdRng;
use crate::region::{flood, region_table};
use vstd::prelude::*;
use vstd::std_specs::ops::AddSpecImpl;

verus! {

/// A signed grid coordinate. Negative components lie off the board.
#[derive(Copy, Clone, PartialEq, Eq, Hash, Debug, Structural)]
pub struct Point {
    pub x: i8,
    pub y: i8,
}

/// An unsigned grid coordinate, used to index tiles.
#[derive(Copy, Clone, PartialEq, Eq, Hash, Debug, Structural)]
pub struct PointUsize {
    pub x: usize,
    pub y: usize,
}

/// Absolute value on mathematical integers.
pub open spec fn abs(v: int) -> int {
    if v < 0 {
        -v
    } else {
        v
    }
}

impl Point {
    pub fn new(x: i8, y: i8) -> (p: Point)
        ensures
            p.x == x,
            p.y == y,
    {
        Point { x, y }
    }

    /// The same coordinate as an index pair. A negative component wraps
    /// around, as the cast does.
    pub fn usize(&self) -> (p: PointUsize)
        ensures
            p.x == self.x as usize,
            p.y == self.y as usize,
    {
        PointUsize { x: self.x as usize, y: self.y as usize }
    }

    /// Chebyshev distance at most one.
    pub open spec fn spec_neighbor(self, other: Point) -> bool {
        abs(self.x - other.x) <= 1 && abs(self.y - other.y) <= 1
    }

    /// Whether `other` is this point or one of the eight around it.
    pub fn neighbor(&self, other: Point) -> (b: bool)
        ensures
            b == self.spec_neighbor(other),
    {
        let dx: i16 = self.x as i16 - other.x as i16;
        let dy: i16 = self.y as i16 - other.y as i16;
        -1 <= dx && dx <= 1 && -1 <= dy && dy <= 1
    }
}

impl core::ops::Add for Point {
    type Output = Point;

    fn add(self, other: Point) -> (r: Point) {
        Point { x: self.x + other.x, y: self.y + other.y }
    }
}

impl AddSpecImpl for Point {
    open spec fn obeys_add_spec() -> bool {
        true
    }

    open spec fn add_req(self, other: Point) -> bool {
        i8::MIN <= self.x + other.x <= i8::MAX && i8::MIN <= self.y + other.y <= i8::MAX
    }

    open spec fn add_spec(self, other: Point) -> Point {
        Point { x: (self.x + other.x) as i8, y: (self.y + other.y) as i8 }
    }
}

impl PointUsize {
    pub fn new(x: usize, y: usize) -> (p: PointUsize)
        ensures
            p.x == x,
            p.y == y,
    {
        PointUsize { x, y }
    }

    /// The same coordinate as a signed point. A component above `i8::MAX`
    /// is truncated, as the cast does.
    pub fn normal(&self) -> (p: Point)
        ensures
            p.x == self.x as i8,
            p.y == self.y as i8,
    {
        Point { x: self.x as i8, y: self.y as i8 }
    }
}

/// The points a side holds: from its walls and from the regions it encloses.
#[derive(Copy, Clone, PartialEq, Eq, Debug, Structural)]
pub struct Score {
    pub tile: i16,
    pub region: i16,
}

impl Score {
    pub fn tile(&self) -> (v: i16)
        ensures
            v == self.tile,
    {
        self.tile
    }

    pub fn region(&self) -> (v: i16)
        ensures
            v == self.region,
    {
        self.region
    }

    /// Wall points plus region points.
    pub fn sum(&self) -> (v: i16)
        requires
            i16::MIN <= self.tile + self.region <= i16::MAX,
        ensures
            v == self.tile + self.region,
    {
        self.tile + self.region
    }
}

/// Who owns a tile. The `bool` names the side.
#[derive(Copy, Clone, PartialEq, Eq, Debug, Structural)]
pub enum State {
    Neutral,
    Position(bool),
    Wall(bool),
}

impl State {
    pub fn is_wall(&self) -> (b: bool)
        ensures
            b == (*self is Wall),
    {
        match self {
            State::Wall(_) => true,
            _ => false,
        }
    }

    pub fn is_position(&self) -> (b: bool)
        ensures
            b == (*self is Position),
    {
        match self {
            State::Position(_) => true,
            _ => false,
        }
    }
}

/// One square of the board.
#[derive(Copy, Clone, PartialEq, Eq, Debug, Structural)]
pub struct Tile {
    pub state: State,
    pub point: i8,
}

impl Tile {
    pub fn state(&self) -> (s: State)
        ensures
            s == self.state,
    {
        self.state
    }

    pub fn point(&self) -> (p: i8)
        ensures
            p == self.point,
    {
        self.point
    }
}

/// What a tile adds to the wall points of `side`.
pub open spec fn wall_gain(t: Tile, side: bool) -> int {
    if t.state == State::Wall(side) {
        t.point as int
    } else {
        0
    }
}

/// What a tile adds to the region points of `side`.
pub open spec fn region_gain(t: Tile, side: bool) -> int {
    if t.state == State::Position(side) {
        abs(t.point as int)
    } else {
        0
    }
}

/// The per-tile contribution to one of the two parts of a side's score.
pub open spec fn gain(side: bool, region: bool) -> spec_fn(Tile) -> int {
    |t: Tile|
        if region {
            region_gain(t, side)
        } else {
            wall_gain(t, side)
        }
}

/// The magnitude of a tile's point value.
pub open spec fn weight() -> spec_fn(Tile) -> int {
    |t: Tile| abs(t.point as int)
}

/// The sum of `f` over the first `n` tiles of a column.
pub open spec fn column_sum<T>(col: Seq<T>, f: spec_fn(T) -> int, n: int) -> int
    decreases n,
{
    if n <= 0 {
        0
    } else {
        column_sum(col, f, n - 1) + f(col[n - 1])
    }
}

/// The sum of `f` over all tiles of the first `n` columns.
pub open spec fn grid_sum<T>(tiles: Seq<Seq<T>>, f: spec_fn(T) -> int, n: int) -> int
    decreases n,
{
    if n <= 0 {
        0
    } else {
        grid_sum(tiles, f, n - 1) + column_sum(tiles[n - 1], f, tiles[n - 1].len() as int)
    }
}

/// The sum of `f` over the whole board.
pub open spec fn board_sum<T>(tiles: Seq<Seq<T>>, f: spec_fn(T) -> int) -> int {
    grid_sum(tiles, f, tiles.len() as int)
}

/// Every column has the height of the first one.
pub open spec fn rectangular<T>(tiles: Seq<Seq<T>>) -> bool {
    forall|x: int| 0 <= x < tiles.len() ==> (#[trigger] tiles[x]).len() == tiles[0].len()
}

/// Two boards of one shape whose tiles carry the same point values.
pub open spec fn same_points(a: Seq<Seq<Tile>>, b: Seq<Seq<Tile>>) -> bool {
    &&& a.len() == b.len()
    &&& forall|x: int| 0 <= x < a.len() ==> (#[trigger] a[x]).len() == b[x].len()
    &&& forall|x: int, y: int|
        0 <= x < a.len() && 0 <= y < a[x].len() ==> (#[trigger] a[x][y]).point == b[x][y].point
}

pub proof fn lemma_column_sum_nonnegative(col: Seq<Tile>, n: int)
    requires
        0 <= n <= col.len(),
    ensures
        0 <= column_sum(col, weight(), n),
    decreases n,
{
    if n > 0 {
        lemma_column_sum_nonnegative(col, n - 1);
    }
}

pub proof fn lemma_column_sum_monotone(col: Seq<Tile>, m: int, n: int)
    requires
        0 <= m <= n <= col.len(),
    ensures
        0 <= column_sum(col, weight(), m) <= column_sum(col, weight(), n),
    decreases n - m,
{
    lemma_column_sum_nonnegative(col, m);
    if m < n {
        lemma_column_sum_monotone(col, m, n - 1);
    }
}

pub proof fn lemma_grid_sum_monotone(tiles: Seq<Seq<Tile>>, m: int, n: int)
    requires
        0 <= m <= n <= tiles.len(),
    ensures
        0 <= grid_sum(tiles, weight(), m) <= grid_sum(tiles, weight(), n),
    decreases n,
{
    if n > 0 {
        lemma_column_sum_nonnegative(tiles[n - 1], tiles[n - 1].len() as int);
        if m < n {
            lemma_grid_sum_monotone(tiles, m, n - 1);
        } else {
            lemma_grid_sum_monotone(tiles, m - 1, n - 1);
        }
    }
}

/// The weight of any prefix in reading order is at most the weight of the board.
pub proof fn lemma_prefix_weight(tiles: Seq<Seq<Tile>>, x: int, y: int)
    requires
        0 <= x < tiles.len(),
        0 <= y <= tiles[x].len(),
    ensures
        0 <= grid_sum(tiles, weight(), x) + column_sum(tiles[x], weight(), y) <= board_sum(
            tiles,
            weight(),
        ),
{
    lemma_column_sum_monotone(tiles[x], y, tiles[x].len() as int);
    lemma_column_sum_nonnegative(tiles[x], y);
    lemma_grid_sum_monotone(tiles, 0, x);
    lemma_grid_sum_monotone(tiles, x + 1, tiles.len() as int);
}

pub proof fn lemma_column_sum_same_points(a: Seq<Tile>, b: Seq<Tile>, n: int)
    requires
        0 <= n <= a.len(),
        a.len() == b.len(),
        forall|y: int| 0 <= y < a.len() ==> (#[trigger] a[y]).point == b[y].point,
    ensures
        column_sum(a, weight(), n) == column_sum(b, weight(), n),
    decreases n,
{
    if n > 0 {
        lemma_column_sum_same_points(a, b, n - 1);
    }
}

pub proof fn lemma_grid_sum_same_points(a: Seq<Seq<Tile>>, b: Seq<Seq<Tile>>, n: int)
    requires
        0 <= n <= a.len(),
        same_points(a, b),
    ensures
        grid_sum(a, weight(), n) == grid_sum(b, weight(), n),
    decreases n,
{
    if n > 0 {
        lemma_grid_sum_same_points(a, b, n - 1);
        assert forall|y: int| 0 <= y < a[n - 1].len() implies (#[trigger] a[n - 1][y]).point
            == b[n - 1][y].point by {}
        lemma_column_sum_same_points(a[n - 1], b[n - 1], a[n - 1].len() as int);
    }
}

/// Replacing one entry changes a column's sum by the difference at that entry.
pub proof fn lemma_column_sum_update<T>(col: Seq<T>, f: spec_fn(T) -> int, y: int, v: T, n: int)
    requires
        0 <= y < col.len(),
        0 <= n <= col.len(),
    ensures
        column_sum(col.update(y, v), f, n) == column_sum(col, f, n) + if y < n {
            f(v) - f(col[y])
        } else {
            0
        },
    decreases n,
{
    if n > 0 {
        lemma_column_sum_update(col, f, y, v, n - 1);
    }
}

/// Replacing one entry changes a grid's sum by the difference at that entry.
pub proof fn lemma_grid_sum_update<T>(
    g: Seq<Seq<T>>,
    f: spec_fn(T) -> int,
    x: int,
    y: int,
    v: T,
    n: int,
)
    requires
        0 <= x < g.len(),
        0 <= y < g[x].len(),
        0 <= n <= g.len(),
    ensures
        grid_sum(g.update(x, g[x].update(y, v)), f, n) == grid_sum(g, f, n) + if x < n {
            f(v) - f(g[x][y])
        } else {
            0
        },
    decreases n,
{
    if n > 0 {
        lemma_grid_sum_update(g, f, x, y, v, n - 1);
        if x == n - 1 {
            lemma_column_sum_update(g[x], f, y, v, g[x].len() as int);
        }
    }
}

/// A sum of zeros and ones over a column lies between nothing and its length.
pub proof fn lemma_column_count_bounds<T>(col: Seq<T>, f: spec_fn(T) -> int, n: int)
    requires
        0 <= n <= col.len(),
        forall|y: int| 0 <= y < col.len() ==> 0 <= #[trigger] f(col[y]) <= 1,
    ensures
        0 <= column_sum(col, f, n) <= n,
        forall|y: int| 0 <= y < n && f(col[y]) == 1 ==> column_sum(col, f, n) >= 1,
    decreases n,
{
    if n > 0 {
        lemma_column_count_bounds(col, f, n - 1);
    }
}

/// A sum of zeros and ones over a grid lies between nothing and its area.
pub proof fn lemma_grid_count_bounds<T>(g: Seq<Seq<T>>, f: spec_fn(T) -> int, n: int, h: int)
    requires
        0 <= n <= g.len(),
        forall|x: int| 0 <= x < g.len() ==> (#[trigger] g[x]).len() == h,
        forall|x: int, y: int|
            0 <= x < g.len() && 0 <= y < g[x].len() ==> 0 <= #[trigger] f(g[x][y]) <= 1,
    ensures
        0 <= grid_sum(g, f, n) <= n * h,
        forall|x: int, y: int|
            0 <= x < n && 0 <= y < h && f(g[x][y]) == 1 ==> grid_sum(g, f, n) >= 1,
    decreases n,
{
    if n > 0 {
        lemma_grid_count_bounds(g, f, n - 1, h);
        assert(g[n - 1].len() == h);
        assert forall|y: int| 0 <= y < g[n - 1].len() implies 0 <= #[trigger] f(g[n - 1][y])
            <= 1 by {}
        lemma_column_count_bounds(g[n - 1], f, h);
        assert(n * h == (n - 1) * h + h) by (nonlinear_arith);
    }
}

/// The marker of a cell that no flood has reached yet.
pub open spec fn blank(unk: usize) -> spec_fn(usize) -> int {
    |c: usize|
        if c == unk {
            1int
        } else {
            0int
        }
}

/// The owner state of a tile once the enclosed areas of both sides are
/// known: a wall stays, and any other tile goes to the side whose enclosed
/// area around it is the smaller one.
pub open spec fn region_state(t: Tile, first: usize, second: usize) -> State {
    if t.state is Wall {
        t.state
    } else if first < second {
        State::Position(false)
    } else if first > second {
        State::Position(true)
    } else {
        t.state
    }
}

/// The board with every tile given its [`region_state`].
pub open spec fn with_regions(
    tiles: Seq<Seq<Tile>>,
    first: Seq<Seq<usize>>,
    second: Seq<Seq<usize>>,
) -> Seq<Seq<Tile>> {
    Seq::new(
        tiles.len(),
        |x: int|
            Seq::new(
                tiles[x].len(),
                |y: int|
                    Tile {
                        state: region_state(tiles[x][y], first[x][y], second[x][y]),
                        point: tiles[x][y].point,
                    },
            ),
    )
}

/// A sum of values between nothing and `m` over a grid is at most `m` times
/// its area.
pub proof fn lemma_grid_sum_bounded<T>(g: Seq<Seq<T>>, f: spec_fn(T) -> int, n: int, h: int, m: int)
    requires
        0 <= n <= g.len(),
        0 <= h,
        0 <= m,
        forall|x: int| 0 <= x < g.len() ==> (#[trigger] g[x]).len() == h,
        forall|x: int, y: int|
            0 <= x < g.len() && 0 <= y < g[x].len() ==> 0 <= #[trigger] f(g[x][y]) <= m,
    ensures
        0 <= grid_sum(g, f, n) <= n * h * m,
    decreases n,
{
    if n > 0 {
        lemma_grid_sum_bounded(g, f, n - 1, h, m);
        assert(g[n - 1].len() == h);
        assert forall|y: int| 0 <= y < g[n - 1].len() implies 0 <= #[trigger] f(g[n - 1][y])
            <= m by {}
        lemma_column_sum_bounded(g[n - 1], f, h, m);
        assert(n * h * m == (n - 1) * h * m + h * m) by (nonlinear_arith);
    } else {
        assert(n * h * m == 0) by (nonlinear_arith)
            requires
                n == 0,
        ;
    }
}

/// A sum of values between nothing and `m` over a column is at most `m`
/// times its length.
pub proof fn lemma_column_sum_bounded<T>(col: Seq<T>, f: spec_fn(T) -> int, n: int, m: int)
    requires
        0 <= n <= col.len(),
        0 <= m,
        forall|y: int| 0 <= y < col.len() ==> 0 <= #[trigger] f(col[y]) <= m,
    ensures
        0 <= column_sum(col, f, n) <= n * m,
    decreases n,
{
    if n > 0 {
        lemma_column_sum_bounded(col, f, n - 1, m);
        assert(n * m == (n - 1) * m + m) by (nonlinear_arith);
    }
}

/// The tiles that the walls and points of a match description give: a wall
/// of the first team, a wall of the second, or a neutral tile.
pub open spec fn described_tiles(
    width: int,
    height: int,
    first_team: u32,
    second_team: u32,
    walls: Seq<Seq<u32>>,
    points: Seq<Seq<i8>>,
) -> Seq<Seq<Tile>> {
    Seq::new(
        width as nat,
        |x: int|
            Seq::new(
                height as nat,
                |y: int|
                    Tile {
                        state: if walls[x][y] == first_team {
                            State::Wall(false)
                        } else if walls[x][y] == second_team {
                            State::Wall(true)
                        } else {
                            State::Neutral
                        },
                        point: points[x][y],
                    },
            ),
    )
}

/// The board that a match description gives before regions and scores are
/// computed.
pub open spec fn described_board(
    width: int,
    height: int,
    first_team: u32,
    second_team: u32,
    walls: Seq<Seq<u32>>,
    points: Seq<Seq<i8>>,
    agents: Seq<Seq<Option<Point>>>,
    now_turn: u8,
    final_turn: u8,
) -> FieldView {
    FieldView {
        now_turn,
        final_turn,
        tiles: described_tiles(width, height, first_team, second_team, walls, points),
        agents,
        scores: seq![Score { tile: 0, region: 0 }, Score { tile: 0, region: 0 }],
    }
}

/// The index of a side in the per-side tables.
pub open spec fn side_index(side: bool) -> int {
    if side {
        1
    } else {
        0
    }
}

/// The mathematical content of a [`Field`].
pub struct FieldView {
    pub now_turn: u8,
    pub final_turn: u8,
    pub tiles: Seq<Seq<Tile>>,
    pub agents: Seq<Seq<Option<Point>>>,
    pub scores: Seq<Score>,
}

impl FieldView {
    pub open spec fn width(self) -> int {
        self.tiles.len() as int
    }

    pub open spec fn height(self) -> int {
        self.tiles[0].len() as int
    }

    pub open spec fn agent_count(self) -> int {
        self.agents[0].len() as int
    }

    /// The position lies on the board.
    pub open spec fn inside(self, pos: Point) -> bool {
        0 <= pos.x < self.width() && 0 <= pos.y < self.height()
    }

    pub open spec fn tile_at(self, pos: Point) -> Tile {
        self.tiles[pos.x as int][pos.y as int]
    }

    pub open spec fn agent(self, side: bool, id: int) -> Option<Point> {
        self.agents[side_index(side)][id]
    }

    /// This board with the owner state of one tile replaced.
    pub open spec fn with_state(self, x: int, y: int, state: State) -> FieldView {
        FieldView {
            tiles: self.tiles.update(
                x,
                self.tiles[x].update(y, Tile { state, point: self.tiles[x][y].point }),
            ),
            ..self
        }
    }

    /// This board with one agent moved or taken off.
    pub open spec fn with_agent(self, side: bool, id: int, pos: Option<Point>) -> FieldView {
        FieldView {
            agents: self.agents.update(
                side_index(side),
                self.agents[side_index(side)].update(id, pos),
            ),
            ..self
        }
    }

    /// The score that the tiles give to `side`.
    pub open spec fn score_of(self, side: bool) -> Score {
        Score {
            tile: board_sum(self.tiles, gain(side, false)) as i16,
            region: board_sum(self.tiles, gain(side, true)) as i16,
        }
    }

    /// This board with both scores computed anew from its tiles.
    pub open spec fn rescored(self) -> FieldView {
        FieldView { scores: seq![self.score_of(false), self.score_of(true)], ..self }
    }

    /// This board with each tile that is no wall given to the side that
    /// encloses it more tightly, if there is one.
    pub open spec fn regioned(self) -> FieldView {
        FieldView {
            tiles: with_regions(
                self.tiles,
                region_table(self.tiles, false),
                region_table(self.tiles, true),
            ),
            ..self
        }
    }

    /// The shape that every board keeps: at least one column and at most 127
    /// in each direction, point values that have a magnitude, a total
    /// magnitude that a score can hold, and two equally long rows of agents.
    pub open spec fn wf(self) -> bool {
        &&& self.now_turn <= self.final_turn
        &&& 1 <= self.tiles.len() <= 127
        &&& self.tiles[0].len() <= 127
        &&& rectangular(self.tiles)
        &&& forall|x: int, y: int|
            0 <= x < self.tiles.len() && 0 <= y < self.tiles[x].len() ==> (
            #[trigger] self.tiles[x][y]).point > i8::MIN
        &&& board_sum(self.tiles, weight()) <= i16::MAX
        &&& self.agents.len() == 2
        &&& self.agents[0].len() == self.agents[1].len()
        &&& self.scores.len() == 2
    }
}

/// The board of a match.
pub struct Field {
    now_turn: u8,
    final_turn: u8,
    tiles: Vec<Vec<Tile>>,
    agents: Vec<Vec<Option<Point>>>,
    scores: Vec<Score>,
}

impl View for Field {
    type V = FieldView;

    closed spec fn view(&self) -> FieldView {
        FieldView {
            now_turn: self.now_turn,
            final_turn: self.final_turn,
            tiles: table_of(self.tiles),
            agents: table_of(self.agents),
            scores: self.scores@,
        }
    }
}

fn copy_grid<T: Copy>(src: &Vec<Vec<T>>) -> (dst: Vec<Vec<T>>)
    ensures
        table_of(dst) == table_of(*src),
{
    let mut dst: Vec<Vec<T>> = Vec::new();
    let mut x: usize = 0;
    while x < src.len()
        invariant
            x <= src.len(),
            dst.len() == x,
            forall|k: int| 0 <= k < x ==> (#[trigger] dst[k])@ == src[k]@,
        decreases src.len() - x,
    {
        let mut col: Vec<T> = Vec::new();
        let mut y: usize = 0;
        while y < src[x].len()
            invariant
                x < src.len(),
                y <= src[x as int].len(),
                col.len() == y,
                forall|k: int| 0 <= k < y ==> #[trigger] col[k] == src[x as int][k],
            decreases src[x as int].len() - y,
        {
            col.push(src[x][y]);
            y += 1;
        }
        assert(col@ =~= src[x as int]@);
        dst.push(col);
        x += 1;
    }
    assert(table_of(dst) =~= table_of(*src));
    dst
}

impl Clone for Field {
    fn clone(&self) -> (r: Field)
        ensures
            r@ == self@,
    {
        let mut scores: Vec<Score> = Vec::new();
        let mut i: usize = 0;
        while i < self.scores.len()
            invariant
                i <= self.scores.len(),
                scores.len() == i,
                forall|k: int| 0 <= k < i ==> #[trigger] scores[k] == self.scores[k],
            decreases self.scores.len() - i,
        {
            scores.push(self.scores[i]);
            i += 1;
        }
        assert(scores@ =~= self.scores@);
        Field {
            now_turn: self.now_turn,
            final_turn: self.final_turn,
            tiles: copy_grid(&self.tiles),
            agents: copy_grid(&self.agents),
            scores,
        }
    }
}

/// The view of a table of numbers.
pub open spec fn table_view(t: Vec<Vec<usize>>) -> Seq<Seq<usize>> {
    t@.map_values(|c: Vec<usize>| c@)
}

/// The view of a table of any plain values.
pub open spec fn table_of<T>(t: Vec<Vec<T>>) -> Seq<Seq<T>> {
    t@.map_values(|c: Vec<T>| c@)
}

fn side_slot(side: bool) -> (i: usize)
    ensures
        i == side_index(side),
{
    if side {
        1
    } else {
        0
    }
}

impl Field {
    pub open spec fn wf(&self) -> bool {
        self@.wf()
    }

    pub fn width(&self) -> (w: usize)
        ensures
            w == self@.width(),
    {
        self.tiles.len()
    }

    pub fn height(&self) -> (h: usize)
        requires
            self.wf(),
        ensures
            h == self@.height(),
    {
        self.tiles[0].len()
    }

    pub fn agent_count(&self) -> (n: usize)
        requires
            self.wf(),
        ensures
            n == self@.agent_count(),
    {
        self.agents[0].len()
    }

    pub fn score(&self, side: bool) -> (s: Score)
        requires
            self.wf(),
        ensures
            s == self@.scores[side_index(side)],
    {
        self.scores[side_slot(side)]
    }

    pub fn now_turn(&self) -> (t: u8)
        ensures
            t == self@.now_turn,
    {
        self.now_turn
    }

    pub fn final_turn(&self) -> (t: u8)
        ensures
            t == self@.final_turn,
    {
        self.final_turn
    }

    pub fn tile(&self, pos: PointUsize) -> (t: Tile)
        requires
            self.wf(),
            pos.x < self@.width(),
            pos.y < self@.height(),
        ensures
            t == self@.tiles[pos.x as int][pos.y as int],
    {
        self.tiles[pos.x][pos.y]
    }

    pub fn agent(&self, side: bool, id: usize) -> (p: Option<Point>)
        requires
            self.wf(),
            id < self@.agent_count(),
        ensures
            p == self@.agent(side, id as int),
    {
        self.agents[side_slot(side)][id]
    }

    /// Gives the tile at `pos` a new owner state; its point value stays.
    pub fn set_state(&mut self, pos: PointUsize, state: State)
        requires
            old(self).wf(),
            pos.x < old(self)@.width(),
            pos.y < old(self)@.height(),
        ensures
            final(self).wf(),
            final(self)@ == old(self)@.with_state(pos.x as int, pos.y as int, state),
    {
        let ghost before = self@;
        assert(self@.tiles[pos.x as int] == self.tiles[pos.x as int]@);
        self.tiles[pos.x][pos.y].state = state;
        proof {
            let after = before.with_state(pos.x as int, pos.y as int, state);
            assert(self@.tiles =~~= after.tiles);
            assert(self@.agents =~~= after.agents);
            assert(same_points(before.tiles, after.tiles));
            lemma_grid_sum_same_points(before.tiles, after.tiles, before.tiles.len() as int);
        }
    }

    /// Moves an agent to `pos`, or takes it off the board.
    pub fn set_agent(&mut self, side: bool, id: usize, pos: Option<Point>)
        requires
            old(self).wf(),
            id < old(self)@.agent_count(),
        ensures
            final(self).wf(),
            final(self)@ == old(self)@.with_agent(side, id as int, pos),
    {
        let ghost before = self@;
        let slot = side_slot(side);
        assert(self@.agents[slot as int] == self.agents[slot as int]@);
        assert(self@.agents[0] == self.agents[0]@);
        self.agents[slot][id] = pos;
        proof {
            let after = before.with_agent(side, id as int, pos);
            assert(self@.tiles =~~= after.tiles);
            assert(self@.agents =~~= after.agents);
        }
    }

    /// Advances the turn counter by one.
    pub fn update_turn(&mut self)
        requires
            old(self).wf(),
            old(self)@.now_turn != old(self)@.final_turn,
        ensures
            final(self).wf(),
            final(self)@ == (FieldView { now_turn: (old(self)@.now_turn + 1) as u8, ..old(self)@ }),
    {
        self.now_turn += 1;
    }

    /// One part of the score of `side`: its wall points, or with `region`
    /// its region points.
    fn total(&self, side: bool, region: bool) -> (acc: i16)
        requires
            self.wf(),
        ensures
            acc == board_sum(self@.tiles, gain(side, region)),
    {
        let ghost tiles = self@.tiles;
        let ghost f = gain(side, region);
        let mut acc: i16 = 0;
        let mut x: usize = 0;
        while x < self.tiles.len()
            invariant
                self.wf(),
                tiles == self@.tiles,
                f == gain(side, region),
                x <= tiles.len(),
                acc == grid_sum(tiles, f, x as int),
                abs(acc as int) <= grid_sum(tiles, weight(), x as int),
            decreases tiles.len() - x,
        {
            assert(tiles[x as int] == self.tiles[x as int]@);
            let mut y: usize = 0;
            while y < self.tiles[x].len()
                invariant
                    self.wf(),
                    tiles == self@.tiles,
                    f == gain(side, region),
                    x < tiles.len(),
                    tiles[x as int] == self.tiles[x as int]@,
                    y <= tiles[x as int].len(),
                    acc == grid_sum(tiles, f, x as int) + column_sum(tiles[x as int], f, y as int),
                    abs(acc as int) <= grid_sum(tiles, weight(), x as int) + column_sum(
                        tiles[x as int],
                        weight(),
                        y as int,
                    ),
                decreases tiles[x as int].len() - y,
            {
                let tile = self.tiles[x][y];
                proof {
                    lemma_prefix_weight(tiles, x as int, y as int + 1);
                    assert(tile == tiles[x as int][y as int]);
                    assert(tile.point > i8::MIN);
                }
                let point: i16 = tile.point as i16;
                match tile.state {
                    State::Wall(s) => {
                        if !region && s == side {
                            acc = acc + point;
                        }
                    },
                    State::Position(s) => {
                        if region && s == side {
                            acc = acc + if point < 0 {
                                -point
                            } else {
                                point
                            };
                        }
                    },
                    State::Neutral => {},
                }
                y += 1;
            }
            x += 1;
        }
        acc
    }

    /// Computes both scores anew from the tiles.
    pub fn update_score(&mut self)
        requires
            old(self).wf(),
        ensures
            final(self).wf(),
            final(self)@ == old(self)@.rescored(),
    {
        let first = Score { tile: self.total(false, false), region: self.total(false, true) };
        let second = Score { tile: self.total(true, false), region: self.total(true, true) };
        let mut scores: Vec<Score> = Vec::new();
        scores.push(first);
        scores.push(second);
        self.scores = scores;
        assert(self@.scores =~= old(self)@.rescored().scores);
    }

    /// A board of neutral tiles with random point values and no agent on it,
    /// at turn 0 of 50. A size that is not given is drawn from 12 to 24, a
    /// number of agents from 6 to 14. One tile in four gets a value from
    /// -16 to -1, the others one from 0 to 16.
    pub fn new(
        rng: &mut StdRng,
        width_: Option<usize>,
        height_: Option<usize>,
        agent_count_: Option<usize>,
    ) -> (field: Field)
        requires
            width_ matches Some(w) ==> 1 <= w <= 127,
            height_ matches Some(h) ==> h <= 127,
            (match width_ {
                Some(w) => w as int,
                None => 24,
            }) * (match height_ {
                Some(h) => h as int,
                None => 24,
            }) * 16 <= i16::MAX,
        ensures
            field.wf(),
            field@.now_turn == 0,
            field@.final_turn == 50,
            match width_ {
                Some(w) => field@.width() == w,
                None => 12 <= field@.width() < 25,
            },
            match height_ {
                Some(h) => field@.height() == h,
                None => 12 <= field@.height() < 25,
            },
            match agent_count_ {
                Some(n) => field@.agent_count() == n,
                None => 6 <= field@.agent_count() < 15,
            },
            forall|x: int, y: int|
                0 <= x < field@.width() && 0 <= y < field@.height() ==> (
                #[trigger] field@.tiles[x][y]).state == State::Neutral && -16
                    <= field@.tiles[x][y].point <= 16,
            forall|s: int, i: int|
                0 <= s < 2 && 0 <= i < field@.agent_count() ==> (#[trigger] field@.agents[s][i])
                    is None,
            field@.scores == seq![Score { tile: 0, region: 0 }, Score { tile: 0, region: 0 }],
    {
        let width: usize = match width_ {
            Some(w) => w,
            None => draw_range(rng, 12, 25) as usize,
        };
        let height: usize = match height_ {
            Some(h) => h,
            None => draw_range(rng, 12, 25) as usize,
        };
        let agent_count: usize = match agent_count_ {
            Some(n) => n,
            None => draw_range(rng, 6, 15) as usize,
        };
        let mut tiles: Vec<Vec<Tile>> = Vec::new();
        let mut x: usize = 0;
        while x < width
            invariant
                x <= width,
                tiles.len() == x,
                forall|a: int| 0 <= a < x ==> (#[trigger] tiles[a]).len() == height,
                forall|a: int, b: int|
                    0 <= a < x && 0 <= b < height ==> (#[trigger] tiles[a][b]).state
                        == State::Neutral && -16 <= tiles[a][b].point <= 16,
            decreases width - x,
        {
            let mut col: Vec<Tile> = Vec::new();
            let mut y: usize = 0;
            while y < height
                invariant
                    y <= height,
                    col.len() == y,
                    forall|b: int|
                        0 <= b < y ==> (#[trigger] col[b]).state == State::Neutral && -16
                            <= col[b].point <= 16,
                decreases height - y,
            {
                let point: i128 = if draw_ratio(rng, 1, 4) {
                    draw_range(rng, -16, 0)
                } else {
                    draw_range(rng, 0, 17)
                };
                col.push(Tile { state: State::Neutral, point: point as i8 });
                y += 1;
            }
            tiles.push(col);
            x += 1;
        }
        let mut agents: Vec<Vec<Option<Point>>> = Vec::new();
        let mut s: usize = 0;
        while s < 2
            invariant
                s <= 2,
                agents.len() == s,
                forall|a: int| 0 <= a < s ==> (#[trigger] agents[a]).len() == agent_count,
                forall|a: int, b: int|
                    0 <= a < s && 0 <= b < agent_count ==> (#[trigger] agents[a][b]) is None,
            decreases 2 - s,
        {
            let mut row: Vec<Option<Point>> = Vec::new();
            let mut i: usize = 0;
            while i < agent_count
                invariant
                    i <= agent_count,
                    row.len() == i,
                    forall|b: int| 0 <= b < i ==> (#[trigger] row[b]) is None,
                decreases agent_count - i,
            {
                row.push(None);
                i += 1;
            }
            agents.push(row);
            s += 1;
        }
        let mut scores: Vec<Score> = Vec::new();
        scores.push(Score { tile: 0, region: 0 });
        scores.push(Score { tile: 0, region: 0 });
        let field = Field { now_turn: 0, final_turn: 50, tiles, agents, scores };
        proof {
            let v = field@;
            assert(v.tiles.len() == width);
            assert forall|a: int| 0 <= a < width implies (#[trigger] v.tiles[a]).len() == height by {
                assert(v.tiles[a] == field.tiles[a]@);
            }
            assert forall|a: int, b: int| 0 <= a < width && 0 <= b < height implies (
            #[trigger] v.tiles[a][b]).state == State::Neutral && -16 <= v.tiles[a][b].point
                <= 16 by {
                assert(v.tiles[a] == field.tiles[a]@);
                assert(v.tiles[a][b] == field.tiles[a][b]);
            }
            assert forall|a: int, b: int|
                0 <= a < v.tiles.len() && 0 <= b < v.tiles[a].len() implies 0 <= (
            #[trigger] weight()(v.tiles[a][b])) <= 16 by {}
            lemma_grid_sum_bounded(v.tiles, weight(), width as int, height as int, 16);
            assert(width * height * 16 <= i16::MAX) by (nonlinear_arith)
                requires
                    (match width_ {
                        Some(w) => w as int,
                        None => 24,
                    }) * (match height_ {
                        Some(h) => h as int,
                        None => 24,
                    }) * 16 <= i16::MAX,
                    match width_ {
                        Some(w) => width == w,
                        None => 12 <= width < 25,
                    },
                    match height_ {
                        Some(h) => height == h,
                        None => 12 <= height < 25,
                    },
            ;
            assert(v.agents.len() == 2);
            assert forall|a: int| 0 <= a < 2 implies (#[trigger] v.agents[a]).len()
                == agent_count by {
                assert(v.agents[a] == field.agents[a]@);
            }
            assert forall|a: int, b: int| 0 <= a < 2 && 0 <= b < v.agent_count() implies (
            #[trigger] v.agents[a][b]) is None by {
                assert(v.agents[a] == field.agents[a]@);
                assert(v.agents[a][b] == field.agents[a][b]);
            }
            assert(v.scores =~= seq![Score { tile: 0, region: 0 }, Score { tile: 0, region: 0 }]);
        }
        field
    }

    /// The board of a match description, with regions and scores computed.
    /// `walls[x][y]` holds the id of the team whose wall stands at `(x, y)`.
    pub fn from_data(
        width: usize,
        height: usize,
        team_data: Vec<TeamData>,
        walls: Vec<Vec<u32>>,
        points: Vec<Vec<i8>>,
        agents: Vec<Vec<Option<Point>>>,
        now_turn: u8,
        final_turn: u8,
    ) -> (field: Field)
        requires
            now_turn <= final_turn,
            1 <= width <= 127,
            height <= 127,
            team_data.len() >= 2,
            walls.len() >= width,
            points.len() >= width,
            forall|x: int| 0 <= x < width ==> (#[trigger] walls[x]).len() >= height,
            forall|x: int| 0 <= x < width ==> (#[trigger] points[x]).len() >= height,
            forall|x: int, y: int|
                0 <= x < width && 0 <= y < height ==> (#[trigger] points[x][y]) > i8::MIN,
            board_sum(
                described_tiles(
                    width as int,
                    height as int,
                    team_data[0].team_id,
                    team_data[1].team_id,
                    table_of(walls),
                    table_of(points),
                ),
                weight(),
            ) <= i16::MAX,
            agents.len() == 2,
            agents[0].len() == agents[1].len(),
        ensures
            field.wf(),
            field@ == described_board(
                width as int,
                height as int,
                team_data[0].team_id,
                team_data[1].team_id,
                table_of(walls),
                table_of(points),
                table_of(agents),
                now_turn,
                final_turn,
            ).regioned().rescored(),
    {
        let first_team = team_data[0].team_id;
        let second_team = team_data[1].team_id;
        let ghost goal = described_tiles(
            width as int,
            height as int,
            first_team,
            second_team,
            table_of(walls),
            table_of(points),
        );
        let mut tiles: Vec<Vec<Tile>> = Vec::new();
        let mut x: usize = 0;
        while x < width
            invariant
                x <= width,
                walls.len() >= width,
                points.len() >= width,
                forall|a: int| 0 <= a < width ==> (#[trigger] walls[a]).len() >= height,
                forall|a: int| 0 <= a < width ==> (#[trigger] points[a]).len() >= height,
                goal == described_tiles(
                    width as int,
                    height as int,
                    first_team,
                    second_team,
                    table_of(walls),
                    table_of(points),
                ),
                tiles.len() == x,
                forall|a: int| 0 <= a < x ==> (#[trigger] tiles[a])@ == goal[a],
            decreases width - x,
        {
            let mut col: Vec<Tile> = Vec::new();
            let mut y: usize = 0;
            while y < height
                invariant
                    x < width,
                    y <= height,
                    walls.len() >= width,
                    points.len() >= width,
                    walls[x as int].len() >= height,
                    points[x as int].len() >= height,
                    goal == described_tiles(
                        width as int,
                        height as int,
                        first_team,
                        second_team,
                        table_of(walls),
                        table_of(points),
                    ),
                    col.len() == y,
                    forall|b: int| 0 <= b < y ==> (#[trigger] col[b]) == goal[x as int][b],
                decreases height - y,
            {
                let owner = walls[x][y];
                assert(table_of(walls)[x as int] == walls[x as int]@);
                assert(table_of(points)[x as int] == points[x as int]@);
                let state = if owner == first_team {
                    State::Wall(false)
                } else if owner == second_team {
                    State::Wall(true)
                } else {
                    State::Neutral
                };
                col.push(Tile { state, point: points[x][y] });
                y += 1;
            }
            assert(col@ =~= goal[x as int]);
            tiles.push(col);
            x += 1;
        }
        let mut scores: Vec<Score> = Vec::new();
        scores.push(Score { tile: 0, region: 0 });
        scores.push(Score { tile: 0, region: 0 });
        let mut field = Field { now_turn, final_turn, tiles, agents: copy_grid(&agents), scores };
        let ghost start = described_board(
            width as int,
            height as int,
            first_team,
            second_team,
            table_of(walls),
            table_of(points),
            table_of(agents),
            now_turn,
            final_turn,
        );
        proof {
            assert(field@.tiles =~~= goal);
            assert(field@.scores =~= start.scores);
            assert(field@ == start);
            assert(table_of(agents)[0] == agents[0]@);
            assert(table_of(agents)[1] == agents[1]@);
            assert forall|a: int, b: int|
                0 <= a < goal.len() && 0 <= b < goal[a].len() implies (#[trigger] goal[a][b]).point
                > i8::MIN by {
                assert(table_of(points)[a] == points[a]@);
            }
        }
        field.update_region();
        field.update_score();
        field
    }

    /// A fresh random board; the name of the board is not looked at.
    pub fn read_field(rng: &mut StdRng, id: &str) -> (field: Field)
        ensures
            field.wf(),
            field@.now_turn == 0,
            field@.final_turn == 50,
            12 <= field@.width() < 25,
            12 <= field@.height() < 25,
            6 <= field@.agent_count() < 15,
            forall|x: int, y: int|
                0 <= x < field@.width() && 0 <= y < field@.height() ==> (
                #[trigger] field@.tiles[x][y]).state == State::Neutral && -16
                    <= field@.tiles[x][y].point <= 16,
            forall|s: int, i: int|
                0 <= s < 2 && 0 <= i < field@.agent_count() ==> (#[trigger] field@.agents[s][i])
                    is None,
            field@.scores == seq![Score { tile: 0, region: 0 }, Score { tile: 0, region: 0 }],
    {
        Field::new(rng, None, None, None)
    }

    /// For every tile the size of the area around it that the walls of
    /// `side` enclose: the number of tiles that can be reached from it over
    /// shared edges without crossing a wall of `side`. A wall of `side`,
    /// and a tile from which the edge of the board can be reached, gets
    /// `width * height`.
    pub fn calc_region(&self, side: bool) -> (table: Vec<Vec<usize>>)
        requires
            self.wf(),
        ensures
            table_view(table) == region_table(self@.tiles, side),
    {
        proof {
            assert forall|x: int| 0 <= x < self.tiles.len() implies (#[trigger] table_of(
                self.tiles,
            )[x]).len() == self.tiles[0].len() by {
                assert(self@.tiles[x].len() == self@.tiles[0].len());
                assert(self@.tiles[0] == self.tiles[0]@);
            }
            assert(self@.tiles[0] == self.tiles[0]@);
        }
        flood(&self.tiles, side)
    }

    /// Gives every tile that is no wall to the side that encloses it more
    /// tightly, if there is one.
    pub fn update_region(&mut self)
        requires
            old(self).wf(),
        ensures
            final(self).wf(),
            final(self)@ == old(self)@.regioned(),
    {
        let first = self.calc_region(false);
        let second = self.calc_region(true);
        let width = self.width();
        let height = self.height();
        let ghost before = self@;
        let ghost goal = with_regions(before.tiles, table_view(first), table_view(second));
        assert(table_view(first).len() == first.len());
        assert(table_view(second).len() == second.len());
        let mut i: usize = 0;
        while i < width
            invariant
                self.wf(),
                before.wf(),
                width == before.width(),
                height == before.height(),
                i <= width,
                first.len() == width,
                second.len() == width,
                table_view(first) == region_table(before.tiles, false),
                table_view(second) == region_table(before.tiles, true),
                goal == with_regions(before.tiles, table_view(first), table_view(second)),
                self@.tiles.len() == width,
                forall|a: int| 0 <= a < width ==> (#[trigger] self@.tiles[a]).len() == height,
                forall|a: int, b: int|
                    0 <= a < i && 0 <= b < height ==> (#[trigger] self@.tiles[a][b]) == goal[a][b],
                forall|a: int, b: int|
                    i <= a < width && 0 <= b < height ==> (#[trigger] self@.tiles[a][b])
                        == before.tiles[a][b],
                self@.now_turn == before.now_turn,
                self@.final_turn == before.final_turn,
                self@.agents == before.agents,
                self@.scores == before.scores,
            decreases width - i,
        {
            let mut j: usize = 0;
            while j < height
                invariant
                    self.wf(),
                    before.wf(),
                    width == before.width(),
                    height == before.height(),
                    i < width,
                    j <= height,
                    first.len() == width,
                    second.len() == width,
                    table_view(first) == region_table(before.tiles, false),
                    table_view(second) == region_table(before.tiles, true),
                    goal == with_regions(before.tiles, table_view(first), table_view(second)),
                    self@.tiles.len() == width,
                    forall|a: int| 0 <= a < width ==> (#[trigger] self@.tiles[a]).len() == height,
                    forall|a: int, b: int|
                        0 <= a < i && 0 <= b < height ==> (#[trigger] self@.tiles[a][b])
                            == goal[a][b],
                    forall|b: int| 0 <= b < j ==> (#[trigger] self@.tiles[i as int][b]) == goal[i as int][b],
                    forall|b: int|
                        j <= b < height ==> (#[trigger] self@.tiles[i as int][b])
                            == before.tiles[i as int][b],
                    forall|a: int, b: int|
                        i < a < width && 0 <= b < height ==> (#[trigger] self@.tiles[a][b])
                            == before.tiles[a][b],
                    self@.now_turn == before.now_turn,
                    self@.final_turn == before.final_turn,
                    self@.agents == before.agents,
                    self@.scores == before.scores,
                decreases height - j,
            {
                let tile = self.tile(PointUsize { x: i, y: j });
                assert(table_view(first)[i as int] == first[i as int]@);
                assert(table_view(second)[i as int] == second[i as int]@);
                assert(before.tiles[i as int].len() == height);
                assert(region_table(before.tiles, false)[i as int].len() == height);
                assert(region_table(before.tiles, true)[i as int].len() == height);
                if !tile.state.is_wall() {
                    if first[i][j] < second[i][j] {
                        self.set_state(PointUsize { x: i, y: j }, State::Position(false));
                    } else if first[i][j] > second[i][j] {
                        self.set_state(PointUsize { x: i, y: j }, State::Position(true));
                    }
                }
                j += 1;
            }
            i += 1;
        }
        proof {
            assert(self@.tiles =~~= goal);
        }
    }

    /// Whether the position lies on the board.
    pub fn inside(&self, pos: Point) -> (b: bool)
        requires
            self.wf(),
        ensures
            b == self@.inside(pos),
    {
        0 <= pos.x && 0 <= pos.y && (pos.x as usize) < self.width() && (pos.y as usize)
            < self.height()
    }
}

} // verus!
