//! The records a match server describes a match with, and the rules by
//! which a board is made of a description.
use crate::field::{
    abs, board_sum, described_board, described_tiles, grid_sum, column_sum, table_of, weight,
    Field, FieldView, Point, Tile,
};
use vstd::prelude::*;

verus! {

/// A team and the ids of its agents.
#[derive(Clone, Debug)]
pub struct TeamData {
    pub team_id: u32,
    pub agent_id: Vec<u32>,
}

/// One match the server lists.
#[derive(Clone, Debug)]
pub struct MatchData {
    pub match_id: u32,
    pub final_turn: u32,
    pub teams: Vec<TeamData>,
}

/// A board together with the teams that play on it.
pub struct FieldData {
    pub field: Field,
    pub teams: Vec<TeamData>,
}

/// How to reach the server, and whether to show the board.
#[derive(Clone, Debug)]
pub struct Config {
    pub id: usize,
    pub token: String,
    pub url: String,
    pub visualizer: bool,
}

/// An agent as the server describes it. Its coordinates count from one;
/// an `x` of zero says that the agent is off the board.
#[derive(Clone, Copy, Debug)]
pub struct AgentDescription {
    pub agent_id: u64,
    pub x: u64,
    pub y: u64,
}

/// A team as the server describes it.
#[derive(Clone, Debug)]
pub struct TeamDescription {
    pub team_id: u64,
    pub agents: Vec<AgentDescription>,
}

/// A match as the server lists it.
#[derive(Clone, Debug)]
pub struct MatchDescription {
    pub match_id: u64,
    pub turns: u64,
    pub teams: Vec<TeamDescription>,
}

/// A board as the server describes it: `walls` and `points` are lists of
/// rows.
#[derive(Clone, Debug)]
pub struct FieldDescription {
    pub width: u64,
    pub height: u64,
    pub turn: u64,
    pub teams: Vec<TeamDescription>,
    pub walls: Vec<Vec<i64>>,
    pub points: Vec<Vec<i64>>,
}

/// The message that `target` could not be parsed.
pub fn missing(target: &str) -> (message: String)
    ensures
        message@ == "couldn't parse "@ + target@,
{
    let mut message = String::from_str("couldn't parse ");
    message.append(target);
    message
}

/// The value, or the message that `target` could not be parsed.
pub fn to_result<T>(opt: Option<T>, target: &str) -> (r: Result<T, String>)
    ensures
        match opt {
            Some(val) => r == Ok::<T, String>(val),
            None => r is Err && r->Err_0@ == "couldn't parse "@ + target@,
        },
{
    match opt {
        Some(val) => Ok(val),
        None => Err(missing(target)),
    }
}

/// The rows are the rows of a table: there is one, and all are as long as
/// the first.
pub open spec fn even_rows<T>(rows: Seq<Seq<T>>) -> bool {
    rows.len() >= 1 && forall|i: int| 0 <= i < rows.len() ==> (#[trigger] rows[i]).len()
        == rows[0].len()
}

/// The table of columns that a list of rows stands for.
pub open spec fn transposed<T>(rows: Seq<Seq<T>>) -> Seq<Seq<T>> {
    Seq::new(rows[0].len(), |j: int| Seq::new(rows.len(), |i: int| rows[i][j]))
}

/// Turns a list of rows into a table of columns. `None` if there is no
/// row or the rows differ in length.
pub fn transpose<T: Copy>(rows: &Vec<Vec<T>>) -> (r: Option<Vec<Vec<T>>>)
    ensures
        r is Some <==> even_rows(table_of(*rows)),
        r matches Some(table) ==> table_of(table) == transposed(table_of(*rows)),
{
    let ghost view = table_of(*rows);
    if rows.len() == 0 {
        return None;
    }
    let width = rows[0].len();
    assert(view[0] == rows[0]@);
    let mut i: usize = 0;
    while i < rows.len()
        invariant
            view == table_of(*rows),
            rows.len() >= 1,
            width == rows[0].len(),
            i <= rows.len(),
            forall|k: int| 0 <= k < i ==> (#[trigger] view[k]).len() == width,
        decreases rows.len() - i,
    {
        assert(view[i as int] == rows[i as int]@);
        if rows[i].len() != width {
            assert(!even_rows(view)) by {
                assert(view[0] == rows[0]@);
            }
            return None;
        }
        i += 1;
    }
    let mut table: Vec<Vec<T>> = Vec::new();
    let mut j: usize = 0;
    while j < width
        invariant
            view == table_of(*rows),
            rows.len() >= 1,
            width == rows[0].len(),
            forall|k: int| 0 <= k < rows.len() ==> (#[trigger] view[k]).len() == width,
            j <= width,
            table.len() == j,
            forall|a: int| 0 <= a < j ==> (#[trigger] table[a])@ == transposed(view)[a],
        decreases width - j,
    {
        let mut col: Vec<T> = Vec::new();
        let mut i: usize = 0;
        while i < rows.len()
            invariant
                view == table_of(*rows),
                width == rows[0].len(),
                forall|k: int| 0 <= k < rows.len() ==> (#[trigger] view[k]).len() == width,
                j < width,
                i <= rows.len(),
                col.len() == i,
                forall|k: int| 0 <= k < i ==> (#[trigger] col[k]) == view[k][j as int],
            decreases rows.len() - i,
        {
            assert(view[i as int] == rows[i as int]@);
            col.push(rows[i][j]);
            i += 1;
        }
        assert(view[0] == rows[0]@);
        assert(col@ =~= transposed(view)[j as int]);
        table.push(col);
        j += 1;
    }
    proof {
        assert(view[0] == rows[0]@);
        assert(table_of(table) =~= transposed(view));
    }
    Some(table)
}

/// Every number of the table is the id of a team.
pub open spec fn all_ids(rows: Seq<Seq<i64>>) -> bool {
    forall|i: int, j: int|
        0 <= i < rows.len() && 0 <= j < rows[i].len() ==> 0 <= (#[trigger] rows[i][j]) <= u32::MAX
}

/// Every number of the table is the point value of a tile.
pub open spec fn all_points(rows: Seq<Seq<i64>>) -> bool {
    forall|i: int, j: int|
        0 <= i < rows.len() && 0 <= j < rows[i].len() ==> i8::MIN <= (#[trigger] rows[i][j])
            <= i8::MAX
}

/// The table with every number as a team id.
pub open spec fn as_ids(rows: Seq<Seq<i64>>) -> Seq<Seq<u32>> {
    Seq::new(rows.len(), |i: int| Seq::new(rows[i].len(), |j: int| rows[i][j] as u32))
}

/// The table with every number as a point value.
pub open spec fn as_points(rows: Seq<Seq<i64>>) -> Seq<Seq<i8>> {
    Seq::new(rows.len(), |i: int| Seq::new(rows[i].len(), |j: int| rows[i][j] as i8))
}

/// The table with every number as a team id. `None` if one is none.
pub fn id_table(rows: &Vec<Vec<i64>>) -> (r: Option<Vec<Vec<u32>>>)
    ensures
        r is Some <==> all_ids(table_of(*rows)),
        r matches Some(table) ==> table_of(table) == as_ids(table_of(*rows)),
{
    let ghost view = table_of(*rows);
    let mut table: Vec<Vec<u32>> = Vec::new();
    let mut i: usize = 0;
    while i < rows.len()
        invariant
            view == table_of(*rows),
            i <= rows.len(),
            table.len() == i,
            forall|a: int, b: int|
                0 <= a < i && 0 <= b < view[a].len() ==> 0 <= (#[trigger] view[a][b]) <= u32::MAX,
            forall|a: int| 0 <= a < i ==> (#[trigger] table[a])@ == as_ids(view)[a],
        decreases rows.len() - i,
    {
        assert(view[i as int] == rows[i as int]@);
        let mut row: Vec<u32> = Vec::new();
        let mut j: usize = 0;
        while j < rows[i].len()
            invariant
                view == table_of(*rows),
                i < rows.len(),
                view[i as int] == rows[i as int]@,
                j <= rows[i as int].len(),
                row.len() == j,
                forall|b: int| 0 <= b < j ==> 0 <= (#[trigger] view[i as int][b]) <= u32::MAX,
                forall|b: int| 0 <= b < j ==> (#[trigger] row[b]) == view[i as int][b] as u32,
            decreases rows[i as int].len() - j,
        {
            let n = rows[i][j];
            if n < 0 || n > 0xffff_ffff {
                assert(!all_ids(view)) by {
                    assert(!(0 <= view[i as int][j as int] <= u32::MAX));
                }
                return None;
            }
            row.push(n as u32);
            j += 1;
        }
        assert(row@ =~= as_ids(view)[i as int]);
        table.push(row);
        i += 1;
    }
    assert(table_of(table) =~= as_ids(view));
    Some(table)
}

/// The table with every number as a point value. `None` if one is none.
pub fn point_table(rows: &Vec<Vec<i64>>) -> (r: Option<Vec<Vec<i8>>>)
    ensures
        r is Some <==> all_points(table_of(*rows)),
        r matches Some(table) ==> table_of(table) == as_points(table_of(*rows)),
{
    let ghost view = table_of(*rows);
    let mut table: Vec<Vec<i8>> = Vec::new();
    let mut i: usize = 0;
    while i < rows.len()
        invariant
            view == table_of(*rows),
            i <= rows.len(),
            table.len() == i,
            forall|a: int, b: int|
                0 <= a < i && 0 <= b < view[a].len() ==> i8::MIN <= (#[trigger] view[a][b])
                    <= i8::MAX,
            forall|a: int| 0 <= a < i ==> (#[trigger] table[a])@ == as_points(view)[a],
        decreases rows.len() - i,
    {
        assert(view[i as int] == rows[i as int]@);
        let mut row: Vec<i8> = Vec::new();
        let mut j: usize = 0;
        while j < rows[i].len()
            invariant
                view == table_of(*rows),
                i < rows.len(),
                view[i as int] == rows[i as int]@,
                j <= rows[i as int].len(),
                row.len() == j,
                forall|b: int| 0 <= b < j ==> i8::MIN <= (#[trigger] view[i as int][b]) <= i8::MAX,
                forall|b: int| 0 <= b < j ==> (#[trigger] row[b]) == view[i as int][b] as i8,
            decreases rows[i as int].len() - j,
        {
            let n = rows[i][j];
            if n < -128 || n > 127 {
                assert(!all_points(view)) by {
                    assert(!(i8::MIN <= view[i as int][j as int] <= i8::MAX));
                }
                return None;
            }
            row.push(n as i8);
            j += 1;
        }
        assert(row@ =~= as_points(view)[i as int]);
        table.push(row);
        i += 1;
    }
    assert(table_of(table) =~= as_points(view));
    Some(table)
}

/// The team that a description stands for: its id and the ids of its
/// agents, cut to 32 bits.
pub open spec fn team_of(t: TeamDescription) -> (u32, Seq<u32>) {
    (t.team_id as u32, Seq::new(t.agents@.len(), |k: int| t.agents@[k].agent_id as u32))
}

/// The first two teams of a description. An error if there are fewer.
pub fn get_team_data(teams: &Vec<TeamDescription>) -> (r: Result<Vec<TeamData>, String>)
    ensures
        r is Ok <==> teams.len() >= 2,
        r matches Err(e) ==> e@ == "couldn't parse "@ + "teams"@,
        r matches Ok(data) ==> data.len() == 2 && forall|i: int|
            0 <= i < 2 ==> ((#[trigger] data[i]).team_id, data[i].agent_id@) == team_of(teams[i]),
{
    if teams.len() < 2 {
        return Err(missing("teams"));
    }
    let mut data: Vec<TeamData> = Vec::new();
    let mut i: usize = 0;
    while i < 2
        invariant
            teams.len() >= 2,
            i <= 2,
            data.len() == i,
            forall|a: int|
                0 <= a < i ==> ((#[trigger] data[a]).team_id, data[a].agent_id@) == team_of(teams[a]),
        decreases 2 - i,
    {
        let team = &teams[i];
        let mut agent_id: Vec<u32> = Vec::new();
        let mut k: usize = 0;
        while k < team.agents.len()
            invariant
                k <= team.agents.len(),
                agent_id.len() == k,
                forall|b: int| 0 <= b < k ==> (#[trigger] agent_id[b]) == team.agents[b].agent_id as u32,
            decreases team.agents.len() - k,
        {
            agent_id.push(#[verifier::truncate] (team.agents[k].agent_id as u32));
            k += 1;
        }
        assert(agent_id@ =~= team_of(*team).1);
        data.push(TeamData { team_id: #[verifier::truncate] (team.team_id as u32), agent_id });
        i += 1;
    }
    Ok(data)
}

/// The matches that a list of descriptions stands for, with numbers cut to
/// 32 bits. An error if a match has fewer than two teams.
pub fn parse_matches_data(val: &Vec<MatchDescription>) -> (r: Result<Vec<MatchData>, String>)
    ensures
        r is Ok <==> forall|i: int| 0 <= i < val.len() ==> (#[trigger] val[i]).teams.len() >= 2,
        r matches Err(e) ==> e@ == "couldn't parse "@ + "teams"@,
        r matches Ok(data) ==> data.len() == val.len() && forall|i: int|
            0 <= i < val.len() ==> (#[trigger] data[i]).match_id == val[i].match_id as u32
                && data[i].final_turn == val[i].turns as u32 && data[i].teams.len() == 2,
{
    let mut data: Vec<MatchData> = Vec::new();
    let mut i: usize = 0;
    while i < val.len()
        invariant
            i <= val.len(),
            data.len() == i,
            forall|a: int| 0 <= a < i ==> (#[trigger] val[a]).teams.len() >= 2,
            forall|a: int|
                0 <= a < i ==> (#[trigger] data[a]).match_id == val[a].match_id as u32
                    && data[a].final_turn == val[a].turns as u32 && data[a].teams.len() == 2,
        decreases val.len() - i,
    {
        match get_team_data(&val[i].teams) {
            Ok(teams) => {
                data.push(
                    MatchData {
                        match_id: #[verifier::truncate] (val[i].match_id as u32),
                        final_turn: #[verifier::truncate] (val[i].turns as u32),
                        teams,
                    },
                );
            },
            Err(e) => {
                return Err(e);
            },
        }
        i += 1;
    }
    Ok(data)
}

/// The place of an agent on the board: none if its `x` is zero, else its
/// coordinates counted from zero.
pub open spec fn place_of(a: AgentDescription) -> Option<Point> {
    if a.x == 0 {
        None
    } else {
        Some(Point { x: (a.x - 1) as i8, y: (a.y - 1) as i8 })
    }
}

/// The coordinate of an agent is zero with `y` anything, or both count a
/// tile that a board can have.
pub open spec fn placeable(a: AgentDescription) -> bool {
    a.x == 0 || (a.x <= 128 && 1 <= a.y <= 128)
}

/// The places of the agents of the first two teams.
pub open spec fn places_of(teams: Seq<TeamDescription>) -> Seq<Seq<Option<Point>>> {
    Seq::new(2, |i: int| Seq::new(teams[i].agents@.len(), |k: int| place_of(teams[i].agents@[k])))
}

/// The sum of the magnitudes of the first `n` columns of a table of
/// points, up to `h` entries each.
pub open spec fn magnitude(points: Seq<Seq<i8>>, n: int, h: int) -> int
    decreases n,
{
    if n <= 0 {
        0
    } else {
        magnitude(points, n - 1, h) + column_magnitude(points[n - 1], h)
    }
}

/// The sum of the magnitudes of the first `n` entries of a column.
pub open spec fn column_magnitude(col: Seq<i8>, n: int) -> int
    decreases n,
{
    if n <= 0 {
        0
    } else {
        column_magnitude(col, n - 1) + abs(col[n - 1] as int)
    }
}

/// Every agent of the first two teams has a place that a board can have.
pub open spec fn all_placeable(val: FieldDescription) -> bool {
    forall|i: int, k: int|
        0 <= i < 2 && 0 <= k < val.teams[i].agents.len() ==> placeable(
            #[trigger] val.teams[i].agents[k],
        )
}

/// What a description that is none of a board first fails in: the size,
/// the turn, the teams, the numbers of agents, an agent's place, the
/// tables of walls and of points, their sizes, or the points themselves.
pub open spec fn field_fault(val: FieldDescription, final_turn: u8) -> Seq<char> {
    let walls = table_of(val.walls);
    let points = table_of(val.points);
    if !(1 <= val.width <= 127 && val.height <= 127) {
        "width"@
    } else if val.turn > final_turn {
        "turn"@
    } else if val.teams.len() < 2 {
        "teams"@
    } else if val.teams[0].agents.len() != val.teams[1].agents.len() {
        "agents"@
    } else if !all_placeable(val) {
        "x"@
    } else if !(all_ids(walls) && even_rows(walls)) {
        "walls"@
    } else if !(all_points(points) && even_rows(points)) {
        "points"@
    } else if !(walls.len() >= val.height && walls[0].len() >= val.width && points.len()
        >= val.height && points[0].len() >= val.width) {
        "walls"@
    } else {
        "points"@
    }
}

/// A description is one of a board: the size is in range, the teams are
/// two of equal numbers of agents with places a board can have, walls and
/// points are tables of the board's size with proper entries, no point is
/// the least an `i8` holds, the points sum in magnitude to what a score can
/// hold, and the turn has not passed the last.
pub open spec fn describes_field(val: FieldDescription, final_turn: u8) -> bool {
    let walls = table_of(val.walls);
    let points = table_of(val.points);
    &&& 1 <= val.width <= 127
    &&& val.height <= 127
    &&& val.turn <= final_turn
    &&& val.teams.len() >= 2
    &&& val.teams[0].agents.len() == val.teams[1].agents.len()
    &&& all_placeable(val)
    &&& even_rows(walls)
    &&& even_rows(points)
    &&& all_ids(walls)
    &&& all_points(points)
    &&& walls.len() >= val.height
    &&& walls[0].len() >= val.width
    &&& points.len() >= val.height
    &&& points[0].len() >= val.width
    &&& forall|x: int, y: int|
        0 <= x < val.width && 0 <= y < val.height ==> (#[trigger] points[y][x]) > i8::MIN
    &&& magnitude(transposed(as_points(points)), val.width as int, val.height as int) <= i16::MAX
}

/// The board that a description stands for, before regions and scores are
/// computed.
pub open spec fn board_of(val: FieldDescription, final_turn: u8) -> FieldView {
    described_board(
        val.width as int,
        val.height as int,
        val.teams[0].team_id as u32,
        val.teams[1].team_id as u32,
        transposed(as_ids(table_of(val.walls))),
        transposed(as_points(table_of(val.points))),
        places_of(val.teams@),
        val.turn as u8,
        final_turn,
    )
}

/// The magnitude of a table of points is the weight of the tiles made of
/// them.
pub proof fn lemma_magnitude_is_weight(tiles: Seq<Seq<Tile>>, points: Seq<Seq<i8>>, n: int, h: int)
    requires
        0 <= n <= tiles.len(),
        n <= points.len(),
        forall|x: int| 0 <= x < n ==> (#[trigger] tiles[x]).len() == h && points[x].len() >= h,
        forall|x: int, y: int|
            0 <= x < n && 0 <= y < h ==> (#[trigger] tiles[x][y]).point == points[x][y],
    ensures
        grid_sum(tiles, weight(), n) == magnitude(points, n, h),
    decreases n,
{
    if n > 0 {
        lemma_magnitude_is_weight(tiles, points, n - 1, h);
        lemma_column_magnitude_is_weight(tiles[n - 1], points[n - 1], h);
    }
}

/// The magnitude of a column of points is the weight of the tiles made of
/// them.
pub proof fn lemma_column_magnitude_is_weight(col: Seq<Tile>, points: Seq<i8>, n: int)
    requires
        0 <= n <= col.len(),
        n <= points.len(),
        forall|y: int| 0 <= y < n ==> (#[trigger] col[y]).point == points[y],
    ensures
        column_sum(col, weight(), n) == column_magnitude(points, n),
    decreases n,
{
    if n > 0 {
        lemma_column_magnitude_is_weight(col, points, n - 1);
    }
}

/// The sum of the magnitudes of the points of the board, computed as far
/// as it stays within what a score can hold.
fn magnitude_within(points: &Vec<Vec<i8>>, width: usize, height: usize) -> (ok: bool)
    requires
        points.len() >= width,
        forall|x: int| 0 <= x < width ==> (#[trigger] points[x]).len() >= height,
    ensures
        ok == (magnitude(table_of(*points), width as int, height as int) <= i16::MAX),
{
    let ghost view = table_of(*points);
    let mut total: i32 = 0;
    let mut x: usize = 0;
    while x < width
        invariant
            view == table_of(*points),
            points.len() >= width,
            forall|a: int| 0 <= a < width ==> (#[trigger] points[a]).len() >= height,
            x <= width,
            total == magnitude(view, x as int, height as int),
            0 <= total <= i16::MAX,
        decreases width - x,
    {
        assert(view[x as int] == points[x as int]@);
        let mut y: usize = 0;
        let ghost before = total;
        while y < height
            invariant
                view == table_of(*points),
                x < width,
                points.len() >= width,
                points[x as int].len() >= height,
                view[x as int] == points[x as int]@,
                y <= height,
                total == before + column_magnitude(view[x as int], y as int),
                before == magnitude(view, x as int, height as int),
                0 <= before,
                0 <= total <= i16::MAX,
            decreases height - y,
        {
            let p = points[x][y] as i32;
            let size = if p < 0 {
                -p
            } else {
                p
            };
            if total + size > 32767 {
                proof {
                    lemma_column_magnitude_grows(view[x as int], y as int + 1, height as int);
                    lemma_magnitude_grows(view, x as int + 1, width as int, height as int);
                }
                return false;
            }
            total = total + size;
            y += 1;
        }
        x += 1;
    }
    true
}

/// A longer column has no less magnitude.
pub proof fn lemma_column_magnitude_grows(col: Seq<i8>, n: int, m: int)
    requires
        0 <= n <= m,
    ensures
        0 <= column_magnitude(col, n) <= column_magnitude(col, m),
    decreases m,
{
    if n < m {
        lemma_column_magnitude_grows(col, n, m - 1);
    } else if n > 0 {
        lemma_column_magnitude_grows(col, n - 1, n - 1);
    }
}

/// More columns have no less magnitude.
pub proof fn lemma_magnitude_grows(points: Seq<Seq<i8>>, n: int, m: int, h: int)
    requires
        0 <= n <= m,
        0 <= h,
    ensures
        0 <= magnitude(points, n, h) <= magnitude(points, m, h),
    decreases m,
{
    if n < m {
        lemma_magnitude_grows(points, n, m - 1, h);
        lemma_column_magnitude_grows(points[m - 1], 0, h);
    } else if n > 0 {
        lemma_magnitude_grows(points, n - 1, n - 1, h);
        lemma_column_magnitude_grows(points[n - 1], 0, h);
    }
}

/// The board that a description stands for, with regions and scores
/// computed, and its two teams. An error if the description is none of a
/// board.
pub fn parse_field_data(val: &FieldDescription, final_turn: u8) -> (r: Result<FieldData, String>)
    ensures
        r is Ok <==> describes_field(*val, final_turn),
        r matches Err(e) ==> e@ == "couldn't parse "@ + field_fault(*val, final_turn),
        r matches Ok(data) ==> data.field.wf() && data.field@ == board_of(
            *val,
            final_turn,
        ).regioned().rescored() && data.teams.len() == 2 && forall|i: int|
            0 <= i < 2 ==> ((#[trigger] data.teams[i]).team_id, data.teams[i].agent_id@) == team_of(
                val.teams[i],
            ),
{
    let ghost wrows = table_of(val.walls);
    let ghost prows = table_of(val.points);
    if val.width < 1 || val.width > 127 || val.height > 127 {
        return Err(missing("width"));
    }
    if val.turn > final_turn as u64 {
        return Err(missing("turn"));
    }
    let width = val.width as usize;
    let height = val.height as usize;
    let now_turn = val.turn as u8;
    let team_data = match get_team_data(&val.teams) {
        Ok(data) => data,
        Err(e) => {
            return Err(e);
        },
    };
    let second = match get_team_data(&val.teams) {
        Ok(data) => data,
        Err(e) => {
            return Err(e);
        },
    };
    if val.teams[0].agents.len() != val.teams[1].agents.len() {
        return Err(missing("agents"));
    }
    assert(!all_placeable(*val) ==> field_fault(*val, final_turn) == "x"@);
    let mut agents: Vec<Vec<Option<Point>>> = Vec::new();
    let mut i: usize = 0;
    while i < 2
        invariant
            val.teams.len() >= 2,
            !all_placeable(*val) ==> field_fault(*val, final_turn) == "x"@,
            i <= 2,
            agents.len() == i,
            forall|a: int, k: int|
                0 <= a < i && 0 <= k < val.teams[a].agents.len() ==> placeable(
                    #[trigger] val.teams[a].agents[k],
                ),
            forall|a: int| 0 <= a < i ==> (#[trigger] agents[a])@ == places_of(val.teams@)[a],
        decreases 2 - i,
    {
        let list = &val.teams[i].agents;
        let mut row: Vec<Option<Point>> = Vec::new();
        let mut k: usize = 0;
        while k < list.len()
            invariant
                val.teams.len() >= 2,
                !all_placeable(*val) ==> field_fault(*val, final_turn) == "x"@,
                i < 2,
                list == &val.teams[i as int].agents,
                k <= list.len(),
                row.len() == k,
                forall|b: int| 0 <= b < k ==> placeable(#[trigger] list[b]),
                forall|b: int| 0 <= b < k ==> (#[trigger] row[b]) == place_of(list[b]),
            decreases list.len() - k,
        {
            let a = list[k];
            if a.x == 0 {
                row.push(None);
            } else if a.x > 128 || a.y < 1 || a.y > 128 {
                assert(!placeable(val.teams[i as int].agents[k as int]));
                return Err(missing("x"));
            } else {
                row.push(Some(Point { x: (a.x - 1) as i8, y: (a.y - 1) as i8 }));
            }
            k += 1;
        }
        assert(row@ =~= places_of(val.teams@)[i as int]);
        assert forall|a: int, k: int|
            0 <= a < i + 1 && 0 <= k < val.teams[a].agents.len() implies placeable(
            #[trigger] val.teams[a].agents[k],
        ) by {
            if a == i {
                assert(placeable(list[k]));
            }
        }
        agents.push(row);
        i += 1;
    }
    assert(table_of(agents) =~= places_of(val.teams@));
    assert(all_placeable(*val));
    proof {
        lemma_even_rows_ids(wrows);
        lemma_even_rows_points(prows);
    }
    let walls = match id_table(&val.walls) {
        Some(t) => match transpose(&t) {
            Some(t) => t,
            None => {
                return Err(missing("walls"));
            },
        },
        None => {
            return Err(missing("walls"));
        },
    };
    let points = match point_table(&val.points) {
        Some(t) => match transpose(&t) {
            Some(t) => t,
            None => {
                return Err(missing("points"));
            },
        },
        None => {
            return Err(missing("points"));
        },
    };
    proof {
        assert(even_rows(as_ids(wrows)) == even_rows(wrows)) by {
            lemma_even_rows_ids(wrows);
        }
        assert(even_rows(as_points(prows)) == even_rows(prows)) by {
            lemma_even_rows_points(prows);
        }
        assert(table_of(walls) == transposed(as_ids(wrows)));
        assert(table_of(points) == transposed(as_points(prows)));
    }
    // a table of columns has as many columns as the rows are long
    if walls.len() < width || points.len() < width || val.walls.len() < height || val.points.len()
        < height {
        proof {
            assert(wrows[0].len() == as_ids(wrows)[0].len());
            assert(prows[0].len() == as_points(prows)[0].len());
            assert(table_of(walls).len() == wrows[0].len());
            assert(table_of(points).len() == prows[0].len());
        }
        return Err(missing("walls"));
    }
    proof {
        assert(wrows[0].len() == as_ids(wrows)[0].len());
        assert(prows[0].len() == as_points(prows)[0].len());
        assert(table_of(walls).len() == wrows[0].len());
        assert(table_of(points).len() == prows[0].len());
        assert forall|x: int| 0 <= x < width implies (#[trigger] walls[x]).len() >= height by {
            assert(table_of(walls)[x] == walls[x]@);
            assert(transposed(as_ids(wrows))[x].len() == wrows.len());
        }
        assert forall|x: int| 0 <= x < width implies (#[trigger] points[x]).len() >= height by {
            assert(table_of(points)[x] == points[x]@);
            assert(transposed(as_points(prows))[x].len() == prows.len());
        }
    }
    assert(field_fault(*val, final_turn) == "points"@);
    let mut x: usize = 0;
    while x < width
        invariant
            field_fault(*val, final_turn) == "points"@,
            x <= width,
            width == val.width,
            height == val.height,
            prows == table_of(val.points),
            even_rows(prows),
            all_points(prows),
            prows.len() >= height,
            prows[0].len() >= width,
            points.len() >= width,
            table_of(points) == transposed(as_points(prows)),
            forall|a: int| 0 <= a < width ==> (#[trigger] points[a]).len() >= height,
            forall|a: int, b: int| 0 <= a < x && 0 <= b < height ==> (#[trigger] prows[b][a]) > i8::MIN,
        decreases width - x,
    {
        let mut y: usize = 0;
        while y < height
            invariant
                field_fault(*val, final_turn) == "points"@,
                x < width,
                y <= height,
                width == val.width,
                height == val.height,
                prows == table_of(val.points),
                even_rows(prows),
                all_points(prows),
                prows.len() >= height,
                prows[0].len() >= width,
                points.len() >= width,
                table_of(points) == transposed(as_points(prows)),
                forall|a: int| 0 <= a < width ==> (#[trigger] points[a]).len() >= height,
                forall|a: int, b: int|
                    0 <= a < x && 0 <= b < height ==> (#[trigger] prows[b][a]) > i8::MIN,
                forall|b: int| 0 <= b < y ==> (#[trigger] prows[b][x as int]) > i8::MIN,
            decreases height - y,
        {
            proof {
                assert(table_of(points)[x as int] == points[x as int]@);
                assert(prows[y as int].len() == prows[0].len());
                assert(as_points(prows)[y as int][x as int] == prows[y as int][x as int] as i8);
                assert(points[x as int][y as int] == prows[y as int][x as int] as i8);
                assert(i8::MIN <= prows[y as int][x as int] <= i8::MAX);
            }
            if points[x][y] == -128 {
                assert(!(prows[y as int][x as int] > i8::MIN));
                return Err(missing("points"));
            }
            y += 1;
        }
        x += 1;
    }
    if !magnitude_within(&points, width, height) {
        return Err(missing("points"));
    }
    proof {
        let tiles = described_tiles(
            width as int,
            height as int,
            team_data[0].team_id,
            team_data[1].team_id,
            table_of(walls),
            table_of(points),
        );
        assert forall|a: int| 0 <= a < width implies (#[trigger] tiles[a]).len() == height
            && table_of(points)[a].len() >= height by {
            assert(table_of(points)[a] == points[a]@);
        }
        lemma_magnitude_is_weight(tiles, table_of(points), width as int, height as int);
        assert(board_sum(tiles, weight()) == magnitude(
            table_of(points),
            width as int,
            height as int,
        ));
        assert forall|a: int, b: int| 0 <= a < width && 0 <= b < height implies (
        #[trigger] points[a][b]) > i8::MIN by {
            assert(table_of(points)[a] == points[a]@);
            assert(prows[b].len() == prows[0].len());
            assert(as_points(prows)[b][a] == prows[b][a] as i8);
            assert(prows[b][a] > i8::MIN);
            assert(i8::MIN <= prows[b][a] <= i8::MAX);
        }
        assert(team_of(val.teams[0]).0 == team_data[0].team_id);
        assert(team_of(val.teams[1]).0 == team_data[1].team_id);
        assert(agents[0]@ == places_of(val.teams@)[0]);
        assert(agents[1]@ == places_of(val.teams@)[1]);
    }
    let field = Field::from_data(
        width,
        height,
        team_data,
        walls,
        points,
        agents,
        now_turn,
        final_turn,
    );
    Ok(FieldData { field, teams: second })
}

/// Taking the numbers as ids changes no length.
pub proof fn lemma_even_rows_ids(rows: Seq<Seq<i64>>)
    ensures
        even_rows(as_ids(rows)) == even_rows(rows),
{
    if even_rows(rows) {
        assert forall|i: int| 0 <= i < as_ids(rows).len() implies (#[trigger] as_ids(rows)[i]).len()
            == as_ids(rows)[0].len() by {
            assert(rows[i].len() == rows[0].len());
        }
    }
    if even_rows(as_ids(rows)) {
        assert forall|i: int| 0 <= i < rows.len() implies (#[trigger] rows[i]).len()
            == rows[0].len() by {
            assert(as_ids(rows)[i].len() == as_ids(rows)[0].len());
        }
    }
}

/// Taking the numbers as points changes no length.
pub proof fn lemma_even_rows_points(rows: Seq<Seq<i64>>)
    ensures
        even_rows(as_points(rows)) == even_rows(rows),
{
    if even_rows(rows) {
        assert forall|i: int| 0 <= i < as_points(rows).len() implies (
        #[trigger] as_points(rows)[i]).len() == as_points(rows)[0].len() by {
            assert(rows[i].len() == rows[0].len());
        }
    }
    if even_rows(as_points(rows)) {
        assert forall|i: int| 0 <= i < rows.len() implies (#[trigger] rows[i]).len()
            == rows[0].len() by {
            assert(as_points(rows)[i].len() == as_points(rows)[0].len());
        }
    }
}

} // verus!
