//! The objective by which one way per agent is chosen among the ways that
//! the search found: what the ways are worth, less what is lost where the
//! agents crowd or stand in each other's way, plus what the walls built on
//! the ways enclose.
use crate::algorithms::social_distance::{
    apart, base_value, distinct, walled_upto, SocialDistance, DEPTH, MAX_VALUE, UNIT,
};
use crate::field::{abs, side_index, table_of, FieldView, Point, State};
use crate::simulator::Act;
use vstd::prelude::*;

verus! {

/// The largest weight that the objective takes: a thousand.
pub const MAX_PARAM: i64 = 1_000_000_000;

/// The largest number of agents that the objective takes.
pub const MAX_CHOICE: usize = 0x8000;

/// The score, in millionths, of a choice that sends two agents to one tile
/// with their first step.
pub const COLLISION: i64 = -100_000_000_000;

/// The weights of the objective, in millionths.
#[derive(Clone, Copy, Debug)]
pub struct Weights {
    /// What the points of the first step count on top of the way's value.
    pub first_move_bonus: i64,
    /// By how much the trust in a way fades with every turn.
    pub conf_per: i64,
    /// What a point that may not be reached costs.
    pub conf_pena: i64,
    /// What two agents on one tile cost; farther apart they cost less by
    /// the square of their distance.
    pub dist_pena: i64,
    /// By how much the cost of crowding fades with every turn.
    pub dist_pow: i64,
    /// What a point of region gained counts.
    pub region_per: i64,
    /// By how much the gain of region fades with every turn.
    pub region_pow: i64,
}

impl Weights {
    /// No weight is negative or above [`MAX_PARAM`], and nothing grows as
    /// it fades.
    pub open spec fn wf(self) -> bool {
        &&& 0 <= self.first_move_bonus <= MAX_PARAM
        &&& 0 <= self.conf_per <= UNIT
        &&& 0 <= self.conf_pena <= MAX_PARAM
        &&& 0 <= self.dist_pena <= MAX_PARAM
        &&& 0 <= self.dist_pow <= UNIT
        &&& 0 <= self.region_per <= MAX_PARAM
        &&& 0 <= self.region_pow <= UNIT
    }

    /// The weights by which a planner chooses unless it is given others.
    pub fn standard() -> (w: Weights)
        ensures
            w.wf(),
            w == (Weights {
                first_move_bonus: 1_000_000,
                conf_per: 600_000,
                conf_pena: 3_500_000,
                dist_pena: 30_000_000,
                dist_pow: 400_000,
                region_per: 1_000_000,
                region_pow: 900_000,
            }),
    {
        Weights {
            first_move_bonus: 1_000_000,
            conf_per: 600_000,
            conf_pena: 3_500_000,
            dist_pena: 30_000_000,
            dist_pow: 400_000,
            region_per: 1_000_000,
            region_pow: 900_000,
        }
    }

    /// Whether the weights are in order.
    pub fn fits(&self) -> (b: bool)
        ensures
            b == self.wf(),
    {
        0 <= self.first_move_bonus && self.first_move_bonus <= MAX_PARAM && 0 <= self.conf_per
            && self.conf_per <= UNIT && 0 <= self.conf_pena && self.conf_pena <= MAX_PARAM && 0
            <= self.dist_pena && self.dist_pena <= MAX_PARAM && 0 <= self.dist_pow && self.dist_pow
            <= UNIT && 0 <= self.region_per && self.region_per <= MAX_PARAM && 0
            <= self.region_pow && self.region_pow <= UNIT
    }
}

/// The part `b` of `a`, where `b` is in millionths: rounded down.
pub open spec fn part(a: int, b: int) -> int {
    a * b / (UNIT as int)
}

/// A part of what is not negative is not negative and no more than the
/// whole.
pub proof fn lemma_part_bounds(a: int, b: int)
    requires
        0 <= a,
        0 <= b <= UNIT,
    ensures
        0 <= part(a, b) <= a,
{
    assert(0 <= a * b <= a * UNIT) by (nonlinear_arith)
        requires
            0 <= a,
            0 <= b <= UNIT,
    ;
}

/// The part `b` of `a`, computed.
pub fn part_of(a: i64, b: i64) -> (r: i64)
    requires
        0 <= a,
        0 <= b <= UNIT,
    ensures
        r == part(a as int, b as int),
        0 <= r <= a,
{
    proof {
        lemma_part_bounds(a as int, b as int);
    }
    assert(0 <= a * b <= a * UNIT) by (nonlinear_arith)
        requires
            0 <= a,
            0 <= b <= UNIT,
    ;
    let wide: i128 = a as i128 * b as i128;
    (wide / UNIT as i128) as i64
}

/// What is left of one after fading by `base` for `e` turns, rounded down
/// every turn.
pub open spec fn power(base: int, e: nat) -> int
    decreases e,
{
    if e == 0 {
        UNIT as int
    } else {
        part(power(base, (e - 1) as nat), base)
    }
}

pub proof fn lemma_power_bounds(base: int, e: nat)
    requires
        0 <= base <= UNIT,
    ensures
        0 <= power(base, e) <= UNIT,
    decreases e,
{
    if e > 0 {
        lemma_power_bounds(base, (e - 1) as nat);
        lemma_part_bounds(power(base, (e - 1) as nat), base);
    }
}

/// What is left of one after fading by `base` for `e` turns, computed.
pub fn power_at(base: i64, e: usize) -> (r: i64)
    requires
        0 <= base <= UNIT,
    ensures
        r == power(base as int, e as nat),
        0 <= r <= UNIT,
{
    let mut r: i64 = UNIT;
    let mut k: usize = 0;
    while k < e
        invariant
            0 <= base <= UNIT,
            k <= e,
            r == power(base as int, k as nat),
            0 <= r <= UNIT,
        decreases e - k,
    {
        r = part_of(r, base);
        k += 1;
    }
    r
}

/// The square of the distance between two tiles.
pub open spec fn gap(a: Point, b: Point) -> int {
    (a.x - b.x) * (a.x - b.x) + (a.y - b.y) * (a.y - b.y)
}

/// The square of the distance between two tiles, computed.
pub fn gap_of(a: Point, b: Point) -> (g: i64)
    ensures
        g == gap(a, b),
        0 <= g <= 130050,
{
    let dx: i64 = a.x as i64 - b.x as i64;
    let dy: i64 = a.y as i64 - b.y as i64;
    assert(0 <= dx * dx <= 65025) by (nonlinear_arith)
        requires
            -255 <= dx <= 255,
    ;
    assert(0 <= dy * dy <= 65025) by (nonlinear_arith)
        requires
            -255 <= dy <= 255,
    ;
    dx * dx + dy * dy
}

/// What it costs that two agents are on the tiles `a` and `b` after `j`
/// turns, where they arrive with the chances `pa` and `pb`: the weight of
/// crowding, faded for `j` turns, by both chances, divided by the square of
/// the distance; twice that on one tile.
pub open spec fn pair_cost(w: Weights, j: int, pa: i64, pb: i64, a: Point, b: Point) -> int {
    let t = part(
        part(part(w.dist_pena as int, power(w.dist_pow as int, j as nat)), pa as int),
        pb as int,
    );
    if gap(a, b) == 0 {
        2 * t
    } else {
        t / gap(a, b)
    }
}

/// What the first `k` agents cost agent `i` by being near it.
pub open spec fn crowd_row(w: Weights, j: int, reach: Seq<i64>, tiles: Seq<Point>, i: int, k: int) -> int
    decreases k,
{
    if k <= 0 {
        0
    } else {
        crowd_row(w, j, reach, tiles, i, k - 1) + pair_cost(
            w,
            j,
            reach[i],
            reach[k - 1],
            tiles[i],
            tiles[k - 1],
        )
    }
}

/// What the first `n` agents cost each other by being near: every pair is
/// counted once.
pub open spec fn crowd(w: Weights, j: int, reach: Seq<i64>, tiles: Seq<Point>, n: int) -> int
    decreases n,
{
    if n <= 0 {
        0
    } else {
        crowd(w, j, reach, tiles, n - 1) + crowd_row(w, j, reach, tiles, n - 1, n - 1)
    }
}

/// Every chance is between nothing and one.
pub open spec fn chances(reach: Seq<i64>) -> bool {
    forall|k: int| 0 <= k < reach.len() ==> 0 <= #[trigger] reach[k] <= UNIT
}

/// The most that one agent can be cost by the others.
pub const ROW_MAX: i128 = 65_536_000_000_000;

/// What the agents cost each other by being near, computed. `fade` is the
/// weight of crowding faded for `j` turns.
fn crowd_of(w: &Weights, Ghost(j): Ghost<int>, fade: i64, reach: &Vec<i64>, tiles: &Vec<Point>) -> (r: i128)
    requires
        w.wf(),
        0 <= j,
        fade == part(w.dist_pena as int, power(w.dist_pow as int, j as nat)),
        0 <= fade <= MAX_PARAM,
        reach.len() == tiles.len(),
        tiles.len() <= MAX_CHOICE,
        chances(reach@),
    ensures
        r == crowd(*w, j, reach@, tiles@, tiles.len() as int),
        0 <= r <= tiles.len() * ROW_MAX,
{
    let n = tiles.len();
    let mut total: i128 = 0;
    let mut i: usize = 0;
    while i < n
        invariant
            w.wf(),
            0 <= j,
            fade == part(w.dist_pena as int, power(w.dist_pow as int, j as nat)),
            0 <= fade <= MAX_PARAM,
            n == tiles.len(),
            reach.len() == n,
            n <= MAX_CHOICE,
            chances(reach@),
            i <= n,
            total == crowd(*w, j, reach@, tiles@, i as int),
            0 <= total <= i * ROW_MAX,
        decreases n - i,
    {
        let mut row: i128 = 0;
        let mut k: usize = 0;
        while k < i
            invariant
                w.wf(),
                0 <= j,
                fade == part(w.dist_pena as int, power(w.dist_pow as int, j as nat)),
                0 <= fade <= MAX_PARAM,
                n == tiles.len(),
                reach.len() == n,
                n <= MAX_CHOICE,
                chances(reach@),
                i < n,
                k <= i,
                row == crowd_row(*w, j, reach@, tiles@, i as int, k as int),
                0 <= row <= k * 2_000_000_000,
            decreases i - k,
        {
            let t = part_of(part_of(fade, reach[i]), reach[k]);
            let g = gap_of(tiles[i], tiles[k]);
            let cost: i64 = if g == 0 {
                2 * t
            } else {
                assert(0 <= t / g <= t) by (nonlinear_arith)
                    requires
                        0 <= t,
                        1 <= g,
                ;
                t / g
            };
            row = row + cost as i128;
            k += 1;
        }
        total = total + row;
        i += 1;
    }
    total
}

/// How a choice of ways looks after some turns: its score so far, the
/// chance with which each agent has come as far as its way says, for every
/// tile the chance that an agent has come to it, and the board with the
/// walls that the ways build.
pub ghost struct Outlook {
    pub score: int,
    pub reach: Seq<i64>,
    pub trodden: Seq<Seq<Option<i64>>>,
    pub board: FieldView,
}

/// The chances kept for the tiles are between nothing and one, and there
/// is a place for every tile of the board.
pub open spec fn trodden_ok(fv: FieldView, trodden: Seq<Seq<Option<i64>>>) -> bool {
    &&& trodden.len() == fv.width()
    &&& forall|x: int| 0 <= x < trodden.len() ==> (#[trigger] trodden[x]).len() == fv.height()
    &&& forall|x: int, y: int|
        0 <= x < trodden.len() && 0 <= y < trodden[x].len() && (#[trigger] trodden[x][y]) is Some
            ==> 0 <= trodden[x][y]->0 <= UNIT
}

/// The outlook after agent `i` has taken step `j` of its way `path`.
///
/// An agent that stays where it is arrives if it has come so far. One
/// that steps onto a tile arrives if it has come so far and no agent came
/// to the tile before it; the chance that an agent has come to the tile
/// grows by the agent's own, faded for the turns before. What the tile is
/// worth, unless it is a wall of the side already, is lost by the weight
/// of trust, faded likewise, as far as the agent does not arrive.
pub open spec fn arrived(
    w: Weights,
    fv: FieldView,
    side: bool,
    j: int,
    o: Outlook,
    path: Seq<Point>,
    i: int,
) -> Outlook {
    let pos = path[j];
    let fade = power(w.conf_per as int, (j - 1) as nat);
    let before = o.trodden[pos.x as int][pos.y as int];
    let stay = path[j - 1] == pos;
    let free = if stay {
        UNIT as int
    } else {
        match before {
            Some(v) => UNIT - v,
            None => UNIT as int,
        }
    };
    let per = part(free, o.reach[i] as int);
    let trodden = if stay {
        o.trodden
    } else {
        let v = match before {
            Some(v) => v + part(part(UNIT - v, o.reach[i] as int), fade),
            None => part(o.reach[i] as int, fade),
        };
        o.trodden.update(
            pos.x as int,
            o.trodden[pos.x as int].update(pos.y as int, Some(v as i64)),
        )
    };
    let tile = fv.tile_at(pos);
    let raw = if tile.state == State::Wall(side) {
        0
    } else {
        tile.point as int
    };
    let lost = part(part(w.conf_pena * abs(raw), fade), UNIT - per);
    Outlook {
        score: o.score - (if raw < 0 {
            -lost
        } else {
            lost
        }),
        reach: o.reach.update(i, per as i64),
        trodden,
        board: o.board,
    }
}

/// The outlook after the first `n` agents have taken step `j` of their
/// ways, one after the other.
pub open spec fn arrivals(
    w: Weights,
    fv: FieldView,
    side: bool,
    j: int,
    o: Outlook,
    plans: Seq<(i64, Act, Vec<Point>)>,
    n: int,
) -> Outlook
    decreases n,
{
    if n <= 0 {
        o
    } else {
        arrived(w, fv, side, j, arrivals(w, fv, side, j, o, plans, n - 1), plans[n - 1].2@, n - 1)
    }
}

impl<'a> SocialDistance<'a> {
    /// Lets agent `i` take step `j` of its way and returns what is lost
    /// by it. `fade` is what is left of one after `j - 1` turns.
    fn arrive(
        &self,
        w: &Weights,
        j: usize,
        fade: i64,
        path: &Vec<Point>,
        i: usize,
        reach: &mut Vec<i64>,
        trodden: &mut Vec<Vec<Option<i64>>>,
        Ghost(o): Ghost<Outlook>,
    ) -> (lost: i64)
        requires
            self.field.wf(),
            w.wf(),
            1 <= j < path.len(),
            self.field@.inside(path[j as int]),
            fade == power(w.conf_per as int, (j - 1) as nat),
            i < old(reach).len(),
            chances(old(reach)@),
            trodden_ok(self.field@, table_of(*old(trodden))),
            o.reach == old(reach)@,
            o.trodden == table_of(*old(trodden)),
        ensures
            arrived(*w, self.field@, self.side, j as int, o, path@, i as int).score == o.score - lost,
            arrived(*w, self.field@, self.side, j as int, o, path@, i as int).reach == final(reach)@,
            arrived(*w, self.field@, self.side, j as int, o, path@, i as int).trodden == table_of(
                *final(trodden),
            ),
            arrived(*w, self.field@, self.side, j as int, o, path@, i as int).board == o.board,
            chances(final(reach)@),
            trodden_ok(self.field@, table_of(*final(trodden))),
            final(reach).len() == old(reach).len(),
            -128 * MAX_PARAM <= lost <= 128 * MAX_PARAM,
    {
        let ghost fv = self.field@;
        let ghost t0 = table_of(*trodden);
        proof {
            lemma_power_bounds(w.conf_per as int, (j - 1) as nat);
        }
        let pos = path[j];
        let x = pos.x as usize;
        let y = pos.y as usize;
        let stay = path[j - 1] == pos;
        let had = reach[i];
        assert(0 <= had <= UNIT);
        assert(t0[x as int] == trodden[x as int]@);
        let before = trodden[x][y];
        assert(before == t0[x as int][y as int]);
        let free: i64 = if stay {
            UNIT
        } else {
            match before {
                Some(v) => UNIT - v,
                None => UNIT,
            }
        };
        let per = part_of(free, had);
        if !stay {
            let v: i64 = match before {
                Some(v) => v + part_of(part_of(UNIT - v, had), fade),
                None => part_of(had, fade),
            };
            trodden[x][y] = Some(v);
            proof {
                let t1 = t0.update(x as int, t0[x as int].update(y as int, Some(v)));
                assert(table_of(*trodden) =~~= t1);
            }
        }
        reach.set(i, per);
        let tile = self.field.tile(pos.usize());
        let raw: i64 = match tile.state() {
            State::Wall(owner) => if owner == self.side {
                0
            } else {
                tile.point() as i64
            },
            _ => tile.point() as i64,
        };
        let size: i64 = if raw < 0 {
            -raw
        } else {
            raw
        };
        assert(w.conf_pena * size <= 128 * MAX_PARAM) by (nonlinear_arith)
            requires
                0 <= w.conf_pena <= MAX_PARAM,
                0 <= size <= 128,
        ;
        assert(0 <= w.conf_pena * size) by (nonlinear_arith)
            requires
                0 <= w.conf_pena,
                0 <= size,
        ;
        let lost = part_of(part_of(w.conf_pena * size, fade), UNIT - per);
        if raw < 0 {
            -lost
        } else {
            lost
        }
    }
}

/// What a way counts before the agents take a step: its value, and by
/// the bonus for first steps the points of its first step, rounded
/// towards nothing; ten thousand points are lost for a first step that
/// is worth nothing at all.
pub open spec fn first_worth(
    w: Weights,
    fv: FieldView,
    side: bool,
    agents: Seq<Point>,
    plan: (i64, Act, Vec<Point>),
) -> int {
    plan.0 + match base_value(fv, side, agents, Seq::empty(), plan.2[1], plan.1) {
        Some(t) => if t >= 0 {
            t * w.first_move_bonus / 10
        } else {
            -((-t) * w.first_move_bonus / 10)
        },
        None => -(10000 * w.first_move_bonus),
    }
}

/// What the first `n` ways count before the agents take a step.
pub open spec fn opening(
    w: Weights,
    fv: FieldView,
    side: bool,
    agents: Seq<Point>,
    plans: Seq<(i64, Act, Vec<Point>)>,
    n: int,
) -> int
    decreases n,
{
    if n <= 0 {
        0
    } else {
        opening(w, fv, side, agents, plans, n - 1) + first_worth(w, fv, side, agents, plans[n - 1])
    }
}

/// The ways chosen: of the ways of every agent the one that `sel` names.
pub open spec fn picked_plans(bs_data: Seq<Vec<(i64, Act, Vec<Point>)>>, sel: Seq<usize>) -> Seq<
    (i64, Act, Vec<Point>),
> {
    Seq::new(sel.len(), |i: int| bs_data[i][sel[i] as int])
}

/// The tiles on which the ways are after `j` turns.
pub open spec fn tiles_at(plans: Seq<(i64, Act, Vec<Point>)>, j: int) -> Seq<Point> {
    Seq::new(plans.len(), |i: int| plans[i].2[j])
}

/// The outlook after turn `j`, from the outlook `o` before it. What the
/// agents cost each other by being near is lost. Walls are built where
/// the agents are, the scores counted and the regions marked; what the
/// region score counted has gained on `init_region` counts by the weight
/// of regions, faded for the turns before. Then the agents arrive, one
/// after the other.
pub open spec fn looked(
    w: Weights,
    fv: FieldView,
    side: bool,
    o: Outlook,
    plans: Seq<(i64, Act, Vec<Point>)>,
    j: int,
    init_region: int,
) -> Outlook {
    let tiles = tiles_at(plans, j);
    let board = walled_upto(o.board, side, tiles, tiles.len() as int).rescored().regioned();
    let gain = part(w.region_per as int, power(w.region_pow as int, (j - 1) as nat)) * (
    board.scores[side_index(side)].region - init_region);
    arrivals(
        w,
        fv,
        side,
        j,
        Outlook {
            score: o.score - crowd(w, j, o.reach, tiles, tiles.len() as int) + gain,
            reach: o.reach,
            trodden: o.trodden,
            board,
        },
        plans,
        plans.len() as int,
    )
}

/// The outlook after `j` turns.
pub open spec fn looked_upto(
    w: Weights,
    fv: FieldView,
    side: bool,
    o: Outlook,
    plans: Seq<(i64, Act, Vec<Point>)>,
    j: int,
    init_region: int,
) -> Outlook
    decreases j,
{
    if j <= 0 {
        o
    } else {
        looked(w, fv, side, looked_upto(w, fv, side, o, plans, j - 1, init_region), plans, j, init_region)
    }
}

/// The outlook before the agents take a step: every agent is where its
/// way starts, for certain, and no tile has been come to.
pub open spec fn first_outlook(
    w: Weights,
    fv: FieldView,
    side: bool,
    agents: Seq<Point>,
    plans: Seq<(i64, Act, Vec<Point>)>,
) -> Outlook {
    Outlook {
        score: opening(w, fv, side, agents, plans, plans.len() as int),
        reach: Seq::new(plans.len(), |i: int| UNIT),
        trodden: Seq::new(
            fv.width() as nat,
            |x: int| Seq::new(fv.height() as nat, |y: int| None::<i64>),
        ),
        board: fv,
    }
}

/// The outlook of a choice of ways after [`DEPTH`] turns. A choice that
/// sends two agents to one tile with their first step scores
/// [`COLLISION`] and is looked at no further.
pub open spec fn outlook(
    w: Weights,
    fv: FieldView,
    side: bool,
    agents: Seq<Point>,
    plans: Seq<(i64, Act, Vec<Point>)>,
) -> Outlook {
    let start = first_outlook(w, fv, side, agents, plans);
    if !apart(tiles_at(plans, 1)) {
        Outlook { score: COLLISION as int, ..start }
    } else {
        looked_upto(
            w,
            fv,
            side,
            start,
            plans,
            DEPTH as int,
            fv.scores[side_index(side)].region as int,
        )
    }
}

/// The way has a tile of the board for the start and for each of the
/// [`DEPTH`] turns, and a value that the search can give.
pub open spec fn plan_fits(fv: FieldView, plan: (i64, Act, Vec<Point>)) -> bool {
    &&& plan.2.len() == DEPTH + 1
    &&& forall|j: int| 0 <= j <= DEPTH ==> fv.inside(#[trigger] plan.2[j])
    &&& -MAX_VALUE <= plan.0 <= MAX_VALUE
}

/// The most that the ways can count before the agents take a step.
pub const OPEN_MAX: i128 = 40_000_000_000_000_000_000;

/// The most that a turn can change the score by.
pub const TURN_MAX: i128 = 3_000_000_000_000_000_000;

impl<'a> SocialDistance<'a> {
    /// The tiles on which the chosen ways are after `j` turns.
    fn tiles_of(
        &self,
        bs_data: &Vec<Vec<(i64, Act, Vec<Point>)>>,
        sel: &Vec<usize>,
        j: usize,
    ) -> (tiles: Vec<Point>)
        requires
            sel.len() == bs_data.len(),
            j <= DEPTH,
            forall|i: int| 0 <= i < sel.len() ==> (#[trigger] sel[i]) < bs_data[i].len(),
            forall|i: int|
                0 <= i < sel.len() ==> plan_fits(self.field@, #[trigger] picked_plans(bs_data@, sel@)[i]),
        ensures
            tiles@ == tiles_at(picked_plans(bs_data@, sel@), j as int),
            forall|k: int| 0 <= k < tiles.len() ==> self.field@.inside(#[trigger] tiles[k]),
    {
        let ghost plans = picked_plans(bs_data@, sel@);
        let n = sel.len();
        let mut tiles: Vec<Point> = Vec::new();
        let mut i: usize = 0;
        while i < n
            invariant
                n == sel.len(),
                sel.len() == bs_data.len(),
                j <= DEPTH,
                plans == picked_plans(bs_data@, sel@),
                forall|i: int| 0 <= i < sel.len() ==> (#[trigger] sel[i]) < bs_data[i].len(),
                forall|i: int| 0 <= i < sel.len() ==> plan_fits(self.field@, #[trigger] plans[i]),
                i <= n,
                tiles.len() == i,
                forall|k: int| 0 <= k < i ==> (#[trigger] tiles[k]) == plans[k].2[j as int],
                forall|k: int| 0 <= k < i ==> self.field@.inside(#[trigger] tiles[k]),
            decreases n - i,
        {
            assert(plan_fits(self.field@, plans[i as int]));
            let plan = &bs_data[i][sel[i]];
            tiles.push(plan.2[j]);
            i += 1;
        }
        assert(tiles@ =~= tiles_at(plans, j as int));
        tiles
    }

    /// What the chosen ways count before the agents take a step.
    fn opening_of(
        &self,
        w: &Weights,
        bs_data: &Vec<Vec<(i64, Act, Vec<Point>)>>,
        sel: &Vec<usize>,
    ) -> (total: i128)
        requires
            self.field.wf(),
            w.wf(),
            sel.len() == bs_data.len(),
            sel.len() <= MAX_CHOICE,
            forall|i: int| 0 <= i < sel.len() ==> (#[trigger] sel[i]) < bs_data[i].len(),
            forall|i: int|
                0 <= i < sel.len() ==> plan_fits(self.field@, #[trigger] picked_plans(bs_data@, sel@)[i]),
        ensures
            total == opening(
                *w,
                self.field@,
                self.side,
                self.agent_set@,
                picked_plans(bs_data@, sel@),
                sel.len() as int,
            ),
            -OPEN_MAX <= total <= OPEN_MAX,
    {
        let ghost plans = picked_plans(bs_data@, sel@);
        let n = sel.len();
        let none: Vec<Point> = Vec::new();
        assert(none@ =~= Seq::empty());
        let mut total: i128 = 0;
        let mut i: usize = 0;
        while i < n
            invariant
                self.field.wf(),
                w.wf(),
                n == sel.len(),
                sel.len() == bs_data.len(),
                n <= MAX_CHOICE,
                none@ == Seq::<Point>::empty(),
                plans == picked_plans(bs_data@, sel@),
                forall|i: int| 0 <= i < sel.len() ==> (#[trigger] sel[i]) < bs_data[i].len(),
                forall|i: int| 0 <= i < sel.len() ==> plan_fits(self.field@, #[trigger] plans[i]),
                i <= n,
                total == opening(*w, self.field@, self.side, self.agent_set@, plans, i as int),
                -i * 1_020_000_000_000_000 <= total <= i * 1_020_000_000_000_000,
            decreases n - i,
        {
            assert(plan_fits(self.field@, plans[i as int]));
            let plan = &bs_data[i][sel[i]];
            let first: i128 = match self.calc_base(&none, &plan.2[1], &plan.1) {
                Some(t) => {
                    let size: i64 = if t < 0 {
                        -t
                    } else {
                        t
                    };
                    assert(0 <= size * w.first_move_bonus <= 2560 * MAX_PARAM) by (nonlinear_arith)
                        requires
                            0 <= size <= 2560,
                            0 <= w.first_move_bonus <= MAX_PARAM,
                    ;
                    let worth: i64 = size * w.first_move_bonus / 10;
                    if t < 0 {
                        -(worth as i128)
                    } else {
                        worth as i128
                    }
                },
                None => -(10000 * w.first_move_bonus as i128),
            };
            total = total + plan.0 as i128 + first;
            i += 1;
        }
        total
    }

    /// Scores a choice of one way per agent, before the penalty for ways
    /// that the agents are unlikely to finish: the score in millionths,
    /// and for every agent the chance, in millionths, that it comes to
    /// the end of its way.
    ///
    /// The ways count their values and the bonus for their first steps.
    /// Then the agents follow their ways turn by turn. Every turn costs
    /// what the agents lose by being near each other and by finding a
    /// tile taken, and gains what the walls built so far enclose.
    pub fn calc_score(
        &self,
        w: &Weights,
        bs_data: &Vec<Vec<(i64, Act, Vec<Point>)>>,
        sel: &Vec<usize>,
    ) -> (r: (i128, Vec<i64>))
        requires
            self.field.wf(),
            w.wf(),
            sel.len() == bs_data.len(),
            sel.len() <= MAX_CHOICE,
            forall|i: int| 0 <= i < sel.len() ==> (#[trigger] sel[i]) < bs_data[i].len(),
            forall|i: int|
                0 <= i < sel.len() ==> plan_fits(self.field@, #[trigger] picked_plans(bs_data@, sel@)[i]),
        ensures
            r.0 == outlook(
                *w,
                self.field@,
                self.side,
                self.agent_set@,
                picked_plans(bs_data@, sel@),
            ).score,
            r.1@ == outlook(
                *w,
                self.field@,
                self.side,
                self.agent_set@,
                picked_plans(bs_data@, sel@),
            ).reach,
    {
        let ghost fv = self.field@;
        let ghost plans = picked_plans(bs_data@, sel@);
        let ghost start = first_outlook(*w, fv, self.side, self.agent_set@, plans);
        let n = sel.len();
        let width = self.field.width();
        let height = self.field.height();
        let mut score = self.opening_of(w, bs_data, sel);
        let mut reach: Vec<i64> = Vec::new();
        let mut i: usize = 0;
        while i < n
            invariant
                i <= n,
                reach.len() == i,
                forall|k: int| 0 <= k < i ==> (#[trigger] reach[k]) == UNIT,
            decreases n - i,
        {
            reach.push(UNIT);
            i += 1;
        }
        let mut trodden: Vec<Vec<Option<i64>>> = Vec::new();
        let mut x: usize = 0;
        while x < width
            invariant
                x <= width,
                trodden.len() == x,
                forall|a: int| 0 <= a < x ==> (#[trigger] trodden[a]).len() == height,
                forall|a: int, b: int| 0 <= a < x && 0 <= b < height ==> (#[trigger] trodden[a][b]) is None,
            decreases width - x,
        {
            let mut col: Vec<Option<i64>> = Vec::new();
            let mut y: usize = 0;
            while y < height
                invariant
                    y <= height,
                    col.len() == y,
                    forall|b: int| 0 <= b < y ==> (#[trigger] col[b]) is None,
                decreases height - y,
            {
                col.push(None);
                y += 1;
            }
            trodden.push(col);
            x += 1;
        }
        proof {
            assert(reach@ =~= start.reach);
            assert(table_of(trodden) =~~= start.trodden);
        }
        let first = self.tiles_of(bs_data, sel, 1);
        if !distinct(&first) {
            return (COLLISION as i128, reach);
        }
        let mut board = self.field.clone();
        let init_region = self.field.score(self.side).region();
        let ghost mut o = start;
        let mut j: usize = 1;
        while j <= DEPTH
            invariant
                self.field.wf(),
                fv == self.field@,
                w.wf(),
                n == sel.len(),
                sel.len() == bs_data.len(),
                n <= MAX_CHOICE,
                plans == picked_plans(bs_data@, sel@),
                forall|i: int| 0 <= i < sel.len() ==> (#[trigger] sel[i]) < bs_data[i].len(),
                forall|i: int| 0 <= i < sel.len() ==> plan_fits(fv, #[trigger] plans[i]),
                init_region == fv.scores[side_index(self.side)].region,
                1 <= j <= DEPTH + 1,
                o == looked_upto(*w, fv, self.side, start, plans, j - 1, init_region as int),
                score == o.score,
                reach@ == o.reach,
                table_of(trodden) == o.trodden,
                board@ == o.board,
                board.wf(),
                board@.width() == fv.width(),
                board@.height() == fv.height(),
                reach.len() == n,
                chances(reach@),
                trodden_ok(fv, table_of(trodden)),
                -(OPEN_MAX + (j - 1) * TURN_MAX) <= score <= OPEN_MAX + (j - 1) * TURN_MAX,
            decreases DEPTH + 1 - j,
        {
            let tiles = self.tiles_of(bs_data, sel, j);
            proof {
                lemma_power_bounds(w.dist_pow as int, j as nat);
                lemma_power_bounds(w.region_pow as int, (j - 1) as nat);
            }
            let near = part_of(w.dist_pena, power_at(w.dist_pow, j));
            let crowded = crowd_of(w, Ghost(j as int), near, &reach, &tiles);
            let ghost before = board@;
            let region = self.project(&mut board, &tiles);
            let rate = part_of(w.region_per, power_at(w.region_pow, j - 1));
            let diff: i128 = region as i128 - init_region as i128;
            assert(-65535 * MAX_PARAM <= rate * diff <= 65535 * MAX_PARAM) by (nonlinear_arith)
                requires
                    0 <= rate <= MAX_PARAM,
                    -65535 <= diff <= 65535,
            ;
            score = score - crowded + rate as i128 * diff;
            let fade = power_at(w.conf_per, j - 1);
            let ghost mid = Outlook { score: score as int, reach: o.reach, trodden: o.trodden, board: board@ };
            proof {
                o = mid;
            }
            let mut i: usize = 0;
            while i < n
                invariant
                    self.field.wf(),
                    fv == self.field@,
                    w.wf(),
                    n == sel.len(),
                    sel.len() == bs_data.len(),
                    n <= MAX_CHOICE,
                    plans == picked_plans(bs_data@, sel@),
                    forall|i: int| 0 <= i < sel.len() ==> (#[trigger] sel[i]) < bs_data[i].len(),
                    forall|i: int| 0 <= i < sel.len() ==> plan_fits(fv, #[trigger] plans[i]),
                    1 <= j <= DEPTH,
                    fade == power(w.conf_per as int, (j - 1) as nat),
                    i <= n,
                    o == arrivals(*w, fv, self.side, j as int, mid, plans, i as int),
                    score == o.score,
                    reach@ == o.reach,
                    table_of(trodden) == o.trodden,
                    board@ == o.board,
                    reach.len() == n,
                    chances(reach@),
                    trodden_ok(fv, table_of(trodden)),
                    -(OPEN_MAX + (j - 1) * TURN_MAX + 2_500_000_000_000_000_000 + i * 128_000_000_000)
                        <= score <= OPEN_MAX + (j - 1) * TURN_MAX + 2_500_000_000_000_000_000 + i
                        * 128_000_000_000,
                decreases n - i,
            {
                assert(plan_fits(fv, plans[i as int]));
                let plan = &bs_data[i][sel[i]];
                let lost = self.arrive(w, j, fade, &plan.2, i, &mut reach, &mut trodden, Ghost(o));
                proof {
                    o = arrived(*w, fv, self.side, j as int, o, plan.2@, i as int);
                }
                score = score - lost as i128;
                i += 1;
            }
            j += 1;
        }
        (score, reach)
    }
}

} // verus!
