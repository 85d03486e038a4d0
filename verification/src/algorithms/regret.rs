//! Regret matching: both sides draw joint actions again and again, each
//! agent collects for every action the regret of not having played it, and
//! plays an action the more often the more regret it has collected.
use crate::algorithms::matching::{
    along, hit, lemma_along_is_masked, lemma_sum_grows, lemma_sum_same, masked, one_to_one, sum_to,
};
use crate::field::{side_index, table_of, Field, FieldView};
use crate::random::draw_range;
use crate::simulator::{
    act_list, executes, listed, resolves, settled, Act,
};
use rand::rngs::StdRng;
use vstd::prelude::*;

verus! {

/// The largest magnitude of a score.
pub const MAX_SCORE: i64 = 0x100_0000_0000;

/// The most agents a side may have.
pub const MAX_AGENTS: usize = 0x8000;

/// The most candidates an agent may have.
pub const MAX_ACTS: usize = 0x10_0000;

/// The most a regret can grow in one round.
pub const MAX_GAIN: i128 = 0x400_0000_0000_0000;

/// What a probability of one is written as.
pub const PROB_ONE: i64 = 1_000_000;

/// The score that `map` gives `act`: that of the first entry for it from
/// index `from` on, or nothing if there is none.
pub open spec fn lookup(map: Seq<(Act, i64)>, act: Act, from: int) -> int
    decreases map.len() - from,
{
    if from < 0 || from >= map.len() {
        0
    } else if map[from].0 == act {
        map[from].1 as int
    } else {
        lookup(map, act, from + 1)
    }
}

/// The score that `map` gives `act`, or nothing if it has none for it.
pub open spec fn score_of(map: Seq<(Act, i64)>, act: Act) -> int {
    lookup(map, act, 0)
}

/// Every score of the map is at most [`MAX_SCORE`] in magnitude.
pub open spec fn scores_bounded(map: Seq<(Act, i64)>) -> bool {
    forall|k: int| 0 <= k < map.len() ==> -MAX_SCORE <= (#[trigger] map[k]).1 <= MAX_SCORE
}

pub proof fn lemma_lookup_bounded(map: Seq<(Act, i64)>, act: Act, from: int)
    requires
        scores_bounded(map),
    ensures
        -MAX_SCORE <= lookup(map, act, from) <= MAX_SCORE,
    decreases map.len() - from,
{
    if 0 <= from < map.len() && map[from].0 != act {
        lookup_step(map, act, from);
    }
}

proof fn lookup_step(map: Seq<(Act, i64)>, act: Act, from: int)
    requires
        scores_bounded(map),
        0 <= from < map.len(),
    ensures
        -MAX_SCORE <= lookup(map, act, from + 1) <= MAX_SCORE,
    decreases map.len() - from,
{
    if from + 1 < map.len() && map[from + 1].0 != act {
        lookup_step(map, act, from + 1);
    }
}

/// The score that `map` gives `act`, computed.
pub fn score(map: &Vec<(Act, i64)>, act: Act) -> (v: i64)
    ensures
        v == score_of(map@, act),
{
    let mut k: usize = 0;
    while k < map.len()
        invariant
            k <= map.len(),
            score_of(map@, act) == lookup(map@, act, k as int),
        decreases map.len() - k,
    {
        if map[k].0 == act {
            return map[k].1;
        }
        k += 1;
    }
    0
}

/// The side of the agent with number `a` when the agents of both sides are
/// counted through, the first side first.
pub open spec fn side_at(n: int, a: int) -> bool {
    a >= n
}

/// The number within its side of the agent with number `a`.
pub open spec fn id_at(n: int, a: int) -> int {
    if a >= n {
        a - n
    } else {
        a
    }
}

/// The number of agent `i` of side `s` when both sides are counted through.
pub open spec fn number_of(n: int, s: bool, i: int) -> int {
    if s {
        n + i
    } else {
        i
    }
}

/// What each agent's action is worth to it if it happens: the score that
/// the agent's map gives the action that stands for it.
pub open spec fn worths(
    fv: FieldView,
    acts: Seq<Seq<Act>>,
    scores: Seq<Seq<Seq<(Act, i64)>>>,
) -> Seq<int> {
    let n = fv.agent_count();
    Seq::new(
        (2 * n) as nat,
        |a: int|
            score_of(
                scores[side_index(side_at(n, a))][id_at(n, a)],
                settled(fv, acts, side_at(n, a), id_at(n, a)),
            ),
    )
}

/// What each agent gains this turn: the worth of its action if the action
/// happens, else nothing.
pub open spec fn gains(
    fv: FieldView,
    acts: Seq<Seq<Act>>,
    scores: Seq<Seq<Seq<(Act, i64)>>>,
) -> Seq<int> {
    let n = fv.agent_count();
    Seq::new(
        (2 * n) as nat,
        |a: int|
            if executes(fv, acts, side_at(n, a), id_at(n, a)) {
                worths(fv, acts, scores)[a]
            } else {
                0
            },
    )
}

/// The payoff of a joint action: the sum of what the agents of both sides
/// gain.
pub open spec fn payoff(fv: FieldView, acts: Seq<Seq<Act>>, scores: Seq<Seq<Seq<(Act, i64)>>>) -> int {
    sum_to(gains(fv, acts, scores), 2 * fv.agent_count())
}

/// The scores have the shape that a board asks for: two sides, a map for
/// every agent, every score bounded.
pub open spec fn scores_ok(fv: FieldView, scores: Seq<Seq<Seq<(Act, i64)>>>) -> bool {
    &&& scores.len() == 2
    &&& scores[0].len() == fv.agent_count()
    &&& scores[1].len() == fv.agent_count()
    &&& forall|s: int, i: int|
        0 <= s < 2 && 0 <= i < fv.agent_count() ==> scores_bounded(#[trigger] scores[s][i])
}

/// The view of the score maps of both sides.
pub open spec fn maps_of(scores: Vec<Vec<Vec<(Act, i64)>>>) -> Seq<Seq<Seq<(Act, i64)>>> {
    scores@.map_values(|side: Vec<Vec<(Act, i64)>>| table_of(side))
}

/// A sum of `k` terms of magnitude at most `b` has magnitude at most
/// `k * b`.
pub proof fn lemma_sum_bounded(s: Seq<int>, k: int, b: int)
    requires
        0 <= k,
        0 <= b,
        forall|j: int| 0 <= j < k ==> -b <= #[trigger] s[j] <= b,
    ensures
        -k * b <= sum_to(s, k) <= k * b,
    decreases k,
{
    if k > 0 {
        lemma_sum_bounded(s, k - 1, b);
        assert(k * b == (k - 1) * b + b) by (nonlinear_arith);
        assert(-k * b == -(k - 1) * b - b) by (nonlinear_arith);
    } else {
        assert(k * b == 0) by (nonlinear_arith)
            requires
                k == 0,
        ;
        assert(-k * b == 0) by (nonlinear_arith)
            requires
                k == 0,
        ;
    }
}

/// The payoff is bounded by the number of agents times the largest score.
pub proof fn lemma_payoff_bounded(
    fv: FieldView,
    acts: Seq<Seq<Act>>,
    scores: Seq<Seq<Seq<(Act, i64)>>>,
)
    requires
        fv.wf(),
        scores_ok(fv, scores),
    ensures
        -2 * fv.agent_count() * MAX_SCORE <= payoff(fv, acts, scores) <= 2 * fv.agent_count()
            * MAX_SCORE,
{
    let n = fv.agent_count();
    let g = gains(fv, acts, scores);
    assert forall|a: int| 0 <= a < 2 * n implies -MAX_SCORE <= #[trigger] g[a] <= MAX_SCORE by {
        let s = side_index(side_at(n, a));
        let i = id_at(n, a);
        assert(scores_bounded(scores[s][i]));
        lemma_lookup_bounded(scores[s][i], settled(fv, acts, side_at(n, a), id_at(n, a)), 0);
    }
    lemma_sum_bounded(g, 2 * n, MAX_SCORE as int);
    assert(2 * n * MAX_SCORE == (2 * n) * MAX_SCORE) by (nonlinear_arith);
    assert(-2 * n * MAX_SCORE == -(2 * n) * MAX_SCORE) by (nonlinear_arith);
}

/// The scores of the listed actions sum to the payoff.
pub proof fn lemma_listed_payoff(
    fv: FieldView,
    acts: Seq<Seq<Act>>,
    scores: Seq<Seq<Seq<(Act, i64)>>>,
    out: Seq<(bool, usize, Act)>,
    terms: Seq<int>,
)
    requires
        fv.wf(),
        resolves(fv, acts, out),
        terms.len() == out.len(),
        forall|j: int|
            0 <= j < out.len() ==> #[trigger] terms[j] == score_of(
                scores[side_index(out[j].0)][out[j].1 as int],
                out[j].2,
            ),
    ensures
        sum_to(terms, out.len() as int) == payoff(fv, acts, scores),
{
    let n = fv.agent_count();
    let len = out.len() as int;
    let f = Seq::new(out.len(), |j: int| number_of(n, out[j].0, out[j].1 as int));
    let w = worths(fv, acts, scores);
    assert forall|j: int| 0 <= j < len implies 0 <= (#[trigger] f[j]) < w.len() && out[j].1 < n by {
        assert(executes(fv, acts, out[j].0, out[j].1 as int));
        let k = choose|k: nat| crate::simulator::executes_within(fv, acts, out[j].0, out[j].1 as int, k);
    }
    assert(one_to_one(f, len, w.len() as int)) by {
        assert forall|i: int, k: int| 0 <= i < k < len && f[i] >= 0 implies f[i] != f[k] by {
            assert(!(out[i].0 == out[k].0 && out[i].1 == out[k].1));
            assert(out[i].1 < n && out[k].1 < n) by {
                assert(0 <= f[i] < w.len() && out[i].1 < n);
                assert(0 <= f[k] < w.len() && out[k].1 < n);
            }
        }
    }
    lemma_along_is_masked(f, w, len);
    assert forall|j: int| 0 <= j < len implies along(f, w)[j] == terms[j] by {
        assert(0 <= f[j] < w.len() && out[j].1 < n);
        assert(side_at(n, f[j]) == out[j].0);
        assert(id_at(n, f[j]) == out[j].1);
        assert(out[j].2 == settled(fv, acts, out[j].0, out[j].1 as int));
    }
    lemma_sum_same(along(f, w), terms, len);
    let g = gains(fv, acts, scores);
    assert forall|a: int| 0 <= a < 2 * n implies masked(f, len, w)[a] == g[a] by {
        let s = side_at(n, a);
        let i = id_at(n, a);
        if hit(f, len, a) {
            let j = choose|j: int| 0 <= j < len && #[trigger] f[j] == a;
            assert(0 <= f[j] < w.len() && out[j].1 < n);
            assert(out[j].0 == s && out[j].1 == i);
            assert(executes(fv, acts, out[j].0, out[j].1 as int));
        }
        if executes(fv, acts, s, i) {
            assert(listed(out, s, i));
            let j = choose|j: int| 0 <= j < out.len() && (#[trigger] out[j]).0 == s && out[j].1 == i;
            assert(f[j] == a);
        }
    }
    lemma_sum_same(masked(f, len, w), g, 2 * n);
}

/// The payoff of a joint action, computed: the turn is resolved and the
/// scores of the actions that happen are added up.
pub fn payoff_of(acts: &Vec<Vec<Act>>, scores: &Vec<Vec<Vec<(Act, i64)>>>, field: &Field) -> (total: i128)
    requires
        field.wf(),
        field@.agent_count() <= MAX_AGENTS,
        acts.len() == 2,
        acts[0].len() >= field@.agent_count(),
        acts[1].len() >= field@.agent_count(),
        scores_ok(field@, maps_of(*scores)),
    ensures
        total == payoff(field@, table_of(*acts), maps_of(*scores)),
        -MAX_GAIN <= 2 * total <= MAX_GAIN,
{
    let ghost fv = field@;
    let ghost maps = maps_of(*scores);
    let out = act_list(acts, field);
    let mut total: i128 = 0;
    let ghost mut terms: Seq<int> = Seq::empty();
    let mut j: usize = 0;
    proof {
        assert(maps[0] == table_of(scores[0]));
        assert(maps[1] == table_of(scores[1]));
    }
    while j < out.len()
        invariant
            field.wf(),
            fv == field@,
            maps == maps_of(*scores),
            scores.len() == 2,
            maps[0] == table_of(scores[0]),
            maps[1] == table_of(scores[1]),
            scores_ok(fv, maps),
            resolves(fv, table_of(*acts), out@),
            j <= out.len(),
            terms.len() == j,
            forall|k: int|
                0 <= k < j ==> #[trigger] terms[k] == score_of(
                    maps[side_index(out[k].0)][out[k].1 as int],
                    out[k].2,
                ),
            total == sum_to(terms, j as int),
            -j * MAX_SCORE <= total <= j * MAX_SCORE,
        decreases out.len() - j,
    {
        let (side, id, act) = out[j];
        let slot: usize = if side {
            1
        } else {
            0
        };
        proof {
            assert(executes(fv, table_of(*acts), out@[j as int].0, out@[j as int].1 as int));
            let k = choose|k: nat|
                crate::simulator::executes_within(fv, table_of(*acts), side, id as int, k);
            assert(id < fv.agent_count());
            assert(maps[slot as int][id as int] == scores[slot as int][id as int]@);
            assert(scores_bounded(maps[slot as int][id as int]));
            lemma_lookup_bounded(maps[slot as int][id as int], act, 0);
            assert((j + 1) * MAX_SCORE == j * MAX_SCORE + MAX_SCORE) by (nonlinear_arith);
            assert(-(j + 1) * MAX_SCORE == -j * MAX_SCORE - MAX_SCORE) by (nonlinear_arith);
            assert(j * MAX_SCORE <= usize::MAX * MAX_SCORE) by (nonlinear_arith)
                requires
                    0 <= j <= usize::MAX,
                    MAX_SCORE >= 0,
            ;
        }
        let v = score(&scores[slot][id], act);
        proof {
            let before = terms;
            terms = terms.push(v as int);
            lemma_sum_same(before, terms, j as int);
        }
        total = total + v as i128;
        j += 1;
    }
    proof {
        lemma_listed_payoff(fv, table_of(*acts), maps, out@, terms);
        lemma_payoff_bounded(fv, table_of(*acts), maps);
        assert(2 * fv.agent_count() * MAX_SCORE <= 2 * MAX_AGENTS * MAX_SCORE) by (nonlinear_arith)
            requires
                0 <= fv.agent_count() <= MAX_AGENTS,
                MAX_SCORE >= 0,
        ;
    }
    total
}

/// The joint action in which agent `i` of side `s` plays `alt` and all
/// others play as in `acts`.
pub open spec fn deviated(acts: Seq<Seq<Act>>, s: int, i: int, alt: Act) -> Seq<Seq<Act>> {
    acts.update(s, acts[s].update(i, alt))
}

/// The regret of agent `i` of side `s` for not having played its `k`-th
/// action: what the payoff would have been more had it alone played
/// otherwise, and nothing if that is less.
pub open spec fn regret_gain(
    fv: FieldView,
    acts: Seq<Seq<Act>>,
    scores: Seq<Seq<Seq<(Act, i64)>>>,
    s: int,
    i: int,
    k: int,
) -> int {
    let more = payoff(fv, deviated(acts, s, i, scores[s][i][k].0), scores) - payoff(
        fv,
        acts,
        scores,
    );
    if more > 0 {
        more
    } else {
        0
    }
}

/// A regret is never negative, and at most [`MAX_GAIN`] for a round.
pub proof fn lemma_regret_gain_bounds(
    fv: FieldView,
    acts: Seq<Seq<Act>>,
    scores: Seq<Seq<Seq<(Act, i64)>>>,
    s: int,
    i: int,
    k: int,
)
    requires
        fv.wf(),
        fv.agent_count() <= MAX_AGENTS,
        scores_ok(fv, scores),
    ensures
        0 <= regret_gain(fv, acts, scores, s, i, k) <= MAX_GAIN,
{
    lemma_payoff_bounded(fv, acts, scores);
    lemma_payoff_bounded(fv, deviated(acts, s, i, scores[s][i][k].0), scores);
    assert(2 * fv.agent_count() * MAX_SCORE <= 2 * MAX_AGENTS * MAX_SCORE) by (nonlinear_arith)
        requires
            0 <= fv.agent_count() <= MAX_AGENTS,
            MAX_SCORE >= 0,
    ;
}

/// The regrets of one agent after a round in which `acts` was played.
pub open spec fn row_after(
    fv: FieldView,
    acts: Seq<Seq<Act>>,
    scores: Seq<Seq<Seq<(Act, i64)>>>,
    s: int,
    i: int,
    row: Seq<i128>,
) -> Seq<i128> {
    Seq::new(row.len(), |k: int| (row[k] + regret_gain(fv, acts, scores, s, i, k)) as i128)
}

/// The regrets of one agent lie between nothing and `bound`.
pub open spec fn row_ok(row: Seq<i128>, bound: int) -> bool {
    forall|k: int| 0 <= k < row.len() ==> 0 <= #[trigger] row[k] <= bound
}

/// The view of a table of regrets.
pub open spec fn regrets_of(table: Vec<Vec<Vec<i128>>>) -> Seq<Seq<Seq<i128>>> {
    table@.map_values(|side: Vec<Vec<i128>>| table_of(side))
}

/// The table has a regret between nothing and `bound` for every action of
/// every agent of both sides.
pub open spec fn table_ok(
    scores: Seq<Seq<Seq<(Act, i64)>>>,
    table: Seq<Seq<Seq<i128>>>,
    bound: int,
) -> bool {
    &&& table.len() == 2
    &&& scores.len() == 2
    &&& forall|s: int| 0 <= s < 2 ==> (#[trigger] table[s]).len() == scores[s].len()
    &&& forall|s: int, i: int|
        0 <= s < 2 && 0 <= i < scores[s].len() ==> (#[trigger] table[s][i]).len()
            == scores[s][i].len() && row_ok(table[s][i], bound)
}

/// The table after a round in which `acts` was played: every regret has
/// grown by its [`regret_gain`].
pub open spec fn table_after(
    fv: FieldView,
    acts: Seq<Seq<Act>>,
    scores: Seq<Seq<Seq<(Act, i64)>>>,
    table: Seq<Seq<Seq<i128>>>,
) -> Seq<Seq<Seq<i128>>> {
    Seq::new(
        2,
        |s: int|
            Seq::new(table[s].len(), |i: int| row_after(fv, acts, scores, s, i, table[s][i])),
    )
}

/// The largest regret that a table may hold.
pub const MAX_REGRET: i128 = 0x1_0000_0000_0000_0000_0000_0000;

/// Adds to the regrets of agent `id` of side `slot` what a round in which
/// `acts` was played gives them. `now` is the payoff of `acts`.
fn accumulate_agent(
    row: &mut Vec<i128>,
    acts: &mut Vec<Vec<Act>>,
    scores: &Vec<Vec<Vec<(Act, i64)>>>,
    field: &Field,
    slot: usize,
    id: usize,
    now: i128,
    Ghost(bound): Ghost<int>,
)
    requires
        field.wf(),
        field@.agent_count() <= MAX_AGENTS,
        old(acts).len() == 2,
        old(acts)[0].len() == field@.agent_count(),
        old(acts)[1].len() == field@.agent_count(),
        scores_ok(field@, maps_of(*scores)),
        slot < 2,
        id < field@.agent_count(),
        old(row).len() == maps_of(*scores)[slot as int][id as int].len(),
        row_ok(old(row)@, bound),
        bound + MAX_GAIN <= MAX_REGRET,
        now == payoff(field@, table_of(*old(acts)), maps_of(*scores)),
    ensures
        table_of(*final(acts)) == table_of(*old(acts)),
        final(acts).len() == 2,
        final(acts)[0].len() == field@.agent_count(),
        final(acts)[1].len() == field@.agent_count(),
        final(row)@ == row_after(
            field@,
            table_of(*old(acts)),
            maps_of(*scores),
            slot as int,
            id as int,
            old(row)@,
        ),
        row_ok(final(row)@, bound + MAX_GAIN),
{
    let ghost fv = field@;
    let ghost maps = maps_of(*scores);
    let ghost acts0 = table_of(*acts);
    let ghost row0 = row@;
    assert(maps[slot as int] == table_of(scores[slot as int]));
    assert(maps[slot as int][id as int] == scores[slot as int][id as int]@);
    assert(acts0[slot as int] == acts[slot as int]@);
    let own = acts[slot][id];
    let len = scores[slot][id].len();
    let mut k: usize = 0;
    while k < len
        invariant
            field.wf(),
            fv == field@,
            fv.agent_count() <= MAX_AGENTS,
            maps == maps_of(*scores),
            scores_ok(fv, maps),
            scores.len() == 2,
            slot < 2,
            id < fv.agent_count(),
            maps[slot as int] == table_of(scores[slot as int]),
            maps[slot as int][id as int] == scores[slot as int][id as int]@,
            len == scores[slot as int][id as int].len(),
            k <= len,
            acts.len() == 2,
            acts[0].len() == fv.agent_count(),
            acts[1].len() == fv.agent_count(),
            table_of(*acts) == acts0,
            own == acts0[slot as int][id as int],
            now == payoff(fv, acts0, maps),
            row.len() == len,
            row0.len() == len,
            row_ok(row0, bound),
            bound + MAX_GAIN <= MAX_REGRET,
            forall|j: int|
                0 <= j < k ==> (#[trigger] row[j]) == row0[j] + regret_gain(
                    fv,
                    acts0,
                    maps,
                    slot as int,
                    id as int,
                    j,
                ),
            forall|j: int| k <= j < len ==> (#[trigger] row[j]) == row0[j],
        decreases len - k,
    {
        let alt = scores[slot][id][k].0;
        acts[slot][id] = alt;
        proof {
            assert(table_of(*acts) =~~= deviated(acts0, slot as int, id as int, alt));
            lemma_regret_gain_bounds(fv, acts0, maps, slot as int, id as int, k as int);
        }
        let dev = payoff_of(acts, scores, field);
        let reg: i128 = if dev > now {
            dev - now
        } else {
            0
        };
        acts[slot][id] = own;
        assert(table_of(*acts) =~~= acts0);
        row[k] = row[k] + reg;
        k += 1;
    }
    proof {
        assert(row@ =~= row_after(fv, acts0, maps, slot as int, id as int, row0));
        assert forall|j: int| 0 <= j < row@.len() implies 0 <= #[trigger] row@[j] <= bound
            + MAX_GAIN by {
            lemma_regret_gain_bounds(fv, acts0, maps, slot as int, id as int, j);
        }
    }
}

/// One round of regret matching after the joint action `acts` was drawn:
/// every agent of both sides adds, for each of its actions, the regret of
/// not having played it. No regret ever shrinks.
pub(crate) fn accumulate_within(
    regret: &mut Vec<Vec<Vec<i128>>>,
    acts: &Vec<Vec<Act>>,
    scores: &Vec<Vec<Vec<(Act, i64)>>>,
    field: &Field,
    Ghost(bound): Ghost<int>,
)
    requires
        field.wf(),
        field@.agent_count() <= MAX_AGENTS,
        acts.len() == 2,
        acts[0].len() == field@.agent_count(),
        acts[1].len() == field@.agent_count(),
        scores_ok(field@, maps_of(*scores)),
        table_ok(maps_of(*scores), regrets_of(*old(regret)), bound),
        0 <= bound,
        bound + MAX_GAIN <= MAX_REGRET,
    ensures
        regrets_of(*final(regret)) == table_after(
            field@,
            table_of(*acts),
            maps_of(*scores),
            regrets_of(*old(regret)),
        ),
        table_ok(maps_of(*scores), regrets_of(*final(regret)), bound + MAX_GAIN),
        forall|s: int, i: int, k: int|
            0 <= s < 2 && 0 <= i < field@.agent_count() && 0 <= k < regrets_of(
                *old(regret),
            )[s][i].len() ==> 0 <= regrets_of(*old(regret))[s][i][k] <= #[trigger] regrets_of(
                *final(regret),
            )[s][i][k],
{
    let ghost fv = field@;
    let ghost maps = maps_of(*scores);
    let ghost t0 = regrets_of(*regret);
    let ghost acts0 = table_of(*acts);
    let n = field.agent_count();
    let now = payoff_of(acts, scores, field);
    let mut work: Vec<Vec<Act>> = Vec::new();
    let mut s: usize = 0;
    while s < 2
        invariant
            s <= 2,
            acts.len() == 2,
            work.len() == s,
            forall|a: int| 0 <= a < s ==> (#[trigger] work[a])@ == acts[a]@,
        decreases 2 - s,
    {
        let mut rowc: Vec<Act> = Vec::new();
        let mut i: usize = 0;
        while i < acts[s].len()
            invariant
                s < 2,
                acts.len() == 2,
                i <= acts[s as int].len(),
                rowc.len() == i,
                forall|b: int| 0 <= b < i ==> #[trigger] rowc[b] == acts[s as int][b],
            decreases acts[s as int].len() - i,
        {
            rowc.push(acts[s][i]);
            i += 1;
        }
        assert(rowc@ =~= acts[s as int]@);
        work.push(rowc);
        s += 1;
    }
    assert(table_of(work) =~= acts0);
    proof {
        assert(maps[0] == table_of(scores[0]));
        assert(maps[1] == table_of(scores[1]));
        assert(t0[0] == table_of(regret[0]));
        assert(t0[1] == table_of(regret[1]));
    }
    let mut slot: usize = 0;
    while slot < 2
        invariant
            field.wf(),
            fv == field@,
            n == fv.agent_count(),
            n <= MAX_AGENTS,
            maps == maps_of(*scores),
            scores_ok(fv, maps),
            scores.len() == 2,
            maps[0] == table_of(scores[0]),
            maps[1] == table_of(scores[1]),
            table_ok(maps, t0, bound),
            0 <= bound,
            bound + MAX_GAIN <= MAX_REGRET,
            work.len() == 2,
            work[0].len() == n,
            work[1].len() == n,
            table_of(work) == acts0,
            now == payoff(fv, acts0, maps),
            slot <= 2,
            regret.len() == 2,
            forall|a: int| 0 <= a < 2 ==> (#[trigger] regret[a]).len() == t0[a].len(),
            forall|a: int, i: int|
                0 <= a < slot && 0 <= i < n ==> (#[trigger] regret[a][i])@ == row_after(
                    fv,
                    acts0,
                    maps,
                    a,
                    i,
                    t0[a][i],
                ),
            forall|a: int, i: int|
                slot <= a < 2 && 0 <= i < n ==> (#[trigger] regret[a][i])@ == t0[a][i],
        decreases 2 - slot,
    {
        let mut id: usize = 0;
        while id < n
            invariant
                field.wf(),
                fv == field@,
                n == fv.agent_count(),
                n <= MAX_AGENTS,
                maps == maps_of(*scores),
                scores_ok(fv, maps),
                scores.len() == 2,
                maps[0] == table_of(scores[0]),
                maps[1] == table_of(scores[1]),
                table_ok(maps, t0, bound),
                0 <= bound,
                bound + MAX_GAIN <= MAX_REGRET,
                work.len() == 2,
                work[0].len() == n,
                work[1].len() == n,
                table_of(work) == acts0,
                now == payoff(fv, acts0, maps),
                slot < 2,
                id <= n,
                regret.len() == 2,
                forall|a: int| 0 <= a < 2 ==> (#[trigger] regret[a]).len() == t0[a].len(),
                forall|a: int, i: int|
                    0 <= a < slot && 0 <= i < n ==> (#[trigger] regret[a][i])@ == row_after(
                        fv,
                        acts0,
                        maps,
                        a,
                        i,
                        t0[a][i],
                    ),
                forall|i: int|
                    0 <= i < id ==> (#[trigger] regret[slot as int][i])@ == row_after(
                        fv,
                        acts0,
                        maps,
                        slot as int,
                        i,
                        t0[slot as int][i],
                    ),
                forall|i: int| id <= i < n ==> (#[trigger] regret[slot as int][i])@ == t0[slot as int][i],
                forall|a: int, i: int|
                    slot < a < 2 && 0 <= i < n ==> (#[trigger] regret[a][i])@ == t0[a][i],
            decreases n - id,
        {
            proof {
                assert(t0[slot as int].len() == maps[slot as int].len());
                assert(t0[slot as int][id as int].len() == maps[slot as int][id as int].len()
                    && row_ok(t0[slot as int][id as int], bound));
                assert(regret[slot as int][id as int]@ == t0[slot as int][id as int]);
            }
            let ghost before = regret@;
            accumulate_agent(
                &mut regret[slot][id],
                &mut work,
                scores,
                field,
                slot,
                id,
                now,
                Ghost(bound),
            );
            id += 1;
        }
        slot += 1;
    }
    proof {
        let t1 = regrets_of(*regret);
        let goal = table_after(fv, acts0, maps, t0);
        assert(t1[0] == table_of(regret[0]));
        assert(t1[1] == table_of(regret[1]));
        assert forall|a: int| 0 <= a < 2 implies #[trigger] t1[a] == goal[a] by {
            assert(t0[a].len() == maps[a].len());
            assert forall|i: int| 0 <= i < n implies t1[a][i] == goal[a][i] by {
                assert(t1[a][i] == regret[a][i]@);
            }
            assert(t1[a] =~= goal[a]);
        }
        assert(t1 =~= goal);
        assert forall|a: int, i: int| 0 <= a < 2 && 0 <= i < maps[a].len() implies (
        #[trigger] t1[a][i]).len() == maps[a][i].len() && row_ok(t1[a][i], bound + MAX_GAIN) by {
            assert(t0[a][i].len() == maps[a][i].len() && row_ok(t0[a][i], bound));
            assert forall|k: int| 0 <= k < t1[a][i].len() implies 0 <= #[trigger] t1[a][i][k]
                <= bound + MAX_GAIN by {
                lemma_regret_gain_bounds(fv, acts0, maps, a, i, k);
                assert(0 <= t0[a][i][k] <= bound);
            }
        }
        assert forall|a: int, i: int, k: int|
            0 <= a < 2 && 0 <= i < fv.agent_count() && 0 <= k < t0[a][i].len() implies 0
            <= t0[a][i][k] <= #[trigger] t1[a][i][k] by {
            assert(t0[a].len() == maps[a].len());
            assert(t0[a][i].len() == maps[a][i].len() && row_ok(t0[a][i], bound));
            lemma_regret_gain_bounds(fv, acts0, maps, a, i, k);
            assert(0 <= t0[a][i][k] <= bound);
        }
    }
}

/// One round of regret matching after the joint action `acts` was drawn:
/// every agent of both sides adds, for each of its actions, the regret of
/// not having played it. No regret ever shrinks, and none is negative.
pub fn accumulate(
    regret: &mut Vec<Vec<Vec<i128>>>,
    acts: &Vec<Vec<Act>>,
    scores: &Vec<Vec<Vec<(Act, i64)>>>,
    field: &Field,
)
    requires
        field.wf(),
        field@.agent_count() <= MAX_AGENTS,
        acts.len() == 2,
        acts[0].len() == field@.agent_count(),
        acts[1].len() == field@.agent_count(),
        scores_ok(field@, maps_of(*scores)),
        table_ok(maps_of(*scores), regrets_of(*old(regret)), MAX_REGRET - MAX_GAIN),
    ensures
        regrets_of(*final(regret)) == table_after(
            field@,
            table_of(*acts),
            maps_of(*scores),
            regrets_of(*old(regret)),
        ),
        table_ok(maps_of(*scores), regrets_of(*final(regret)), MAX_REGRET as int),
        forall|s: int, i: int, k: int|
            0 <= s < 2 && 0 <= i < field@.agent_count() && 0 <= k < regrets_of(
                *old(regret),
            )[s][i].len() ==> 0 <= regrets_of(*old(regret))[s][i][k] <= #[trigger] regrets_of(
                *final(regret),
            )[s][i][k],
{
    accumulate_within(regret, acts, scores, field, Ghost(MAX_REGRET - MAX_GAIN));
}

/// The regrets of one agent as plain numbers.
pub open spec fn plain(row: Seq<i128>) -> Seq<int> {
    Seq::new(row.len(), |k: int| row[k] as int)
}

/// The share, in parts of [`PROB_ONE`], of the `k`-th action of an agent:
/// the share of the action's regret in the regrets of all actions,
/// rounded down, or the same for all if no action has any regret.
pub open spec fn share(row: Seq<i128>, k: int) -> int {
    let total = sum_to(plain(row), row.len() as int);
    if total == 0 {
        PROB_ONE as int / row.len() as int
    } else {
        row[k] * PROB_ONE / total
    }
}

/// The shares of all actions of an agent.
pub open spec fn shares(row: Seq<i128>) -> Seq<int> {
    Seq::new(row.len(), |k: int| share(row, k))
}

/// The parts of [`PROB_ONE`] that rounding down the shares leaves over.
pub open spec fn spare(row: Seq<i128>) -> int {
    PROB_ONE - sum_to(shares(row), row.len() as int)
}

/// The probability, in parts of [`PROB_ONE`], with which an agent plays its
/// `k`-th action: its share, and one of the parts that rounding left over
/// as long as there are any, the first actions first.
pub open spec fn chance(row: Seq<i128>, k: int) -> int {
    share(row, k) + if k < spare(row) {
        1int
    } else {
        0int
    }
}

/// The probabilities of all actions of an agent.
pub open spec fn chances(row: Seq<i128>) -> Seq<int> {
    Seq::new(row.len(), |k: int| chance(row, k))
}

/// The strategy of an agent: each of its actions with its probability.
pub open spec fn strategy_of(row: Seq<i128>, map: Seq<(Act, i64)>) -> Seq<(Act, i64)> {
    Seq::new(map.len(), |k: int| (map[k].0, chance(row, k) as i64))
}

/// A sum of numbers that are not negative is not negative and at least as
/// large as each of them.
pub proof fn lemma_sum_nonnegative(s: Seq<int>, k: int, j: int)
    requires
        forall|a: int| 0 <= a < k ==> 0 <= #[trigger] s[a],
        0 <= j < k,
    ensures
        0 <= s[j] <= sum_to(s, k),
    decreases k,
{
    if k > 0 {
        if j < k - 1 {
            lemma_sum_nonnegative(s, k - 1, j);
        } else if k - 1 > 0 {
            lemma_sum_nonnegative(s, k - 1, 0);
        }
    }
}

/// Rounding down loses less than one part for each action.
proof fn lemma_shares_partial(row: Seq<i128>, k: int)
    requires
        row_ok(row, MAX_REGRET as int),
        0 <= k <= row.len(),
        sum_to(plain(row), row.len() as int) > 0,
    ensures
        sum_to(plain(row), row.len() as int) * sum_to(shares(row), k) <= PROB_ONE * sum_to(
            plain(row),
            k,
        ),
        PROB_ONE * sum_to(plain(row), k) <= sum_to(plain(row), row.len() as int) * sum_to(
            shares(row),
            k,
        ) + k * (sum_to(plain(row), row.len() as int) - 1),
    decreases k,
{
    let total = sum_to(plain(row), row.len() as int);
    if k > 0 {
        lemma_shares_partial(row, k - 1);
        let x = row[k - 1] as int * PROB_ONE;
        let q = share(row, k - 1);
        assert(q == x / total);
        assert(0 <= x) by (nonlinear_arith)
            requires
                x == row[k - 1] as int * PROB_ONE,
                0 <= row[k - 1],
        ;
        assert(total * q <= x && x <= total * q + (total - 1)) by (nonlinear_arith)
            requires
                q == x / total,
                total > 0,
                0 <= x,
        ;
        let qa = sum_to(shares(row), k - 1);
        let ta = sum_to(plain(row), k - 1);
        assert(total * (qa + q) == total * qa + total * q) by (nonlinear_arith);
        assert(PROB_ONE * (ta + row[k - 1]) == PROB_ONE * ta + x) by (nonlinear_arith)
            requires
                x == row[k - 1] as int * PROB_ONE,
        ;
        assert(k * (total - 1) == (k - 1) * (total - 1) + (total - 1)) by (nonlinear_arith);
    } else {
        assert(total * 0 == 0 && PROB_ONE * 0 == 0 && 0 * (total - 1) == 0) by (nonlinear_arith);
    }
}

/// The shares of an agent's actions sum to one, less what rounding down
/// loses: less than one part for each action. If no action has any
/// regret, all shares are the same.
pub proof fn lemma_shares_normalized(row: Seq<i128>)
    requires
        row_ok(row, MAX_REGRET as int),
        row.len() >= 1,
    ensures
        PROB_ONE - row.len() < sum_to(shares(row), row.len() as int) <= PROB_ONE,
        sum_to(plain(row), row.len() as int) == 0 ==> forall|k: int|
            0 <= k < row.len() ==> #[trigger] share(row, k) == PROB_ONE as int / row.len() as int,
        forall|k: int| 0 <= k < row.len() ==> 0 <= #[trigger] share(row, k) <= PROB_ONE,
{
    let n = row.len() as int;
    let total = sum_to(plain(row), n);
    assert forall|a: int| 0 <= a < n implies 0 <= #[trigger] plain(row)[a] by {}
    if total == 0 {
        let u = PROB_ONE as int / n;
        assert(n * u <= PROB_ONE && PROB_ONE < n * u + n) by (nonlinear_arith)
            requires
                u == PROB_ONE as int / n,
                n >= 1,
        ;
        assert(0 <= u <= PROB_ONE) by (nonlinear_arith)
            requires
                u == PROB_ONE as int / n,
                n >= 1,
        ;
        lemma_sum_constant(shares(row), n, u);
    } else {
        lemma_sum_nonnegative(plain(row), n, 0);
        lemma_shares_partial(row, n);
        let q = sum_to(shares(row), n);
        assert(q <= PROB_ONE && PROB_ONE - n < q) by (nonlinear_arith)
            requires
                total * q <= PROB_ONE * total,
                PROB_ONE * total <= total * q + n * (total - 1),
                total > 0,
                n >= 1,
        ;
        assert forall|k: int| 0 <= k < n implies 0 <= #[trigger] share(row, k) <= PROB_ONE by {
            lemma_sum_nonnegative(plain(row), n, k);
            let x = row[k] as int;
            assert(0 <= x * PROB_ONE / total <= PROB_ONE) by (nonlinear_arith)
                requires
                    0 <= x <= total,
                    total > 0,
            ;
        }
    }
}

/// Handing out `r` parts, one to each of the first actions, adds `r` to the
/// sum, or `k` among the first `k` actions if that is less.
proof fn lemma_spread(row: Seq<i128>, k: int)
    requires
        0 <= k <= row.len(),
        0 <= spare(row),
    ensures
        sum_to(chances(row), k) == sum_to(shares(row), k) + if k < spare(row) {
            k
        } else {
            spare(row)
        },
    decreases k,
{
    if k > 0 {
        lemma_spread(row, k - 1);
    }
}

/// The probabilities of an agent's actions sum to one exactly. Each is
/// the share of the action's regret in the regrets of all actions,
/// rounded down, or one part more. If no action has any regret, the
/// shares of all actions are the same.
pub proof fn lemma_chances_normalized(row: Seq<i128>)
    requires
        row_ok(row, MAX_REGRET as int),
        row.len() >= 1,
    ensures
        sum_to(chances(row), row.len() as int) == PROB_ONE,
        0 <= spare(row) < row.len(),
        forall|k: int| 0 <= k < row.len() ==> 0 <= #[trigger] chance(row, k) <= PROB_ONE,
        forall|k: int|
            0 <= k < row.len() ==> share(row, k) <= #[trigger] chance(row, k) <= share(row, k) + 1,
        sum_to(plain(row), row.len() as int) == 0 ==> forall|k: int|
            0 <= k < row.len() ==> #[trigger] share(row, k) == PROB_ONE as int / row.len() as int,
{
    lemma_shares_normalized(row);
    lemma_spread(row, row.len() as int);
    assert forall|k: int| 0 <= k < row.len() implies 0 <= #[trigger] chance(row, k) <= PROB_ONE by {
        assert forall|a: int| 0 <= a < row.len() implies 0 <= #[trigger] shares(row)[a] by {
            assert(0 <= share(row, a));
        }
        lemma_sum_nonnegative(shares(row), row.len() as int, k);
        assert(shares(row)[k] == share(row, k));
    }
}

/// A sum of `k` equal terms.
pub proof fn lemma_sum_constant(s: Seq<int>, k: int, v: int)
    requires
        0 <= k,
        forall|j: int| 0 <= j < k ==> #[trigger] s[j] == v,
    ensures
        sum_to(s, k) == k * v,
    decreases k,
{
    if k > 0 {
        lemma_sum_constant(s, k - 1, v);
        assert(k * v == (k - 1) * v + v) by (nonlinear_arith);
    } else {
        assert(k * v == 0) by (nonlinear_arith)
            requires
                k == 0,
        ;
    }
}

/// The sum of the regrets of one agent.
fn row_total(row: &Vec<i128>) -> (total: i128)
    requires
        row_ok(row@, MAX_REGRET as int),
        row.len() <= MAX_ACTS,
    ensures
        total == sum_to(plain(row@), row.len() as int),
        0 <= total <= row.len() * MAX_REGRET,
{
    let mut total: i128 = 0;
    let mut k: usize = 0;
    while k < row.len()
        invariant
            row_ok(row@, MAX_REGRET as int),
            row.len() <= MAX_ACTS,
            k <= row.len(),
            total == sum_to(plain(row@), k as int),
            0 <= total <= k * MAX_REGRET,
        decreases row.len() - k,
    {
        assert((k + 1) * MAX_REGRET == k * MAX_REGRET + MAX_REGRET) by (nonlinear_arith);
        assert(k * MAX_REGRET <= MAX_ACTS * MAX_REGRET) by (nonlinear_arith)
            requires
                0 <= k <= MAX_ACTS,
                MAX_REGRET >= 0,
        ;
        total = total + row[k];
        k += 1;
    }
    total
}

/// The strategy that the regrets of an agent give: each action of its map
/// with the probability of playing it, in parts of [`PROB_ONE`]. The
/// probabilities sum to [`PROB_ONE`].
pub fn strategy(row: &Vec<i128>, map: &Vec<(Act, i64)>) -> (out: Vec<(Act, i64)>)
    requires
        row_ok(row@, MAX_REGRET as int),
        row.len() == map.len(),
        1 <= row.len() <= MAX_ACTS,
    ensures
        out@ == strategy_of(row@, map@),
        forall|k: int| 0 <= k < out.len() ==> 0 <= (#[trigger] out[k]).1 <= PROB_ONE,
        sum_to(chances(row@), row.len() as int) == PROB_ONE,
{
    let total = row_total(row);
    let n = row.len();
    let mut floors: Vec<i64> = Vec::new();
    let mut given: i64 = 0;
    let mut k: usize = 0;
    proof {
        lemma_shares_normalized(row@);
        lemma_chances_normalized(row@);
    }
    while k < n
        invariant
            row_ok(row@, MAX_REGRET as int),
            n == row.len(),
            1 <= n <= MAX_ACTS,
            total == sum_to(plain(row@), n as int),
            0 <= total,
            forall|j: int| 0 <= j < n ==> 0 <= #[trigger] share(row@, j) <= PROB_ONE,
            k <= n,
            floors.len() == k,
            forall|j: int| 0 <= j < k ==> (#[trigger] floors[j]) == share(row@, j),
            given == sum_to(shares(row@), k as int),
            0 <= given <= k * PROB_ONE,
        decreases n - k,
    {
        let p: i128 = if total == 0 {
            PROB_ONE as i128 / n as i128
        } else {
            assert(row[k as int] * PROB_ONE <= MAX_REGRET * PROB_ONE) by (nonlinear_arith)
                requires
                    0 <= row[k as int] <= MAX_REGRET,
                    PROB_ONE >= 0,
            ;
            assert(0 <= row[k as int] * PROB_ONE) by (nonlinear_arith)
                requires
                    0 <= row[k as int],
                    PROB_ONE >= 0,
            ;
            row[k] * PROB_ONE as i128 / total
        };
        assert(p == share(row@, k as int));
        assert(shares(row@)[k as int] == share(row@, k as int));
        floors.push(p as i64);
        given = given + p as i64;
        k += 1;
    }
    let left: i64 = PROB_ONE - given;
    assert(left == spare(row@));
    let mut out: Vec<(Act, i64)> = Vec::new();
    let mut k: usize = 0;
    while k < n
        invariant
            n == row.len(),
            n == map.len(),
            n <= MAX_ACTS,
            floors.len() == n,
            left == spare(row@),
            forall|j: int| 0 <= j < n ==> (#[trigger] floors[j]) == share(row@, j),
            forall|j: int| 0 <= j < n ==> 0 <= #[trigger] chance(row@, j) <= PROB_ONE,
            k <= n,
            out.len() == k,
            forall|j: int| 0 <= j < k ==> (#[trigger] out[j]) == (map[j].0, chance(row@, j) as i64),
        decreases n - k,
    {
        assert(0 <= chance(row@, k as int) <= PROB_ONE);
        let p: i64 = if (k as i64) < left {
            floors[k] + 1
        } else {
            floors[k]
        };
        out.push((map[k].0, p));
        k += 1;
    }
    assert(out@ =~= strategy_of(row@, map@));
    out
}

/// The number of the action that the draw `r` selects: the first action
/// up to and with which the regrets sum to more than `r`. A draw that is
/// negative or not below the sum of all regrets selects the first action.
pub fn pick_index(row: &Vec<i128>, r: i128) -> (k: usize)
    requires
        row_ok(row@, MAX_REGRET as int),
        1 <= row.len() <= MAX_ACTS,
    ensures
        k < row.len(),
        0 <= r < sum_to(plain(row@), row.len() as int) ==> sum_to(plain(row@), k as int) <= r
            < sum_to(plain(row@), k + 1),
        !(0 <= r < sum_to(plain(row@), row.len() as int)) ==> k == 0,
{
    let n = row.len();
    if r < 0 {
        return 0;
    }
    let mut acc: i128 = 0;
    let mut k: usize = 0;
    while k < n
        invariant
            row_ok(row@, MAX_REGRET as int),
            n == row.len(),
            n <= MAX_ACTS,
            0 <= r,
            k <= n,
            acc == sum_to(plain(row@), k as int),
            acc <= r,
            0 <= acc <= k * MAX_REGRET,
        decreases n - k,
    {
        assert((k + 1) * MAX_REGRET == k * MAX_REGRET + MAX_REGRET) by (nonlinear_arith);
        assert(k * MAX_REGRET <= MAX_ACTS * MAX_REGRET) by (nonlinear_arith)
            requires
                0 <= k <= MAX_ACTS,
                MAX_REGRET >= 0,
        ;
        acc = acc + row[k];
        if r < acc {
            proof {
                lemma_sum_grows(plain(row@), k + 1, n as int);
            }
            return k;
        }
        k += 1;
    }
    0
}

/// Draws the number of an action of an agent with the probability that the
/// agent's regrets give it: any action if none has any regret, else the
/// action that a draw below the sum of the regrets selects, which has
/// some.
pub fn sample_index(rng: &mut StdRng, row: &Vec<i128>) -> (k: usize)
    requires
        row_ok(row@, MAX_REGRET as int),
        1 <= row.len() <= MAX_ACTS,
    ensures
        k < row.len(),
        sum_to(plain(row@), row.len() as int) > 0 ==> row[k as int] > 0,
{
    let total = row_total(row);
    let n = row.len();
    if total == 0 {
        let r = draw_range(rng, 0, n as i128);
        return r as usize;
    }
    let r = draw_range(rng, 0, total);
    pick_index(row, r)
}

/// The map has an entry for the action.
pub open spec fn offers(map: Seq<(Act, i64)>, act: Act) -> bool {
    exists|k: int| 0 <= k < map.len() && (#[trigger] map[k]).0 == act
}

/// The action is one that an agent with the regrets `row` may draw: one
/// of its map, and one with some regret if any action has any.
pub open spec fn may_draw(map: Seq<(Act, i64)>, row: Seq<i128>, act: Act) -> bool {
    exists|k: int|
        0 <= k < map.len() && (#[trigger] map[k]).0 == act && (sum_to(
            plain(row),
            row.len() as int,
        ) > 0 ==> row[k] > 0)
}

/// Draws a joint action: for every agent of both sides an action of its
/// map, with the probability that its regrets give the action.
pub fn sample_acts(
    rng: &mut StdRng,
    regret: &Vec<Vec<Vec<i128>>>,
    scores: &Vec<Vec<Vec<(Act, i64)>>>,
    n: usize,
) -> (acts: Vec<Vec<Act>>)
    requires
        table_ok(maps_of(*scores), regrets_of(*regret), MAX_REGRET as int),
        maps_of(*scores)[0].len() == n,
        maps_of(*scores)[1].len() == n,
        forall|s: int, i: int|
            0 <= s < 2 && 0 <= i < n ==> 1 <= (#[trigger] maps_of(*scores)[s][i]).len() <= MAX_ACTS,
    ensures
        acts.len() == 2,
        acts[0].len() == n,
        acts[1].len() == n,
        forall|s: int, i: int|
            0 <= s < 2 && 0 <= i < n ==> offers(maps_of(*scores)[s][i], #[trigger] acts[s][i]),
        forall|s: int, i: int|
            0 <= s < 2 && 0 <= i < n ==> may_draw(
                maps_of(*scores)[s][i],
                regrets_of(*regret)[s][i],
                #[trigger] acts[s][i],
            ),
{
    let ghost maps = maps_of(*scores);
    let ghost table = regrets_of(*regret);
    let mut acts: Vec<Vec<Act>> = Vec::new();
    let mut s: usize = 0;
    proof {
        assert(maps[0] == table_of(scores[0]));
        assert(maps[1] == table_of(scores[1]));
        assert(table[0] == table_of(regret[0]));
        assert(table[1] == table_of(regret[1]));
    }
    while s < 2
        invariant
            maps == maps_of(*scores),
            table == regrets_of(*regret),
            table_ok(maps, table, MAX_REGRET as int),
            scores.len() == 2,
            regret.len() == 2,
            maps[0] == table_of(scores[0]),
            maps[1] == table_of(scores[1]),
            table[0] == table_of(regret[0]),
            table[1] == table_of(regret[1]),
            maps[0].len() == n,
            maps[1].len() == n,
            forall|a: int, i: int|
                0 <= a < 2 && 0 <= i < n ==> 1 <= (#[trigger] maps[a][i]).len() <= MAX_ACTS,
            s <= 2,
            acts.len() == s,
            forall|a: int| 0 <= a < s ==> (#[trigger] acts[a]).len() == n,
            forall|a: int, i: int|
                0 <= a < s && 0 <= i < n ==> offers(maps[a][i], #[trigger] acts[a][i]),
            forall|a: int, i: int|
                0 <= a < s && 0 <= i < n ==> may_draw(maps[a][i], table[a][i], #[trigger] acts[a][i]),
        decreases 2 - s,
    {
        let mut row: Vec<Act> = Vec::new();
        let mut i: usize = 0;
        assert(table[s as int].len() == maps[s as int].len());
        while i < n
            invariant
                maps == maps_of(*scores),
                table == regrets_of(*regret),
                table_ok(maps, table, MAX_REGRET as int),
                scores.len() == 2,
                regret.len() == 2,
                s < 2,
                maps[s as int] == table_of(scores[s as int]),
                table[s as int] == table_of(regret[s as int]),
                maps[s as int].len() == n,
                table[s as int].len() == n,
                forall|b: int| 0 <= b < n ==> 1 <= (#[trigger] maps[s as int][b]).len() <= MAX_ACTS,
                i <= n,
                row.len() == i,
                forall|b: int| 0 <= b < i ==> offers(maps[s as int][b], #[trigger] row[b]),
                forall|b: int|
                    0 <= b < i ==> may_draw(maps[s as int][b], table[s as int][b], #[trigger] row[b]),
            decreases n - i,
        {
            proof {
                assert(table[s as int][i as int].len() == maps[s as int][i as int].len() && row_ok(
                    table[s as int][i as int],
                    MAX_REGRET as int,
                ));
                assert(1 <= maps[s as int][i as int].len() <= MAX_ACTS);
                assert(table[s as int][i as int] == regret[s as int][i as int]@);
                assert(maps[s as int][i as int] == scores[s as int][i as int]@);
            }
            let k = sample_index(rng, &regret[s][i]);
            let act = scores[s][i][k].0;
            row.push(act);
            proof {
                assert(maps[s as int][i as int][k as int].0 == act);
                assert(offers(maps[s as int][i as int], act));
                assert(may_draw(maps[s as int][i as int], table[s as int][i as int], act));
            }
            i += 1;
        }
        acts.push(row);
        s += 1;
    }
    acts
}

/// The most rounds of regret matching in one run.
pub const MAX_ROUNDS: usize = 0x1000_0000;

/// The maps can be played: both sides have a map for every agent, with at
/// least one and at most [`MAX_ACTS`] actions and bounded scores.
pub open spec fn playable(fv: FieldView, scores: Seq<Seq<Seq<(Act, i64)>>>) -> bool {
    &&& fv.agent_count() <= MAX_AGENTS
    &&& scores_ok(fv, scores)
    &&& forall|s: int, i: int|
        0 <= s < 2 && 0 <= i < fv.agent_count() ==> 1 <= (#[trigger] scores[s][i]).len()
            <= MAX_ACTS
}

/// The strategies of the agents of side `s` that a table of regrets gives.
pub open spec fn strategies_of(
    scores: Seq<Seq<Seq<(Act, i64)>>>,
    table: Seq<Seq<Seq<i128>>>,
    s: int,
) -> Seq<Seq<(Act, i64)>> {
    Seq::new(scores[s].len(), |i: int| strategy_of(table[s][i], scores[s][i]))
}

/// The table without any regret, of the shape of the maps.
pub open spec fn zero_table(scores: Seq<Seq<Seq<(Act, i64)>>>) -> Seq<Seq<Seq<i128>>> {
    Seq::new(
        2,
        |s: int| Seq::new(scores[s].len(), |i: int| Seq::new(scores[s][i].len(), |k: int| 0i128)),
    )
}

/// The table after the first `n` rounds, in which the joint actions
/// `draws` were played: it starts without any regret, and every round adds
/// the regrets of the round.
pub open spec fn played(
    fv: FieldView,
    scores: Seq<Seq<Seq<(Act, i64)>>>,
    draws: Seq<Seq<Seq<Act>>>,
    n: int,
) -> Seq<Seq<Seq<i128>>>
    decreases n,
{
    if n <= 0 {
        zero_table(scores)
    } else {
        table_after(fv, draws[n - 1], scores, played(fv, scores, draws, n - 1))
    }
}

/// The joint action is one that the agents may draw by the table: every
/// agent of both sides an action that its regrets allow.
pub open spec fn fair(
    scores: Seq<Seq<Seq<(Act, i64)>>>,
    table: Seq<Seq<Seq<i128>>>,
    acts: Seq<Seq<Act>>,
) -> bool {
    &&& acts.len() == 2
    &&& forall|s: int| 0 <= s < 2 ==> (#[trigger] acts[s]).len() == scores[s].len()
    &&& forall|s: int, i: int|
        0 <= s < 2 && 0 <= i < scores[s].len() ==> may_draw(
            scores[s][i],
            table[s][i],
            #[trigger] acts[s][i],
        )
}

/// In each of the first `n` rounds the joint action played is one that the
/// agents may draw by the table of the rounds before.
pub open spec fn drawn(
    fv: FieldView,
    scores: Seq<Seq<Seq<(Act, i64)>>>,
    draws: Seq<Seq<Seq<Act>>>,
    n: int,
) -> bool {
    forall|r: int| 0 <= r < n ==> fair(scores, played(fv, scores, draws, r), #[trigger] draws[r])
}

/// `draws` are the joint actions of `n` rounds, each one that the agents
/// may draw, and no regret has grown beyond what `n` rounds give.
pub open spec fn rounds_played(
    fv: FieldView,
    scores: Seq<Seq<Seq<(Act, i64)>>>,
    draws: Seq<Seq<Seq<Act>>>,
    n: int,
) -> bool {
    &&& draws.len() == n
    &&& drawn(fv, scores, draws, n)
    &&& table_ok(scores, played(fv, scores, draws, n), n * MAX_GAIN)
}

/// The table after `n` rounds does not depend on what is played later.
pub proof fn lemma_played_prefix(
    fv: FieldView,
    scores: Seq<Seq<Seq<(Act, i64)>>>,
    draws: Seq<Seq<Seq<Act>>>,
    more: Seq<Seq<Act>>,
    n: int,
)
    requires
        n <= draws.len(),
    ensures
        played(fv, scores, draws.push(more), n) == played(fv, scores, draws, n),
    decreases n,
{
    if n > 0 {
        lemma_played_prefix(fv, scores, draws, more, n - 1);
        assert(draws.push(more)[n - 1] == draws[n - 1]);
    }
}

/// After `n` rounds, whatever was played, the table has a regret for every
/// action of every agent, none negative and none above what `n` rounds
/// give.
pub proof fn lemma_played_ok(
    fv: FieldView,
    scores: Seq<Seq<Seq<(Act, i64)>>>,
    draws: Seq<Seq<Seq<Act>>>,
    n: int,
)
    requires
        fv.wf(),
        fv.agent_count() <= MAX_AGENTS,
        scores_ok(fv, scores),
        0 <= n,
        n * MAX_GAIN <= MAX_REGRET,
    ensures
        table_ok(scores, played(fv, scores, draws, n), n * MAX_GAIN),
    decreases n,
{
    let table = played(fv, scores, draws, n);
    if n > 0 {
        assert((n - 1) * MAX_GAIN == n * MAX_GAIN - MAX_GAIN) by (nonlinear_arith);
        lemma_played_ok(fv, scores, draws, n - 1);
        let before = played(fv, scores, draws, n - 1);
        assert forall|s: int, i: int| 0 <= s < 2 && 0 <= i < scores[s].len() implies (
        #[trigger] table[s][i]).len() == scores[s][i].len() && row_ok(table[s][i], n * MAX_GAIN) by {
            assert(before[s].len() == scores[s].len());
            assert(before[s][i].len() == scores[s][i].len() && row_ok(
                before[s][i],
                (n - 1) * MAX_GAIN,
            ));
            assert forall|k: int| 0 <= k < table[s][i].len() implies 0 <= #[trigger] table[s][i][k]
                <= n * MAX_GAIN by {
                lemma_regret_gain_bounds(fv, draws[n - 1], scores, s, i, k);
                assert(0 <= before[s][i][k] <= (n - 1) * MAX_GAIN);
            }
        }
        assert forall|s: int| 0 <= s < 2 implies (#[trigger] table[s]).len() == scores[s].len() by {
            assert(before[s].len() == scores[s].len());
        }
    } else {
        assert(n * MAX_GAIN == 0) by (nonlinear_arith)
            requires
                n == 0,
        ;
    }
}

/// No regret is ever negative, and none falls from one round to the next:
/// a round adds to the regret of an action what the agent would have
/// gained by it, if anything.
pub proof fn lemma_regrets_grow(
    fv: FieldView,
    scores: Seq<Seq<Seq<(Act, i64)>>>,
    draws: Seq<Seq<Seq<Act>>>,
    n: int,
    s: int,
    i: int,
    k: int,
)
    requires
        fv.wf(),
        fv.agent_count() <= MAX_AGENTS,
        scores_ok(fv, scores),
        0 <= n,
        (n + 1) * MAX_GAIN <= MAX_REGRET,
        0 <= s < 2,
        0 <= i < scores[s].len(),
        0 <= k < scores[s][i].len(),
    ensures
        0 <= played(fv, scores, draws, n)[s][i][k] <= played(fv, scores, draws, n + 1)[s][i][k],
        played(fv, scores, draws, n + 1)[s][i][k] == played(fv, scores, draws, n)[s][i][k]
            + regret_gain(fv, draws[n], scores, s, i, k),
        played(fv, scores, draws, 0)[s][i][k] == 0,
{
    assert((n + 1) * MAX_GAIN == n * MAX_GAIN + MAX_GAIN) by (nonlinear_arith);
    lemma_played_ok(fv, scores, draws, n);
    let before = played(fv, scores, draws, n);
    assert(before[s].len() == scores[s].len());
    assert(before[s][i].len() == scores[s][i].len() && row_ok(before[s][i], n * MAX_GAIN));
    assert(0 <= before[s][i][k] <= n * MAX_GAIN);
    lemma_regret_gain_bounds(fv, draws[n], scores, s, i, k);
}

/// Without any regret every action of an agent is as probable as every
/// other, up to one part: the parts of [`PROB_ONE`] that the number of
/// actions does not divide go one each to the first actions.
pub proof fn lemma_no_regret_is_uniform(row: Seq<i128>, k: int)
    requires
        row.len() >= 1,
        forall|j: int| 0 <= j < row.len() ==> #[trigger] row[j] == 0,
        0 <= k < row.len(),
    ensures
        chance(row, k) == PROB_ONE as int / row.len() as int + if k < PROB_ONE as int % (
        row.len() as int) {
            1int
        } else {
            0int
        },
{
    let n = row.len() as int;
    lemma_sum_constant(plain(row), n, 0);
    assert(n * 0 == 0) by (nonlinear_arith);
    let u = PROB_ONE as int / n;
    assert forall|j: int| 0 <= j < n implies #[trigger] shares(row)[j] == u by {
        assert(share(row, j) == u);
    }
    lemma_sum_constant(shares(row), n, u);
    assert(PROB_ONE == n * u + PROB_ONE as int % n) by (nonlinear_arith)
        requires
            u == PROB_ONE as int / n,
            n >= 1,
    ;
}

/// A table without any regret, of the shape of the maps.
fn empty_table(scores: &Vec<Vec<Vec<(Act, i64)>>>) -> (table: Vec<Vec<Vec<i128>>>)
    requires
        scores.len() == 2,
    ensures
        table_ok(maps_of(*scores), regrets_of(table), 0),
        regrets_of(table) == zero_table(maps_of(*scores)),
{
    let ghost maps = maps_of(*scores);
    let mut table: Vec<Vec<Vec<i128>>> = Vec::new();
    let mut s: usize = 0;
    proof {
        assert(maps[0] == table_of(scores[0]));
        assert(maps[1] == table_of(scores[1]));
    }
    while s < 2
        invariant
            scores.len() == 2,
            s <= 2,
            table.len() == s,
            forall|a: int| 0 <= a < s ==> (#[trigger] table[a]).len() == scores[a].len(),
            forall|a: int, i: int|
                0 <= a < s && 0 <= i < scores[a].len() ==> (#[trigger] table[a][i]).len()
                    == scores[a][i].len() && row_ok(table[a][i]@, 0),
        decreases 2 - s,
    {
        let mut side: Vec<Vec<i128>> = Vec::new();
        let mut i: usize = 0;
        while i < scores[s].len()
            invariant
                scores.len() == 2,
                s < 2,
                i <= scores[s as int].len(),
                side.len() == i,
                forall|b: int|
                    0 <= b < i ==> (#[trigger] side[b]).len() == scores[s as int][b].len()
                        && row_ok(side[b]@, 0),
            decreases scores[s as int].len() - i,
        {
            let mut row: Vec<i128> = Vec::new();
            let mut k: usize = 0;
            while k < scores[s][i].len()
                invariant
                    scores.len() == 2,
                    s < 2,
                    i < scores[s as int].len(),
                    k <= scores[s as int][i as int].len(),
                    row.len() == k,
                    forall|j: int| 0 <= j < k ==> (#[trigger] row[j]) == 0,
                decreases scores[s as int][i as int].len() - k,
            {
                row.push(0);
                k += 1;
            }
            side.push(row);
            i += 1;
        }
        table.push(side);
        s += 1;
    }
    proof {
        let t = regrets_of(table);
        assert(t[0] == table_of(table[0]));
        assert(t[1] == table_of(table[1]));
        assert forall|a: int, i: int| 0 <= a < 2 && 0 <= i < maps[a].len() implies (
        #[trigger] t[a][i]).len() == maps[a][i].len() && row_ok(t[a][i], 0) by {
            assert(t[a][i] == table[a][i]@);
            assert(maps[a][i] == scores[a][i]@);
        }
        assert(t =~~= zero_table(maps)) by {
            assert forall|a: int| 0 <= a < 2 implies t[a] =~~= zero_table(maps)[a] by {
                assert forall|i: int| 0 <= i < t[a].len() implies t[a][i] =~= zero_table(
                    maps,
                )[a][i] by {
                    assert(t[a][i] == table[a][i]@);
                    assert(maps[a][i] == scores[a][i]@);
                    assert(row_ok(t[a][i], 0));
                }
            }
        }
    }
    table
}

/// Runs `num_iter` rounds of regret matching for both sides and returns
/// the strategies of the agents of `side_`: for each agent every action of
/// its map with the probability of playing it, in parts of [`PROB_ONE`].
///
/// A round draws a joint action, each agent by the strategy that its
/// regrets give, and then adds for every agent and every action the regret
/// of not having played it. Which actions are drawn is a matter of chance:
/// the strategies returned are those of the table after `num_iter` rounds
/// in each of which a joint action was played that the agents may draw.
pub fn regret_matching(
    rng: &mut StdRng,
    side_: bool,
    act_scores: &Vec<Vec<Vec<(Act, i64)>>>,
    field: &Field,
    num_iter: usize,
) -> (prob: Vec<Vec<(Act, i64)>>)
    requires
        field.wf(),
        playable(field@, maps_of(*act_scores)),
        num_iter <= MAX_ROUNDS,
    ensures
        prob.len() == field@.agent_count(),
        exists|draws: Seq<Seq<Seq<Act>>>| #[trigger]
            rounds_played(field@, maps_of(*act_scores), draws, num_iter as int) && table_of(prob)
                == strategies_of(
                maps_of(*act_scores),
                played(field@, maps_of(*act_scores), draws, num_iter as int),
                side_index(side_),
            ),
{
    let ghost fv = field@;
    let ghost maps = maps_of(*act_scores);
    let n = field.agent_count();
    let mut regret = empty_table(act_scores);
    let ghost mut draws: Seq<Seq<Seq<Act>>> = Seq::empty();
    let mut t: usize = 0;
    while t < num_iter
        invariant
            field.wf(),
            fv == field@,
            n == fv.agent_count(),
            maps == maps_of(*act_scores),
            playable(fv, maps),
            num_iter <= MAX_ROUNDS,
            t <= num_iter,
            table_ok(maps, regrets_of(regret), t * MAX_GAIN),
            draws.len() == t,
            drawn(fv, maps, draws, t as int),
            regrets_of(regret) == played(fv, maps, draws, t as int),
        decreases num_iter - t,
    {
        let ghost before = regrets_of(regret);
        let ghost draws0 = draws;
        proof {
            assert(t * MAX_GAIN + MAX_GAIN <= MAX_ROUNDS * MAX_GAIN) by (nonlinear_arith)
                requires
                    0 <= t < MAX_ROUNDS,
                    MAX_GAIN >= 0,
            ;
            lemma_table_weaken(maps, regrets_of(regret), t * MAX_GAIN, MAX_REGRET as int);
        }
        let acts = sample_acts(rng, &regret, act_scores, n);
        accumulate_within(&mut regret, &acts, act_scores, field, Ghost(t * MAX_GAIN));
        proof {
            assert((t + 1) * MAX_GAIN == t * MAX_GAIN + MAX_GAIN) by (nonlinear_arith);
            draws = draws0.push(table_of(acts));
            assert(fair(maps, before, table_of(acts))) by {
                assert forall|s: int| 0 <= s < 2 implies (#[trigger] table_of(acts)[s]).len()
                    == maps[s].len() by {
                    assert(table_of(acts)[s] == acts[s]@);
                }
                assert forall|s: int, i: int| 0 <= s < 2 && 0 <= i < maps[s].len() implies may_draw(
                    maps[s][i],
                    before[s][i],
                    #[trigger] table_of(acts)[s][i],
                ) by {
                    assert(table_of(acts)[s] == acts[s]@);
                    assert(may_draw(maps[s][i], before[s][i], acts[s][i]));
                }
            }
            assert forall|r: int| 0 <= r < t + 1 implies fair(
                maps,
                played(fv, maps, draws, r),
                #[trigger] draws[r],
            ) by {
                lemma_played_prefix(fv, maps, draws0, table_of(acts), r);
                if r < t {
                    assert(draws[r] == draws0[r]);
                    assert(fair(maps, played(fv, maps, draws0, r), draws0[r]));
                }
            }
            lemma_played_prefix(fv, maps, draws0, table_of(acts), t as int);
            assert(draws[t as int] == table_of(acts));
        }
        t += 1;
    }
    let slot: usize = if side_ {
        1
    } else {
        0
    };
    let ghost table = regrets_of(regret);
    proof {
        assert(t * MAX_GAIN <= MAX_ROUNDS * MAX_GAIN) by (nonlinear_arith)
            requires
                0 <= t <= MAX_ROUNDS,
                MAX_GAIN >= 0,
        ;
        lemma_table_weaken(maps, table, t * MAX_GAIN, MAX_REGRET as int);
        assert(maps[slot as int] == table_of(act_scores[slot as int]));
        assert(table[slot as int] == table_of(regret[slot as int]));
        assert(table[slot as int].len() == maps[slot as int].len());
    }
    let mut prob: Vec<Vec<(Act, i64)>> = Vec::new();
    let mut i: usize = 0;
    while i < n
        invariant
            maps == maps_of(*act_scores),
            table == regrets_of(regret),
            playable(fv, maps),
            n == fv.agent_count(),
            table_ok(maps, table, MAX_REGRET as int),
            slot < 2,
            act_scores.len() == 2,
            regret.len() == 2,
            maps[slot as int] == table_of(act_scores[slot as int]),
            table[slot as int] == table_of(regret[slot as int]),
            table[slot as int].len() == n,
            maps[slot as int].len() == n,
            i <= n,
            prob.len() == i,
            forall|a: int|
                0 <= a < i ==> (#[trigger] prob[a])@ == strategy_of(
                    table[slot as int][a],
                    maps[slot as int][a],
                ),
        decreases n - i,
    {
        proof {
            assert(table[slot as int][i as int].len() == maps[slot as int][i as int].len()
                && row_ok(table[slot as int][i as int], MAX_REGRET as int));
            assert(1 <= maps[slot as int][i as int].len() <= MAX_ACTS);
            assert(table[slot as int][i as int] == regret[slot as int][i as int]@);
            assert(maps[slot as int][i as int] == act_scores[slot as int][i as int]@);
        }
        let row = strategy(&regret[slot][i], &act_scores[slot][i]);
        prob.push(row);
        i += 1;
    }
    proof {
        assert(table_of(prob) =~= strategies_of(maps, table, slot as int));
        assert(rounds_played(fv, maps, draws, num_iter as int));
    }
    prob
}

/// A table that keeps a bound keeps every larger bound.
pub proof fn lemma_table_weaken(
    scores: Seq<Seq<Seq<(Act, i64)>>>,
    table: Seq<Seq<Seq<i128>>>,
    bound: int,
    larger: int,
)
    requires
        table_ok(scores, table, bound),
        bound <= larger,
    ensures
        table_ok(scores, table, larger),
{
    assert forall|s: int, i: int| 0 <= s < 2 && 0 <= i < scores[s].len() implies (
    #[trigger] table[s][i]).len() == scores[s][i].len() && row_ok(table[s][i], larger) by {
        assert(table[s][i].len() == scores[s][i].len() && row_ok(table[s][i], bound));
    }
}

} // verus!
