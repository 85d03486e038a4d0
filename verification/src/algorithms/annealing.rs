//! The bookkeeping of a simulated annealing over selections: one index
//! per agent into that agent's list of plans.
use crate::random::{draw_range, draw_ratio};
use rand::rngs::StdRng;
use vstd::prelude::*;

verus! {

/// The state of an annealing. `sel` is the selection being tried, `answer`
/// the best selection seen, `stack` what to put back if the last proposal
/// is turned down.
pub struct Annealer {
    pub sizes: Vec<usize>,
    pub sel: Vec<usize>,
    pub now_score: i64,
    pub answer: Vec<usize>,
    pub answer_score: i64,
    pub start_score: i64,
    pub stack: Vec<(usize, usize)>,
    pub seen: Ghost<Set<(Seq<usize>, i64)>>,
    pub settled: Ghost<Seq<usize>>,
}

/// The selection picks, for every agent, one of that agent's plans.
pub open spec fn selects(sizes: Seq<usize>, sel: Seq<usize>) -> bool {
    &&& sel.len() == sizes.len()
    &&& forall|i: int| 0 <= i < sel.len() ==> (#[trigger] sel[i]) < sizes[i]
}

/// The selection that picks the first plan of every agent.
pub open spec fn first_plans(n: nat) -> Seq<usize> {
    Seq::new(n, |i: int| 0usize)
}

/// The selection after the entries of the stack, from the top down to
/// entry `k`, have been put back.
pub open spec fn undone(sel: Seq<usize>, stack: Seq<(usize, usize)>, k: int) -> Seq<usize>
    decreases stack.len() - k,
{
    if k < 0 || k >= stack.len() {
        sel
    } else {
        undone(sel, stack, k + 1).update(stack[k].0 as int, stack[k].1)
    }
}

/// The entry records what `before` held for its agent, and `after` holds
/// another plan there if the agent has one.
pub open spec fn changed_at(
    sizes: Seq<usize>,
    before: Seq<usize>,
    after: Seq<usize>,
    entry: (usize, usize),
) -> bool {
    &&& entry.0 < sizes.len()
    &&& entry.1 == before[entry.0 as int]
    &&& sizes[entry.0 as int] > 1 ==> after[entry.0 as int] != entry.1
}

impl Annealer {
    /// Every agent has a plan, both selections are selections, the stack
    /// leads back to the selection that was settled last, the best
    /// selection seen and the first selection are on record with their
    /// scores, and the best is no worse than the first.
    pub open spec fn wf(&self) -> bool {
        &&& self.sizes.len() >= 1
        &&& forall|i: int| 0 <= i < self.sizes.len() ==> (#[trigger] self.sizes[i]) >= 1
        &&& selects(self.sizes@, self.sel@)
        &&& selects(self.sizes@, self.answer@)
        &&& selects(self.sizes@, self.settled@)
        &&& forall|k: int|
            0 <= k < self.stack.len() ==> (#[trigger] self.stack[k]).0 < self.sizes.len()
                && self.stack[k].1 < self.sizes[self.stack[k].0 as int]
        &&& undone(self.sel@, self.stack@, 0) == self.settled@
        &&& self.seen@.contains((self.answer@, self.answer_score))
        &&& self.seen@.contains((first_plans(self.sizes@.len()), self.start_score))
        &&& self.answer_score >= self.start_score
        &&& self.answer_score >= self.now_score
    }

    /// An annealing over agents with `sizes[i]` plans each, that starts
    /// from the first plan of everyone, which has the score `score`.
    pub fn new(sizes: Vec<usize>, score: i64) -> (a: Annealer)
        requires
            sizes.len() >= 1,
            forall|i: int| 0 <= i < sizes.len() ==> (#[trigger] sizes[i]) >= 1,
        ensures
            a.wf(),
            a.sizes@ == sizes@,
            a.sel@ == first_plans(sizes@.len()),
            a.answer@ == first_plans(sizes@.len()),
            a.now_score == score,
            a.answer_score == score,
            a.start_score == score,
            a.stack@.len() == 0,
    {
        let mut sel: Vec<usize> = Vec::new();
        let mut answer: Vec<usize> = Vec::new();
        let mut i: usize = 0;
        while i < sizes.len()
            invariant
                i <= sizes.len(),
                sel@ == first_plans(i as nat),
                answer@ == first_plans(i as nat),
            decreases sizes.len() - i,
        {
            sel.push(0);
            answer.push(0);
            assert(sel@ =~= first_plans((i + 1) as nat));
            assert(answer@ =~= first_plans((i + 1) as nat));
            i += 1;
        }
        let ghost zero = first_plans(sizes@.len());
        Annealer {
            sizes,
            sel,
            now_score: score,
            answer,
            answer_score: score,
            start_score: score,
            stack: Vec::new(),
            seen: Ghost(Set::empty().insert((zero, score))),
            settled: Ghost(zero),
        }
    }

    /// The selection to score next.
    pub fn selection(&self) -> (sel: &Vec<usize>)
        ensures
            sel@ == self.sel@,
    {
        &self.sel
    }

    /// Draws another plan for agent `idx` than the one selected, or the
    /// only one it has.
    fn draw_other(&self, rng: &mut StdRng, idx: usize) -> (to: usize)
        requires
            self.wf(),
            idx < self.sizes.len(),
        ensures
            to < self.sizes[idx as int],
            self.sizes[idx as int] > 1 ==> to != self.sel[idx as int],
    {
        let size = self.sizes[idx];
        if size == 1 {
            0
        } else {
            let p = draw_range(rng, 0, (size - 1) as i128) as usize;
            if p >= self.sel[idx] {
                p + 1
            } else {
                p
            }
        }
    }

    /// Changes the selection by chance: in four cases of five, or always
    /// if there is one agent only, one agent gets another of its plans;
    /// else two different agents do. What was selected is kept on the
    /// stack.
    pub fn propose(&mut self, rng: &mut StdRng)
        requires
            old(self).wf(),
            old(self).stack.len() == 0,
            old(self).sizes.len() <= i64::MAX,
        ensures
            final(self).wf(),
            final(self).sizes@ == old(self).sizes@,
            final(self).answer@ == old(self).answer@,
            final(self).answer_score == old(self).answer_score,
            final(self).start_score == old(self).start_score,
            final(self).now_score == old(self).now_score,
            final(self).settled@ == old(self).settled@,
            final(self).seen@ == old(self).seen@,
            1 <= final(self).stack.len() <= 2,
            old(self).sizes.len() == 1 ==> final(self).stack.len() == 1,
            final(self).stack.len() == 2 ==> final(self).stack[0].0 != final(self).stack[1].0,
            forall|k: int|
                0 <= k < final(self).stack.len() ==> changed_at(
                    old(self).sizes@,
                    old(self).sel@,
                    final(self).sel@,
                    #[trigger] final(self).stack[k],
                ),
            forall|i: int|
                0 <= i < old(self).sel.len() && (forall|k: int|
                    0 <= k < final(self).stack.len() ==> (#[trigger] final(self).stack[k]).0 != i)
                    ==> final(self).sel[i] == old(self).sel[i],
    {
        let n = self.sizes.len();
        proof {
            assert(undone(self.sel@, self.stack@, 0) == self.sel@);
        }
        if n <= 1 || draw_ratio(rng, 4, 5) {
            let idx = draw_range(rng, 0, n as i128) as usize;
            let to = self.draw_other(rng, idx);
            let ghost before = self.sel@;
            self.stack.push((idx, self.sel[idx]));
            self.sel[idx] = to;
            proof {
                assert(undone(self.sel@, self.stack@, 1) == self.sel@);
                assert(undone(self.sel@, self.stack@, 0) =~= before);
            }
        } else {
            let idx1 = draw_range(rng, 0, n as i128) as usize;
            let p = draw_range(rng, 0, (n - 1) as i128) as usize;
            let idx2 = if p >= idx1 {
                p + 1
            } else {
                p
            };
            let to1 = self.draw_other(rng, idx1);
            let to2 = self.draw_other(rng, idx2);
            let ghost before = self.sel@;
            self.stack.push((idx1, self.sel[idx1]));
            self.stack.push((idx2, self.sel[idx2]));
            self.sel[idx1] = to1;
            self.sel[idx2] = to2;
            proof {
                assert(undone(self.sel@, self.stack@, 2) == self.sel@);
                assert(undone(self.sel@, self.stack@, 1) == self.sel@.update(
                    idx2 as int,
                    before[idx2 as int],
                ));
                assert(undone(self.sel@, self.stack@, 0) =~= before);
            }
        }
    }

    /// Takes note of the score of the selection proposed. The proposal
    /// stands if it scores no less than the selection before it, or if
    /// `lucky`; else the selection before it is put back. A selection
    /// that stands and scores more than the best seen becomes the best.
    /// Returns whether the proposal stands.
    pub fn settle(&mut self, nex_score: i64, lucky: bool) -> (updated: bool)
        requires
            old(self).wf(),
        ensures
            final(self).wf(),
            updated == (nex_score >= old(self).now_score || lucky),
            final(self).sizes@ == old(self).sizes@,
            final(self).start_score == old(self).start_score,
            final(self).stack.len() == 0,
            final(self).seen@ == old(self).seen@.insert((old(self).sel@, nex_score)),
            updated ==> final(self).sel@ == old(self).sel@ && final(self).now_score == nex_score,
            !updated ==> final(self).sel@ == old(self).settled@ && final(self).now_score == old(
                self,
            ).now_score,
            final(self).settled@ == final(self).sel@,
            final(self).answer_score >= old(self).answer_score,
            final(self).answer_score == (if updated && nex_score > old(self).answer_score {
                nex_score
            } else {
                old(self).answer_score
            }),
            final(self).answer@ == (if updated && nex_score > old(self).answer_score {
                old(self).sel@
            } else {
                old(self).answer@
            }),
    {
        let updated = nex_score >= self.now_score || lucky;
        let ghost tried = self.sel@;
        proof {
            self.seen@ = self.seen@.insert((tried, nex_score));
        }
        if updated {
            self.now_score = nex_score;
            if self.now_score > self.answer_score {
                let mut best: Vec<usize> = Vec::new();
                let mut i: usize = 0;
                while i < self.sel.len()
                    invariant
                        i <= self.sel.len(),
                        best@ == self.sel@.subrange(0, i as int),
                    decreases self.sel.len() - i,
                {
                    best.push(self.sel[i]);
                    assert(best@ =~= self.sel@.subrange(0, i as int + 1));
                    i += 1;
                }
                assert(best@ =~= self.sel@);
                self.answer = best;
                self.answer_score = self.now_score;
            }
        }
        let ghost goal = self.settled@;
        while self.stack.len() > 0
            invariant
                self.sizes@ == old(self).sizes@,
                self.sizes.len() >= 1,
                forall|i: int| 0 <= i < self.sizes.len() ==> (#[trigger] self.sizes[i]) >= 1,
                selects(self.sizes@, self.sel@),
                selects(self.sizes@, goal),
                forall|k: int|
                    0 <= k < self.stack.len() ==> (#[trigger] self.stack[k]).0 < self.sizes.len()
                        && self.stack[k].1 < self.sizes[self.stack[k].0 as int],
                updated ==> self.sel@ == tried,
                !updated ==> undone(self.sel@, self.stack@, 0) == goal,
                self.seen@ == old(self).seen@.insert((tried, nex_score)),
                self.answer@ == (if updated && nex_score > old(self).answer_score {
                    tried
                } else {
                    old(self).answer@
                }),
                self.answer_score == (if updated && nex_score > old(self).answer_score {
                    nex_score
                } else {
                    old(self).answer_score
                }),
                self.start_score == old(self).start_score,
                self.now_score == (if updated {
                    nex_score
                } else {
                    old(self).now_score
                }),
                self.settled@ == goal,
            decreases self.stack.len(),
        {
            let ghost stack0 = self.stack@;
            let ghost sel0 = self.sel@;
            let (idx, sc) = self.stack.pop().unwrap();
            assert(self.stack@ == stack0.drop_last());
            assert((idx, sc) == stack0.last());
            if !updated {
                self.sel[idx] = sc;
                proof {
                    lemma_undone_pop(sel0, stack0, 0);
                }
            }
        }
        proof {
            self.settled@ = self.sel@;
            assert(undone(self.sel@, self.stack@, 0) == self.sel@);
        }
        updated
    }

    /// The best selection seen and its score.
    pub fn best(&self) -> (r: (&Vec<usize>, i64))
        requires
            self.wf(),
        ensures
            r.0@ == self.answer@,
            r.1 == self.answer_score,
            r.1 >= self.start_score,
            selects(self.sizes@, r.0@),
    {
        (&self.answer, self.answer_score)
    }
}

/// The best selection seen scores no less than the selection of the first
/// plan of every agent, under every scoring that agrees with the scores
/// on record.
pub proof fn lemma_best_no_worse(a: Annealer, score: spec_fn(Seq<usize>) -> int)
    requires
        a.wf(),
        forall|s: Seq<usize>, v: i64| #[trigger] a.seen@.contains((s, v)) ==> score(s) == v,
    ensures
        score(a.answer@) >= score(first_plans(a.sizes@.len())),
{
    assert(a.seen@.contains((a.answer@, a.answer_score)));
    assert(a.seen@.contains((first_plans(a.sizes@.len()), a.start_score)));
}

/// Putting back the last entry of the stack and then the others leads
/// where putting back all entries led.
pub proof fn lemma_undone_pop(sel: Seq<usize>, stack: Seq<(usize, usize)>, k: int)
    requires
        0 <= k < stack.len(),
        forall|j: int| 0 <= j < stack.len() ==> (#[trigger] stack[j]).0 < sel.len(),
    ensures
        undone(sel.update(stack.last().0 as int, stack.last().1), stack.drop_last(), k) == undone(
            sel,
            stack,
            k,
        ),
    decreases stack.len() - k,
{
    let top = stack.last();
    let rest = stack.drop_last();
    let sel2 = sel.update(top.0 as int, top.1);
    if k == stack.len() - 1 {
        assert(undone(sel, stack, k + 1) == sel);
        assert(undone(sel2, rest, k) == sel2);
    } else {
        lemma_undone_pop(sel, stack, k + 1);
        assert(rest[k] == stack[k]);
    }
}

} // verus!
