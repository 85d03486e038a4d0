//! The solver that refines the greedy values by regret matching.
use crate::algorithms::base::{
    fit_for_regret, regret_answer, solve_regret_matching, Solver,
};
use crate::algorithms::simple_dp::SimpleDp;
use crate::algorithms::regret::MAX_AGENTS;
use crate::field::{Field, FieldView};
use crate::random::seeded;
use crate::simulator::Act;
use rand::rngs::StdRng;
use vstd::prelude::*;

verus! {

/// The number of rounds of regret matching per turn.
pub const NUM_ITER: usize = 100;

/// Runs regret matching on the values of [`SimpleDp`] and assigns the
/// agents by the strategies found. It draws from a generator of its own.
pub struct SimpleRegret<'a> {
    pub field: &'a Field,
    pub side: bool,
    pub rng: StdRng,
}

impl<'a> SimpleRegret<'a> {
    /// A solver that draws from `rng`.
    pub fn with_rng(side: bool, field: &'a Field, rng: StdRng) -> (solver: SimpleRegret<'a>)
        requires
            field.wf(),
        ensures
            solver.inv(),
            solver.spec_side() == side,
            solver.spec_field() == field@,
    {
        SimpleRegret { field, side, rng }
    }
}

impl<'a> Solver<'a> for SimpleRegret<'a> {
    open spec fn spec_field(&self) -> FieldView {
        self.field@
    }

    open spec fn spec_side(&self) -> bool {
        self.side
    }

    open spec fn inv(&self) -> bool {
        self.field.wf()
    }

    /// There are not too many agents, and the solver of either side that
    /// values the tiles can solve and is then fit for regret matching on
    /// the board.
    open spec fn solvable(&self) -> bool {
        &&& self.field@.agent_count() <= MAX_AGENTS
        &&& forall|solver: SimpleDp<'a>| #[trigger]
            solver.inv() && solver.spec_field() == self.field@ ==> solver.solvable() && (
            solver.solved() ==> fit_for_regret(self.field@, solver.spec_side(), solver))
    }

    /// The actions are a best assignment of the strategies after
    /// [`NUM_ITER`] rounds of regret matching on the values of the tiles.
    open spec fn solution(&self, acts: Seq<Act>) -> bool {
        exists|first: SimpleDp<'a>, second: SimpleDp<'a>, draws: Seq<Seq<Seq<Act>>>, choice: Seq<int>|
            first.inv() && first.solved() && !first.spec_side() && first.spec_field() == self.field@
                && second.inv() && second.solved() && second.spec_side() && second.spec_field()
                == self.field@ && #[trigger] regret_answer(
                self.field@,
                self.side,
                first,
                second,
                draws,
                NUM_ITER as int,
                choice,
                acts,
            )
    }

    /// A solver that draws from a generator with a fixed seed.
    fn new(side: bool, field: &'a Field) -> (solver: SimpleRegret<'a>) {
        SimpleRegret { field, side, rng: seeded(0) }
    }

    open spec fn solved(&self) -> bool {
        true
    }

    fn field(&self) -> (field: &Field) {
        self.field
    }

    fn side(&self) -> (side: bool) {
        self.side
    }

    fn solve(&mut self) -> (acts: Vec<Act>) {
        solve_regret_matching::<SimpleDp<'a>>(&mut self.rng, self.side, self.field, NUM_ITER)
    }
}

} // verus!
