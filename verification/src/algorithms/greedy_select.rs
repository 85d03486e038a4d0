//! The solver that values every action by the points it gains at once.
use crate::algorithms::assignment::{
    acts_of, candidate_count, is_assignment, is_best, MAX_ASSIGN,
};
use crate::algorithms::base::{
    point, solve_with, spec_point, value_maps, EachEvalSolver, Solver,
};
use crate::field::{Field, FieldView};
use crate::simulator::Act;
use vstd::prelude::*;

verus! {

/// Values an action by [`point`] and assigns the agents so that the values
/// sum to the most.
pub struct GreedySelect<'a> {
    pub field: &'a Field,
    pub side: bool,
}

impl<'a> Solver<'a> for GreedySelect<'a> {
    open spec fn spec_field(&self) -> FieldView {
        self.field@
    }

    open spec fn spec_side(&self) -> bool {
        self.side
    }

    open spec fn inv(&self) -> bool {
        self.field.wf()
    }

    /// There are not too many agents and candidates, and the candidates
    /// that have a value allow every agent a tile of its own.
    open spec fn solvable(&self) -> bool {
        &&& self.field@.agent_count() <= MAX_ASSIGN
        &&& candidate_count(value_maps(self.field@, self.side, *self), self.field@.agent_count())
            <= MAX_ASSIGN
        &&& exists|choice: Seq<int>| #[trigger]
            is_assignment(self.field@, self.side, value_maps(self.field@, self.side, *self), choice)
    }

    /// The actions are a best assignment of the candidates that have a
    /// value.
    open spec fn solution(&self, acts: Seq<Act>) -> bool {
        exists|choice: Seq<int>| #[trigger]
            is_best(self.field@, self.side, value_maps(self.field@, self.side, *self), choice)
                && acts == acts_of(value_maps(self.field@, self.side, *self), choice)
    }

    fn new(side: bool, field: &'a Field) -> (solver: GreedySelect<'a>) {
        GreedySelect { field, side }
    }

    open spec fn solved(&self) -> bool {
        true
    }

    fn field(&self) -> (field: &Field) {
        self.field
    }

    fn side(&self) -> (side: bool) {
        self.side
    }

    fn solve(&mut self) -> (acts: Vec<Act>) {
        solve_with(self.side, self.field, &*self)
    }
}

impl<'a> EachEvalSolver for GreedySelect<'a> {
    /// The points the action gains at once, whoever the agent is.
    open spec fn spec_eval(&self, id: int, act: Act) -> Option<i64> {
        match spec_point(self.field@, self.side, act) {
            Some(v) => Some(v as i64),
            None => None,
        }
    }

    open spec fn can_eval(&self) -> bool {
        self.field.wf()
    }

    fn eval(&self, _id: usize, act: Act) -> (value: Option<i64>) {
        match point(self.side, act, self.field) {
            Some(v) => Some(v as i64),
            None => None,
        }
    }
}

} // verus!
