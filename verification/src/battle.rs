//! The battle that a search plays out.

use crate::number::{equal_answer, Expr, Real, Single};
use vstd::prelude::*;

verus! {

/// What a side does in a turn.
#[derive(Clone, Debug)]
pub enum MoveChoice<C> {
    /// One of the moves that the engine knows.
    Choice(C),
    /// No move.
    NoMove,
}

impl<C> MoveChoice<C> {
    pub fn is_none(&self) -> (r: bool)
        ensures
            r == (*self is NoMove),
    {
        match self {
            MoveChoice::Choice(_) => false,
            MoveChoice::NoMove => true,
        }
    }
}

/// One outcome of a turn: how likely it is, and what it does to the battle.
#[derive(Debug)]
pub struct StateInstructions<I, S> {
    pub percentage: S,
    pub instruction_list: Vec<I>,
}

/// The engine that knows the rules of the battle.
///
/// A value of the type is a state of the battle. Nothing is required of the methods but that
/// they return.
pub trait Battle: Sized {
    /// A move of a side.
    type Choice;

    /// One change of the state.
    type Instruction;

    /// What scores are kept in.
    type Score: Single;

    /// The moves open to side one and to side two.
    fn get_all_options(&self) -> (Vec<MoveChoice<Self::Choice>>, Vec<MoveChoice<Self::Choice>>);

    /// The state after the changes in `list`.
    fn apply_instructions(self, list: &Vec<Self::Instruction>) -> Self;

    /// The state before the changes in `list`.
    fn reverse_instructions(self, list: &Vec<Self::Instruction>) -> Self;

    /// Zero while the battle goes on, else one where side one has won and minus one where side
    /// two has.
    fn battle_is_over(&self) -> Self::Score;

    /// How good the state is for side one.
    fn evaluate(&self) -> Self::Score;

    /// The outcomes of a turn in which the sides make the given moves, with the state handed
    /// back.
    fn generate_instructions_from_move_pair(
        self,
        s1_move: &MoveChoice<Self::Choice>,
        s2_move: &MoveChoice<Self::Choice>,
        branch_on_damage: bool,
    ) -> (Self, Vec<StateInstructions<Self::Instruction, Self::Score>>);
}

/// The engine takes `s` to `t` when it applies `list`.
pub open spec fn applies<B: Battle>(s: B, list: Vec<B::Instruction>, t: B) -> bool {
    call_ensures(B::apply_instructions, (s, &list), t)
}

/// The engine takes `s` to `t` when it reverses `list`.
pub open spec fn reverses<B: Battle>(s: B, list: Vec<B::Instruction>, t: B) -> bool {
    call_ensures(B::reverse_instructions, (s, &list), t)
}

/// The engine answers `over` when asked whether the battle has ended in `s`.
pub open spec fn ended<B: Battle>(s: B, over: bool) -> bool {
    exists|v: B::Score| #[trigger]
        call_ensures(B::battle_is_over, (&s,), v) && equal_answer(
            Expr::Value(v),
            Expr::Count(0),
            !over,
        )
}

/// The engine's reversal takes back what it applied, and listing the outcomes of a turn leaves
/// the state as it was.
pub open spec fn undoes<B: Battle>() -> bool {
    &&& forall|s: B, list: Vec<B::Instruction>, t: B, u: B|
        #[trigger] applies(s, list, t) && #[trigger] reverses(t, list, u) ==> u == s
    &&& forall|
        s: B,
        s1_move: &MoveChoice<B::Choice>,
        s2_move: &MoveChoice<B::Choice>,
        branch: bool,
        t: B,
        outcomes: Vec<StateInstructions<B::Instruction, B::Score>>,
    | #[trigger]
        call_ensures(
            B::generate_instructions_from_move_pair,
            (s, s1_move, s2_move, branch),
            (t, outcomes),
        ) ==> t == s
}

/// Whether the battle has ended in `state`.
pub(crate) fn has_ended<B: Battle>(state: &B) -> (over: bool)
    ensures
        ended(*state, over),
{
    let v = state.battle_is_over();
    let zero = B::Score::from_count(0);
    let same = v.equals(zero);
    assert(equal_answer(Expr::Value(v), Expr::Count(0), same));
    !same
}

} // verus!
