use std::fmt::Debug;
use std::hash::Hash;
use vstd::prelude::*;

verus! {

/// What a game tells the search about one of its states.
///
/// A state encodes all the specifics of a game and none of the specifics of
/// the search. The spec functions are the mathematical model of the state; each
/// executable method is tied to one of them.
pub trait GameState<T>: PartialEq + Eq + Hash + Clone + Copy + Debug {
    /// The state is within the machine limits of the game's arithmetic.
    spec fn valid(&self) -> bool;

    /// The states one move away, in the order in which the search tries them.
    spec fn successors(&self) -> Seq<T>;

    /// The game has ended in this state.
    spec fn finished(&self) -> bool;

    /// The static evaluation, from the maximising player's point of view.
    spec fn score(&self) -> int;

    /// The maximising player is to move.
    spec fn maximising(&self) -> bool;

    /// An upper bound on the number of plies that can still be played.
    spec fn horizon(&self) -> nat;

    /// The bucket under which a table files this state.
    spec fn spec_hash_code(&self) -> u64;

    /// Fills `children_cache` with the successors, replacing what it held.
    fn get_children<'a>(&self, children_cache: &'a mut Vec<T>) -> (children: &'a Vec<T>)
        requires
            self.valid(),
        ensures
            children@ == self.successors(),
            final(children_cache)@ == self.successors(),
    ;

    /// An empty buffer fit to receive the successors of a state.
    fn get_children_cache(&self) -> (cache: Vec<T>)
        ensures
            cache@.len() == 0,
    ;

    /// Whether the game has ended.
    fn is_game_over(&self) -> (over: bool)
        ensures
            over == self.finished(),
    ;

    /// The static evaluation of the state.
    fn heuristic(&self) -> (value: i32)
        requires
            self.valid(),
        ensures
            value == self.score(),
    ;

    /// Whether the maximising player is to move.
    fn is_maximising_player(&self) -> (maximising: bool)
        ensures
            maximising == self.maximising(),
    ;

    /// The bucket under which a table files the state. Equal states give
    /// equal codes.
    fn hash_code(&self) -> (code: u64)
        ensures
            code == self.spec_hash_code(),
    ;

    /// Equality of states, as the tables need it.
    fn same_state(&self, other: &Self) -> (same: bool)
        ensures
            same == (*self == *other),
    ;
}

/// The laws that the search relies on: the score of a valid state fits the
/// score's type, moves lead from valid states to valid states, and every move
/// brings the end of the game nearer.
pub trait GameLaws: GameState<Self> {
    /// The score of a valid state fits the score's type.
    proof fn lemma_score_in_range(&self)
        requires
            self.valid(),
        ensures
            i32::MIN <= self.score() <= i32::MAX,
    ;

    /// A move from a valid state leads to a valid state that is nearer to
    /// the end of the game.
    proof fn lemma_successor(&self, i: int)
        requires
            self.valid(),
            !self.finished(),
            0 <= i < self.successors().len(),
        ensures
            self.successors()[i].valid(),
            self.successors()[i].horizon() < self.horizon(),
    ;
}

} // verus!
