//! What any game of several players with hidden knowledge offers, and what
//! any player of such a game does.

use vstd::prelude::*;

verus! {

/// A seat at the table. Seats are numbered from zero without gaps.
#[derive(Debug, Clone, Copy, PartialEq, Eq, Structural, PartialOrd, Ord, Hash)]
pub struct Player(pub usize);

impl From<usize> for Player {
    fn from(value: usize) -> (r: Self) {
        Player(value)
    }
}

impl vstd::std_specs::convert::FromSpecImpl<usize> for Player {
    open spec fn obeys_from_spec() -> bool {
        true
    }

    open spec fn from_spec(value: usize) -> Self {
        Player(value)
    }
}

impl From<Player> for usize {
    fn from(value: Player) -> (r: Self) {
        value.0
    }
}

impl vstd::std_specs::convert::FromSpecImpl<Player> for usize {
    open spec fn obeys_from_spec() -> bool {
        true
    }

    open spec fn from_spec(value: Player) -> Self {
        value.0
    }
}

/// A game for several players in which each player knows only a part of
/// the state.
pub trait ImperfectInfoGame {
    /// What a player is told on their turn.
    type Info;

    /// What a player may answer.
    type Move;

    /// What holds of every game that its own operations have made.
    spec fn valid(&self) -> bool;

    /// How many players there are.
    fn player_number(&self) -> usize
        requires
            self.valid(),
    ;

    /// Who moves next.
    fn player_turn(&self) -> Player
        requires
            self.valid(),
    ;

    /// What the player on turn is told, and the moves open to them.
    fn info_and_move_now(&self) -> (Self::Info, Vec<Self::Move>)
        requires
            self.valid(),
    ;

    /// Makes the move `m`, if it is open to the player on turn, and says
    /// whether it was made.
    fn move_game(&mut self, m: Self::Move) -> (r: bool)
        requires
            old(self).valid(),
        ensures
            final(self).valid(),
    ;

    /// When the game is over, one number per player: 1 for the winner, 0
    /// for the others.
    fn is_win(&self) -> Option<Vec<usize>>
        requires
            self.valid(),
    ;
}

/// A player of a game: whoever, told what the game tells the player on
/// turn and which moves are open, answers with a move.
pub trait Agent {
    /// The game that the agent plays.
    type Game: ImperfectInfoGame;

    /// The move that the agent makes, told `info` and the moves open to it.
    fn use_info(
        &mut self,
        info: <Self::Game as ImperfectInfoGame>::Info,
        possible_moves: Vec<<Self::Game as ImperfectInfoGame>::Move>,
    ) -> <Self::Game as ImperfectInfoGame>::Move;
}

} // verus!
