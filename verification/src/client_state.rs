//! The client's copy of the game, kept up to date from the server's frames.
use vstd::prelude::*;

use crate::frame::{DynamicGameState, FixedGameState, InitialGameState, ServerFrame};

verus! {

/// Client-side copy of the game state
#[derive(Debug, Clone, Copy, PartialEq, Eq)]
pub struct GameState {
    pub fixed: FixedGameState,
    pub dynamic: DynamicGameState,
}

impl GameState {
    /// The game as the server started it.
    pub fn from_initial_frame(state: InitialGameState) -> (r: GameState)
        ensures
            r.fixed == state.fixed,
            r.dynamic == state.dynamic,
    {
        GameState { fixed: state.fixed, dynamic: state.dynamic }
    }

    /// Takes in the server's latest changing state; the rest stays.
    pub fn update(&mut self, state: DynamicGameState)
        ensures
            final(self).dynamic == state,
            final(self).fixed == old(self).fixed,
    {
        self.dynamic = state;
    }
}

/// What a listening client does after a frame from the server.
#[derive(Debug, Clone, Copy, PartialEq, Eq, Structural)]
pub enum Listening {
    /// The game goes on.
    Continue,
    /// The game has ended successfully.
    Ended,
}

/// A frame the server should not send while a game runs.
#[derive(Debug, PartialEq, Eq)]
pub enum Error {
    UnexpectedFrame(ServerFrame),
}

/// Takes a frame the server sent during the game: a state update replaces
/// the changing state; the end of the game ends listening; any other frame is
/// unexpected and changes nothing.
pub fn handle_server_frame(game: &mut GameState, frame: ServerFrame) -> (r: Result<Listening, Error>)
    ensures
        match frame {
            ServerFrame::StateUpdate(d) => r == Ok::<Listening, Error>(Listening::Continue)
                && final(game).dynamic == d && final(game).fixed == old(game).fixed,
            ServerFrame::GameEnd => r == Ok::<Listening, Error>(Listening::Ended) && *final(game)
                == *old(game),
            _ => r == Err::<Listening, Error>(Error::UnexpectedFrame(frame)) && *final(game)
                == *old(game),
        },
{
    match frame {
        ServerFrame::StateUpdate(dynamic_game_state) => {
            // Update the game state for rendering
            game.update(dynamic_game_state);
            Ok(Listening::Continue)
        },
        ServerFrame::GameEnd => {
            // Game has ended successfully
            Ok(Listening::Ended)
        },
        frame => {
            // Unexpected message for this state, so end the game with an error
            Err(Error::UnexpectedFrame(frame))
        },
    }
}

/// The paddle the server gave this client in answer to its `Connect`. A
/// rejection, or any other answer, comes back as `Err` for the caller to fail
/// on: without a paddle the client cannot go on, and the client program
/// stops there, naming the frame.
pub fn accepted_paddle(frame: ServerFrame) -> (r: Result<crate::frame::Paddle, ServerFrame>)
    ensures
        match frame {
            ServerFrame::AcceptConnection(p) => r == Ok::<crate::frame::Paddle, ServerFrame>(p),
            _ => r == Err::<crate::frame::Paddle, ServerFrame>(frame),
        },
{
    match frame {
        ServerFrame::AcceptConnection(paddle) => Ok(paddle),
        frame => Err(frame),
    }
}

/// The starting state the server sent when the game began. Any other frame
/// comes back as `Err` for the caller to fail on, as the client program does.
pub fn game_start(frame: ServerFrame) -> (r: Result<InitialGameState, ServerFrame>)
    ensures
        match frame {
            ServerFrame::GameStart(s) => r == Ok::<InitialGameState, ServerFrame>(s),
            _ => r == Err::<InitialGameState, ServerFrame>(frame),
        },
{
    match frame {
        ServerFrame::GameStart(state) => Ok(state),
        frame => Err(frame),
    }
}

} // verus!
