//! What the server does with a player's commands.
use vstd::prelude::*;

use crate::frame::{ClientFrame, Paddle};
use crate::game_state::GameState;

verus! {

/// A frame that a player may not send during a game.
#[derive(Debug, Clone, Copy, PartialEq, Eq)]
pub enum Error {
    InvalidFrame(ClientFrame),
}

/// Whether to keep listening to a player.
#[derive(Debug, Clone, Copy, PartialEq, Eq, Structural)]
pub enum Control {
    /// The command was carried out.
    Continue,
    /// The player left.
    Disconnected,
}

/// The direction that a paddle command sets, if the frame is one.
pub open spec fn command_direction(frame: ClientFrame) -> Option<i8> {
    match frame {
        ClientFrame::PaddleUp => Some(1i8),
        ClientFrame::PaddleDown => Some(-1i8),
        ClientFrame::PaddleStop => Some(0i8),
        _ => None,
    }
}

/// Carries out one frame from the player who controls `paddle`: a paddle
/// command sets that paddle's direction (up 1, down -1, stop 0); a disconnect
/// ends the game for this player; any other frame is invalid. Nothing else of
/// the game changes.
pub fn apply_frame(game: &mut GameState, paddle: Paddle, frame: ClientFrame) -> (r: Result<
    Control,
    Error,
>)
    ensures
        match command_direction(frame) {
            Some(dir) => {
                &&& r == Ok::<Control, Error>(Control::Continue)
                &&& final(game).left_paddle_dir == if paddle == Paddle::Left {
                    dir
                } else {
                    old(game).left_paddle_dir
                }
                &&& final(game).right_paddle_dir == if paddle == Paddle::Right {
                    dir
                } else {
                    old(game).right_paddle_dir
                }
            },
            None => {
                &&& r == if frame == ClientFrame::Disconnect {
                    Ok::<Control, Error>(Control::Disconnected)
                } else {
                    Err(Error::InvalidFrame(frame))
                }
                &&& final(game).left_paddle_dir == old(game).left_paddle_dir
                &&& final(game).right_paddle_dir == old(game).right_paddle_dir
            },
        },
        final(game).arena_size == old(game).arena_size,
        final(game).left_paddle_pos == old(game).left_paddle_pos,
        final(game).right_paddle_pos == old(game).right_paddle_pos,
        final(game).paddle_size == old(game).paddle_size,
        final(game).ball_pos == old(game).ball_pos,
        final(game).ball_dir == old(game).ball_dir,
        final(game).ball_speed == old(game).ball_speed,
        final(game).score == old(game).score,
        final(game).paddle_speed == old(game).paddle_speed,
{
    let dir: i8 = match frame {
        ClientFrame::PaddleUp => 1,
        ClientFrame::PaddleDown => -1,
        ClientFrame::PaddleStop => 0,
        ClientFrame::Disconnect => return Ok(Control::Disconnected),
        // Invalid command
        _ => return Err(Error::InvalidFrame(frame)),
    };
    match paddle {
        Paddle::Left => game.left_paddle_dir = dir,
        Paddle::Right => game.right_paddle_dir = dir,
    }
    Ok(Control::Continue)
}

} // verus!
