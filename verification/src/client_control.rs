//! Turning a player's keys into paddle commands for the server.
use vstd::prelude::*;

use crate::frame::ClientFrame;

verus! {

/// The command for the arrow keys held: up alone moves up, down alone moves
/// down, anything else stops.
pub open spec fn command_for(up: bool, down: bool) -> ClientFrame {
    if up && !down {
        ClientFrame::PaddleUp
    } else if !up && down {
        ClientFrame::PaddleDown
    } else {
        ClientFrame::PaddleStop
    }
}

/// Remembers the last command sent, so that the server gets each command once.
pub struct Controller {
    /// Cache last sent frame so we don't bombard server
    last_frame: ClientFrame,
}

impl Controller {
    /// The last command sent (at first, stop).
    pub closed spec fn last(self) -> ClientFrame {
        self.last_frame
    }

    /// A controller that has sent nothing: the paddle is taken to be still.
    pub fn new() -> (r: Controller)
        ensures
            r.last() == ClientFrame::PaddleStop,
    {
        Controller { last_frame: ClientFrame::PaddleStop }
    }

    /// The command to send for the keys held, if it differs from the last one
    /// sent; it then counts as sent.
    pub fn next_command(&mut self, up: bool, down: bool) -> (r: Option<ClientFrame>)
        ensures
            command_for(up, down) != old(self).last() ==> r == Some(command_for(up, down)),
            command_for(up, down) == old(self).last() ==> r is None,
            final(self).last() == command_for(up, down),
    {
        // Convert inputs to message to be sent
        let paddle_dir = if up && !down {
            ClientFrame::PaddleUp
        } else if !up && down {
            ClientFrame::PaddleDown
        } else {
            ClientFrame::PaddleStop
        };
        if paddle_dir != self.last_frame {
            self.last_frame = paddle_dir;
            Some(paddle_dir)
        } else {
            None
        }
    }
}

} // verus!
