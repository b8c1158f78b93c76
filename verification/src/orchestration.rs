//! Seating players in a game: the handshake that admits them.
//!
//! A client sends `Connect`; the server answers with the paddle it gets, or
//! rejects it when both paddles are taken; the client confirms with
//! `ConnectedAck`, and only then takes its seat.
use vstd::prelude::*;

use crate::frame::{ClientFrame, Paddle, ServerFrame};

verus! {

/// Why a player was not admitted.
#[derive(Debug, Clone, Copy, PartialEq, Eq)]
pub enum Error {
    /// The player sent a frame that does not belong at this point of the handshake.
    InvalidFrame(ClientFrame),
    /// Both paddles are taken.
    ServerFull,
}

/// Where a player's handshake stands.
#[derive(Debug, Clone, Copy, PartialEq, Eq, Structural)]
pub enum Handshake {
    /// Waiting for the player's `Connect`.
    AwaitingConnect,
    /// The player was offered this paddle; waiting for its `ConnectedAck`.
    AwaitingAck(Paddle),
}

/// What to do after a frame of the handshake.
#[derive(Debug, PartialEq, Eq)]
pub enum HandshakeStep {
    /// Send this frame, and go on in this state.
    Reply(ServerFrame, Handshake),
    /// Send this frame, then give up with this error.
    Reject(ServerFrame, Error),
    /// Give up with this error.
    Fail(Error),
    /// The player now holds this paddle.
    Joined(Paddle),
}

/// Which paddles of a game have players.
#[derive(Debug, Clone, Copy, PartialEq, Eq, Structural)]
pub struct GameServer {
    left_taken: bool,
    right_taken: bool,
}

/// The paddle the next player gets: the left one while it is free, else the
/// right one while it is free, else none.
pub open spec fn free_paddle(left_taken: bool, right_taken: bool) -> Option<Paddle> {
    if !left_taken {
        Some(Paddle::Left)
    } else if !right_taken {
        Some(Paddle::Right)
    } else {
        None
    }
}

impl GameServer {
    /// The left paddle has a player.
    pub closed spec fn left(self) -> bool {
        self.left_taken
    }

    /// The right paddle has a player.
    pub closed spec fn right(self) -> bool {
        self.right_taken
    }

    /// A game with no players yet.
    pub fn new() -> (r: GameServer)
        ensures
            !r.left(),
            !r.right(),
            seated_in_order(r.left(), r.right()),
            seats_taken(r.left(), r.right()) == 0,
    {
        GameServer { left_taken: false, right_taken: false }
    }

    /// Both players are there.
    pub fn ready(&self) -> (r: bool)
        ensures
            r == (self.left() && self.right()),
    {
        self.left_taken && self.right_taken
    }

    /// The paddle the next player would get.
    pub fn free_paddle(&self) -> (r: Option<Paddle>)
        ensures
            r == free_paddle(self.left(), self.right()),
    {
        if !self.left_taken {
            Some(Paddle::Left)
        } else if !self.right_taken {
            Some(Paddle::Right)
        } else {
            None
        }
    }

    /// Takes a frame of a player's handshake that stands at `state`.
    ///
    /// Waiting for `Connect`: on it, the player is offered the free paddle, or
    /// rejected with "Server is full" when there is none; any other frame is
    /// invalid. Waiting for `ConnectedAck`: on it, the player takes the
    /// offered paddle; any other frame is invalid. Only joining changes the seats.
    ///
    /// The paddle offered is still the free one when the `ConnectedAck` comes,
    /// as nothing seats another player in between: so a join takes one more
    /// seat, and the right paddle is never taken while the left one is free.
    pub fn handshake(&mut self, state: Handshake, frame: ClientFrame) -> (r: HandshakeStep)
        requires
            state matches Handshake::AwaitingAck(p) ==> free_paddle(old(self).left(), old(self).right())
                == Some(p),
        ensures
            seated_in_order(old(self).left(), old(self).right()) ==> seated_in_order(
                final(self).left(),
                final(self).right(),
            ),
            r is Joined ==> seats_taken(final(self).left(), final(self).right()) == seats_taken(
                old(self).left(),
                old(self).right(),
            ) + 1,
            !(r is Joined) ==> *final(self) == *old(self),
            match state {
                Handshake::AwaitingConnect => {
                    &&& *final(self) == *old(self)
                    &&& if frame != ClientFrame::Connect {
                        r == HandshakeStep::Fail(Error::InvalidFrame(frame))
                    } else {
                        match free_paddle(old(self).left(), old(self).right()) {
                            Some(p) => r == HandshakeStep::Reply(
                                ServerFrame::AcceptConnection(p),
                                Handshake::AwaitingAck(p),
                            ),
                            None => r matches HandshakeStep::Reject(
                                ServerFrame::RejectConnection(message),
                                Error::ServerFull,
                            ) && message@ == "Server is full"@,
                        }
                    }
                },
                Handshake::AwaitingAck(p) => if frame != ClientFrame::ConnectedAck {
                    &&& *final(self) == *old(self)
                    &&& r == HandshakeStep::Fail(Error::InvalidFrame(frame))
                } else {
                    &&& r == HandshakeStep::Joined(p)
                    &&& final(self).left() == (old(self).left() || p == Paddle::Left)
                    &&& final(self).right() == (old(self).right() || p == Paddle::Right)
                },
            },
    {
        match state {
            Handshake::AwaitingConnect => {
                if frame != ClientFrame::Connect {
                    return HandshakeStep::Fail(Error::InvalidFrame(frame));
                }
                match self.free_paddle() {
                    Some(paddle) => HandshakeStep::Reply(
                        ServerFrame::AcceptConnection(paddle),
                        Handshake::AwaitingAck(paddle),
                    ),
                    None => HandshakeStep::Reject(
                        ServerFrame::RejectConnection("Server is full".to_owned()),
                        Error::ServerFull,
                    ),
                }
            },
            Handshake::AwaitingAck(paddle) => {
                if frame != ClientFrame::ConnectedAck {
                    return HandshakeStep::Fail(Error::InvalidFrame(frame));
                }
                match paddle {
                    Paddle::Left => self.left_taken = true,
                    Paddle::Right => self.right_taken = true,
                }
                HandshakeStep::Joined(paddle)
            },
        }
    }
}

/// The right paddle is taken only once the left one is.
pub open spec fn seated_in_order(left_taken: bool, right_taken: bool) -> bool {
    right_taken ==> left_taken
}

/// How many paddles have players.
pub open spec fn seats_taken(left_taken: bool, right_taken: bool) -> int {
    (if left_taken { 1int } else { 0int }) + (if right_taken { 1int } else { 0int })
}

/// Seats taken in order tell the game's progress by their number alone: none
/// taken is a new game, one is the left paddle alone, and the game is ready
/// exactly when two are taken.
pub proof fn lemma_seats_in_order(left_taken: bool, right_taken: bool)
    requires
        seated_in_order(left_taken, right_taken),
    ensures
        0 <= seats_taken(left_taken, right_taken) <= 2,
        seats_taken(left_taken, right_taken) == 0 <==> !left_taken && !right_taken,
        seats_taken(left_taken, right_taken) == 1 <==> left_taken && !right_taken,
        (left_taken && right_taken) <==> seats_taken(left_taken, right_taken) == 2,
{
}

/// Players are seated left first, then right; a paddle that is taken is never
/// offered; when both are taken no paddle is offered, so a third player is rejected.
pub proof fn lemma_seating(left_taken: bool, right_taken: bool)
    ensures
        free_paddle(false, right_taken) == Some(Paddle::Left),
        free_paddle(true, false) == Some(Paddle::Right),
        free_paddle(true, true) == None::<Paddle>,
        free_paddle(left_taken, right_taken) matches Some(p) ==> (p == Paddle::Left ==> !left_taken)
            && (p == Paddle::Right ==> !right_taken),
{
}

} // verus!
