//! A fixed number of player slots, each free or held by a peer's address.
use vstd::prelude::*;

verus! {

/// A peer's socket address, as plain values: two addresses are the same
/// exactly when all their fields are.
#[derive(Debug, Clone, Copy, PartialEq, Eq, Structural)]
pub struct PeerAddr {
    /// Whether this is an IPv6 address.
    pub is_v6: bool,
    /// The IP address as an integer (an IPv4 address in the low 32 bits).
    pub ip: u128,
    pub port: u16,
    /// IPv6 flow information and scope; zero for IPv4.
    pub flowinfo: u32,
    pub scope_id: u32,
}

/// Why a player could not be connected or disconnected.
#[derive(Debug, Clone, Copy, PartialEq, Eq)]
pub enum Error {
    MaxPlayersExceeded,
    PlayerAlreadyExists,
    PlayerDoesntExist,
}

/// The player slots.
pub struct ConnectionPool {
    connections: Vec<Option<PeerAddr>>,
}

impl View for ConnectionPool {
    type V = Seq<Option<PeerAddr>>;

    closed spec fn view(&self) -> Seq<Option<PeerAddr>> {
        self.connections@
    }
}

/// No address holds two slots.
pub open spec fn distinct(slots: Seq<Option<PeerAddr>>) -> bool {
    forall|i: int, j: int|
        0 <= i < slots.len() && 0 <= j < slots.len() && i != j && #[trigger] slots[i] is Some
            && #[trigger] slots[j] is Some ==> slots[i] != slots[j]
}

/// The first free slot, if any.
pub open spec fn first_free(slots: Seq<Option<PeerAddr>>) -> Option<int>
    decreases slots.len(),
{
    if slots.len() == 0 {
        None
    } else if slots[0] is None {
        Some(0)
    } else {
        match first_free(slots.drop_first()) {
            Some(i) => Some(i + 1),
            None => None,
        }
    }
}

/// The first free slot is free, and every slot before it is held.
pub proof fn lemma_first_free(slots: Seq<Option<PeerAddr>>)
    ensures
        first_free(slots) matches Some(i) ==> 0 <= i < slots.len() && slots[i] is None && forall|
            k: int,
        | 0 <= k < i ==> #[trigger] slots[k] is Some,
        first_free(slots) is None ==> forall|k: int| 0 <= k < slots.len() ==> #[trigger] slots[k] is Some,
    decreases slots.len(),
{
    if slots.len() > 0 {
        lemma_first_free(slots.drop_first());
        if slots[0] is Some {
            assert forall|k: int| 1 <= k < slots.len() implies #[trigger] slots[k] == slots.drop_first()[k - 1] by {}
        }
    }
}

impl ConnectionPool {
    /// A pool of `max_players` free slots.
    pub fn new(max_players: usize) -> (r: ConnectionPool)
        ensures
            r@ == Seq::new(max_players as nat, |i: int| None::<PeerAddr>),
    {
        let mut connections: Vec<Option<PeerAddr>> = Vec::new();
        let mut i: usize = 0;
        while i < max_players
            invariant
                i <= max_players,
                connections@ == Seq::new(i as nat, |k: int| None::<PeerAddr>),
            decreases max_players - i,
        {
            connections.push(None);
            i = i + 1;
            assert(connections@ =~= Seq::new(i as nat, |k: int| None::<PeerAddr>));
        }
        ConnectionPool { connections }
    }

    /// Attempt to connect a player to the game: an address that holds a slot
    /// already is refused; otherwise it takes the first free slot, whose index
    /// is returned, and is refused when there is none. No other slot changes.
    pub fn try_connect(&mut self, addr: PeerAddr) -> (r: Result<usize, Error>)
        ensures
            old(self)@.contains(Some(addr)) ==> r == Err::<usize, Error>(Error::PlayerAlreadyExists)
                && final(self)@ == old(self)@,
            !old(self)@.contains(Some(addr)) && first_free(old(self)@) is None ==> r == Err::<
                usize,
                Error,
            >(Error::MaxPlayersExceeded) && final(self)@ == old(self)@,
            !old(self)@.contains(Some(addr)) ==> (first_free(old(self)@) matches Some(i) ==> r
                == Ok::<usize, Error>(i as usize) && final(self)@ == old(self)@.update(i, Some(addr))),
            distinct(old(self)@) ==> distinct(final(self)@),
            old(self)@.len() <= usize::MAX,
            final(self)@.len() == old(self)@.len(),
    {
        let n = self.connections.len();
        // First check if this player has already connected
        let mut i: usize = 0;
        while i < n
            invariant
                i <= n,
                n == self.connections@.len(),
                self.connections@ == old(self)@,
                forall|k: int| 0 <= k < i ==> self.connections@[k] != Some(addr),
            decreases n - i,
        {
            if let Some(c) = self.connections[i] {
                if c == addr {
                    assert(self.connections@[i as int] == Some(addr));
                    return Err(Error::PlayerAlreadyExists);
                }
            }
            i = i + 1;
        }
        assert(!old(self)@.contains(Some(addr)));
        // Then check if there's any room
        let mut pos: usize = 0;
        while pos < n && self.connections[pos].is_some()
            invariant
                pos <= n,
                n == self.connections@.len(),
                self.connections@ == old(self)@,
                forall|k: int| 0 <= k < pos ==> #[trigger] self.connections@[k] is Some,
            decreases n - pos,
        {
            pos = pos + 1;
        }
        proof {
            lemma_first_free(old(self)@);
        }
        if pos == n {
            return Err(Error::MaxPlayersExceeded);
        }
        // Connect the player
        self.connections.set(pos, Some(addr));
        proof {
            let slots = self.connections@;
            if distinct(old(self)@) {
                assert forall|a: int, b: int|
                    0 <= a < slots.len() && 0 <= b < slots.len() && a != b && #[trigger] slots[a] is Some
                        && #[trigger] slots[b] is Some implies slots[a] != slots[b] by {
                    if a == pos {
                        assert(old(self)@[b] != Some(addr));
                    } else if b == pos {
                        assert(old(self)@[a] != Some(addr));
                    }
                }
            }
        }
        Ok(pos)
    }

    /// Attempt to disconnect a player from the game: frees its slot, and
    /// fails when there is no such slot or it is free already.
    pub fn try_disconnect(&mut self, player: usize) -> (r: Result<(), Error>)
        ensures
            player < old(self)@.len() && old(self)@[player as int] is Some ==> r is Ok
                && final(self)@ == old(self)@.update(player as int, None),
            !(player < old(self)@.len() && old(self)@[player as int] is Some) ==> r == Err::<
                (),
                Error,
            >(Error::PlayerDoesntExist) && final(self)@ == old(self)@,
            distinct(old(self)@) ==> distinct(final(self)@),
            old(self)@.len() <= usize::MAX,
            final(self)@.len() == old(self)@.len(),
    {
        if player >= self.connections.len() {
            return Err(Error::PlayerDoesntExist);
        }
        if self.connections[player].is_none() {
            return Err(Error::PlayerDoesntExist);
        }
        self.connections.set(player, None);
        Ok(())
    }
}

/// Connecting a new player and then disconnecting it leaves the pool as it was.
pub proof fn lemma_connect_then_disconnect(slots: Seq<Option<PeerAddr>>, addr: PeerAddr, i: int)
    requires
        first_free(slots) == Some(i),
    ensures
        0 <= i < slots.len(),
        slots.update(i, Some(addr)).update(i, None) == slots,
{
    lemma_first_free(slots);
    assert(slots.update(i, Some(addr)).update(i, None) =~= slots);
}

} // verus!
