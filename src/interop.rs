use crate::geometry::Vec2;
use crate::level::Track;
use vstd::prelude::*;

verus! {

/// A participant identity, shared by real connections and bots.
pub type Id = i64;

/// What a participant reports of itself: where it is, how fast it moves, where
/// it faces. Coordinates are in thousandths of a world unit, velocities in
/// thousandths of a world unit per second, the rotation and the colour in
/// thousandths of their unit.
#[derive(Clone, Copy, Debug, PartialEq, Eq, Structural)]
pub struct Player {
    pub color: i32,
    pub skin: usize,
    pub pos: Vec2,
    pub vel: Vec2,
    pub rot: i32,
}

/// What a client sends to the server.
#[derive(Clone, Debug)]
pub enum ClientMessage {
    Ping,
    UpdatePlayer(Player),
    Name(String),
    Ready(bool),
}

/// The head counts that a client is told on request.
#[derive(Clone, Copy, Debug, PartialEq, Eq, Structural)]
pub struct Numbers {
    pub players_left: usize,
    pub spectators: usize,
    pub bots: usize,
    pub qualified: usize,
}

/// One timed contest of a session: its ordinal, its track and how many
/// participants qualify for the next one.
#[derive(Clone, Copy, Debug, PartialEq, Eq, Structural)]
pub struct Round {
    pub num: usize,
    pub track: Track,
    pub to_be_qualified: usize,
}

/// What the server sends to a client.
#[derive(Clone, Debug)]
pub enum ServerMessage {
    Pong,
    UpdatePlayer(Id, Option<Player>),
    Disconnect(Id),
    YouHaveBeenEliminated,
    YouHaveBeenRespawned(Vec2),
    Numbers(Numbers),
    NewRound(Round),
    RoundStarted,
    YouHaveBeenQualified,
    Name(Id, String),
    YouAreWinner,
    Winner(Option<Id>),
    YourName(String),
}

} // verus!
