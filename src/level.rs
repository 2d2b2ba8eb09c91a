use crate::geometry::Vec2;
use vstd::prelude::*;

verus! {

/// A directed pair of target locations: a round's origin and destination.
#[derive(Clone, Copy, Debug, PartialEq, Eq, Structural, Hash)]
pub struct Track {
    pub from: usize,
    pub to: usize,
}

/// The fixed list of target locations that rounds run between.
#[derive(Clone, Debug)]
pub struct Level {
    pub cat_locations: Vec<Vec2>,
}

/// The settings that the session controller reads. Times are in
/// milliseconds, lengths in thousandths of a world unit, speeds in
/// thousandths of a world unit per second, the elimination ratio in
/// thousandths.
#[derive(Clone, Copy, Debug, PartialEq, Eq, Structural)]
pub struct Config {
    pub min_players: usize,
    pub new_session_time: u64,
    pub cat_move_time: u64,
    pub player_radius: i32,
    pub finish_speed: i32,
    pub elimination_ratio: u64,
    pub server_recordings: bool,
}

/// The destination drawn for a round from `from` among `n` locations: the
/// draw picks one of the other `n - 1` locations.
pub open spec fn destination(n: int, from: int, draw: int) -> int {
    let to = draw % (n - 1);
    if to >= from {
        to + 1
    } else {
        to
    }
}

impl Level {
    /// A level that rounds can run on: at least two locations.
    pub open spec fn wf(&self) -> bool {
        self.cat_locations@.len() >= 2
    }

    /// A track from `from` to another location, chosen by `draw`.
    pub fn random_track_from(&self, from: usize, draw: u64) -> (r: Track)
        requires
            self.wf(),
            from < self.cat_locations@.len(),
        ensures
            r.from == from,
            r.to == destination(self.cat_locations@.len() as int, from as int, draw as int),
            r.to < self.cat_locations@.len(),
            r.to != from,
    {
        let n = self.cat_locations.len();
        let mut to = (draw % ((n - 1) as u64)) as usize;
        if to >= from {
            to = to + 1;
        }
        Track { from, to }
    }

    /// A track between two locations, both chosen by `draw`: the start by
    /// `draw` modulo the number of locations, the destination by the rest.
    pub fn random_track(&self, draw: u64) -> (r: Track)
        requires
            self.wf(),
        ensures
            r.from == draw as int % (self.cat_locations@.len() as int),
            r.to == destination(
                self.cat_locations@.len() as int,
                r.from as int,
                draw as int / (self.cat_locations@.len() as int),
            ),
            r.to < self.cat_locations@.len(),
            r.to != r.from,
    {
        let n = self.cat_locations.len() as u64;
        let from = (draw % n) as usize;
        self.random_track_from(from, draw / n)
    }
}

} // verus!
