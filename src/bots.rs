use crate::geometry::{dist_sq, distance_squared, lemma_mix_between, mix, mix_i32, mix_vec2, Vec2};
use vstd::arithmetic::div_mod::{lemma_fundamental_div_mod, lemma_fundamental_div_mod_converse};
use crate::interop::Player;
use crate::level::{Level, Track};
use vstd::prelude::*;

verus! {

/// The shortest time span, in milliseconds, that sampling divides by: two
/// snapshots closer in time than this are blended as if this far apart.
pub const MIN_SEGMENT_MS: u64 = 1000;

/// The part of a participant's report that a recording keeps.
#[derive(Clone, Copy, Debug, PartialEq, Eq, Structural)]
pub struct PlayerSnapshot {
    pub skin: usize,
    pub pos: Vec2,
    pub vel: Vec2,
    pub rot: i32,
}

/// A snapshot with its time, in milliseconds from the start of the round.
#[derive(Clone, Copy, Debug, PartialEq, Eq, Structural)]
pub struct TimedData {
    pub time: u64,
    pub data: PlayerSnapshot,
}

/// One participant's recorded run through one round, oldest snapshot first.
#[derive(Clone, Debug)]
pub struct MoveData {
    pub data: Vec<TimedData>,
}

/// Where a recorded run ended and when.
#[derive(Clone, Copy, Debug, PartialEq, Eq, Structural)]
pub struct Result {
    pub time: u64,
    pub pos: Vec2,
}

impl View for MoveData {
    type V = Seq<TimedData>;

    open spec fn view(&self) -> Seq<TimedData> {
        self.data@
    }
}

/// The snapshots' times never decrease.
pub open spec fn time_ordered(s: Seq<TimedData>) -> bool {
    forall|i: int, j: int| 0 <= i <= j < s.len() ==> #[trigger] s[i].time <= #[trigger] s[j].time
}

/// A recording that can be stored and played back: non-empty and in time order.
pub open spec fn playable(s: Seq<TimedData>) -> bool {
    s.len() > 0 && time_ordered(s)
}

/// The part of `p` that a recording keeps.
pub open spec fn snapshot_of(p: Player) -> PlayerSnapshot {
    PlayerSnapshot { skin: 0, pos: p.pos, vel: p.vel, rot: p.rot }
}

/// A recorded snapshot played back as a report.
pub open spec fn player_of(d: PlayerSnapshot) -> Player {
    Player { color: 0, skin: 0, pos: d.pos, vel: d.vel, rot: d.rot }
}

pub open spec fn mix_point(a: Vec2, b: Vec2, k: int, den: int) -> Vec2 {
    Vec2 { x: mix(a.x as int, b.x as int, k, den) as i32, y: mix(a.y as int, b.y as int, k, den) as i32 }
}

/// The time span that blending between `p1` and `p2` divides by.
pub open spec fn segment_span(p1: TimedData, p2: TimedData) -> int {
    if p2.time - p1.time >= MIN_SEGMENT_MS {
        p2.time - p1.time
    } else {
        MIN_SEGMENT_MS as int
    }
}

/// Position, velocity and rotation blended linearly between `p1` and `p2` at
/// `time`, each rounded down.
pub open spec fn blend(p1: TimedData, p2: TimedData, time: u64) -> Player {
    let den = segment_span(p1, p2);
    let k = time - p1.time;
    Player {
        color: 0,
        skin: 0,
        pos: mix_point(p1.data.pos, p2.data.pos, k, den),
        vel: mix_point(p1.data.vel, p2.data.vel, k, den),
        rot: mix(p1.data.rot as int, p2.data.rot as int, k, den) as i32,
    }
}

/// `i` is the first snapshot of the pair that brackets `time`.
pub open spec fn brackets(s: Seq<TimedData>, i: int, time: u64) -> bool {
    0 <= i < s.len() - 1 && s[i].time <= time < s[i + 1].time
}

/// A recording played back at `time`: before the first snapshot it stands at
/// the first, from the last one on at the last, and in between it is blended
/// between the two snapshots that bracket `time`.
pub open spec fn sample(s: Seq<TimedData>, time: u64) -> Player {
    if time < s[0].time {
        player_of(s[0].data)
    } else if time >= s[s.len() - 1].time {
        player_of(s[s.len() - 1].data)
    } else {
        let i = choose|i: int| brackets(s, i, time);
        blend(s[i], s[i + 1], time)
    }
}

/// Where and when a recording ends.
pub open spec fn result_of(s: Seq<TimedData>) -> Result {
    Result { time: s[s.len() - 1].time, pos: s[s.len() - 1].data.pos }
}

/// In a recording in time order, at most one pair brackets a time.
proof fn lemma_bracket_unique(s: Seq<TimedData>, i: int, j: int, time: u64)
    requires
        time_ordered(s),
        brackets(s, i, time),
        brackets(s, j, time),
    ensures
        i == j,
{
    if i < j {
        assert(s[i + 1].time <= s[j].time);
    } else if j < i {
        assert(s[j + 1].time <= s[i].time);
    }
}

fn player_from(d: PlayerSnapshot) -> (r: Player)
    ensures
        r == player_of(d),
{
    Player { color: 0, skin: 0, pos: d.pos, vel: d.vel, rot: d.rot }
}

impl MoveData {
    pub fn new() -> (r: Self)
        ensures
            r@ == Seq::<TimedData>::empty(),
    {
        MoveData { data: Vec::new() }
    }

    /// Appends `data` as recorded at `time`.
    pub fn push(&mut self, time: u64, data: Player)
        ensures
            final(self)@ == old(self)@.push(TimedData { time, data: snapshot_of(data) }),
    {
        self.data.push(
            TimedData {
                time,
                data: PlayerSnapshot { skin: 0, pos: data.pos, vel: data.vel, rot: data.rot },
            },
        );
    }

    /// The recording played back at `time` (see `sample`).
    pub fn get(&self, time: u64) -> (r: Player)
        requires
            playable(self@),
        ensures
            r == sample(self@, time),
    {
        let n = self.data.len();
        if time < self.data[0].time {
            return player_from(self.data[0].data);
        }
        if time >= self.data[n - 1].time {
            return player_from(self.data[n - 1].data);
        }
        let mut lo: usize = 0;
        let mut hi: usize = n - 1;
        while hi - lo > 1
            invariant
                n == self@.len(),
                lo < hi < n,
                self@[lo as int].time <= time < self@[hi as int].time,
            decreases hi - lo,
        {
            let mid = lo + (hi - lo) / 2;
            if self.data[mid].time <= time {
                lo = mid;
            } else {
                hi = mid;
            }
        }
        let p1 = self.data[lo];
        let p2 = self.data[lo + 1];
        proof {
            assert(brackets(self@, lo as int, time));
            let i = choose|i: int| brackets(self@, i, time);
            lemma_bracket_unique(self@, i, lo as int, time);
        }
        let span = p2.time - p1.time;
        let den = if span >= MIN_SEGMENT_MS {
            span
        } else {
            MIN_SEGMENT_MS
        };
        let k = time - p1.time;
        let pos = mix_vec2(p1.data.pos, p2.data.pos, k, den);
        let vel = mix_vec2(p1.data.vel, p2.data.vel, k, den);
        let rot = mix_i32(p1.data.rot, p2.data.rot, k, den);
        Player { color: 0, skin: 0, pos, vel, rot }
    }

    /// Where and when the recording ends.
    pub fn result(&self) -> (r: Result)
        requires
            self@.len() > 0,
        ensures
            r == result_of(self@),
    {
        let last = self.data[self.data.len() - 1];
        Result { time: last.time, pos: last.data.pos }
    }
}

/// The recorded runs of every track, held as one entry per track.
pub struct Data {
    pub entries: Vec<(Track, Vec<MoveData>)>,
}

/// The recordings of one entry.
pub open spec fn runs_view(v: Vec<MoveData>) -> Seq<Seq<TimedData>> {
    v@.map_values(|m: MoveData| m@)
}

/// The recordings stored under `track` in `entries`, none where no entry has it.
pub open spec fn lookup(entries: Seq<(Track, Seq<Seq<TimedData>>)>, track: Track) -> Seq<Seq<TimedData>>
    decreases entries.len(),
{
    if entries.len() == 0 {
        Seq::empty()
    } else if entries.last().0 == track {
        entries.last().1
    } else {
        lookup(entries.drop_last(), track)
    }
}

/// The fewest recordings held under one track, zero where there is no track.
pub open spec fn fewest_runs(entries: Seq<(Track, Seq<Seq<TimedData>>)>) -> nat
    decreases entries.len(),
{
    if entries.len() == 0 {
        0
    } else if entries.len() == 1 {
        entries[0].1.len()
    } else {
        let rest = fewest_runs(entries.drop_last());
        let here = entries.last().1.len();
        if here < rest {
            here
        } else {
            rest
        }
    }
}

/// A track appears in two entries at most once.
pub open spec fn unique_tracks(entries: Seq<(Track, Seq<Seq<TimedData>>)>) -> bool {
    forall|i: int, j: int|
        0 <= i < j < entries.len() ==> #[trigger] entries[i].0 != #[trigger] entries[j].0
}

/// The entry at `i` is the one `lookup` finds.
proof fn lemma_lookup_at(entries: Seq<(Track, Seq<Seq<TimedData>>)>, i: int)
    requires
        unique_tracks(entries),
        0 <= i < entries.len(),
    ensures
        lookup(entries, entries[i].0) == entries[i].1,
    decreases entries.len(),
{
    if i != entries.len() - 1 {
        let rest = entries.drop_last();
        assert(entries.last().0 != entries[i].0);
        assert(unique_tracks(rest)) by {
            assert forall|a: int, b: int| 0 <= a < b < rest.len() implies rest[a].0 != rest[b].0 by {
                assert(entries[a].0 != entries[b].0);
            }
        }
        lemma_lookup_at(rest, i);
    }
}

/// A track that no entry has holds no recordings.
proof fn lemma_lookup_absent(entries: Seq<(Track, Seq<Seq<TimedData>>)>, track: Track)
    requires
        forall|i: int| 0 <= i < entries.len() ==> #[trigger] entries[i].0 != track,
    ensures
        lookup(entries, track) == Seq::<Seq<TimedData>>::empty(),
    decreases entries.len(),
{
    if entries.len() > 0 {
        let rest = entries.drop_last();
        assert(entries.last().0 != track);
        assert forall|i: int| 0 <= i < rest.len() implies #[trigger] rest[i].0 != track by {
            assert(entries[i].0 != track);
        }
        lemma_lookup_absent(rest, track);
    }
}

impl View for Data {
    type V = Seq<(Track, Seq<Seq<TimedData>>)>;

    open spec fn view(&self) -> Seq<(Track, Seq<Seq<TimedData>>)> {
        self.entries@.map_values(|e: (Track, Vec<MoveData>)| (e.0, runs_view(e.1)))
    }
}

impl Data {
    /// Every track has one entry and every stored recording is playable.
    pub open spec fn wf(&self) -> bool {
        &&& unique_tracks(self@)
        &&& forall|i: int, j: int|
            0 <= i < self@.len() && 0 <= j < self@[i].1.len() ==> playable(#[trigger] self@[i].1[j])
    }

    /// The recordings stored under `track`, oldest first.
    pub open spec fn runs(&self, track: Track) -> Seq<Seq<TimedData>> {
        lookup(self@, track)
    }

    pub proof fn lemma_runs_playable(&self, track: Track)
        requires
            self.wf(),
        ensures
            forall|j: int| 0 <= j < self.runs(track).len() ==> playable(#[trigger] self.runs(track)[j]),
    {
        if exists|i: int| 0 <= i < self@.len() && self@[i].0 == track {
            let i = choose|i: int| 0 <= i < self@.len() && self@[i].0 == track;
            lemma_lookup_at(self@, i);
        } else {
            lemma_lookup_absent(self@, track);
        }
    }

    /// An empty store.
    pub fn new() -> (r: Self)
        ensures
            r.wf(),
            r@ == Seq::<(Track, Seq<Seq<TimedData>>)>::empty(),
    {
        Data { entries: Vec::new() }
    }

    /// The index of the entry of `track`, if there is one.
    fn find(&self, track: Track) -> (r: Option<usize>)
        ensures
            match r {
                Some(i) => i < self@.len() && self@[i as int].0 == track,
                None => forall|i: int| 0 <= i < self@.len() ==> #[trigger] self@[i].0 != track,
            },
    {
        let mut i: usize = 0;
        while i < self.entries.len()
            invariant
                i <= self@.len(),
                self@.len() == self.entries@.len(),
                forall|j: int| 0 <= j < i ==> #[trigger] self@[j].0 != track,
            decreases self.entries@.len() - i,
        {
            if self.entries[i].0 == track {
                return Some(i);
            }
            i = i + 1;
        }
        None
    }

    /// Stores `replay` under `track`; an empty recording is dropped.
    pub fn push(&mut self, track: Track, replay: MoveData)
        requires
            old(self).wf(),
            time_ordered(replay@),
        ensures
            final(self).wf(),
            replay@.len() == 0 ==> final(self)@ == old(self)@,
            replay@.len() > 0 ==> final(self).runs(track) == old(self).runs(track).push(replay@),
            forall|t: Track| t != track ==> final(self).runs(t) == old(self).runs(t),
    {
        if replay.data.len() == 0 {
            return;
        }
        let ghost old_view = self@;
        match self.find(track) {
            Some(i) => {
                let mut entry: (Track, Vec<MoveData>) = (track, Vec::new());
                self.entries.set_and_swap(i, &mut entry);
                let mut runs = entry.1;
                runs.push(replay);
                self.entries.set(i, (track, runs));
                proof {
                    assert(runs_view(runs) =~= old_view[i as int].1.push(replay@));
                    assert(self@ =~= old_view.update(i as int, (track, old_view[i as int].1.push(replay@))));
                    assert forall|a: int, b: int| 0 <= a < b < self@.len() implies self@[a].0 != self@[b].0 by {
                        assert(old_view[a].0 != old_view[b].0);
                    }
                    assert forall|a: int, b: int|
                        0 <= a < self@.len() && 0 <= b < self@[a].1.len() implies playable(#[trigger] self@[a].1[b]) by {
                        if a == i {
                            if b < old_view[a].1.len() {
                                assert(self@[a].1[b] == old_view[a].1[b]);
                            }
                        } else {
                            assert(self@[a] == old_view[a]);
                        }
                    }
                    lemma_lookup_at(self@, i as int);
                    lemma_lookup_at(old_view, i as int);
                    assert forall|t: Track| t != track implies self.runs(t) == lookup(old_view, t) by {
                        lemma_lookup_update_other(old_view, i as int, self@, t);
                    }
                }
            },
            None => {
                let mut runs = Vec::new();
                runs.push(replay);
                self.entries.push((track, runs));
                proof {
                    assert(runs_view(runs) =~= seq![replay@]);
                    assert(self@ =~= old_view.push((track, seq![replay@])));
                    assert(self@.drop_last() =~= old_view);
                    assert forall|a: int, b: int| 0 <= a < b < self@.len() implies self@[a].0 != self@[b].0 by {
                        if b < old_view.len() {
                            assert(old_view[a].0 != old_view[b].0);
                        }
                    }
                    assert forall|a: int, b: int|
                        0 <= a < self@.len() && 0 <= b < self@[a].1.len() implies playable(#[trigger] self@[a].1[b]) by {
                        if a < old_view.len() {
                            assert(self@[a] == old_view[a]);
                        }
                    }
                    lemma_lookup_absent(old_view, track);
                    assert(seq![replay@] =~= Seq::<Seq<TimedData>>::empty().push(replay@));
                }
            },
        }
    }

    /// Every recording stored under `track` played back at `time`, one report
    /// each, in the order they were stored.
    pub fn get(&self, track: Track, time: u64) -> (r: Vec<Player>)
        requires
            self.wf(),
        ensures
            r@ == self.runs(track).map_values(|s: Seq<TimedData>| sample(s, time)),
    {
        let mut out: Vec<Player> = Vec::new();
        match self.find(track) {
            Some(i) => {
                proof {
                    lemma_lookup_at(self@, i as int);
                }
                let runs = &self.entries[i].1;
                let mut j: usize = 0;
                while j < runs.len()
                    invariant
                        self.wf(),
                        i < self@.len(),
                        runs_view(*runs) == self@[i as int].1,
                        j <= runs@.len(),
                        out@ =~= runs_view(*runs).take(j as int).map_values(|s: Seq<TimedData>| sample(s, time)),
                    decreases runs@.len() - j,
                {
                    assert(playable(self@[i as int].1[j as int]));
                    let p = runs[j].get(time);
                    out.push(p);
                    j = j + 1;
                    assert(runs_view(*runs).take(j as int) =~= runs_view(*runs).take(j - 1).push(runs[j - 1]@));
                }
                assert(runs_view(*runs).take(j as int) =~= runs_view(*runs));
            },
            None => {
                proof {
                    lemma_lookup_absent(self@, track);
                }
            },
        }
        out
    }

    /// Where and when each recording stored under `track` ends, in the order
    /// they were stored.
    pub fn get_results(&self, track: Track) -> (r: Vec<Result>)
        requires
            self.wf(),
        ensures
            r@ == self.runs(track).map_values(|s: Seq<TimedData>| result_of(s)),
    {
        let mut out: Vec<Result> = Vec::new();
        match self.find(track) {
            Some(i) => {
                proof {
                    lemma_lookup_at(self@, i as int);
                }
                let runs = &self.entries[i].1;
                let mut j: usize = 0;
                while j < runs.len()
                    invariant
                        self.wf(),
                        i < self@.len(),
                        runs_view(*runs) == self@[i as int].1,
                        j <= runs@.len(),
                        out@ =~= runs_view(*runs).take(j as int).map_values(|s: Seq<TimedData>| result_of(s)),
                    decreases runs@.len() - j,
                {
                    assert(playable(self@[i as int].1[j as int]));
                    let p = runs[j].result();
                    out.push(p);
                    j = j + 1;
                    assert(runs_view(*runs).take(j as int) =~= runs_view(*runs).take(j - 1).push(runs[j - 1]@));
                }
                assert(runs_view(*runs).take(j as int) =~= runs_view(*runs));
            },
            None => {
                proof {
                    lemma_lookup_absent(self@, track);
                }
            },
        }
        out
    }

    /// The fewest recordings that any track holds: how many bots every track
    /// can drive at once.
    pub fn max_bots(&self) -> (r: usize)
        ensures
            r == fewest_runs(self@),
    {
        let mut best: usize = 0;
        let mut i: usize = 0;
        while i < self.entries.len()
            invariant
                i <= self@.len(),
                self@.len() == self.entries@.len(),
                best == fewest_runs(self@.take(i as int)),
            decreases self.entries@.len() - i,
        {
            let here = self.entries[i].1.len();
            assert(self@.take(i + 1).drop_last() =~= self@.take(i as int));
            if i == 0 || here < best {
                best = here;
            }
            i = i + 1;
        }
        assert(self@.take(i as int) =~= self@);
        best
    }
}

/// Replacing the entry at `i` with one of the same track leaves the lookups of
/// every other track as they were.
proof fn lemma_lookup_update_other(
    entries: Seq<(Track, Seq<Seq<TimedData>>)>,
    i: int,
    updated: Seq<(Track, Seq<Seq<TimedData>>)>,
    t: Track,
)
    requires
        0 <= i < entries.len(),
        updated.len() == entries.len(),
        updated[i].0 == entries[i].0,
        t != entries[i].0,
        forall|j: int| 0 <= j < entries.len() && j != i ==> updated[j] == entries[j],
    ensures
        lookup(updated, t) == lookup(entries, t),
    decreases entries.len(),
{
    if entries.len() > 0 && i != entries.len() - 1 {
        lemma_lookup_update_other(entries.drop_last(), i, updated.drop_last(), t);
    } else if entries.len() > 0 {
        assert(updated.drop_last() =~= entries.drop_last());
    }
}


/// Playback clamps: before the first snapshot a recording stands at the
/// first, from the last one on at the last; it never extrapolates.
pub proof fn lemma_sample_clamps(s: Seq<TimedData>, time: u64)
    requires
        playable(s),
    ensures
        time < s[0].time ==> sample(s, time) == player_of(s[0].data),
        time >= s[s.len() - 1].time ==> sample(s, time) == player_of(s[s.len() - 1].data),
{
}

/// Half way between two snapshots one second apart, playback gives the
/// midpoint of their positions, each coordinate rounded down.
pub proof fn lemma_sample_midpoint(s: Seq<TimedData>)
    requires
        s.len() == 2,
        s[0].time == 0,
        s[1].time == 1000,
    ensures
        sample(s, 500).pos.x as int == (s[0].data.pos.x + s[1].data.pos.x) / 2,
        sample(s, 500).pos.y as int == (s[0].data.pos.y + s[1].data.pos.y) / 2,
{
    assert(brackets(s, 0, 500));
    let i = choose|i: int| brackets(s, i, 500);
    assert(time_ordered(s)) by {
        assert forall|a: int, b: int| 0 <= a <= b < s.len() implies #[trigger] s[a].time <= #[trigger] s[b].time by {}
    }
    lemma_bracket_unique(s, i, 0, 500);
    lemma_mix_half(s[0].data.pos.x as int, s[1].data.pos.x as int);
    lemma_mix_half(s[0].data.pos.y as int, s[1].data.pos.y as int);
    lemma_mix_between(s[0].data.pos.x as int, s[1].data.pos.x as int, 500, 1000);
    lemma_mix_between(s[0].data.pos.y as int, s[1].data.pos.y as int, 500, 1000);
}

/// The even mix of two values is their mean, rounded down.
proof fn lemma_mix_half(a: int, b: int)
    ensures
        mix(a, b, 500, 1000) == (a + b) / 2,
{
    let q = (a + b) / 2;
    let r = (a + b) % 2;
    lemma_fundamental_div_mod(a + b, 2);
    assert(a * (1000 - 500) + b * 500 == q * 1000 + r * 500) by (nonlinear_arith)
        requires a + b == 2 * q + r;
    lemma_fundamental_div_mod_converse(a * (1000 - 500) + b * 500, 1000, q, r * 500);
}


/// When a recording ends.
pub open spec fn end_time(s: Seq<TimedData>) -> u64 {
    s[s.len() - 1].time
}

/// A recording of track `t` that starts within `2 * radius` of the track's
/// origin and ends within `2 * radius` of its destination, among the
/// locations `locs`.
pub open spec fn reaches(locs: Seq<Vec2>, radius: int, t: Track, s: Seq<TimedData>) -> bool {
    &&& t.from < locs.len()
    &&& t.to < locs.len()
    &&& dist_sq(s[0].data.pos, locs[t.from as int]) < 4 * (radius * radius)
    &&& dist_sq(s[s.len() - 1].data.pos, locs[t.to as int]) < 4 * (radius * radius)
}

/// Recordings that end later come first.
pub open spec fn slowest_first(rs: Seq<Seq<TimedData>>) -> bool {
    forall|i: int, j: int| 0 <= i <= j < rs.len() ==> #[trigger] end_time(rs[i]) >= #[trigger] end_time(rs[j])
}

/// What `retain_reaching` keeps of the recordings `rs` of track `t`.
pub open spec fn reaching_runs(locs: Seq<Vec2>, radius: int, t: Track, rs: Seq<Seq<TimedData>>) -> Seq<
    Seq<TimedData>,
> {
    rs.filter(|s: Seq<TimedData>| reaches(locs, radius, t, s))
}

fn reaches_exec(level: &Level, radius: i32, t: Track, run: &MoveData) -> (r: bool)
    requires
        playable(run@),
    ensures
        r == reaches(level.cat_locations@, radius as int, t, run@),
{
    let n = level.cat_locations.len();
    if t.from >= n || t.to >= n {
        return false;
    }
    let r = radius as i128;
    proof {
        assert(0 <= r * r <= 0x4000_0000_0000_0000) by (nonlinear_arith)
            requires -0x8000_0000 <= r <= 0x7fff_ffff;
    }
    let first = run.data[0].data.pos;
    let last = run.data[run.data.len() - 1].data.pos;
    distance_squared(first, level.cat_locations[t.from]) < 4 * (r * r) && distance_squared(
        last,
        level.cat_locations[t.to],
    ) < 4 * (r * r)
}

/// Keeps the recordings of `rs` that reach (see `reaches`), ordered so that
/// those that end later come first; recordings that end together keep
/// their order.
fn reaching_in_order(level: &Level, radius: i32, t: Track, rs: Vec<MoveData>) -> (r: Vec<MoveData>)
    requires
        forall|j: int| 0 <= j < rs@.len() ==> playable(#[trigger] rs@[j]@),
    ensures
        runs_view(r).to_multiset() == reaching_runs(level.cat_locations@, radius as int, t, runs_view(rs)).to_multiset(),
        slowest_first(runs_view(r)),
        forall|j: int| 0 <= j < r@.len() ==> playable(#[trigger] r@[j]@),
{
    let ghost src = runs_view(rs);
    let ghost pred = |s: Seq<TimedData>| reaches(level.cat_locations@, radius as int, t, s);
    let mut kept: Vec<MoveData> = Vec::new();
    let mut rest = rs;
    let mut j: usize = 0;
    let total = rest.len();
    assert(runs_view(kept) =~= Seq::<Seq<TimedData>>::empty());
    assert(src.take(0).filter(pred) =~= Seq::<Seq<TimedData>>::empty()) by {
        assert(src.take(0) =~= Seq::<Seq<TimedData>>::empty());
        Seq::<Seq<TimedData>>::empty().lemma_filter_len(pred);
    }
    while j < total
        invariant
            total == rest@.len() == src.len(),
            j <= total,
            forall|k: int| j <= k < total ==> (#[trigger] rest@[k])@ == src[k],
            forall|k: int| 0 <= k < total ==> playable(#[trigger] src[k]),
            forall|k: int| 0 <= k < kept@.len() ==> playable(#[trigger] kept@[k]@),
            pred == (|s: Seq<TimedData>| reaches(level.cat_locations@, radius as int, t, s)),
            runs_view(kept).to_multiset() == src.take(j as int).filter(pred).to_multiset(),
            slowest_first(runs_view(kept)),
        decreases total - j,
    {
        proof {
            assert(src.take(j + 1) =~= src.take(j as int).push(src[j as int]));
            src.take(j as int).lemma_filter_push(src[j as int], pred);
        }
        let mut run = MoveData::new();
        rest.set_and_swap(j, &mut run);
        assert(run@ == src[j as int]);
        let keep = reaches_exec(level, radius, t, &run);
        if keep {
            let end = run.data[run.data.len() - 1].time;
            let mut pos: usize = 0;
            let mut searching = true;
            while searching && pos < kept.len()
                invariant
                    pos <= kept@.len(),
                    forall|k: int| 0 <= k < kept@.len() ==> playable(#[trigger] kept@[k]@),
                    forall|k: int| 0 <= k < pos ==> end_time(#[trigger] runs_view(kept)[k]) >= end,
                    !searching ==> pos < kept@.len() && end_time(runs_view(kept)[pos as int]) < end,
                decreases kept@.len() - pos + if searching { 1int } else { 0int },
            {
                assert(playable(kept@[pos as int]@));
                if kept[pos].data[kept[pos].data.len() - 1].time < end {
                    searching = false;
                } else {
                    pos = pos + 1;
                }
            }
            let ghost before = runs_view(kept);
            let ghost before_vec = kept@;
            kept.insert(pos, run);
            proof {
                assert(runs_view(kept) =~= before.insert(pos as int, src[j as int]));
                vstd::seq_lib::to_multiset_insert(before, pos as int, src[j as int]);
                vstd::seq_lib::to_multiset_build(src.take(j as int).filter(pred), src[j as int]);
                let now = runs_view(kept);
                assert forall|a: int, b: int| 0 <= a <= b < now.len() implies #[trigger] end_time(now[a])
                    >= #[trigger] end_time(now[b]) by {
                    if a < pos && b < pos {
                        assert(now[a] == before[a] && now[b] == before[b]);
                    } else if a < pos && b == pos {
                        assert(now[a] == before[a]);
                    } else if a < pos {
                        assert(now[a] == before[a] && now[b] == before[b - 1]);
                    } else if a == pos && b > pos {
                        assert(now[b] == before[b - 1]);
                        assert(end_time(before[pos as int]) < end);
                        assert(end_time(before[pos as int]) >= end_time(before[b - 1]));
                    } else if a > pos {
                        assert(now[a] == before[a - 1] && now[b] == before[b - 1]);
                    }
                }
                assert forall|k: int| 0 <= k < kept@.len() implies playable(#[trigger] kept@[k]@) by {
                    if k < pos {
                        assert(kept@[k] == before_vec[k]);
                    } else if k > pos {
                        assert(kept@[k] == before_vec[k - 1]);
                    }
                }
            }
        }
        j = j + 1;
    }
    assert(src.take(j as int) =~= src);
    kept
}

impl Data {
    /// Keeps, under each track, only the recordings that start near its
    /// origin and end near its destination (see `reaches`, with `radius`
    /// the player radius), those that end later first.
    pub fn retain_reaching(&mut self, level: &Level, radius: i32)
        requires
            old(self).wf(),
        ensures
            final(self).wf(),
            forall|t: Track|
                #![trigger final(self).runs(t)]
                final(self).runs(t).to_multiset() == reaching_runs(
                    level.cat_locations@,
                    radius as int,
                    t,
                    old(self).runs(t),
                ).to_multiset() && slowest_first(final(self).runs(t)),
    {
        let ghost s0 = self@;
        let mut i: usize = 0;
        while i < self.entries.len()
            invariant
                self.entries@.len() == s0.len(),
                i <= s0.len(),
                self.wf(),
                forall|k: int| 0 <= k < s0.len() ==> (#[trigger] self@[k]).0 == s0[k].0,
                forall|k: int| i <= k < s0.len() ==> #[trigger] self@[k] == s0[k],
                forall|k: int|
                    0 <= k < i ==> (#[trigger] self@[k]).1.to_multiset() == reaching_runs(
                        level.cat_locations@,
                        radius as int,
                        s0[k].0,
                        s0[k].1,
                    ).to_multiset() && slowest_first(self@[k].1),
            decreases s0.len() - i,
        {
            let ghost prev = self@;
            let mut entry: (Track, Vec<MoveData>) = (Track { from: 0, to: 0 }, Vec::new());
            self.entries.set_and_swap(i, &mut entry);
            let (track, runs) = entry;
            assert(runs_view(runs) == prev[i as int].1);
            assert forall|j: int| 0 <= j < runs@.len() implies playable(#[trigger] runs@[j]@) by {
                assert(runs@[j]@ == prev[i as int].1[j]);
            }
            let kept = reaching_in_order(level, radius, track, runs);
            self.entries.set(i, (track, kept));
            proof {
                assert forall|a: int, b: int| 0 <= a < b < self@.len() implies self@[a].0 != self@[b].0 by {
                    assert(prev[a].0 != prev[b].0);
                }
                assert forall|a: int, b: int|
                    0 <= a < self@.len() && 0 <= b < self@[a].1.len() implies playable(#[trigger] self@[a].1[b]) by {
                    if a != i {
                        assert(self@[a] == prev[a]);
                    } else {
                        assert(self@[a].1[b] == kept@[b]@);
                    }
                }
                assert forall|k: int| 0 <= k < s0.len() && k != i implies #[trigger] self@[k] == prev[k] by {}
            }
            i = i + 1;
        }
        proof {
            assert forall|t: Track|
                #![trigger self.runs(t)]
                self.runs(t).to_multiset() == reaching_runs(level.cat_locations@, radius as int, t, lookup(s0, t))
                    .to_multiset() && slowest_first(self.runs(t)) by {
                if exists|k: int| 0 <= k < s0.len() && s0[k].0 == t {
                    let k = choose|k: int| 0 <= k < s0.len() && s0[k].0 == t;
                    lemma_lookup_at(s0, k);
                    lemma_lookup_at(self@, k);
                } else {
                    lemma_lookup_absent(s0, t);
                    assert forall|k: int| 0 <= k < self@.len() implies #[trigger] self@[k].0 != t by {
                        assert(self@[k].0 == s0[k].0);
                    }
                    lemma_lookup_absent(self@, t);
                    assert(reaching_runs(level.cat_locations@, radius as int, t, Seq::empty()) =~= Seq::empty());
                }
            }
        }
    }
}

} // verus!
