use crate::bots::{reaching_runs, sample, slowest_first, snapshot_of, time_ordered, Data, MoveData, TimedData};
use crate::geometry::{dist_sq, distance_squared, len_sq, length_squared, Vec2};
use crate::interop::{ClientMessage, Id, Numbers, Player, Round, ServerMessage};
use crate::names::{censor, censored, clean_name, kept_name};
use crate::level::{Config, Level, Track};
use vstd::prelude::*;

verus! {

/// How long, in milliseconds, the announced round waits before it starts.
pub const COUNTDOWN_MS: u64 = 3000;

/// Where the session controller stands.
#[derive(Clone, Copy, Debug, PartialEq, Eq, Structural)]
pub enum Phase {
    /// Nothing has happened yet: the first tick starts a session.
    Boot,
    /// No round runs; a new session starts once the wait is over.
    Waiting { since: u64 },
    /// A round is announced and starts once the countdown is over.
    Countdown { since: u64 },
    /// A round runs.
    Running { since: u64 },
}

impl Phase {
    pub fn is_running(&self) -> (r: bool)
        ensures
            r == (*self is Running),
    {
        match self {
            Phase::Running { .. } => true,
            _ => false,
        }
    }
}

/// One identity that the controller knows: a connected client or a bot of
/// the roster.
pub struct Participant {
    pub id: Id,
    pub is_bot: bool,
    pub ready: bool,
    pub name: String,
    /// Present while the client races; absent while it watches, waits for the
    /// next round or has qualified.
    pub pos: Option<Vec2>,
    /// What this round has recorded of the client.
    pub current_replay: MoveData,
    /// Still competing in the current session.
    pub active: bool,
    /// Has reached the destination in the current round.
    pub qualified: bool,
}

/// A message for one client.
pub struct Outgoing {
    pub to: Id,
    pub message: ServerMessage,
}

/// What a tick hands back.
pub struct TickOutcome {
    pub messages: Vec<Outgoing>,
    /// The replay store took recordings and should be saved.
    pub save_replays: bool,
}

/// The session controller: every client, the bot roster, the round and the
/// replay store, owned in one place.
pub struct State {
    pub phase: Phase,
    /// The latest time seen, in milliseconds; it never goes back.
    pub clock: u64,
    pub next_id: Id,
    pub level: Level,
    pub config: Config,
    pub bots: Data,
    /// The bots of the roster first, then the clients, by increasing identity.
    pub participants: Vec<Participant>,
    pub bot_count: usize,
    pub round: Round,
    pub numbers: Numbers,
}

/// A message that holds no text.
pub open spec fn plain(m: ServerMessage) -> bool {
    !(m is Name || m is YourName)
}

/// A copy of a message that holds no text.
fn duplicate(m: &ServerMessage) -> (r: ServerMessage)
    requires
        plain(*m),
    ensures
        r == *m,
{
    match m {
        ServerMessage::Pong => ServerMessage::Pong,
        ServerMessage::UpdatePlayer(id, p) => ServerMessage::UpdatePlayer(*id, *p),
        ServerMessage::Disconnect(id) => ServerMessage::Disconnect(*id),
        ServerMessage::YouHaveBeenEliminated => ServerMessage::YouHaveBeenEliminated,
        ServerMessage::YouHaveBeenRespawned(p) => ServerMessage::YouHaveBeenRespawned(*p),
        ServerMessage::Numbers(n) => ServerMessage::Numbers(*n),
        ServerMessage::NewRound(r) => ServerMessage::NewRound(*r),
        ServerMessage::RoundStarted => ServerMessage::RoundStarted,
        ServerMessage::YouHaveBeenQualified => ServerMessage::YouHaveBeenQualified,
        ServerMessage::YouAreWinner => ServerMessage::YouAreWinner,
        ServerMessage::Winner(w) => ServerMessage::Winner(*w),
        ServerMessage::Name(..) => ServerMessage::Pong,
        ServerMessage::YourName(..) => ServerMessage::Pong,
    }
}

/// The clients in `ps`, except `except`, in order.
pub open spec fn clients_except(ps: Seq<Participant>, except: Option<Id>) -> Seq<Id>
    decreases ps.len(),
{
    if ps.len() == 0 {
        Seq::empty()
    } else {
        let rest = clients_except(ps.drop_last(), except);
        let p = ps.last();
        if !p.is_bot && except != Some(p.id) {
            rest.push(p.id)
        } else {
            rest
        }
    }
}

/// The active clients in `ps`, in order.
pub open spec fn racing_clients(ps: Seq<Participant>) -> Seq<Id>
    decreases ps.len(),
{
    if ps.len() == 0 {
        Seq::empty()
    } else {
        let rest = racing_clients(ps.drop_last());
        if !ps.last().is_bot && ps.last().active {
            rest.push(ps.last().id)
        } else {
            rest
        }
    }
}

/// A client that races without having qualified: the end of the round
/// eliminates it.
pub open spec fn eliminated(p: Participant) -> bool {
    !p.is_bot && !p.qualified && p.pos is Some
}

/// What a sequence holds, any longer sequence that starts with it holds too.
proof fn lemma_prefix_contains(a: Seq<Outgoing>, b: Seq<Outgoing>)
    requires
        a.len() <= b.len(),
        b.take(a.len() as int) == a,
    ensures
        forall|x: Outgoing| a.contains(x) ==> b.contains(x),
{
    assert forall|x: Outgoing| a.contains(x) implies b.contains(x) by {
        let k = choose|k: int| 0 <= k < a.len() && a[k] == x;
        assert(b.take(a.len() as int)[k] == b[k]);
    }
}

/// `m` sent to each of `to`, in order.
pub open spec fn removal(to: Seq<Id>, id: Id) -> Seq<Outgoing> {
    Seq::new(to.len(), |k: int| Outgoing { to: to[k], message: ServerMessage::UpdatePlayer(id, None) })
}

/// The notices that the end of a round sends about the eliminated among
/// `ps`, in order, with `all` the participants then: each eliminated client
/// is told, then every other client learns of its removal.
pub open spec fn elimination_notices(ps: Seq<Participant>, all: Seq<Participant>) -> Seq<Outgoing>
    decreases ps.len(),
{
    if ps.len() == 0 {
        Seq::empty()
    } else {
        let rest = elimination_notices(ps.drop_last(), all);
        let p = ps.last();
        if eliminated(p) {
            rest + seq![Outgoing { to: p.id, message: ServerMessage::YouHaveBeenEliminated }] + removal(
                clients_except(all, Some(p.id)),
                p.id,
            )
        } else {
            rest
        }
    }
}

/// The messages `out` of the end of a round, from `s0` to `s1`: first the
/// elimination notices; then, when at most one participant is left, who
/// won, told to every client; otherwise the next round, announced to every
/// client.
pub open spec fn round_end_notices(s0: State, s1: State, out: Seq<Outgoing>) -> bool {
    let e = elimination_notices(s0.participants@, s0.participants@);
    let rest = out.skip(e.len() as int);
    &&& out.len() >= e.len()
    &&& out.take(e.len() as int) == e
    &&& count_qualified(s0.participants@) <= 1 ==> told_winner(
        rest,
        clients_except(s0.participants@, None),
        winner_of(s0.qualified_ids()),
    )
    &&& count_qualified(s0.participants@) > 1 ==> sent_to(
        rest,
        clients_except(s0.participants@, None),
        ServerMessage::NewRound(s1.round),
    )
}

/// The winner of a session whose active set is `active`: its one member, if
/// any.
pub open spec fn winner_of(active: Set<Id>) -> Option<Id> {
    if active == Set::<Id>::empty() {
        None
    } else {
        Some(active.choose())
    }
}

/// What the winner `w` of a session tells client `c`.
pub open spec fn winner_notice(c: Id, w: Option<Id>) -> ServerMessage {
    if w == Some(c) {
        ServerMessage::YouAreWinner
    } else {
        ServerMessage::Winner(w)
    }
}

/// `out` tells each of `to`, in order, who won.
pub open spec fn told_winner(out: Seq<Outgoing>, to: Seq<Id>, w: Option<Id>) -> bool {
    &&& out.len() == to.len()
    &&& forall|k: int| 0 <= k < out.len() ==> (#[trigger] out[k]).to == to[k] && out[k].message == winner_notice(to[k], w)
}

/// The identity and name of each client in `ps`, in order.
pub open spec fn client_names(ps: Seq<Participant>) -> Seq<(Id, Seq<char>)>
    decreases ps.len(),
{
    if ps.len() == 0 {
        Seq::empty()
    } else {
        let rest = client_names(ps.drop_last());
        if !ps.last().is_bot {
            rest.push((ps.last().id, ps.last().name@))
        } else {
            rest
        }
    }
}

/// `out` is `m` sent to each of `to`, in order.
pub open spec fn sent_to(out: Seq<Outgoing>, to: Seq<Id>, m: ServerMessage) -> bool {
    &&& out.len() == to.len()
    &&& forall|k: int| 0 <= k < out.len() ==> (#[trigger] out[k]).to == to[k] && out[k].message == m
}

/// How many of `ps` are active.
pub open spec fn count_active(ps: Seq<Participant>) -> nat
    decreases ps.len(),
{
    if ps.len() == 0 {
        0
    } else {
        count_active(ps.drop_last()) + if ps.last().active {
            1nat
        } else {
            0nat
        }
    }
}

/// How many of `ps` are active bots.
pub open spec fn count_active_bots(ps: Seq<Participant>) -> nat
    decreases ps.len(),
{
    if ps.len() == 0 {
        0
    } else {
        count_active_bots(ps.drop_last()) + if ps.last().active && ps.last().is_bot {
            1nat
        } else {
            0nat
        }
    }
}

/// The recording that the bot at `i` plays back this round: its rank among
/// the bots active when the tick began.
pub open spec fn lane(ps: Seq<Participant>, i: int) -> nat {
    count_active_bots(ps.take(i))
}

/// How many of `ps` have qualified.
pub open spec fn count_qualified(ps: Seq<Participant>) -> nat
    decreases ps.len(),
{
    if ps.len() == 0 {
        0
    } else {
        count_qualified(ps.drop_last()) + if ps.last().qualified {
            1nat
        } else {
            0nat
        }
    }
}

/// How many of `ps` are ready clients.
pub open spec fn count_ready(ps: Seq<Participant>) -> nat
    decreases ps.len(),
{
    if ps.len() == 0 {
        0
    } else {
        count_ready(ps.drop_last()) + if !ps.last().is_bot && ps.last().ready {
            1nat
        } else {
            0nat
        }
    }
}

/// The recordings that the clients in `ps` hand over at the end of a round:
/// each non-empty one, in order.
pub open spec fn handed_over(ps: Seq<Participant>) -> Seq<Seq<TimedData>>
    decreases ps.len(),
{
    if ps.len() == 0 {
        Seq::empty()
    } else {
        let rest = handed_over(ps.drop_last());
        if !ps.last().is_bot && ps.last().current_replay@.len() > 0 {
            rest.push(ps.last().current_replay@)
        } else {
            rest
        }
    }
}

/// How many of `ps` are clients.
pub open spec fn count_clients(ps: Seq<Participant>) -> nat
    decreases ps.len(),
{
    if ps.len() == 0 {
        0
    } else {
        count_clients(ps.drop_last()) + if !ps.last().is_bot {
            1nat
        } else {
            0nat
        }
    }
}

/// How many participants the round `num` lets through out of `size`, with
/// `ratio` thousandths of them eliminated: everyone in the first round of a
/// session; after that, `size` less `size * ratio / 1000` rounded down, less
/// at least one and at most all.
pub open spec fn quota(num: nat, size: nat, ratio: nat) -> nat {
    if num == 0 {
        size
    } else {
        let cut = size * ratio / 1000;
        let cut = if cut < 1 {
            1
        } else {
            cut
        };
        let cut = if cut > size {
            size
        } else {
            cut
        };
        (size - cut) as nat
    }
}

/// The qualification quota of round `num` for `size` participants (see
/// `quota`).
pub fn round_quota(num: usize, size: usize, ratio: u64) -> (r: usize)
    ensures
        r == quota(num as nat, size as nat, ratio as nat),
{
    if num == 0 {
        return size;
    }
    proof {
        assert((size as nat) * (ratio as nat) <= 0xffff_ffff_ffff_ffff_ffff_ffff_ffff_ffff) by (nonlinear_arith)
            requires size <= 0xffff_ffff_ffff_ffff, ratio <= 0xffff_ffff_ffff_ffff;
    }
    let mut cut = (size as u128) * (ratio as u128) / 1000;
    if cut < 1 {
        cut = 1;
    }
    if cut > size as u128 {
        cut = size as u128;
    }
    size - cut as usize
}

impl State {
    /// The identities still competing in the current session.
    pub open spec fn active_ids(&self) -> Set<Id> {
        Set::new(
            |id: Id|
                exists|i: int|
                    0 <= i < self.participants@.len() && #[trigger] self.participants@[i].id == id
                        && self.participants@[i].active,
        )
    }

    /// The identities that have reached the destination in the current round.
    pub open spec fn qualified_ids(&self) -> Set<Id> {
        Set::new(
            |id: Id|
                exists|i: int|
                    0 <= i < self.participants@.len() && #[trigger] self.participants@[i].id == id
                        && self.participants@[i].qualified,
        )
    }

    /// Every identity that the controller knows: the clients and the roster.
    pub open spec fn known_ids(&self) -> Set<Id> {
        self.participants@.map_values(|p: Participant| p.id).to_set()
    }

    /// The participant at `i` is a connected client.
    pub open spec fn is_client_at(&self, i: int) -> bool {
        0 <= i < self.participants@.len() && !self.participants@[i].is_bot
    }

    /// `id` is a connected client.
    pub open spec fn is_client(&self, id: Id) -> bool {
        exists|i: int| self.is_client_at(i) && self.participants@[i].id == id
    }

    /// The index of the participant `id`.
    pub open spec fn index_of(&self, id: Id) -> int {
        choose|i: int| 0 <= i < self.participants@.len() && self.participants@[i].id == id
    }

    /// The time into the running round, in milliseconds.
    pub open spec fn round_time(&self) -> u64 {
        match self.phase {
            Phase::Running { since } => (self.clock - since) as u64,
            _ => 0,
        }
    }

    pub open spec fn wf(&self) -> bool {
        let ps = self.participants@;
        &&& self.level.wf()
        &&& self.bots.wf()
        &&& self.round.track.from < self.level.cat_locations@.len()
        &&& self.round.track.to < self.level.cat_locations@.len()
        &&& self.bot_count <= ps.len()
        &&& 0 <= self.next_id
        &&& forall|i: int| 0 <= i < ps.len() ==> (#[trigger] ps[i]).is_bot == (i < self.bot_count)
        &&& forall|i: int| 0 <= i < self.bot_count ==> (#[trigger] ps[i]).id == i
        &&& forall|i: int, j: int| 0 <= i < j < ps.len() ==> (#[trigger] ps[i]).id < (#[trigger] ps[j]).id
        &&& forall|i: int| 0 <= i < ps.len() ==> 0 <= (#[trigger] ps[i]).id < self.next_id
        &&& forall|i: int| 0 <= i < ps.len() ==> (#[trigger] ps[i]).qualified ==> ps[i].active
        &&& forall|i: int|
            0 <= i < ps.len() ==> (#[trigger] ps[i]).is_bot ==> ps[i].pos is None && !ps[i].ready
                && ps[i].current_replay@.len() == 0
        &&& forall|i: int| 0 <= i < ps.len() ==> time_ordered((#[trigger] ps[i]).current_replay@)
        &&& forall|i: int, k: int|
            0 <= i < ps.len() && 0 <= k < ps[i].current_replay@.len() ==> (#[trigger] ps[i].current_replay@[k]).time
                <= self.round_time()
        &&& !(self.phase is Running && self.config.server_recordings) ==> forall|i: int|
            0 <= i < ps.len() ==> (#[trigger] ps[i]).current_replay@.len() == 0
        &&& match self.phase {
            Phase::Boot => true,
            Phase::Waiting { since } => since <= self.clock,
            Phase::Countdown { since } => since <= self.clock,
            Phase::Running { since } => since <= self.clock,
        }
    }

    /// The participant at `i` competes in a session that starts now: every
    /// ready client does and, to make up the larger of the number of clients
    /// and the configured minimum, the first bots of the roster; nobody does
    /// where no client is ready.
    pub open spec fn joins(&self, i: int) -> bool {
        let ps = self.participants@;
        let r = count_ready(ps);
        let c = count_clients(ps);
        let cap = if c > self.config.min_players {
            c
        } else {
            self.config.min_players as nat
        };
        r > 0 && if ps[i].is_bot {
            i < cap - r
        } else {
            ps[i].ready
        }
    }

    /// The identities that compete in a session that starts now.
    pub open spec fn session_roster(&self) -> Set<Id> {
        Set::new(
            |id: Id|
                exists|i: int|
                    0 <= i < self.participants@.len() && #[trigger] self.participants@[i].id == id && self.joins(i),
        )
    }

    /// The destination of the current round.
    pub open spec fn destination(&self) -> Vec2 {
        self.level.cat_locations@[self.round.track.to as int]
    }

    /// A report that qualifies: slow enough, and within twice the player
    /// radius of the destination.
    pub open spec fn finishes(&self, p: Player) -> bool {
        let r = self.config.player_radius as int;
        let v = self.config.finish_speed as int;
        len_sq(p.vel) <= v * v && dist_sq(p.pos, self.destination()) <= 4 * (r * r)
    }

    /// A report of the participant at `k` is judged for qualification: the
    /// round runs and it still competes without having qualified.
    pub open spec fn may_qualify(&self, k: int) -> bool {
        self.phase is Running && self.participants@[k].active && !self.participants@[k].qualified
    }

    /// A report of the participant at `k` is recorded.
    pub open spec fn records(&self, k: int) -> bool {
        self.config.server_recordings && self.phase is Running && !self.participants@[k].qualified
            && !self.participants@[k].is_bot
    }

    /// Two participants with one identity are one.
    proof fn lemma_id_unique(&self, i: int, j: int)
        requires
            self.wf(),
            0 <= i < self.participants@.len(),
            0 <= j < self.participants@.len(),
            self.participants@[i].id == self.participants@[j].id,
        ensures
            i == j,
    {
        if i < j {
            assert(self.participants@[i].id < self.participants@[j].id);
        } else if j < i {
            assert(self.participants@[j].id < self.participants@[i].id);
        }
    }

    /// The participant found at `k` is the one `index_of` names.
    proof fn lemma_index_of(&self, k: int)
        requires
            self.wf(),
            0 <= k < self.participants@.len(),
        ensures
            self.index_of(self.participants@[k].id) == k,
            self.is_client(self.participants@[k].id) == !self.participants@[k].is_bot,
            forall|i: int|
                0 <= i < self.participants@.len() && #[trigger] self.participants@[i].id == self.participants@[k].id
                    ==> i == k,
    {
        let id = self.participants@[k].id;
        let j = self.index_of(id);
        self.lemma_id_unique(j, k);
        assert forall|i: int|
            0 <= i < self.participants@.len() && #[trigger] self.participants@[i].id == id implies i == k by {
            self.lemma_id_unique(i, k);
        }
        if self.is_client(id) {
            let i = choose|i: int| self.is_client_at(i) && self.participants@[i].id == id;
            self.lemma_id_unique(i, k);
        }
        if !self.participants@[k].is_bot {
            assert(self.is_client_at(k));
        }
    }

    /// The index of the participant `id`, if the controller knows it.
    fn find(&self, id: Id) -> (r: Option<usize>)
        requires
            self.wf(),
        ensures
            match r {
                Some(i) => i < self.participants@.len() && self.participants@[i as int].id == id,
                None => !self.known_ids().contains(id) && forall|i: int|
                    0 <= i < self.participants@.len() ==> #[trigger] self.participants@[i].id != id,
            },
    {
        let mut i: usize = 0;
        while i < self.participants.len()
            invariant
                i <= self.participants@.len(),
                forall|j: int| 0 <= j < i ==> (#[trigger] self.participants@[j]).id != id,
            decreases self.participants@.len() - i,
        {
            if self.participants[i].id == id {
                return Some(i);
            }
            i = i + 1;
        }
        proof {
            if self.known_ids().contains(id) {
                let j = self.participants@.map_values(|p: Participant| p.id).index_of(id);
                assert(self.participants@[j].id == id);
            }
        }
        None
    }

    /// Sends a message without text to every client but `except`.
    fn send_to_clients(&self, except: Option<Id>, m: ServerMessage, out: &mut Vec<Outgoing>)
        requires
            plain(m),
        ensures
            final(out)@.len() == old(out)@.len() + clients_except(self.participants@, except).len(),
            final(out)@.take(old(out)@.len() as int) == old(out)@,
            sent_to(final(out)@.skip(old(out)@.len() as int), clients_except(self.participants@, except), m),
    {
        let ghost start = old(out)@.len() as int;
        let mut i: usize = 0;
        while i < self.participants.len()
            invariant
                i <= self.participants@.len(),
                plain(m),
                start == old(out)@.len(),
                out@.len() >= start,
                out@.take(start) == old(out)@,
                sent_to(out@.skip(start), clients_except(self.participants@.take(i as int), except), m),
            decreases self.participants@.len() - i,
        {
            let ghost before = out@;
            assert(self.participants@.take(i + 1).drop_last() =~= self.participants@.take(i as int));
            let p = &self.participants[i];
            let send = !p.is_bot && match except {
                Some(e) => e != p.id,
                None => true,
            };
            if send {
                let o = Outgoing { to: p.id, message: duplicate(&m) };
                out.push(o);
                assert(out@.take(start) =~= before.take(start));
                assert(out@.skip(start) =~= before.skip(start).push(o));
            }
            i = i + 1;
        }
        assert(self.participants@.take(i as int) =~= self.participants@);
    }

    /// A controller with no client and a roster of `config.min_players` bots,
    /// whose first tick starts a session. Of the recordings in `bots` it
    /// keeps those that run the whole of their track, those that end later
    /// first (see `Data::retain_reaching`).
    pub fn new(level: Level, config: Config, bots: Data) -> (r: Self)
        requires
            level.wf(),
            bots.wf(),
            config.min_players < Id::MAX,
        ensures
            r.wf(),
            r.phase == Phase::Boot,
            r.level == level,
            r.config == config,
            forall|t: Track|
                #![trigger r.bots.runs(t)]
                r.bots.runs(t).to_multiset() == reaching_runs(
                    level.cat_locations@,
                    config.player_radius as int,
                    t,
                    bots.runs(t),
                ).to_multiset() && slowest_first(r.bots.runs(t)),
            r.bot_count == config.min_players,
            r.participants@.len() == config.min_players,
            r.active_ids() == Set::<Id>::empty(),
            r.next_id == config.min_players,
    {
        let mut bots = bots;
        bots.retain_reaching(&level, config.player_radius);
        let mut participants: Vec<Participant> = Vec::new();
        let mut i: usize = 0;
        while i < config.min_players
            invariant
                i <= config.min_players < Id::MAX,
                participants@.len() == i,
                forall|j: int|
                    0 <= j < i ==> {
                        let p = #[trigger] participants@[j];
                        &&& p.id == j
                        &&& p.is_bot
                        &&& !p.ready
                        &&& p.pos is None
                        &&& p.current_replay@.len() == 0
                        &&& !p.active
                        &&& !p.qualified
                    },
            decreases config.min_players - i,
        {
            participants.push(
                Participant {
                    id: i as Id,
                    is_bot: true,
                    ready: false,
                    name: String::new(),
                    pos: None,
                    current_replay: MoveData::new(),
                    active: false,
                    qualified: false,
                },
            );
            i = i + 1;
        }
        let r = State {
            phase: Phase::Boot,
            clock: 0,
            next_id: config.min_players as Id,
            level,
            config,
            bots,
            participants,
            bot_count: config.min_players,
            round: Round { num: 0, track: Track { from: 0, to: 1 }, to_be_qualified: 1 },
            numbers: Numbers { players_left: 0, spectators: 0, bots: 0, qualified: 0 },
        };
        assert(r.active_ids() =~= Set::<Id>::empty());
        r
    }

    /// Registers a new client, which is neither ready nor racing, under the
    /// next free identity, and tells it the names of the clients already
    /// there. `None` once every identity has been handed out.
    pub fn on_connect(&mut self) -> (r: Option<(Id, Vec<Outgoing>)>)
        requires
            old(self).wf(),
        ensures
            final(self).wf(),
            old(self).next_id == Id::MAX <==> r is None,
            r is None ==> *final(self) == *old(self),
            r matches Some((id, out)) ==> {
                &&& id == old(self).next_id
                &&& !old(self).known_ids().contains(id)
                &&& final(self).next_id == id + 1
                &&& final(self).participants@.len() == old(self).participants@.len() + 1
                &&& final(self).participants@.drop_last() == old(self).participants@
                &&& final(self).participants@.last().id == id
                &&& !final(self).participants@.last().is_bot
                &&& !final(self).participants@.last().ready
                &&& final(self).participants@.last().name@ == Seq::<char>::empty()
                &&& final(self).participants@.last().pos is None
                &&& !final(self).participants@.last().active
                &&& !final(self).participants@.last().qualified
                &&& final(self).participants@.last().current_replay@ == Seq::<TimedData>::empty()
                &&& out@.len() == client_names(old(self).participants@).len()
                &&& forall|k: int|
                    0 <= k < out@.len() ==> (#[trigger] out@[k]).to == id && (out@[k].message matches ServerMessage::Name(
                        who,
                        t,
                    ) && who == client_names(old(self).participants@)[k].0 && t@ == client_names(old(self).participants@)[k].1)
            },
            final(self).phase == old(self).phase,
            final(self).round == old(self).round,
            final(self).active_ids() == old(self).active_ids(),
            final(self).qualified_ids() == old(self).qualified_ids(),
    {
        if self.next_id == Id::MAX {
            return None;
        }
        let id = self.next_id;
        let mut out: Vec<Outgoing> = Vec::new();
        let mut i: usize = 0;
        while i < self.participants.len()
            invariant
                i <= self.participants@.len(),
                out@.len() == client_names(self.participants@.take(i as int)).len(),
                forall|k: int|
                    0 <= k < out@.len() ==> (#[trigger] out@[k]).to == id && (out@[k].message matches ServerMessage::Name(
                        who,
                        t,
                    ) && who == client_names(self.participants@.take(i as int))[k].0 && t@ == client_names(
                        self.participants@.take(i as int),
                    )[k].1),
            decreases self.participants@.len() - i,
        {
            assert(self.participants@.take(i + 1).drop_last() =~= self.participants@.take(i as int));
            if !self.participants[i].is_bot {
                let p = &self.participants[i];
                out.push(Outgoing { to: id, message: ServerMessage::Name(p.id, p.name.clone()) });
            }
            i = i + 1;
        }
        assert(self.participants@.take(i as int) =~= self.participants@);
        let ghost before = *self;
        self.participants.push(
            Participant {
                id,
                is_bot: false,
                ready: false,
                name: String::new(),
                pos: None,
                current_replay: MoveData::new(),
                active: false,
                qualified: false,
            },
        );
        self.next_id = id + 1;
        proof {
            assert(self.participants@.drop_last() =~= before.participants@);
            let n = before.participants@.len() as int;
            assert forall|j: int| 0 <= j < n implies #[trigger] self.participants@[j] == before.participants@[j] by {
                assert(self.participants@.drop_last()[j] == self.participants@[j]);
            }
            assert forall|a: int, b: int| 0 <= a < b < self.participants@.len() implies
                (#[trigger] self.participants@[a]).id < (#[trigger] self.participants@[b]).id by {
                if b == n {
                    assert(before.participants@[a].id < before.next_id);
                } else {
                    assert(before.participants@[a].id < before.participants@[b].id);
                }
            }
            assert forall|x: Id| before.known_ids().contains(x) implies x < id by {
                let j = before.participants@.map_values(|p: Participant| p.id).index_of(x);
                assert(before.participants@[j].id == x);
            }
            assert(self.active_ids() =~= before.active_ids()) by {
                assert forall|x: Id| self.active_ids().contains(x) implies before.active_ids().contains(x) by {
                    let j = choose|j: int|
                        0 <= j < self.participants@.len() && #[trigger] self.participants@[j].id == x
                            && self.participants@[j].active;
                    assert(j < before.participants@.len());
                    assert(self.participants@[j] == before.participants@[j]);
                }
                assert forall|x: Id| before.active_ids().contains(x) implies self.active_ids().contains(x) by {
                    let j = choose|j: int|
                        0 <= j < before.participants@.len() && #[trigger] before.participants@[j].id == x
                            && before.participants@[j].active;
                    assert(self.participants@[j] == before.participants@[j]);
                }
            }
            assert(self.qualified_ids() =~= before.qualified_ids()) by {
                assert forall|x: Id| self.qualified_ids().contains(x) implies before.qualified_ids().contains(x) by {
                    let j = choose|j: int|
                        0 <= j < self.participants@.len() && #[trigger] self.participants@[j].id == x
                            && self.participants@[j].qualified;
                    assert(j < before.participants@.len());
                    assert(self.participants@[j] == before.participants@[j]);
                }
                assert forall|x: Id| before.qualified_ids().contains(x) implies self.qualified_ids().contains(x) by {
                    let j = choose|j: int|
                        0 <= j < before.participants@.len() && #[trigger] before.participants@[j].id == x
                            && before.participants@[j].qualified;
                    assert(self.participants@[j] == before.participants@[j]);
                }
            }
        }
        Some((id, out))
    }

    /// Changes the readiness of client `id`; others are ignored.
    pub fn on_ready(&mut self, id: Id, ready: bool)
        requires
            old(self).wf(),
        ensures
            final(self).wf(),
            readied(*old(self), *final(self), id, ready),
    {
        let ghost before = *self;
        if let Some(k) = self.find(id) {
            proof {
                self.lemma_index_of(k as int);
            }
            if !self.participants[k].is_bot {
                self.participants[k].ready = ready;
            }
        }
        proof {
            lemma_same_sets(&before, self);
        }
    }

    /// Drops client `id`, which leaves the session, and tells the other
    /// clients. A bot or an unknown identity changes nothing.
    pub fn on_disconnect(&mut self, id: Id) -> (out: Vec<Outgoing>)
        requires
            old(self).wf(),
        ensures
            final(self).wf(),
            final(self).phase == old(self).phase,
            final(self).round == old(self).round,
            old(self).is_client(id) ==> {
                &&& final(self).participants@ == old(self).participants@.remove(old(self).index_of(id))
                &&& final(self).active_ids() == old(self).active_ids().remove(id)
                &&& final(self).qualified_ids() == old(self).qualified_ids().remove(id)
                &&& !final(self).known_ids().contains(id)
                &&& sent_to(out@, clients_except(final(self).participants@, None), ServerMessage::Disconnect(id))
            },
            !old(self).is_client(id) ==> {
                &&& final(self).participants@ == old(self).participants@
                &&& final(self).active_ids() == old(self).active_ids()
                &&& final(self).qualified_ids() == old(self).qualified_ids()
                &&& out@.len() == 0
            },
    {
        let ghost before = *self;
        let mut out: Vec<Outgoing> = Vec::new();
        match self.find(id) {
            Some(k) => {
                proof {
                    self.lemma_index_of(k as int);
                }
                if self.participants[k].is_bot {
                    return out;
                }
                self.participants.remove(k);
                proof {
                    lemma_remove_at(&before, self, k as int);
                }
                self.send_to_clients(None, ServerMessage::Disconnect(id), &mut out);
                assert(out@.skip(0) =~= out@);
            },
            None => {
                assert(!self.is_client(id)) by {
                    if self.is_client(id) {
                        let i = choose|i: int| self.is_client_at(i) && self.participants@[i].id == id;
                        assert(self.known_ids().contains(id)) by {
                            assert(self.participants@.map_values(|p: Participant| p.id)[i] == id);
                        }
                    }
                }
            },
        }
        out
    }

    fn check_finishes(&self, p: Player) -> (r: bool)
        requires
            self.wf(),
        ensures
            r == self.finishes(p),
    {
        let dest = self.level.cat_locations[self.round.track.to];
        let r = self.config.player_radius as i128;
        let v = self.config.finish_speed as i128;
        proof {
            assert(0 <= r * r <= 0x4000_0000_0000_0000) by (nonlinear_arith)
                requires -0x8000_0000 <= r <= 0x7fff_ffff;
            assert(0 <= v * v <= 0x4000_0000_0000_0000) by (nonlinear_arith)
                requires -0x8000_0000 <= v <= 0x7fff_ffff;
        }
        length_squared(p.vel) <= v * v && distance_squared(p.pos, dest) <= 4 * (r * r)
    }

    /// Takes the report `player` of the participant at `k`: it goes to every
    /// other client; a client's position follows it and, while the round
    /// runs and the client has not qualified, it is recorded; then it is
    /// judged for qualification.
    fn apply_update(&mut self, k: usize, player: Player) -> (out: Vec<Outgoing>)
        requires
            old(self).wf(),
            k < old(self).participants@.len(),
        ensures
            final(self).wf(),
            update_effect(*old(self), *final(self), k as int, player, out@),
    {
        let ghost s0 = *self;
        let id = self.participants[k].id;
        let mut out: Vec<Outgoing> = Vec::new();
        self.send_to_clients(Some(id), ServerMessage::UpdatePlayer(id, Some(player)), &mut out);
        assert(out@.skip(0) =~= out@);
        let ghost n = out@.len();
        if !self.participants[k].is_bot {
            self.participants[k].pos = Some(player.pos);
            let recording = self.config.server_recordings && !self.participants[k].qualified;
            match self.phase {
                Phase::Running { since } => {
                    if recording {
                        let time = self.clock - since;
                        self.participants[k].current_replay.push(time, player);
                    }
                },
                _ => {},
            }
        }
        let ghost q1 = self.participants@[k as int];
        proof {
            assert(self.participants@ == s0.participants@.update(k as int, q1));
            let p = s0.participants@[k as int];
            assert forall|m: int| 0 <= m < q1.current_replay@.len() implies
                (#[trigger] q1.current_replay@[m]).time <= s0.round_time() by {
                if m < p.current_replay@.len() {
                    assert(p.current_replay@[m].time <= s0.round_time());
                }
            }
            assert forall|a: int, b: int| 0 <= a <= b < q1.current_replay@.len() implies
                #[trigger] q1.current_replay@[a].time <= #[trigger] q1.current_replay@[b].time by {
                if b < p.current_replay@.len() {
                    assert(p.current_replay@[a].time <= p.current_replay@[b].time);
                } else if a < p.current_replay@.len() {
                    assert(p.current_replay@[a].time <= s0.round_time());
                }
            }
            lemma_update_at(&s0, self, k as int, q1);
            assert(self.active_ids() =~= s0.active_ids());
            if !p.qualified {
                assert(self.qualified_ids() =~= s0.qualified_ids());
            } else {
                assert(s0.qualified_ids().contains(p.id)) by {
                    assert(s0.participants@[k as int].id == p.id);
                }
                assert(self.qualified_ids() =~= s0.qualified_ids());
            }
        }
        let finishing = {
            let p = &self.participants[k];
            !p.qualified && p.active && self.phase.is_running() && self.check_finishes(player)
        };
        if finishing {
            let ghost s1 = *self;
            assert(out@.len() == n);
            if !self.participants[k].is_bot {
                self.participants[k].pos = None;
                out.push(Outgoing { to: id, message: ServerMessage::YouHaveBeenQualified });
                assert(out@.len() == n + 1);
                assert(out@[n as int] == Outgoing { to: id, message: ServerMessage::YouHaveBeenQualified });
            }
            self.participants[k].qualified = true;
            let ghost q2 = self.participants@[k as int];
            proof {
                assert(self.participants@ == s1.participants@.update(k as int, q2));
                lemma_update_at(&s1, self, k as int, q2);
            }
            let ghost before_out = out@;
            assert(before_out.len() == if q1.is_bot { n } else { n + 1 });
            self.send_to_clients(Some(id), ServerMessage::UpdatePlayer(id, None), &mut out);
            proof {
                s0.lemma_index_of(k as int);
                if s0.participants@[k as int].is_bot {
                    assert(out@.skip(n as int) =~= out@.skip(before_out.len() as int));
                } else {
                    assert(out@.skip(n as int).skip(1) =~= out@.skip(before_out.len() as int));
                    assert(out@.skip(n as int)[0] == before_out[n as int]);
                }
                assert(out@.take(n as int) =~= before_out.take(n as int));
            }
        }
        out
    }

    /// A report of `id` is taken: `id` is a client whose position is
    /// present, that is, one that races.
    pub open spec fn accepts(&self, id: Id) -> bool {
        self.is_client(id) && self.participants@[self.index_of(id)].pos is Some
    }

    /// Takes the report `player` of client `id`. A report of anyone who does
    /// not race (an unknown identity, a bot, a client that watches, waits or
    /// has qualified) changes nothing.
    pub fn on_player_update(&mut self, id: Id, player: Player) -> (out: Vec<Outgoing>)
        requires
            old(self).wf(),
        ensures
            final(self).wf(),
            old(self).accepts(id) ==> update_effect(*old(self), *final(self), old(self).index_of(id), player, out@),
            !old(self).accepts(id) ==> *final(self) == *old(self) && out@.len() == 0,
            old(self).qualified_ids().contains(id) ==> {
                &&& final(self).qualified_ids() == old(self).qualified_ids()
                &&& forall|i: int|
                    0 <= i < old(self).participants@.len() ==> (#[trigger] final(self).participants@[i]).current_replay@
                        == old(self).participants@[i].current_replay@
            },
    {
        match self.find(id) {
            Some(k) => {
                proof {
                    self.lemma_index_of(k as int);
                }
                if self.participants[k].is_bot || self.participants[k].pos.is_none() {
                    return Vec::new();
                }
                let ghost s0 = *self;
                let out = self.apply_update(k, player);
                proof {
                    if s0.qualified_ids().contains(id) {
                        let j = choose|j: int|
                            0 <= j < s0.participants@.len() && #[trigger] s0.participants@[j].id == id
                                && s0.participants@[j].qualified;
                        s0.lemma_id_unique(j, k as int);
                    }
                }
                out
            },
            None => {
                proof {
                    if self.is_client(id) {
                        let i = choose|i: int| self.is_client_at(i) && self.participants@[i].id == id;
                    }
                    if self.qualified_ids().contains(id) {
                        let j = choose|j: int|
                            0 <= j < self.participants@.len() && #[trigger] self.participants@[j].id == id
                                && self.participants@[j].qualified;
                    }
                }
                Vec::new()
            },
        }
    }

    /// How many participants are active.
    fn active_count(&self) -> (r: usize)
        ensures
            r == count_active(self.participants@),
    {
        let mut n: usize = 0;
        let mut i: usize = 0;
        while i < self.participants.len()
            invariant
                i <= self.participants@.len(),
                n == count_active(self.participants@.take(i as int)),
                n <= i,
            decreases self.participants@.len() - i,
        {
            assert(self.participants@.take(i + 1).drop_last() =~= self.participants@.take(i as int));
            if self.participants[i].active {
                n = n + 1;
            }
            i = i + 1;
        }
        assert(self.participants@.take(i as int) =~= self.participants@);
        n
    }

    /// How many participants have qualified.
    fn qualified_count(&self) -> (r: usize)
        ensures
            r == count_qualified(self.participants@),
    {
        let mut n: usize = 0;
        let mut i: usize = 0;
        while i < self.participants.len()
            invariant
                i <= self.participants@.len(),
                n == count_qualified(self.participants@.take(i as int)),
                n <= i,
            decreases self.participants@.len() - i,
        {
            assert(self.participants@.take(i + 1).drop_last() =~= self.participants@.take(i as int));
            if self.participants[i].qualified {
                n = n + 1;
            }
            i = i + 1;
        }
        assert(self.participants@.take(i as int) =~= self.participants@);
        n
    }

    /// Announces round `num` from location `from`, its destination chosen by
    /// `draw`, and starts its countdown; nobody has qualified in it yet.
    fn new_round_from(&mut self, num: usize, from: usize, draw: u64) -> (out: Vec<Outgoing>)
        requires
            old(self).wf(),
            from < old(self).level.cat_locations@.len(),
            forall|i: int|
                0 <= i < old(self).participants@.len() ==> (#[trigger] old(self).participants@[i]).current_replay@.len()
                    == 0,
        ensures
            final(self).wf(),
            final(self).phase == (Phase::Countdown { since: old(self).clock }),
            final(self).round.track.to == crate::level::destination(
                old(self).level.cat_locations@.len() as int,
                from as int,
                draw as int,
            ),
            final(self).round == (Round {
                num,
                track: Track { from, to: final(self).round.track.to },
                to_be_qualified: quota(
                    num as nat,
                    count_active(old(self).participants@),
                    old(self).config.elimination_ratio as nat,
                ) as usize,
            }),
            final(self).round.track.to != from,
            final(self).clock == old(self).clock,
            final(self).bots == old(self).bots,
            final(self).level == old(self).level,
            final(self).config == old(self).config,
            final(self).next_id == old(self).next_id,
            final(self).bot_count == old(self).bot_count,
            final(self).numbers == old(self).numbers,
            final(self).participants@.len() == old(self).participants@.len(),
            forall|i: int|
                0 <= i < old(self).participants@.len() ==> {
                    let a = old(self).participants@[i];
                    let b = #[trigger] final(self).participants@[i];
                    &&& b.id == a.id && b.is_bot == a.is_bot && b.active == a.active && b.ready == a.ready
                    &&& b.pos == a.pos && b.name == a.name && b.current_replay@ == a.current_replay@
                    &&& !b.qualified
                },
            final(self).active_ids() == old(self).active_ids(),
            final(self).qualified_ids() == Set::<Id>::empty(),
            sent_to(out@, clients_except(old(self).participants@, None), ServerMessage::NewRound(final(self).round)),
    {
        let size = self.active_count();
        let track = self.level.random_track_from(from, draw);
        let to_be_qualified = round_quota(num, size, self.config.elimination_ratio);
        self.round = Round { num, track, to_be_qualified };
        self.phase = Phase::Countdown { since: self.clock };
        let ghost s0 = *self;
        assert(s0.wf());
        let mut i: usize = 0;
        while i < self.participants.len()
            invariant
                self.wf(),
                i <= self.participants@.len(),
                self.participants@.len() == s0.participants@.len(),
                self.phase == s0.phase && self.clock == s0.clock && self.round == s0.round,
                self.bots == s0.bots && self.level == s0.level && self.config == s0.config,
                self.next_id == s0.next_id && self.bot_count == s0.bot_count && self.numbers == s0.numbers,
                self.active_ids() == s0.active_ids(),
                forall|j: int|
                    0 <= j < s0.participants@.len() ==> {
                        let a = s0.participants@[j];
                        let b = #[trigger] self.participants@[j];
                        &&& b.id == a.id && b.is_bot == a.is_bot && b.active == a.active && b.ready == a.ready
                        &&& b.pos == a.pos && b.name == a.name && b.current_replay@ == a.current_replay@
                        &&& j < i ==> !b.qualified
                    },
            decreases s0.participants@.len() - i,
        {
            let ghost prev = *self;
            self.participants[i].qualified = false;
            proof {
                lemma_update_at(&prev, self, i as int, self.participants@[i as int]);
            }
            i = i + 1;
        }
        assert(self.qualified_ids() =~= Set::<Id>::empty()) by {
            assert forall|x: Id| !self.qualified_ids().contains(x) by {
                if self.qualified_ids().contains(x) {
                    let j = choose|j: int|
                        0 <= j < self.participants@.len() && #[trigger] self.participants@[j].id == x
                            && self.participants@[j].qualified;
                }
            }
        }
        let mut out: Vec<Outgoing> = Vec::new();
        self.send_to_clients(None, ServerMessage::NewRound(self.round), &mut out);
        assert(out@.skip(0) =~= out@);
        proof {
            lemma_clients_except_same(self.participants@, old(self).participants@, None);
        }
        out
    }

    /// How many clients there are, and how many of them are ready.
    fn client_counts(&self) -> (r: (usize, usize))
        ensures
            r.0 == count_clients(self.participants@),
            r.1 == count_ready(self.participants@),
            r.1 <= r.0,
    {
        let mut c: usize = 0;
        let mut n: usize = 0;
        let mut i: usize = 0;
        while i < self.participants.len()
            invariant
                i <= self.participants@.len(),
                c == count_clients(self.participants@.take(i as int)),
                n == count_ready(self.participants@.take(i as int)),
                n <= c <= i,
            decreases self.participants@.len() - i,
        {
            assert(self.participants@.take(i + 1).drop_last() =~= self.participants@.take(i as int));
            if !self.participants[i].is_bot {
                c = c + 1;
                if self.participants[i].ready {
                    n = n + 1;
                }
            }
            i = i + 1;
        }
        assert(self.participants@.take(i as int) =~= self.participants@);
        (c, n)
    }

    /// Starts a session: the roster (see `joins`) becomes the active set, a
    /// client left out of it has no position, and round 0 is announced from
    /// the location that `draw` picks; with no ready client the session is
    /// called off and the wait starts again.
    fn new_session(&mut self, draw: u64) -> (out: Vec<Outgoing>)
        requires
            old(self).wf(),
            forall|i: int|
                0 <= i < old(self).participants@.len() ==> (#[trigger] old(self).participants@[i]).current_replay@.len()
                    == 0,
        ensures
            final(self).wf(),
            final(self).active_ids() == old(self).session_roster(),
            final(self).qualified_ids() == Set::<Id>::empty(),
            final(self).clock == old(self).clock,
            final(self).participants@.len() == old(self).participants@.len(),
            forall|i: int|
                0 <= i < old(self).participants@.len() ==> {
                    let a = old(self).participants@[i];
                    let b = #[trigger] final(self).participants@[i];
                    &&& b.id == a.id && b.is_bot == a.is_bot && b.ready == a.ready
                    &&& b.pos == if old(self).joins(i) {
                        a.pos
                    } else {
                        None
                    }
                    &&& b.active == old(self).joins(i)
                },
            old(self).session_roster() == Set::<Id>::empty() ==> final(self).phase == (Phase::Waiting {
                since: old(self).clock,
            }) && out@.len() == 0 && final(self).round == old(self).round,
            old(self).session_roster() != Set::<Id>::empty() ==> {
                let n = old(self).level.cat_locations@.len() as int;
                let from = draw as int % n;
                &&& final(self).phase == (Phase::Countdown { since: old(self).clock })
                &&& final(self).round.num == 0
                &&& final(self).round.track.from == from
                &&& final(self).round.track.to == crate::level::destination(n, from, draw as int / n)
                &&& final(self).round.to_be_qualified == count_active(final(self).participants@)
                &&& sent_to(out@, clients_except(old(self).participants@, None), ServerMessage::NewRound(
                    final(self).round,
                ))
            },
    {
        let ghost s0 = *self;
        let (clients, ready) = self.client_counts();
        let cap = if clients > self.config.min_players {
            clients
        } else {
            self.config.min_players
        };
        let bots_taken = cap - ready;
        let mut i: usize = 0;
        while i < self.participants.len()
            invariant
                self.wf(),
                i <= self.participants@.len(),
                self.participants@.len() == s0.participants@.len(),
                self.phase == s0.phase && self.clock == s0.clock && self.round == s0.round,
                self.bots == s0.bots && self.level == s0.level && self.config == s0.config,
                self.next_id == s0.next_id && self.bot_count == s0.bot_count,
                clients == count_clients(s0.participants@),
                ready == count_ready(s0.participants@),
                bots_taken == (if clients > s0.config.min_players { clients } else { s0.config.min_players }) - ready,
                forall|j: int|
                    0 <= j < s0.participants@.len() ==> {
                        let a = s0.participants@[j];
                        let b = #[trigger] self.participants@[j];
                        &&& b.id == a.id && b.is_bot == a.is_bot && b.ready == a.ready
                        &&& b.current_replay@.len() == 0
                        &&& j < i ==> !b.qualified && b.active == s0.joins(j) && b.pos == if s0.joins(j) {
                            a.pos
                        } else {
                            None
                        }
                        &&& j >= i ==> b.pos == a.pos
                    },
            decreases s0.participants@.len() - i,
        {
            let ghost prev = *self;
            let joins = ready > 0 && if self.participants[i].is_bot {
                i < bots_taken
            } else {
                self.participants[i].ready
            };
            self.participants[i].qualified = false;
            self.participants[i].active = joins;
            if !joins {
                self.participants[i].pos = None;
            }
            proof {
                assert(self.participants@ =~= prev.participants@.update(i as int, self.participants@[i as int]));
                lemma_update_at(&prev, self, i as int, self.participants@[i as int]);
            }
            i = i + 1;
        }
        proof {
            assert forall|x: Id| self.active_ids().contains(x) <==> s0.session_roster().contains(x) by {
                if self.active_ids().contains(x) {
                    let j = choose|j: int|
                        0 <= j < self.participants@.len() && #[trigger] self.participants@[j].id == x
                            && self.participants@[j].active;
                    assert(s0.participants@[j].id == x);
                }
                if s0.session_roster().contains(x) {
                    let j = choose|j: int|
                        0 <= j < s0.participants@.len() && #[trigger] s0.participants@[j].id == x && s0.joins(j);
                    assert(self.participants@[j].id == x);
                }
            }
            assert(self.active_ids() =~= s0.session_roster());
            assert forall|x: Id| !self.qualified_ids().contains(x) by {
                if self.qualified_ids().contains(x) {
                    let j = choose|j: int|
                        0 <= j < self.participants@.len() && #[trigger] self.participants@[j].id == x
                            && self.participants@[j].qualified;
                }
            }
            assert(self.qualified_ids() =~= Set::<Id>::empty());
        }
        if ready == 0 {
            proof {
                assert forall|x: Id| !s0.session_roster().contains(x) by {
                    if s0.session_roster().contains(x) {
                        let j = choose|j: int|
                            0 <= j < s0.participants@.len() && #[trigger] s0.participants@[j].id == x && s0.joins(j);
                    }
                }
                assert(s0.session_roster() =~= Set::<Id>::empty());
            }
            self.phase = Phase::Waiting { since: self.clock };
            return Vec::new();
        }
        proof {
            assert(s0.session_roster() != Set::<Id>::empty()) by {
                lemma_some_ready(&s0);
            }
        }
        let n = self.level.cat_locations.len() as u64;
        let from = (draw % n) as usize;
        let ghost s1 = *self;
        let out = self.new_round_from(0, from, draw / n);
        proof {
            lemma_clients_except_same(s1.participants@, s0.participants@, None);
            lemma_count_active_same(self.participants@, s1.participants@);
            lemma_count_active_le(s1.participants@);
        }
        out
    }

    /// Ends the countdown: every active client is placed at the origin and
    /// told so, every client learns that the round has started, and the
    /// round's clock starts.
    fn begin_round(&mut self) -> (out: Vec<Outgoing>)
        requires
            old(self).wf(),
            old(self).phase is Countdown,
        ensures
            final(self).wf(),
            final(self).phase == (Phase::Running { since: old(self).clock }),
            final(self).clock == old(self).clock,
            final(self).round == old(self).round,
            final(self).active_ids() == old(self).active_ids(),
            final(self).qualified_ids() == old(self).qualified_ids(),
            final(self).participants@.len() == old(self).participants@.len(),
            forall|i: int|
                0 <= i < old(self).participants@.len() ==> {
                    let a = old(self).participants@[i];
                    let b = #[trigger] final(self).participants@[i];
                    &&& b.id == a.id && b.is_bot == a.is_bot && b.active == a.active && b.qualified == a.qualified
                    &&& b.pos == if !a.is_bot && a.active {
                        Some(old(self).level.cat_locations@[old(self).round.track.from as int])
                    } else {
                        a.pos
                    }
                },
            ({
                let n = racing_clients(old(self).participants@).len() as int;
                let start = old(self).level.cat_locations@[old(self).round.track.from as int];
                &&& out@.len() >= n
                &&& sent_to(out@.take(n), racing_clients(old(self).participants@), ServerMessage::YouHaveBeenRespawned(start))
                &&& sent_to(out@.skip(n), clients_except(old(self).participants@, None), ServerMessage::RoundStarted)
            }),
    {
        let ghost s0 = *self;
        let start = self.level.cat_locations[self.round.track.from];
        let mut out: Vec<Outgoing> = Vec::new();
        let mut i: usize = 0;
        while i < self.participants.len()
            invariant
                self.wf(),
                i <= self.participants@.len(),
                self.participants@.len() == s0.participants@.len(),
                self.phase == s0.phase && self.clock == s0.clock && self.round == s0.round,
                self.bots == s0.bots && self.level == s0.level && self.config == s0.config,
                self.next_id == s0.next_id && self.bot_count == s0.bot_count,
                start == s0.level.cat_locations@[s0.round.track.from as int],
                self.active_ids() == s0.active_ids(),
                self.qualified_ids() == s0.qualified_ids(),
                sent_to(out@, racing_clients(s0.participants@.take(i as int)), ServerMessage::YouHaveBeenRespawned(start)),
                forall|j: int|
                    0 <= j < s0.participants@.len() ==> {
                        let a = s0.participants@[j];
                        let b = #[trigger] self.participants@[j];
                        &&& b.id == a.id && b.is_bot == a.is_bot && b.active == a.active
                        &&& b.qualified == a.qualified
                        &&& b.pos == if j < i && !a.is_bot && a.active {
                            Some(start)
                        } else {
                            a.pos
                        }
                    },
            decreases s0.participants@.len() - i,
        {
            assert(s0.participants@.take(i + 1).drop_last() =~= s0.participants@.take(i as int));
            if !self.participants[i].is_bot && self.participants[i].active {
                let ghost prev = *self;
                self.participants[i].pos = Some(start);
                proof {
                    lemma_update_at(&prev, self, i as int, self.participants@[i as int]);
                }
                out.push(
                    Outgoing { to: self.participants[i].id, message: ServerMessage::YouHaveBeenRespawned(start) },
                );
            }
            i = i + 1;
        }
        assert(s0.participants@.take(i as int) =~= s0.participants@);
        let ghost respawns = out@;
        self.send_to_clients(None, ServerMessage::RoundStarted, &mut out);
        let ghost s1 = *self;
        self.phase = Phase::Running { since: self.clock };
        proof {
            lemma_same_sets(&s1, self);
            lemma_clients_except_same(s1.participants@, s0.participants@, None);
        }
        out
    }

    /// Moves every client's recording of the round into the replay store,
    /// under the round's track, and leaves each client an empty one.
    fn hand_over_recordings(&mut self)
        requires
            old(self).wf(),
            old(self).phase is Running,
        ensures
            final(self).wf(),
            final(self).phase == old(self).phase,
            final(self).clock == old(self).clock,
            final(self).round == old(self).round,
            final(self).level == old(self).level,
            final(self).config == old(self).config,
            final(self).next_id == old(self).next_id,
            final(self).bot_count == old(self).bot_count,
            final(self).bots.runs(old(self).round.track) == old(self).bots.runs(old(self).round.track)
                + handed_over(old(self).participants@),
            forall|t: Track| t != old(self).round.track ==> final(self).bots.runs(t) == old(self).bots.runs(t),
            final(self).active_ids() == old(self).active_ids(),
            final(self).qualified_ids() == old(self).qualified_ids(),
            final(self).participants@.len() == old(self).participants@.len(),
            forall|i: int|
                0 <= i < old(self).participants@.len() ==> {
                    let a = old(self).participants@[i];
                    let b = #[trigger] final(self).participants@[i];
                    &&& b.id == a.id && b.is_bot == a.is_bot && b.active == a.active && b.qualified == a.qualified
                    &&& b.pos == a.pos && b.ready == a.ready
                    &&& b.current_replay@.len() == 0
                },
    {
        let ghost s0 = *self;
        let track = self.round.track;
        let mut i: usize = 0;
        while i < self.participants.len()
            invariant
                self.wf(),
                i <= self.participants@.len(),
                self.participants@.len() == s0.participants@.len(),
                self.phase == s0.phase && self.clock == s0.clock && self.round == s0.round,
                self.level == s0.level && self.config == s0.config,
                self.next_id == s0.next_id && self.bot_count == s0.bot_count,
                track == s0.round.track,
                self.active_ids() == s0.active_ids(),
                self.qualified_ids() == s0.qualified_ids(),
                self.bots.runs(track) == s0.bots.runs(track) + handed_over(s0.participants@.take(i as int)),
                forall|t: Track| t != track ==> self.bots.runs(t) == s0.bots.runs(t),
                forall|j: int|
                    0 <= j < s0.participants@.len() ==> {
                        let a = s0.participants@[j];
                        let b = #[trigger] self.participants@[j];
                        &&& b.id == a.id && b.is_bot == a.is_bot && b.active == a.active
                        &&& b.qualified == a.qualified && b.pos == a.pos && b.ready == a.ready
                        &&& j < i ==> b.current_replay@.len() == 0
                        &&& j >= i ==> b.current_replay@ == a.current_replay@
                    },
            decreases s0.participants@.len() - i,
        {
            let ghost prev = *self;
            assert(s0.participants@.take(i + 1).drop_last() =~= s0.participants@.take(i as int));
            if !self.participants[i].is_bot {
                let mut replay = MoveData::new();
                core::mem::swap(&mut self.participants[i].current_replay, &mut replay);
                proof {
                    lemma_update_at(&prev, self, i as int, self.participants@[i as int]);
                    assert(time_ordered(replay@));
                }
                let ghost mid = *self;
                let ghost empty = replay@.len() == 0;
                self.bots.push(track, replay);
                proof {
                    assert(self.participants@ == mid.participants@);
                    lemma_same_sets(&mid, self);
                    if empty {
                        assert(s0.bots.runs(track) + handed_over(s0.participants@.take(i + 1)) =~= s0.bots.runs(
                            track,
                        ) + handed_over(s0.participants@.take(i as int)));
                    } else {
                        assert(s0.bots.runs(track) + handed_over(s0.participants@.take(i + 1)) =~= (
                        s0.bots.runs(track) + handed_over(s0.participants@.take(i as int))).push(
                            s0.participants@[i as int].current_replay@,
                        ));
                    }
                }
            }
            i = i + 1;
        }
        assert(s0.participants@.take(i as int) =~= s0.participants@);
    }

    /// The index of the one active participant, if there is one.
    fn sole_active(&self) -> (r: Option<usize>)
        requires
            self.wf(),
        ensures
            match r {
                Some(w) => w < self.participants@.len() && self.participants@[w as int].active,
                None => forall|i: int| 0 <= i < self.participants@.len() ==> !(#[trigger] self.participants@[i]).active,
            },
    {
        let mut i: usize = 0;
        while i < self.participants.len()
            invariant
                i <= self.participants@.len(),
                forall|j: int| 0 <= j < i ==> !(#[trigger] self.participants@[j]).active,
            decreases self.participants@.len() - i,
        {
            if self.participants[i].active {
                return Some(i);
            }
            i = i + 1;
        }
        None
    }

    /// Ends a session with at most one participant left: that one, if any,
    /// wins; every client is told, the winner by `YouAreWinner`, the others by
    /// `Winner`; the wait for the next session starts.
    fn declare_winner(&mut self) -> (out: Vec<Outgoing>)
        requires
            old(self).wf(),
            count_active(old(self).participants@) <= 1,
            forall|i: int|
                0 <= i < old(self).participants@.len() ==> (#[trigger] old(self).participants@[i]).current_replay@.len()
                    == 0,
        ensures
            final(self).wf(),
            final(self).phase == (Phase::Waiting { since: old(self).clock }),
            final(self).clock == old(self).clock,
            final(self).round == old(self).round,
            final(self).bots == old(self).bots,
            final(self).participants == old(self).participants,
            final(self).active_ids() == old(self).active_ids(),
            final(self).qualified_ids() == old(self).qualified_ids(),
            told_winner(out@, clients_except(old(self).participants@, None), winner_of(old(self).active_ids())),
    {
        let ghost s0 = *self;
        let found = self.sole_active();
        let winner: Option<Id> = match found {
            Some(w) => Some(self.participants[w].id),
            None => None,
        };
        proof {
            match found {
                Some(w) => {
                    assert(self.active_ids().contains(self.participants@[w as int].id));
                    lemma_sole_active(self, w as int);
                    assert(self.active_ids() =~= set![self.participants@[w as int].id]);
                    assert(self.active_ids().choose() == self.participants@[w as int].id) by {
                        let c = self.active_ids().choose();
                        assert(self.active_ids().contains(c));
                    }
                },
                None => {
                    assert forall|x: Id| !self.active_ids().contains(x) by {
                        if self.active_ids().contains(x) {
                            let j = choose|j: int|
                                0 <= j < self.participants@.len() && #[trigger] self.participants@[j].id == x
                                    && self.participants@[j].active;
                        }
                    }
                    assert(self.active_ids() =~= Set::<Id>::empty());
                },
            }
        }
        let mut out: Vec<Outgoing> = Vec::new();
        let mut i: usize = 0;
        while i < self.participants.len()
            invariant
                i <= self.participants@.len(),
                winner == winner_of(s0.active_ids()),
                self.participants == s0.participants,
                told_winner(out@, clients_except(s0.participants@.take(i as int), None), winner),
            decreases self.participants@.len() - i,
        {
            assert(s0.participants@.take(i + 1).drop_last() =~= s0.participants@.take(i as int));
            if !self.participants[i].is_bot {
                let id = self.participants[i].id;
                let message = if winner == Some(id) {
                    ServerMessage::YouAreWinner
                } else {
                    ServerMessage::Winner(winner)
                };
                out.push(Outgoing { to: id, message });
            }
            i = i + 1;
        }
        assert(s0.participants@.take(i as int) =~= s0.participants@);
        let ghost s1 = *self;
        self.phase = Phase::Waiting { since: self.clock };
        proof {
            lemma_same_sets(&s1, self);
        }
        out
    }

    /// Ends the running round: the recordings go to the replay store when
    /// recording is on; every client that races without having qualified is
    /// eliminated, which it and the other clients are told; only the
    /// qualified stay active. With at most one left the session ends with a
    /// winner (see `declare_winner`); otherwise the next round is announced
    /// from this round's destination. The flag returned asks for the replay
    /// store to be saved.
    fn end_round(&mut self, draw: u64) -> (r: (Vec<Outgoing>, bool))
        requires
            old(self).wf(),
            old(self).phase is Running,
        ensures
            final(self).wf(),
            r.1 == old(self).config.server_recordings,
            final(self).clock == old(self).clock,
            final(self).active_ids() == old(self).qualified_ids(),
            old(self).config.server_recordings ==> final(self).bots.runs(old(self).round.track)
                == old(self).bots.runs(old(self).round.track) + handed_over(old(self).participants@),
            forall|t: Track| t != old(self).round.track ==> final(self).bots.runs(t) == old(self).bots.runs(t),
            !old(self).config.server_recordings ==> final(self).bots == old(self).bots,
            count_qualified(old(self).participants@) <= 1 ==> final(self).phase == (Phase::Waiting {
                since: old(self).clock,
            }) && final(self).round == old(self).round,
            count_qualified(old(self).participants@) > 1 ==> {
                &&& final(self).phase == (Phase::Countdown { since: old(self).clock })
                &&& final(self).round.num == if old(self).round.num < usize::MAX {
                    old(self).round.num + 1
                } else {
                    old(self).round.num as int
                }
                &&& final(self).round.track.from == old(self).round.track.to
                &&& final(self).round.track.to == crate::level::destination(
                    old(self).level.cat_locations@.len() as int,
                    old(self).round.track.to as int,
                    draw as int,
                )
                &&& final(self).round.track.to != final(self).round.track.from
                &&& final(self).round.to_be_qualified == quota(
                    final(self).round.num as nat,
                    count_qualified(old(self).participants@),
                    old(self).config.elimination_ratio as nat,
                )
                &&& final(self).qualified_ids() == Set::<Id>::empty()
            },
            final(self).participants@.len() == old(self).participants@.len(),
            forall|i: int|
                0 <= i < old(self).participants@.len() ==> {
                    let a = old(self).participants@[i];
                    let b = #[trigger] final(self).participants@[i];
                    &&& b.id == a.id && b.is_bot == a.is_bot && b.active == a.qualified
                    &&& b.pos == if eliminated(a) {
                        None
                    } else {
                        a.pos
                    }
                },
            round_end_notices(*old(self), *final(self), r.0@),
    {
        let ghost s0 = *self;
        let recording = self.config.server_recordings;
        if recording {
            self.hand_over_recordings();
        }
        let ghost s1 = *self;
        assert(forall|i: int| 0 <= i < s1.participants@.len() ==> (#[trigger] s1.participants@[i]).current_replay@.len() == 0);
        let mut out: Vec<Outgoing> = Vec::new();
        let mut i: usize = 0;
        while i < self.participants.len()
            invariant
                self.wf(),
                i <= self.participants@.len(),
                self.participants@.len() == s1.participants@.len(),
                self.phase == s1.phase && self.clock == s1.clock && self.round == s1.round,
                self.bots == s1.bots && self.level == s1.level && self.config == s1.config,
                self.next_id == s1.next_id && self.bot_count == s1.bot_count,
                self.qualified_ids() == s1.qualified_ids(),
                forall|e: Option<Id>| clients_except(self.participants@, e) == clients_except(s1.participants@, e),
                forall|j: int|
                    0 <= j < s1.participants@.len() ==> {
                        let a = s1.participants@[j];
                        let b = #[trigger] self.participants@[j];
                        &&& b.id == a.id && b.is_bot == a.is_bot && b.qualified == a.qualified
                        &&& b.current_replay@.len() == 0
                        &&& j < i ==> b.active == a.qualified && b.pos == if eliminated(a) {
                            None
                        } else {
                            a.pos
                        }
                        &&& j >= i ==> b.active == a.active && b.pos == a.pos
                    },
                out@ == elimination_notices(s1.participants@.take(i as int), s1.participants@),
            decreases s1.participants@.len() - i,
        {
            let ghost prev = *self;
            assert(s1.participants@.take(i + 1).drop_last() =~= s1.participants@.take(i as int));
            let id = self.participants[i].id;
            let racing = !self.participants[i].is_bot && !self.participants[i].qualified
                && self.participants[i].pos.is_some();
            if racing {
                self.participants[i].pos = None;
            }
            let keep = self.participants[i].qualified;
            self.participants[i].active = keep;
            proof {
                assert(self.participants@ =~= prev.participants@.update(i as int, self.participants@[i as int]));
                lemma_update_at(&prev, self, i as int, self.participants@[i as int]);
            }
            if racing {
                let ghost before = out@;
                out.push(Outgoing { to: id, message: ServerMessage::YouHaveBeenEliminated });
                let ghost pushed = out@;
                self.send_to_clients(Some(id), ServerMessage::UpdatePlayer(id, None), &mut out);
                proof {
                    let seg = out@.skip(pushed.len() as int);
                    assert(seg =~= removal(clients_except(s1.participants@, Some(id)), id));
                    assert(out@ =~= pushed + seg);
                    assert(pushed =~= before + seq![Outgoing { to: id, message: ServerMessage::YouHaveBeenEliminated }]);
                }
            }
            i = i + 1;
        }
        assert(s1.participants@.take(i as int) =~= s1.participants@);
        proof {
            assert forall|x: Id| self.active_ids().contains(x) <==> s0.qualified_ids().contains(x) by {
                if self.active_ids().contains(x) {
                    let j = choose|j: int|
                        0 <= j < self.participants@.len() && #[trigger] self.participants@[j].id == x
                            && self.participants@[j].active;
                    assert(s1.participants@[j].qualified);
                    assert(s1.qualified_ids().contains(x));
                }
                if s0.qualified_ids().contains(x) {
                    assert(s1.qualified_ids().contains(x));
                    let j = choose|j: int|
                        0 <= j < s1.participants@.len() && #[trigger] s1.participants@[j].id == x
                            && s1.participants@[j].qualified;
                    assert(self.participants@[j].id == x);
                }
            }
            assert(self.active_ids() =~= s0.qualified_ids());
            lemma_count_active_qualified(self.participants@, s1.participants@);
            lemma_count_qualified_same(s1.participants@, s0.participants@);
            lemma_elimination_same(s1.participants@, s0.participants@, s1.participants@, s0.participants@);
            lemma_clients_except_same(self.participants@, s0.participants@, None);
        }
        let left = self.active_count();
        let ghost flagged = out@;
        if left <= 1 {
            let mut more = self.declare_winner();
            let ghost tail = more@;
            out.append(&mut more);
            proof {
                assert(out@.take(flagged.len() as int) =~= flagged);
                assert(out@.skip(flagged.len() as int) =~= tail);
            }
            return (out, recording);
        }
        let num = if self.round.num < usize::MAX {
            self.round.num + 1
        } else {
            self.round.num
        };
        let from = self.round.track.to;
        let mut more = self.new_round_from(num, from, draw);
        let ghost tail = more@;
        out.append(&mut more);
        proof {
            assert(out@.take(flagged.len() as int) =~= flagged);
            assert(out@.skip(flagged.len() as int) =~= tail);
        }
        (out, recording)
    }

    /// Moves the bots of the running round: each active bot plays back the
    /// recording of the round's track that its lane names, sampled at the
    /// round's time, and that report takes the path of any client's. A bot
    /// whose lane has no recording stops competing for the rest of the
    /// session, unless it has qualified.
    fn drive_bots(&mut self) -> (out: Vec<Outgoing>)
        requires
            old(self).wf(),
            old(self).phase is Running,
        ensures
            final(self).wf(),
            final(self).phase == old(self).phase,
            final(self).clock == old(self).clock,
            final(self).round == old(self).round,
            final(self).bots == old(self).bots,
            final(self).config == old(self).config,
            final(self).participants@.len() == old(self).participants@.len(),
            forall|j: int|
                old(self).bot_count <= j < old(self).participants@.len() ==> #[trigger] final(self).participants@[j]
                    == old(self).participants@[j],
            forall|j: int|
                0 <= j < old(self).bot_count ==> {
                    let a = old(self).participants@[j];
                    let b = #[trigger] final(self).participants@[j];
                    let l = lane(old(self).participants@, j);
                    let runs = old(self).bots.runs(old(self).round.track);
                    &&& b.id == a.id && b.is_bot
                    &&& b.active == (a.active && (a.qualified || l < runs.len()))
                    &&& b.qualified == (a.qualified || (a.active && l < runs.len() && old(self).finishes(
                        sample(runs[l as int], old(self).round_time()),
                    )))
                },
            final(self).active_ids().subset_of(old(self).active_ids()),
            old(self).qualified_ids().subset_of(final(self).qualified_ids()),
            quiet(out@),
    {
        let ghost s0 = *self;
        let time = match self.phase {
            Phase::Running { since } => self.clock - since,
            _ => 0,
        };
        let runs = self.bots.get(self.round.track, time);
        proof {
            s0.bots.lemma_runs_playable(s0.round.track);
        }
        let mut out: Vec<Outgoing> = Vec::new();
        let mut lane_now: usize = 0;
        let mut i: usize = 0;
        while i < self.bot_count
            invariant
                self.wf(),
                i <= self.bot_count == s0.bot_count,
                self.participants@.len() == s0.participants@.len(),
                self.phase == s0.phase && self.clock == s0.clock && self.round == s0.round,
                self.bots == s0.bots && self.level == s0.level && self.config == s0.config,
                self.next_id == s0.next_id,
                time == s0.round_time(),
                s0.phase is Running,
                runs@ == s0.bots.runs(s0.round.track).map_values(|r: Seq<TimedData>| sample(r, time)),
                lane_now == lane(s0.participants@, i as int),
                lane_now <= i,
                forall|j: int|
                    i <= j < s0.participants@.len() ==> #[trigger] self.participants@[j] == s0.participants@[j],
                forall|j: int|
                    0 <= j < i ==> {
                        let a = s0.participants@[j];
                        let b = #[trigger] self.participants@[j];
                        let l = lane(s0.participants@, j);
                        let rs = s0.bots.runs(s0.round.track);
                        &&& b.id == a.id && b.is_bot
                        &&& b.active == (a.active && (a.qualified || l < rs.len()))
                        &&& b.qualified == (a.qualified || (a.active && l < rs.len() && s0.finishes(
                            sample(rs[l as int], time),
                        )))
                    },
                self.active_ids().subset_of(s0.active_ids()),
                s0.qualified_ids().subset_of(self.qualified_ids()),
                quiet(out@),
            decreases s0.bot_count - i,
        {
            let ghost prev = *self;
            assert(s0.participants@.take(i + 1).drop_last() =~= s0.participants@.take(i as int));
            assert(self.participants@[i as int] == s0.participants@[i as int]);
            if self.participants[i].active {
                if lane_now < runs.len() {
                    if !self.participants[i].qualified {
                        let report = runs[lane_now];
                        let ghost mid = *self;
                        let mut more = self.apply_update(i, report);
                        let ghost before_out = out@;
                        let ghost added = more@;
                        proof {
                            lemma_update_quiet(mid, *self, i as int, report, added);
                        }
                        out.append(&mut more);
                        proof {
                            lemma_quiet_concat(before_out, added);
                            assert(out@ =~= before_out + added);
                        }
                        proof {
                            assert(prev.may_qualify(i as int));
                            assert(prev.finishes(report) == s0.finishes(report));
                        }
                    }
                } else if !self.participants[i].qualified {
                    self.participants[i].active = false;
                    proof {
                        lemma_update_at(&prev, self, i as int, self.participants@[i as int]);
                        assert(self.active_ids() =~= prev.active_ids().remove(self.participants@[i as int].id));
                    }
                }
                lane_now = lane_now + 1;
            }
            i = i + 1;
        }
        proof {
            assert forall|j: int|
                s0.bot_count <= j < s0.participants@.len() implies #[trigger] self.participants@[j] == s0.participants@[j] by {
            }
        }
        out
    }

    /// Recounts the head counts that clients are told.
    fn update_numbers(&mut self)
        requires
            old(self).wf(),
        ensures
            final(self).numbers == (Numbers {
                players_left: count_active(old(self).participants@) as usize,
                spectators: (count_clients(old(self).participants@) - (count_active(old(self).participants@)
                    - count_active_bots(old(self).participants@))) as usize,
                bots: count_active_bots(old(self).participants@) as usize,
                qualified: count_qualified(old(self).participants@) as usize,
            }),
            final(self).phase == old(self).phase,
            final(self).clock == old(self).clock,
            final(self).round == old(self).round,
            final(self).bots == old(self).bots,
            final(self).level == old(self).level,
            final(self).config == old(self).config,
            final(self).next_id == old(self).next_id,
            final(self).bot_count == old(self).bot_count,
            final(self).participants == old(self).participants,
    {
        let mut players_left: usize = 0;
        let mut bots: usize = 0;
        let mut clients: usize = 0;
        let mut qualified: usize = 0;
        let mut i: usize = 0;
        while i < self.participants.len()
            invariant
                i <= self.participants@.len(),
                players_left == count_active(self.participants@.take(i as int)),
                bots == count_active_bots(self.participants@.take(i as int)),
                clients == count_clients(self.participants@.take(i as int)),
                qualified == count_qualified(self.participants@.take(i as int)),
                bots <= players_left,
                players_left - bots <= clients,
                players_left <= i && clients <= i && qualified <= i,
            decreases self.participants@.len() - i,
        {
            assert(self.participants@.take(i + 1).drop_last() =~= self.participants@.take(i as int));
            let p = &self.participants[i];
            if p.active {
                players_left = players_left + 1;
                if p.is_bot {
                    bots = bots + 1;
                }
            }
            if !p.is_bot {
                clients = clients + 1;
            }
            if p.qualified {
                qualified = qualified + 1;
            }
            i = i + 1;
        }
        assert(self.participants@.take(i as int) =~= self.participants@);
        self.numbers = Numbers { players_left, spectators: clients - (players_left - bots), bots, qualified };
    }

    /// A tick of the clock at `now` starts a new session.
    pub open spec fn starts_session(&self, now: u64) -> bool {
        let clock = if now > self.clock {
            now
        } else {
            self.clock
        };
        match self.phase {
            Phase::Boot => true,
            Phase::Waiting { since } => clock - since > self.config.new_session_time,
            _ => false,
        }
    }

    /// A tick of the clock at `now` ends the countdown.
    pub open spec fn starts_round(&self, now: u64) -> bool {
        let clock = if now > self.clock {
            now
        } else {
            self.clock
        };
        match self.phase {
            Phase::Countdown { since } => clock - since > COUNTDOWN_MS,
            _ => false,
        }
    }

    /// A tick of the clock at `now` finds the running round over its time
    /// budget or without participants.
    pub open spec fn times_out(&self, now: u64) -> bool {
        let clock = if now > self.clock {
            now
        } else {
            self.clock
        };
        match self.phase {
            Phase::Running { since } => clock - since > self.config.cat_move_time || self.active_ids()
                == Set::<Id>::empty(),
            _ => false,
        }
    }

    /// Advances the controller to the time `now` (in milliseconds; a time
    /// earlier than one already seen counts as that one). `draw` is a random
    /// number that picks the locations of a round that starts. In the wait,
    /// once it is over, a session starts; in the countdown, once it is over,
    /// the round starts; in a running round the bots move and the round ends
    /// when its time is up, when nobody is left, when the quota has
    /// qualified or when everyone left has.
    pub fn tick(&mut self, now: u64, draw: u64) -> (r: TickOutcome)
        requires
            old(self).wf(),
        ensures
            final(self).wf(),
            notices_bounded(r.messages@),
            final(self).clock == if now > old(self).clock {
                now
            } else {
                old(self).clock
            },
            old(self).starts_session(now) ==> {
                &&& final(self).active_ids() == old(self).session_roster()
                &&& final(self).qualified_ids() == Set::<Id>::empty()
                &&& old(self).session_roster() == Set::<Id>::empty() ==> final(self).phase == (Phase::Waiting {
                    since: final(self).clock,
                })
                &&& old(self).session_roster() != Set::<Id>::empty() ==> final(self).phase == (Phase::Countdown {
                    since: final(self).clock,
                }) && final(self).round.num == 0 && sent_to(
                    r.messages@,
                    clients_except(old(self).participants@, None),
                    ServerMessage::NewRound(final(self).round),
                )
            },
            !old(self).starts_session(now) ==> final(self).active_ids().subset_of(old(self).active_ids()),
            old(self).starts_round(now) ==> final(self).phase == (Phase::Running { since: final(self).clock })
                && final(self).active_ids() == old(self).active_ids() && final(self).round == old(self).round,
            old(self).starts_round(now) ==> {
                let n = racing_clients(old(self).participants@).len() as int;
                let start = old(self).level.cat_locations@[old(self).round.track.from as int];
                &&& r.messages@.len() >= n
                &&& sent_to(r.messages@.take(n), racing_clients(old(self).participants@), ServerMessage::YouHaveBeenRespawned(start))
                &&& sent_to(r.messages@.skip(n), clients_except(old(self).participants@, None), ServerMessage::RoundStarted)
            },
            old(self).times_out(now) ==> final(self).active_ids() == old(self).qualified_ids()
                && !(final(self).phase is Running),
            old(self).times_out(now) ==> round_end_notices(*old(self), *final(self), r.messages@),
            old(self).times_out(now) && count_qualified(old(self).participants@) <= 1 ==> final(self).phase == (
            Phase::Waiting { since: final(self).clock }),
            old(self).times_out(now) && count_qualified(old(self).participants@) > 1 ==> final(self).phase == (
            Phase::Countdown { since: final(self).clock }) && final(self).round.track.from == old(self).round.track.to
                && final(self).round.to_be_qualified == quota(
                final(self).round.num as nat,
                count_qualified(old(self).participants@),
                old(self).config.elimination_ratio as nat,
            ),
            !old(self).starts_session(now) && !old(self).starts_round(now) && !(old(self).phase is Running) ==> {
                &&& final(self).phase == old(self).phase
                &&& final(self).round == old(self).round
                &&& final(self).participants == old(self).participants
                &&& final(self).active_ids() == old(self).active_ids()
                &&& final(self).qualified_ids() == old(self).qualified_ids()
                &&& r.messages@.len() == 0
            },
            old(self).starts_round(now) ==> {
                &&& final(self).qualified_ids() == old(self).qualified_ids()
                &&& final(self).participants@.len() == old(self).participants@.len()
                &&& forall|i: int|
                    0 <= i < old(self).participants@.len() ==> {
                        let a = old(self).participants@[i];
                        let b = #[trigger] final(self).participants@[i];
                        &&& b.id == a.id && b.active == a.active && b.qualified == a.qualified
                        &&& b.pos == if !a.is_bot && a.active {
                            Some(old(self).level.cat_locations@[old(self).round.track.from as int])
                        } else {
                            a.pos
                        }
                    }
            },
            old(self).times_out(now) ==> {
                &&& final(self).participants@.len() == old(self).participants@.len()
                &&& forall|i: int|
                    0 <= i < old(self).participants@.len() ==> {
                        let a = old(self).participants@[i];
                        let b = #[trigger] final(self).participants@[i];
                        &&& b.id == a.id && b.active == a.qualified
                        &&& b.pos == if eliminated(a) {
                            None
                        } else {
                            a.pos
                        }
                    }
            },
            r.save_replays ==> old(self).phase is Running && old(self).config.server_recordings,
            old(self).phase is Running && !old(self).times_out(now) ==> {
                let t = round_time_at(*old(self), now);
                let n = old(self).participants@.len() as int;
                let q = count_where(n, |j: int| qualified_after_bots(*old(self), j, t));
                let a = count_where(n, |j: int| active_after_bots(*old(self), j));
                &&& final(self).participants@.len() == n
                &&& (q >= old(self).round.to_be_qualified || a == q) <==> !(final(self).phase is Running)
                &&& final(self).phase is Running ==> forall|j: int|
                    0 <= j < n ==> (#[trigger] final(self).participants@[j]).active == active_after_bots(*old(self), j)
                        && final(self).participants@[j].qualified == qualified_after_bots(*old(self), j, t)
                &&& !(final(self).phase is Running) ==> forall|j: int|
                    0 <= j < n ==> (#[trigger] final(self).participants@[j]).active == qualified_after_bots(
                        *old(self),
                        j,
                        t,
                    )
            },
    {
        if now > self.clock {
            self.clock = now;
        }
        self.update_numbers();
        let ghost s0 = *self;
        proof {
            lemma_count_qualified_same(old(self).participants@, s0.participants@);
            lemma_same_sets(old(self), self);
            assert(old(self).session_roster() =~= s0.session_roster()) by {
                lemma_count_clients_ready_same(old(self).participants@, s0.participants@);
            }
        }
        match self.phase {
            Phase::Boot => {
                let messages = self.new_session(draw);
                proof {
                    lemma_session_start_bounded(&s0, messages@);
                }
                TickOutcome { messages, save_replays: false }
            },
            Phase::Waiting { since } => {
                if self.clock - since > self.config.new_session_time {
                    let messages = self.new_session(draw);
                    proof {
                        lemma_session_start_bounded(&s0, messages@);
                    }
                    TickOutcome { messages, save_replays: false }
                } else {
                    TickOutcome { messages: Vec::new(), save_replays: false }
                }
            },
            Phase::Countdown { since } => {
                if self.clock - since > COUNTDOWN_MS {
                    let messages = self.begin_round();
                    proof {
                        let n = racing_clients(s0.participants@).len() as int;
                        assert forall|k: int| 0 <= k < messages@.len() implies !announces(
                            #[trigger] messages@[k].message,
                        ) by {
                            if k < n {
                                assert(messages@.take(n)[k] == messages@[k]);
                            } else {
                                assert(messages@.skip(n)[k - n] == messages@[k]);
                            }
                        }
                        lemma_quiet_bounded(messages@);
                    }
                    TickOutcome { messages, save_replays: false }
                } else {
                    TickOutcome { messages: Vec::new(), save_replays: false }
                }
            },
            Phase::Running { since } => {
                let left = self.active_count();
                proof {
                    lemma_empty_count(&s0);
                }
                if self.clock - since > self.config.cat_move_time || left == 0 {
                    let (messages, save_replays) = self.end_round(draw);
                    proof {
                        lemma_round_end_bounded(s0, *self, messages@);
                    }
                    return TickOutcome { messages, save_replays };
                }
                let mut messages = self.drive_bots();
                let ghost s1 = *self;
                let qualified = self.qualified_count();
                let left = self.active_count();
                proof {
                    let t = round_time_at(*old(self), now);
                    let n = s0.participants@.len() as int;
                    assert(t == s0.round_time());
                    assert forall|j: int| 0 <= j < n implies (#[trigger] s1.participants@[j]).qualified
                        == qualified_after_bots(*old(self), j, t) && s1.participants@[j].active == active_after_bots(
                        *old(self),
                        j,
                    ) by {
                        if j < s0.bot_count {
                        } else {
                            assert(s1.participants@[j] == s0.participants@[j]);
                        }
                    }
                    lemma_count_flags(s1.participants@);
                    lemma_count_where_ext(
                        n,
                        |j: int| s1.participants@[j].qualified,
                        |j: int| qualified_after_bots(*old(self), j, t),
                    );
                    lemma_count_where_ext(
                        n,
                        |j: int| s1.participants@[j].active,
                        |j: int| active_after_bots(*old(self), j),
                    );
                }
                if qualified >= self.round.to_be_qualified || left == qualified {
                    let (mut more, save_replays) = self.end_round(draw);
                    let ghost bot_out = messages@;
                    let ghost end_out = more@;
                    proof {
                        lemma_round_end_bounded(s1, *self, end_out);
                    }
                    messages.append(&mut more);
                    proof {
                        assert(messages@ =~= bot_out + end_out);
                        lemma_bounded_after_quiet(bot_out, end_out);
                    }
                    proof {
                        assert(s1.qualified_ids().subset_of(s1.active_ids())) by {
                            assert forall|x: Id| s1.qualified_ids().contains(x) implies s1.active_ids().contains(x) by {
                                let j = choose|j: int|
                                    0 <= j < s1.participants@.len() && #[trigger] s1.participants@[j].id == x
                                        && s1.participants@[j].qualified;
                            }
                        }
                    }
                    TickOutcome { messages, save_replays }
                } else {
                    proof {
                        lemma_quiet_bounded(messages@);
                    }
                    TickOutcome { messages, save_replays: false }
                }
            },
        }
    }

    /// Answers a ping of client `id`: a pong and the head counts.
    pub fn on_ping(&self, id: Id) -> (out: Vec<Outgoing>)
        requires
            self.wf(),
        ensures
            self.is_client(id) ==> out@ == seq![
                Outgoing { to: id, message: ServerMessage::Pong },
                Outgoing { to: id, message: ServerMessage::Numbers(self.numbers) },
            ],
            !self.is_client(id) ==> out@.len() == 0,
    {
        let mut out: Vec<Outgoing> = Vec::new();
        match self.find(id) {
            Some(k) => {
                proof {
                    self.lemma_index_of(k as int);
                }
                if !self.participants[k].is_bot {
                    out.push(Outgoing { to: id, message: ServerMessage::Pong });
                    out.push(Outgoing { to: id, message: ServerMessage::Numbers(self.numbers) });
                    assert(out@ =~= seq![
                        Outgoing { to: id, message: ServerMessage::Pong },
                        Outgoing { to: id, message: ServerMessage::Numbers(self.numbers) },
                    ]);
                }
            },
            None => {
                proof {
                    if self.is_client(id) {
                        let i = choose|i: int| self.is_client_at(i) && self.participants@[i].id == id;
                    }
                }
            },
        }
        out
    }

    /// Gives client `id` the display name `name` and tells every client: the
    /// client itself by `YourName`, the others by `Name`.
    pub fn set_name(&mut self, id: Id, name: String) -> (out: Vec<Outgoing>)
        requires
            old(self).wf(),
        ensures
            final(self).wf(),
            named(*old(self), *final(self), id, name@, out@),
    {
        let mut out: Vec<Outgoing> = Vec::new();
        match self.find(id) {
            Some(k) => {
                proof {
                    self.lemma_index_of(k as int);
                }
                if self.participants[k].is_bot {
                    return out;
                }
                let ghost prev = *self;
                self.participants[k].name = name.clone();
                proof {
                    lemma_update_at(&prev, self, k as int, self.participants@[k as int]);
                }
                let mut i: usize = 0;
                while i < self.participants.len()
                    invariant
                        i <= self.participants@.len(),
                        self.participants@.len() == prev.participants@.len(),
                        forall|e: Option<Id>| clients_except(self.participants@, e) == clients_except(prev.participants@, e),
                        out@.len() == clients_except(self.participants@.take(i as int), None).len(),
                        forall|j: int|
                            0 <= j < out@.len() ==> {
                                let o = #[trigger] out@[j];
                                &&& o.to == clients_except(self.participants@.take(i as int), None)[j]
                                &&& o.to == id ==> (o.message matches ServerMessage::YourName(t) && t@ == name@)
                                &&& o.to != id ==> (o.message matches ServerMessage::Name(who, t) && who == id && t@ == name@)
                            },
                    decreases self.participants@.len() - i,
                {
                    let ghost before = out@;
                    assert(self.participants@.take(i + 1).drop_last() =~= self.participants@.take(i as int));
                    let p = &self.participants[i];
                    if !p.is_bot {
                        if p.id == id {
                            out.push(Outgoing { to: p.id, message: ServerMessage::YourName(name.clone()) });
                        } else {
                            out.push(Outgoing { to: p.id, message: ServerMessage::Name(id, name.clone()) });
                        }
                    }
                    i = i + 1;
                }
                assert(self.participants@.take(i as int) =~= self.participants@);
            },
            None => {
                proof {
                    if self.is_client(id) {
                        let i = choose|i: int| self.is_client_at(i) && self.participants@[i].id == id;
                    }
                }
            },
        }
        out
    }

    /// Renames client `id` after the name it asked for: its first ASCII
    /// letters, at most `MAX_NAME_LEN` of them, censored; see `set_name`.
    pub fn on_name(&mut self, id: Id, requested: &str) -> (out: Vec<Outgoing>)
        requires
            old(self).wf(),
        ensures
            final(self).wf(),
            named(*old(self), *final(self), id, censored(kept_name(requested@)), out@),
    {
        let kept = clean_name(requested);
        let name = censor(&kept);
        self.set_name(id, name)
    }

    /// Takes a message of client `id`.
    pub fn handle(&mut self, id: Id, message: ClientMessage) -> (out: Vec<Outgoing>)
        requires
            old(self).wf(),
        ensures
            final(self).wf(),
            final(self).phase == old(self).phase,
            final(self).active_ids() == old(self).active_ids(),
            message matches ClientMessage::UpdatePlayer(p) ==> (old(self).accepts(id) ==> update_effect(
                *old(self),
                *final(self),
                old(self).index_of(id),
                p,
                out@,
            )) && (!old(self).accepts(id) ==> *final(self) == *old(self)),
            message is Ping ==> *final(self) == *old(self) && out@ == old(self).on_ping_result(id),
            message matches ClientMessage::Ready(r) ==> out@.len() == 0 && readied(*old(self), *final(self), id, r),
            message matches ClientMessage::Name(n) ==> named(*old(self), *final(self), id, censored(kept_name(n@)), out@),
    {
        match message {
            ClientMessage::Ping => self.on_ping(id),
            ClientMessage::UpdatePlayer(player) => self.on_player_update(id, player),
            ClientMessage::Name(name) => self.on_name(id, name.as_str()),
            ClientMessage::Ready(ready) => {
                self.on_ready(id, ready);
                Vec::new()
            },
        }
    }

    /// What `on_ping` answers.
    pub open spec fn on_ping_result(&self, id: Id) -> Seq<Outgoing> {
        if self.is_client(id) {
            seq![
                Outgoing { to: id, message: ServerMessage::Pong },
                Outgoing { to: id, message: ServerMessage::Numbers(self.numbers) },
            ]
        } else {
            Seq::empty()
        }
    }
}

/// What readying client `id` does, from `s0` to `s1`: its readiness becomes
/// `ready`; everything else stays.
pub open spec fn readied(s0: State, s1: State, id: Id, ready: bool) -> bool {
    &&& s1.participants@.len() == s0.participants@.len()
    &&& forall|i: int|
        0 <= i < s0.participants@.len() ==> {
            let a = s0.participants@[i];
            let b = #[trigger] s1.participants@[i];
            &&& b.ready == if a.id == id && !a.is_bot {
                ready
            } else {
                a.ready
            }
            &&& b.id == a.id && b.is_bot == a.is_bot && b.active == a.active
            &&& b.qualified == a.qualified && b.pos == a.pos && b.name == a.name
            &&& b.current_replay@ == a.current_replay@
        }
    &&& s1.phase == s0.phase
    &&& s1.round == s0.round
    &&& s1.active_ids() == s0.active_ids()
    &&& s1.qualified_ids() == s0.qualified_ids()
}

/// What naming client `id` with `n` does, from `s0` to `s1`, with the
/// messages `out`: its name becomes `n`, every other participant stays, and
/// every client is told in order, the client itself by `YourName`, the others
/// by `Name`. For anyone else nothing happens.
pub open spec fn named(s0: State, s1: State, id: Id, n: Seq<char>, out: Seq<Outgoing>) -> bool {
    &&& s1.phase == s0.phase
    &&& s1.round == s0.round
    &&& s1.active_ids() == s0.active_ids()
    &&& s1.qualified_ids() == s0.qualified_ids()
    &&& s1.participants@.len() == s0.participants@.len()
    &&& !s0.is_client(id) ==> s1.participants@ == s0.participants@ && out.len() == 0
    &&& s0.is_client(id) ==> {
        let k = s0.index_of(id);
        let a = s0.participants@[k];
        let b = s1.participants@[k];
        &&& b.name@ == n
        &&& b.id == a.id && b.is_bot == a.is_bot && b.active == a.active && b.ready == a.ready
        &&& b.qualified == a.qualified && b.pos == a.pos && b.current_replay@ == a.current_replay@
        &&& forall|i: int|
            0 <= i < s0.participants@.len() && i != k ==> #[trigger] s1.participants@[i] == s0.participants@[i]
        &&& out.len() == clients_except(s0.participants@, None).len()
        &&& forall|j: int|
            0 <= j < out.len() ==> {
                let o = #[trigger] out[j];
                &&& o.to == clients_except(s0.participants@, None)[j]
                &&& o.to == id ==> (o.message matches ServerMessage::YourName(t) && t@ == n)
                &&& o.to != id ==> (o.message matches ServerMessage::Name(who, t) && who == id && t@ == n)
            }
    }
}

/// The clock of `s` once a tick at `now` has moved it.
pub open spec fn clock_at(s: State, now: u64) -> u64 {
    if now > s.clock {
        now
    } else {
        s.clock
    }
}

/// The time into the running round of `s` at a tick at `now`.
pub open spec fn round_time_at(s: State, now: u64) -> u64 {
    match s.phase {
        Phase::Running { since } => (clock_at(s, now) - since) as u64,
        _ => 0,
    }
}

/// The bot at `j` has a recording to play back in its lane.
pub open spec fn has_lane(s: State, j: int) -> bool {
    lane(s.participants@, j) < s.bots.runs(s.round.track).len()
}

/// Whether the participant at `j` still competes once the bots have moved:
/// an active bot without a recording in its lane stops, unless it has
/// qualified.
pub open spec fn active_after_bots(s: State, j: int) -> bool {
    let a = s.participants@[j];
    if j < s.bot_count {
        a.active && (a.qualified || has_lane(s, j))
    } else {
        a.active
    }
}

/// Whether the participant at `j` has qualified once the bots have moved at
/// round time `t`: an active, unqualified bot with a recording in its lane
/// is played back there, and qualifies if that report does.
pub open spec fn qualified_after_bots(s: State, j: int, t: u64) -> bool {
    let a = s.participants@[j];
    a.qualified || (j < s.bot_count && a.active && has_lane(s, j) && s.finishes(
        sample(s.bots.runs(s.round.track)[lane(s.participants@, j) as int], t),
    ))
}

/// How many of the indices below `n` satisfy `f`.
pub open spec fn count_where(n: int, f: spec_fn(int) -> bool) -> nat
    decreases n,
{
    if n <= 0 {
        0
    } else {
        count_where(n - 1, f) + if f(n - 1) {
            1nat
        } else {
            0nat
        }
    }
}

/// A message that announces a round or a winner.
pub open spec fn announces(m: ServerMessage) -> bool {
    m is NewRound || m is Winner || m is YouAreWinner
}

/// Two messages that a client gets at most one of per tick: two round
/// announcements, or two winner notices.
pub open spec fn clash(a: ServerMessage, b: ServerMessage) -> bool {
    (a is NewRound && b is NewRound) || ((a is Winner || a is YouAreWinner) && (b is Winner || b is YouAreWinner))
}

/// `out` announces no round and no winner.
pub open spec fn quiet(out: Seq<Outgoing>) -> bool {
    forall|k: int| 0 <= k < out.len() ==> !announces(#[trigger] out[k].message)
}

/// No client gets two round announcements, nor two winner notices, in `out`.
pub open spec fn notices_bounded(out: Seq<Outgoing>) -> bool {
    forall|a: int, b: int|
        0 <= a < b < out.len() && (#[trigger] out[a]).to == (#[trigger] out[b]).to ==> !clash(
            out[a].message,
            out[b].message,
        )
}

/// What taking the report `player` of the participant at `k` does, from `s0`
/// to `s1`, with the messages `out`: every other field stays; the record at
/// `k` takes the position, the recording and the qualification that the
/// report earns; the report goes to every other client, followed, where it
/// qualifies, by the notices of that.
pub open spec fn update_effect(s0: State, s1: State, k: int, player: Player, out: Seq<Outgoing>) -> bool {
    &&& s1.phase == s0.phase
    &&& s1.clock == s0.clock
    &&& s1.round == s0.round
    &&& s1.bots == s0.bots
    &&& s1.level == s0.level
    &&& s1.config == s0.config
    &&& s1.bot_count == s0.bot_count
    &&& s1.next_id == s0.next_id
    &&& s1.participants@.len() == s0.participants@.len()
    &&& forall|i: int|
            0 <= i < s0.participants@.len() && i != k ==> #[trigger] s1.participants@[i]
                == s0.participants@[i]
    &&& ({
            let p = s0.participants@[k];
            let q = s1.participants@[k];
            let qual = s0.may_qualify(k) && s0.finishes(player);
            &&& q.id == p.id && q.is_bot == p.is_bot && q.ready == p.ready && q.name == p.name
            &&& q.active == p.active
            &&& q.qualified == (p.qualified || qual)
            &&& q.pos == if p.is_bot || qual {
                None
            } else {
                Some(player.pos)
            }
            &&& q.current_replay@ == if s0.records(k) {
                p.current_replay@.push(TimedData { time: s0.round_time(), data: snapshot_of(player) })
            } else {
                p.current_replay@
            }
            &&& s1.active_ids() == s0.active_ids()
            &&& s1.qualified_ids() == if qual {
                s0.qualified_ids().insert(p.id)
            } else {
                s0.qualified_ids()
            }
            &&& {
                let n = clients_except(s0.participants@, Some(p.id)).len();
                let rest = out.skip(n as int);
                &&& out.len() >= n
                &&& sent_to(out.take(n as int), clients_except(s0.participants@, Some(p.id)),
                    ServerMessage::UpdatePlayer(p.id, Some(player)))
                &&& !qual ==> out.len() == n
                &&& qual && p.is_bot ==> sent_to(rest, clients_except(s0.participants@, Some(p.id)),
                    ServerMessage::UpdatePlayer(p.id, None))
                &&& qual && !p.is_bot ==> rest.len() > 0 && rest[0] == (Outgoing {
                    to: p.id,
                    message: ServerMessage::YouHaveBeenQualified,
                }) && sent_to(rest.skip(1), clients_except(s0.participants@, Some(p.id)),
                    ServerMessage::UpdatePlayer(p.id, None))
            }
        })
}

/// Two controllers whose participants agree on identity and flags have the
/// same active and qualified sets.
proof fn lemma_same_sets(a: &State, b: &State)
    requires
        a.participants@.len() == b.participants@.len(),
        forall|i: int|
            0 <= i < a.participants@.len() ==> (#[trigger] a.participants@[i]).id == b.participants@[i].id
                && a.participants@[i].active == b.participants@[i].active
                && a.participants@[i].qualified == b.participants@[i].qualified,
    ensures
        a.active_ids() == b.active_ids(),
        a.qualified_ids() == b.qualified_ids(),
{
    assert forall|x: Id| a.active_ids().contains(x) implies b.active_ids().contains(x) by {
        let j = choose|j: int|
            0 <= j < a.participants@.len() && #[trigger] a.participants@[j].id == x && a.participants@[j].active;
        assert(b.participants@[j].id == x);
    }
    assert forall|x: Id| b.active_ids().contains(x) implies a.active_ids().contains(x) by {
        let j = choose|j: int|
            0 <= j < b.participants@.len() && #[trigger] b.participants@[j].id == x && b.participants@[j].active;
        assert(a.participants@[j].id == x);
    }
    assert forall|x: Id| a.qualified_ids().contains(x) implies b.qualified_ids().contains(x) by {
        let j = choose|j: int|
            0 <= j < a.participants@.len() && #[trigger] a.participants@[j].id == x && a.participants@[j].qualified;
        assert(b.participants@[j].id == x);
    }
    assert forall|x: Id| b.qualified_ids().contains(x) implies a.qualified_ids().contains(x) by {
        let j = choose|j: int|
            0 <= j < b.participants@.len() && #[trigger] b.participants@[j].id == x && b.participants@[j].qualified;
        assert(a.participants@[j].id == x);
    }
    assert(a.active_ids() =~= b.active_ids());
    assert(a.qualified_ids() =~= b.qualified_ids());
}

/// Removing a client keeps the controller well formed and takes its identity
/// out of the active and qualified sets.
proof fn lemma_remove_at(before: &State, after: &State, k: int)
    requires
        before.wf(),
        0 <= k < before.participants@.len(),
        !before.participants@[k].is_bot,
        after.participants@ == before.participants@.remove(k),
        after.phase == before.phase,
        after.clock == before.clock,
        after.next_id == before.next_id,
        after.level == before.level,
        after.config == before.config,
        after.bots == before.bots,
        after.bot_count == before.bot_count,
        after.round == before.round,
    ensures
        after.wf(),
        after.active_ids() == before.active_ids().remove(before.participants@[k].id),
        after.qualified_ids() == before.qualified_ids().remove(before.participants@[k].id),
        !after.known_ids().contains(before.participants@[k].id),
{
    let id = before.participants@[k].id;
    let ps = before.participants@;
    let qs = after.participants@;
    assert forall|i: int| 0 <= i < qs.len() implies #[trigger] qs[i] == (if i < k { ps[i] } else { ps[i + 1] }) by {}
    assert forall|a: int, b: int| 0 <= a < b < qs.len() implies (#[trigger] qs[a]).id < (#[trigger] qs[b]).id by {
        let a2 = if a < k { a } else { a + 1 };
        let b2 = if b < k { b } else { b + 1 };
        assert(ps[a2].id < ps[b2].id);
    }
    assert forall|i: int| 0 <= i < qs.len() implies (#[trigger] qs[i]).is_bot == (i < after.bot_count) by {
        if i >= k {
            assert(ps[k].is_bot == (k < before.bot_count));
            assert(ps[i + 1].is_bot == (i + 1 < before.bot_count));
        }
    }
    assert forall|i: int| 0 <= i < after.bot_count implies (#[trigger] qs[i]).id == i by {
        assert(ps[k].is_bot == (k < before.bot_count));
        assert(ps[i].id == i);
    }
    assert forall|i: int, m: int|
        0 <= i < qs.len() && 0 <= m < qs[i].current_replay@.len() implies (#[trigger] qs[i].current_replay@[m]).time
            <= after.round_time() by {
        let i2 = if i < k { i } else { i + 1 };
        assert(ps[i2].current_replay@[m].time <= before.round_time());
    }
    assert forall|x: Id| after.active_ids().contains(x) <==> before.active_ids().remove(id).contains(x) by {
        if after.active_ids().contains(x) {
            let j = choose|j: int| 0 <= j < qs.len() && #[trigger] qs[j].id == x && qs[j].active;
            let j2 = if j < k { j } else { j + 1 };
            assert(ps[j2].id == x);
            if x == id {
                if j2 < k {
                    assert(ps[j2].id < ps[k].id);
                } else {
                    assert(ps[k].id < ps[j2].id);
                }
            }
        }
        if before.active_ids().remove(id).contains(x) {
            let j = choose|j: int| 0 <= j < ps.len() && #[trigger] ps[j].id == x && ps[j].active;
            assert(j != k);
            let j2 = if j < k { j } else { j - 1 };
            assert(qs[j2].id == x);
        }
    }
    assert forall|x: Id| after.qualified_ids().contains(x) <==> before.qualified_ids().remove(id).contains(x) by {
        if after.qualified_ids().contains(x) {
            let j = choose|j: int| 0 <= j < qs.len() && #[trigger] qs[j].id == x && qs[j].qualified;
            let j2 = if j < k { j } else { j + 1 };
            assert(ps[j2].id == x);
            if x == id {
                if j2 < k {
                    assert(ps[j2].id < ps[k].id);
                } else {
                    assert(ps[k].id < ps[j2].id);
                }
            }
        }
        if before.qualified_ids().remove(id).contains(x) {
            let j = choose|j: int| 0 <= j < ps.len() && #[trigger] ps[j].id == x && ps[j].qualified;
            assert(j != k);
            let j2 = if j < k { j } else { j - 1 };
            assert(qs[j2].id == x);
        }
    }
    assert(after.active_ids() =~= before.active_ids().remove(id));
    assert(after.qualified_ids() =~= before.qualified_ids().remove(id));
    if after.known_ids().contains(id) {
        let j = qs.map_values(|p: Participant| p.id).index_of(id);
        assert(qs[j].id == id);
        let j2 = if j < k { j } else { j + 1 };
        if j2 < k {
            assert(ps[j2].id < ps[k].id);
        } else {
            assert(ps[k].id < ps[j2].id);
        }
    }
}


/// The record `q` may stand in for the record at `k`.
pub open spec fn fits_at(s: &State, k: int, q: Participant) -> bool {
    let p = s.participants@[k];
    &&& q.id == p.id
    &&& q.is_bot == p.is_bot
    &&& q.qualified ==> q.active
    &&& q.is_bot ==> q.pos is None && !q.ready && q.current_replay@.len() == 0
    &&& time_ordered(q.current_replay@)
    &&& forall|m: int| 0 <= m < q.current_replay@.len() ==> (#[trigger] q.current_replay@[m]).time <= s.round_time()
    &&& !(s.phase is Running && s.config.server_recordings) ==> q.current_replay@.len() == 0
}

/// Replacing one record by a fitting one keeps the controller well formed,
/// and moves its identity in or out of the two sets as its flags say.
proof fn lemma_update_at(before: &State, after: &State, k: int, q: Participant)
    requires
        before.wf(),
        0 <= k < before.participants@.len(),
        fits_at(before, k, q),
        after.participants@ == before.participants@.update(k, q),
        after.phase == before.phase,
        after.clock == before.clock,
        after.next_id == before.next_id,
        after.level == before.level,
        after.config == before.config,
        after.bots == before.bots,
        after.bot_count == before.bot_count,
        after.round == before.round,
    ensures
        after.wf(),
        after.active_ids() == if q.active {
            before.active_ids().insert(q.id)
        } else {
            before.active_ids().remove(q.id)
        },
        after.qualified_ids() == if q.qualified {
            before.qualified_ids().insert(q.id)
        } else {
            before.qualified_ids().remove(q.id)
        },
        forall|e: Option<Id>| clients_except(after.participants@, e) == clients_except(before.participants@, e),
        q.active == before.participants@[k].active ==> after.active_ids() == before.active_ids(),
        q.qualified == before.participants@[k].qualified ==> after.qualified_ids() == before.qualified_ids(),
{
    let ps = before.participants@;
    let qs = after.participants@;
    let id = q.id;
    assert forall|a: int, b: int| 0 <= a < b < qs.len() implies (#[trigger] qs[a]).id < (#[trigger] qs[b]).id by {
        assert(ps[a].id < ps[b].id);
    }
    assert forall|i: int| 0 <= i < qs.len() implies (#[trigger] qs[i]).is_bot == (i < after.bot_count) by {
        assert(ps[i].is_bot == (i < before.bot_count));
    }
    assert forall|i: int| 0 <= i < after.bot_count implies (#[trigger] qs[i]).id == i by {
        assert(ps[i].id == i);
    }
    assert forall|i: int| 0 <= i < qs.len() implies 0 <= (#[trigger] qs[i]).id < after.next_id by {
        assert(0 <= ps[i].id < before.next_id);
    }
    assert forall|i: int, m: int|
        0 <= i < qs.len() && 0 <= m < qs[i].current_replay@.len() implies (#[trigger] qs[i].current_replay@[m]).time
            <= after.round_time() by {
        if i != k {
            assert(ps[i].current_replay@[m].time <= before.round_time());
        }
    }
    assert forall|x: Id| after.active_ids().contains(x) <==> (if q.active {
        before.active_ids().insert(id)
    } else {
        before.active_ids().remove(id)
    }).contains(x) by {
        if after.active_ids().contains(x) {
            let j = choose|j: int| 0 <= j < qs.len() && #[trigger] qs[j].id == x && qs[j].active;
            if j != k {
                assert(ps[j].id == x);
                if x == id {
                    before.lemma_id_unique(j, k);
                }
            }
        }
        if x != id && before.active_ids().contains(x) {
            let j = choose|j: int| 0 <= j < ps.len() && #[trigger] ps[j].id == x && ps[j].active;
            assert(qs[j].id == x);
        }
        if x == id && q.active {
            assert(qs[k].id == x);
        }
    }
    assert forall|x: Id| after.qualified_ids().contains(x) <==> (if q.qualified {
        before.qualified_ids().insert(id)
    } else {
        before.qualified_ids().remove(id)
    }).contains(x) by {
        if after.qualified_ids().contains(x) {
            let j = choose|j: int| 0 <= j < qs.len() && #[trigger] qs[j].id == x && qs[j].qualified;
            if j != k {
                assert(ps[j].id == x);
                if x == id {
                    before.lemma_id_unique(j, k);
                }
            }
        }
        if x != id && before.qualified_ids().contains(x) {
            let j = choose|j: int| 0 <= j < ps.len() && #[trigger] ps[j].id == x && ps[j].qualified;
            assert(qs[j].id == x);
        }
        if x == id && q.qualified {
            assert(qs[k].id == x);
        }
    }
    assert(after.active_ids() =~= (if q.active {
        before.active_ids().insert(id)
    } else {
        before.active_ids().remove(id)
    }));
    assert(after.qualified_ids() =~= (if q.qualified {
        before.qualified_ids().insert(id)
    } else {
        before.qualified_ids().remove(id)
    }));
    assert forall|e: Option<Id>| clients_except(qs, e) == clients_except(ps, e) by {
        lemma_clients_except_same(qs, ps, e);
    }
    if q.active == ps[k].active {
        if q.active {
            assert(before.active_ids().contains(id)) by {
                assert(ps[k].id == id);
            }
            assert(before.active_ids().insert(id) =~= before.active_ids());
        } else {
            assert(!before.active_ids().contains(id)) by {
                if before.active_ids().contains(id) {
                    let j = choose|j: int| 0 <= j < ps.len() && #[trigger] ps[j].id == id && ps[j].active;
                    before.lemma_id_unique(j, k);
                }
            }
            assert(before.active_ids().remove(id) =~= before.active_ids());
        }
    }
    if q.qualified == ps[k].qualified {
        if q.qualified {
            assert(before.qualified_ids().contains(id)) by {
                assert(ps[k].id == id);
            }
            assert(before.qualified_ids().insert(id) =~= before.qualified_ids());
        } else {
            assert(!before.qualified_ids().contains(id)) by {
                if before.qualified_ids().contains(id) {
                    let j = choose|j: int| 0 <= j < ps.len() && #[trigger] ps[j].id == id && ps[j].qualified;
                    before.lemma_id_unique(j, k);
                }
            }
            assert(before.qualified_ids().remove(id) =~= before.qualified_ids());
        }
    }
}

/// Who gets a broadcast depends on identities and kinds alone.
proof fn lemma_clients_except_same(a: Seq<Participant>, b: Seq<Participant>, e: Option<Id>)
    requires
        a.len() == b.len(),
        forall|i: int| 0 <= i < a.len() ==> (#[trigger] a[i]).id == b[i].id && a[i].is_bot == b[i].is_bot,
    ensures
        clients_except(a, e) == clients_except(b, e),
    decreases a.len(),
{
    if a.len() > 0 {
        lemma_clients_except_same(a.drop_last(), b.drop_last(), e);
    }
}


/// With a ready client, the roster of a session that starts now is not empty.
proof fn lemma_some_ready(s: &State)
    requires
        count_ready(s.participants@) > 0,
    ensures
        s.session_roster() != Set::<Id>::empty(),
{
    let i = lemma_ready_witness(s.participants@);
    assert(s.joins(i));
    assert(s.session_roster().contains(s.participants@[i].id));
}

/// A sequence with a ready client holds one.
proof fn lemma_ready_witness(ps: Seq<Participant>) -> (i: int)
    requires
        count_ready(ps) > 0,
    ensures
        0 <= i < ps.len(),
        !ps[i].is_bot && ps[i].ready,
    decreases ps.len(),
{
    if !ps.last().is_bot && ps.last().ready {
        ps.len() - 1
    } else {
        let j = lemma_ready_witness(ps.drop_last());
        assert(ps.drop_last()[j] == ps[j]);
        j
    }
}


/// Counting the active participants depends on the active flags alone.
proof fn lemma_count_active_same(a: Seq<Participant>, b: Seq<Participant>)
    requires
        a.len() == b.len(),
        forall|i: int| 0 <= i < a.len() ==> (#[trigger] a[i]).active == b[i].active,
    ensures
        count_active(a) == count_active(b),
    decreases a.len(),
{
    if a.len() > 0 {
        lemma_count_active_same(a.drop_last(), b.drop_last());
    }
}


proof fn lemma_count_active_le(ps: Seq<Participant>)
    ensures
        count_active(ps) <= ps.len(),
    decreases ps.len(),
{
    if ps.len() > 0 {
        lemma_count_active_le(ps.drop_last());
    }
}


/// With at most one active participant, an active one is the only one.
proof fn lemma_sole_active(s: &State, w: int)
    requires
        s.wf(),
        count_active(s.participants@) <= 1,
        0 <= w < s.participants@.len(),
        s.participants@[w].active,
    ensures
        forall|j: int| 0 <= j < s.participants@.len() && j != w ==> !(#[trigger] s.participants@[j]).active,
        forall|x: Id| s.active_ids().contains(x) ==> x == s.participants@[w].id,
{
    assert forall|j: int| 0 <= j < s.participants@.len() && j != w implies !(#[trigger] s.participants@[j]).active by {
        if s.participants@[j].active {
            lemma_two_active(s.participants@, j, w);
        }
    }
    assert forall|x: Id| s.active_ids().contains(x) implies x == s.participants@[w].id by {
        let j = choose|j: int|
            0 <= j < s.participants@.len() && #[trigger] s.participants@[j].id == x && s.participants@[j].active;
    }
}

/// Two active participants make a count of at least two.
proof fn lemma_two_active(ps: Seq<Participant>, a: int, b: int)
    requires
        0 <= a < ps.len(),
        0 <= b < ps.len(),
        a != b,
        ps[a].active,
        ps[b].active,
    ensures
        count_active(ps) >= 2,
    decreases ps.len(),
{
    let n = ps.len() - 1;
    if a == n || b == n {
        let other = if a == n { b } else { a };
        lemma_one_active(ps.drop_last(), other);
    } else {
        lemma_two_active(ps.drop_last(), a, b);
    }
}

/// An active participant makes a count of at least one.
proof fn lemma_one_active(ps: Seq<Participant>, a: int)
    requires
        0 <= a < ps.len(),
        ps[a].active,
    ensures
        count_active(ps) >= 1,
    decreases ps.len(),
{
    if a != ps.len() - 1 {
        lemma_one_active(ps.drop_last(), a);
    }
}


/// Where the active flags of `a` are the qualified flags of `b`, so are the counts.
proof fn lemma_count_active_qualified(a: Seq<Participant>, b: Seq<Participant>)
    requires
        a.len() == b.len(),
        forall|i: int| 0 <= i < a.len() ==> (#[trigger] a[i]).active == b[i].qualified,
    ensures
        count_active(a) == count_qualified(b),
    decreases a.len(),
{
    if a.len() > 0 {
        lemma_count_active_qualified(a.drop_last(), b.drop_last());
    }
}

/// Counting the qualified depends on the qualified flags alone.
proof fn lemma_count_qualified_same(a: Seq<Participant>, b: Seq<Participant>)
    requires
        a.len() == b.len(),
        forall|i: int| 0 <= i < a.len() ==> (#[trigger] a[i]).qualified == b[i].qualified,
    ensures
        count_qualified(a) == count_qualified(b),
    decreases a.len(),
{
    if a.len() > 0 {
        lemma_count_qualified_same(a.drop_last(), b.drop_last());
    }
}


/// The counts of clients and of ready clients depend on kinds and readiness alone.
proof fn lemma_count_clients_ready_same(a: Seq<Participant>, b: Seq<Participant>)
    requires
        a.len() == b.len(),
        forall|i: int| 0 <= i < a.len() ==> (#[trigger] a[i]).is_bot == b[i].is_bot && a[i].ready == b[i].ready,
    ensures
        count_clients(a) == count_clients(b),
        count_ready(a) == count_ready(b),
    decreases a.len(),
{
    if a.len() > 0 {
        lemma_count_clients_ready_same(a.drop_last(), b.drop_last());
    }
}

/// Nobody is active exactly when the count of the active is zero.
proof fn lemma_empty_count(s: &State)
    ensures
        (s.active_ids() == Set::<Id>::empty()) == (count_active(s.participants@) == 0),
{
    if count_active(s.participants@) == 0 {
        assert forall|x: Id| !s.active_ids().contains(x) by {
            if s.active_ids().contains(x) {
                let j = choose|j: int|
                    0 <= j < s.participants@.len() && #[trigger] s.participants@[j].id == x && s.participants@[j].active;
                lemma_one_active(s.participants@, j);
            }
        }
        assert(s.active_ids() =~= Set::<Id>::empty());
    } else {
        let j = lemma_active_witness(s.participants@);
        assert(s.active_ids().contains(s.participants@[j].id));
    }
}

/// A sequence with an active participant holds one.
proof fn lemma_active_witness(ps: Seq<Participant>) -> (i: int)
    requires
        count_active(ps) > 0,
    ensures
        0 <= i < ps.len(),
        ps[i].active,
    decreases ps.len(),
{
    if ps.last().active {
        ps.len() - 1
    } else {
        let j = lemma_active_witness(ps.drop_last());
        assert(ps.drop_last()[j] == ps[j]);
        j
    }
}


/// Whoever has qualified still competes, and every competitor is a client
/// or a bot of the roster.
pub proof fn lemma_qualified_within_active(s: &State)
    requires
        s.wf(),
    ensures
        s.qualified_ids().subset_of(s.active_ids()),
        s.active_ids().subset_of(s.known_ids()),
        s.active_ids().finite(),
{
    assert forall|x: Id| s.qualified_ids().contains(x) implies s.active_ids().contains(x) by {
        let j = choose|j: int|
            0 <= j < s.participants@.len() && #[trigger] s.participants@[j].id == x && s.participants@[j].qualified;
    }
    assert forall|x: Id| s.active_ids().contains(x) implies s.known_ids().contains(x) by {
        let j = choose|j: int|
            0 <= j < s.participants@.len() && #[trigger] s.participants@[j].id == x && s.participants@[j].active;
        assert(s.participants@.map_values(|p: Participant| p.id)[j] == x);
    }
    vstd::seq_lib::seq_to_set_is_finite(s.participants@.map_values(|p: Participant| p.id));
    vstd::set_lib::lemma_set_subset_finite(s.known_ids(), s.active_ids());
}

/// Within a session the active set never grows: every step that starts no
/// session (see the contracts of `tick`, `on_disconnect`, `on_player_update`
/// and the other operations) leaves a subset of it, so its size only goes
/// down.
pub proof fn lemma_active_never_grows(before: &State, after: &State)
    requires
        before.wf(),
        after.wf(),
        after.active_ids().subset_of(before.active_ids()),
    ensures
        after.active_ids().len() <= before.active_ids().len(),
{
    lemma_qualified_within_active(before);
    vstd::set_lib::lemma_len_subset(after.active_ids(), before.active_ids());
}


/// The elimination notices depend on identities, kinds, qualification and
/// positions alone.
proof fn lemma_elimination_same(a: Seq<Participant>, b: Seq<Participant>, all_a: Seq<Participant>, all_b: Seq<Participant>)
    requires
        a.len() == b.len(),
        forall|i: int|
            0 <= i < a.len() ==> (#[trigger] a[i]).id == b[i].id && a[i].is_bot == b[i].is_bot && a[i].qualified
                == b[i].qualified && a[i].pos == b[i].pos,
        all_a.len() == all_b.len(),
        forall|i: int| 0 <= i < all_a.len() ==> (#[trigger] all_a[i]).id == all_b[i].id && all_a[i].is_bot == all_b[i].is_bot,
    ensures
        elimination_notices(a, all_a) == elimination_notices(b, all_b),
    decreases a.len(),
{
    if a.len() > 0 {
        lemma_elimination_same(a.drop_last(), b.drop_last(), all_a, all_b);
        lemma_clients_except_same(all_a, all_b, Some(a.last().id));
    }
}


proof fn lemma_count_where_ext(n: int, f: spec_fn(int) -> bool, g: spec_fn(int) -> bool)
    requires
        forall|j: int| 0 <= j < n ==> #[trigger] f(j) == g(j),
    ensures
        count_where(n, f) == count_where(n, g),
    decreases n,
{
    if n > 0 {
        lemma_count_where_ext(n - 1, f, g);
    }
}

/// The counts of the active and of the qualified, index by index.
proof fn lemma_count_flags(ps: Seq<Participant>)
    ensures
        count_qualified(ps) == count_where(ps.len() as int, |j: int| ps[j].qualified),
        count_active(ps) == count_where(ps.len() as int, |j: int| ps[j].active),
    decreases ps.len(),
{
    if ps.len() > 0 {
        let rest = ps.drop_last();
        lemma_count_flags(rest);
        lemma_count_where_ext(rest.len() as int, |j: int| rest[j].qualified, |j: int| ps[j].qualified);
        lemma_count_where_ext(rest.len() as int, |j: int| rest[j].active, |j: int| ps[j].active);
    }
}


/// The clients of `ps` in order are distinct identities of `ps`.
proof fn lemma_clients_sorted(ps: Seq<Participant>, e: Option<Id>)
    requires
        forall|i: int, j: int| 0 <= i < j < ps.len() ==> (#[trigger] ps[i]).id < (#[trigger] ps[j]).id,
    ensures
        forall|a: int, b: int|
            0 <= a < b < clients_except(ps, e).len() ==> #[trigger] clients_except(ps, e)[a] < #[trigger] clients_except(
                ps,
                e,
            )[b],
        forall|a: int|
            0 <= a < clients_except(ps, e).len() ==> exists|i: int|
                0 <= i < ps.len() && ps[i].id == #[trigger] clients_except(ps, e)[a],
    decreases ps.len(),
{
    if ps.len() > 0 {
        let rest = ps.drop_last();
        lemma_clients_sorted(rest, e);
        let c = clients_except(ps, e);
        let r = clients_except(rest, e);
        assert forall|a: int| 0 <= a < r.len() implies r[a] < ps.last().id by {
            let i = choose|i: int| 0 <= i < rest.len() && rest[i].id == r[a];
            assert(ps[i].id < ps[ps.len() - 1].id);
        }
        assert forall|a: int| 0 <= a < c.len() implies exists|i: int| 0 <= i < ps.len() && ps[i].id == #[trigger] c[a] by {
            if a < r.len() {
                let i = choose|i: int| 0 <= i < rest.len() && rest[i].id == r[a];
                assert(ps[i].id == c[a]);
            } else {
                assert(ps[ps.len() - 1].id == c[a]);
            }
        }
    }
}

/// A message sent once to each of distinct clients, or the winner notices
/// told to each, are bounded.
proof fn lemma_once_each(out: Seq<Outgoing>, to: Seq<Id>, m: ServerMessage, w: Option<Id>, winners: bool)
    requires
        forall|a: int, b: int| 0 <= a < b < to.len() ==> #[trigger] to[a] < #[trigger] to[b],
        winners ==> told_winner(out, to, w),
        !winners ==> sent_to(out, to, m),
    ensures
        notices_bounded(out),
{
    assert forall|a: int, b: int| 0 <= a < b < out.len() && (#[trigger] out[a]).to == (#[trigger] out[b]).to implies !clash(
        out[a].message,
        out[b].message,
    ) by {
        assert(to[a] < to[b]);
    }
}

/// A quiet part followed by a bounded one is bounded.
proof fn lemma_bounded_after_quiet(q: Seq<Outgoing>, b: Seq<Outgoing>)
    requires
        quiet(q),
        notices_bounded(b),
    ensures
        notices_bounded(q + b),
{
    let all = q + b;
    assert forall|x: int, y: int| 0 <= x < y < all.len() && (#[trigger] all[x]).to == (#[trigger] all[y]).to implies !clash(
        all[x].message,
        all[y].message,
    ) by {
        if x < q.len() {
            assert(!announces(q[x].message));
        } else {
            assert(all[x] == b[x - q.len()] && all[y] == b[y - q.len()]);
        }
    }
}

/// Two quiet parts make a quiet whole.
proof fn lemma_quiet_concat(a: Seq<Outgoing>, b: Seq<Outgoing>)
    requires
        quiet(a),
        quiet(b),
    ensures
        quiet(a + b),
{
    assert forall|k: int| 0 <= k < (a + b).len() implies !announces(#[trigger] (a + b)[k].message) by {
        if k < a.len() {
            assert((a + b)[k] == a[k]);
        } else {
            assert((a + b)[k] == b[k - a.len()]);
        }
    }
}

/// The elimination notices announce nothing.
proof fn lemma_elimination_quiet(ps: Seq<Participant>, all: Seq<Participant>)
    ensures
        quiet(elimination_notices(ps, all)),
    decreases ps.len(),
{
    if ps.len() > 0 {
        lemma_elimination_quiet(ps.drop_last(), all);
        let p = ps.last();
        if eliminated(p) {
            let r = removal(clients_except(all, Some(p.id)), p.id);
            assert(quiet(r));
            let one = seq![Outgoing { to: p.id, message: ServerMessage::YouHaveBeenEliminated }];
            assert(quiet(one));
            lemma_quiet_concat(elimination_notices(ps.drop_last(), all), one);
            lemma_quiet_concat(elimination_notices(ps.drop_last(), all) + one, r);
        }
    }
}

/// The messages of the end of a round are bounded.
proof fn lemma_round_end_bounded(s0: State, s1: State, out: Seq<Outgoing>)
    requires
        s0.wf(),
        round_end_notices(s0, s1, out),
    ensures
        notices_bounded(out),
{
    let e = elimination_notices(s0.participants@, s0.participants@);
    let rest = out.skip(e.len() as int);
    lemma_elimination_quiet(s0.participants@, s0.participants@);
    lemma_clients_sorted(s0.participants@, None);
    lemma_once_each(
        rest,
        clients_except(s0.participants@, None),
        ServerMessage::NewRound(s1.round),
        winner_of(s0.qualified_ids()),
        count_qualified(s0.participants@) <= 1,
    );
    assert(out =~= e + rest);
    lemma_bounded_after_quiet(e, rest);
}

/// The messages that taking a report sends announce nothing.
proof fn lemma_update_quiet(s0: State, s1: State, k: int, player: Player, out: Seq<Outgoing>)
    requires
        update_effect(s0, s1, k, player, out),
    ensures
        quiet(out),
{
    let p = s0.participants@[k];
    let n = clients_except(s0.participants@, Some(p.id)).len() as int;
    let rest = out.skip(n);
    assert forall|i: int| 0 <= i < out.len() implies !announces(#[trigger] out[i].message) by {
        if i < n {
            assert(out.take(n)[i] == out[i]);
        } else {
            assert(rest[i - n] == out[i]);
            if i > n {
                assert(rest.skip(1)[i - n - 1] == out[i]);
            }
        }
    }
}


/// What announces nothing is bounded.
proof fn lemma_quiet_bounded(out: Seq<Outgoing>)
    requires
        quiet(out),
    ensures
        notices_bounded(out),
{
    lemma_bounded_after_quiet(out, Seq::empty());
    assert(out + Seq::<Outgoing>::empty() =~= out);
}

/// The announcements of a session start are bounded.
proof fn lemma_session_start_bounded(s: &State, out: Seq<Outgoing>)
    requires
        s.wf(),
        out.len() == 0 || exists|m: ServerMessage| sent_to(out, clients_except(s.participants@, None), m),
    ensures
        notices_bounded(out),
{
    if out.len() > 0 {
        let m = choose|m: ServerMessage| sent_to(out, clients_except(s.participants@, None), m);
        lemma_clients_sorted(s.participants@, None);
        lemma_once_each(out, clients_except(s.participants@, None), m, None, false);
    }
}

} // verus!
