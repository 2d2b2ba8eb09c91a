use crate::bots::{lookup, playable, runs_view, unique_tracks, Data, MoveData, PlayerSnapshot, TimedData};
use crate::geometry::Vec2;
use crate::level::Track;
use vstd::prelude::*;

verus! {

/// The version tag that opens a saved replay store.
pub const FORMAT_VERSION: u64 = 1;

/// The word that stands for a signed value.
pub open spec fn signed_word(v: int) -> u64 {
    if v >= 0 {
        v as u64
    } else {
        (v + 0x1_0000_0000_0000_0000) as u64
    }
}

/// The `i32` that a word stands for, if any.
pub open spec fn word_i32(w: u64) -> Option<i32> {
    if w <= 0x7fff_ffff {
        Some(w as i32)
    } else if w >= 0xffff_ffff_8000_0000 {
        Some((w - 0x1_0000_0000_0000_0000) as i32)
    } else {
        None
    }
}

/// The words of one snapshot: time, skin, position, velocity, rotation.
pub open spec fn snap_words(t: TimedData) -> Seq<u64> {
    seq![
        t.time,
        t.data.skin as u64,
        signed_word(t.data.pos.x as int),
        signed_word(t.data.pos.y as int),
        signed_word(t.data.vel.x as int),
        signed_word(t.data.vel.y as int),
        signed_word(t.data.rot as int),
    ]
}

pub open spec fn snaps_words(s: Seq<TimedData>) -> Seq<u64>
    decreases s.len(),
{
    if s.len() == 0 {
        Seq::empty()
    } else {
        snaps_words(s.drop_last()) + snap_words(s.last())
    }
}

/// The words of one recording: its length, then its snapshots.
pub open spec fn run_words(s: Seq<TimedData>) -> Seq<u64> {
    seq![s.len() as u64] + snaps_words(s)
}

pub open spec fn runs_words(rs: Seq<Seq<TimedData>>) -> Seq<u64>
    decreases rs.len(),
{
    if rs.len() == 0 {
        Seq::empty()
    } else {
        runs_words(rs.drop_last()) + run_words(rs.last())
    }
}

/// The words of one track's entry: the track, the number of recordings,
/// then the recordings.
pub open spec fn entry_words(e: (Track, Seq<Seq<TimedData>>)) -> Seq<u64> {
    seq![e.0.from as u64, e.0.to as u64, e.1.len() as u64] + runs_words(e.1)
}

pub open spec fn entries_words(es: Seq<(Track, Seq<Seq<TimedData>>)>) -> Seq<u64>
    decreases es.len(),
{
    if es.len() == 0 {
        Seq::empty()
    } else {
        entries_words(es.drop_last()) + entry_words(es.last())
    }
}

/// The words of a whole store: the version tag, the number of entries, then
/// the entries.
pub open spec fn store_words(es: Seq<(Track, Seq<Seq<TimedData>>)>) -> Seq<u64> {
    seq![FORMAT_VERSION, es.len() as u64] + entries_words(es)
}

/// The snapshot whose words start at `p`, and where they end.
pub open spec fn parse_snap(ws: Seq<u64>, p: int) -> Option<(TimedData, int)> {
    if 0 <= p && p + 7 <= ws.len() && ws[p + 1] <= usize::MAX && word_i32(ws[p + 2]) is Some && word_i32(
        ws[p + 3],
    ) is Some && word_i32(ws[p + 4]) is Some && word_i32(ws[p + 5]) is Some && word_i32(ws[p + 6]) is Some {
        Some(
            (
                TimedData {
                    time: ws[p],
                    data: PlayerSnapshot {
                        skin: ws[p + 1] as usize,
                        pos: Vec2 { x: word_i32(ws[p + 2])->0, y: word_i32(ws[p + 3])->0 },
                        vel: Vec2 { x: word_i32(ws[p + 4])->0, y: word_i32(ws[p + 5])->0 },
                        rot: word_i32(ws[p + 6])->0,
                    },
                },
                p + 7,
            ),
        )
    } else {
        None
    }
}

/// `n` snapshots whose words start at `p`, and where they end.
pub open spec fn parse_snaps(ws: Seq<u64>, p: int, n: nat) -> Option<(Seq<TimedData>, int)>
    decreases n,
{
    if n == 0 {
        Some((Seq::empty(), p))
    } else {
        match parse_snaps(ws, p, (n - 1) as nat) {
            Some((s, q)) => match parse_snap(ws, q) {
                Some((t, r)) => Some((s.push(t), r)),
                None => None,
            },
            None => None,
        }
    }
}

/// The recording whose words start at `p`, and where they end; only a
/// playable one is taken.
pub open spec fn parse_run(ws: Seq<u64>, p: int) -> Option<(Seq<TimedData>, int)> {
    if 0 <= p < ws.len() {
        match parse_snaps(ws, p + 1, ws[p] as nat) {
            Some((s, q)) => if playable(s) {
                Some((s, q))
            } else {
                None
            },
            None => None,
        }
    } else {
        None
    }
}

pub open spec fn parse_runs(ws: Seq<u64>, p: int, n: nat) -> Option<(Seq<Seq<TimedData>>, int)>
    decreases n,
{
    if n == 0 {
        Some((Seq::empty(), p))
    } else {
        match parse_runs(ws, p, (n - 1) as nat) {
            Some((s, q)) => match parse_run(ws, q) {
                Some((t, r)) => Some((s.push(t), r)),
                None => None,
            },
            None => None,
        }
    }
}

pub open spec fn parse_entry(ws: Seq<u64>, p: int) -> Option<((Track, Seq<Seq<TimedData>>), int)> {
    if 0 <= p && p + 3 <= ws.len() && ws[p] <= usize::MAX && ws[p + 1] <= usize::MAX {
        match parse_runs(ws, p + 3, ws[p + 2] as nat) {
            Some((rs, q)) => Some(((Track { from: ws[p] as usize, to: ws[p + 1] as usize }, rs), q)),
            None => None,
        }
    } else {
        None
    }
}

pub open spec fn parse_entries(ws: Seq<u64>, p: int, n: nat) -> Option<(Seq<(Track, Seq<Seq<TimedData>>)>, int)>
    decreases n,
{
    if n == 0 {
        Some((Seq::empty(), p))
    } else {
        match parse_entries(ws, p, (n - 1) as nat) {
            Some((s, q)) => match parse_entry(ws, q) {
                Some((t, r)) => Some((s.push(t), r)),
                None => None,
            },
            None => None,
        }
    }
}

/// The store that the words `ws` hold: the version tag, then exactly the
/// announced entries, each track once.
pub open spec fn parse_store(ws: Seq<u64>) -> Option<Seq<(Track, Seq<Seq<TimedData>>)>> {
    if ws.len() >= 2 && ws[0] == FORMAT_VERSION {
        match parse_entries(ws, 2, ws[1] as nat) {
            Some((es, q)) => if q == ws.len() && unique_tracks(es) {
                Some(es)
            } else {
                None
            },
            None => None,
        }
    } else {
        None
    }
}

/// `ws` holds `part` from `p` on.
pub open spec fn holds_at(ws: Seq<u64>, p: int, part: Seq<u64>) -> bool {
    0 <= p && p + part.len() <= ws.len() && ws.subrange(p, p + part.len()) == part
}

proof fn lemma_holds_split(ws: Seq<u64>, p: int, a: Seq<u64>, b: Seq<u64>)
    requires
        holds_at(ws, p, a + b),
    ensures
        holds_at(ws, p, a),
        holds_at(ws, p + a.len(), b),
{
    let full = ws.subrange(p, p + (a + b).len());
    assert forall|i: int| 0 <= i < a.len() implies ws[p + i] == a[i] by {
        assert(full[i] == ws[p + i]);
        assert((a + b)[i] == a[i]);
    }
    assert forall|i: int| 0 <= i < b.len() implies ws[p + a.len() + i] == b[i] by {
        assert(full[a.len() + i] == ws[p + a.len() + i]);
        assert((a + b)[a.len() + i] == b[i]);
    }
    assert(ws.subrange(p, p + a.len()) =~= a);
    assert(ws.subrange(p + a.len(), p + a.len() + b.len()) =~= b);
}

/// A word that `ws` holds at `p + i`.
proof fn lemma_holds_index(ws: Seq<u64>, p: int, part: Seq<u64>, i: int)
    requires
        holds_at(ws, p, part),
        0 <= i < part.len(),
    ensures
        ws[p + i] == part[i],
{
    assert(ws.subrange(p, p + part.len())[i] == ws[p + i]);
}

proof fn lemma_signed_word(v: int)
    requires
        -0x8000_0000 <= v <= 0x7fff_ffff,
    ensures
        word_i32(signed_word(v)) == Some(v as i32),
{
}

proof fn lemma_parse_snap(ws: Seq<u64>, p: int, t: TimedData)
    requires
        holds_at(ws, p, snap_words(t)),
    ensures
        parse_snap(ws, p) == Some((t, p + 7)),
{
    let w = snap_words(t);
    lemma_holds_index(ws, p, w, 0);
    lemma_holds_index(ws, p, w, 1);
    lemma_holds_index(ws, p, w, 2);
    lemma_holds_index(ws, p, w, 3);
    lemma_holds_index(ws, p, w, 4);
    lemma_holds_index(ws, p, w, 5);
    lemma_holds_index(ws, p, w, 6);
    lemma_signed_word(t.data.pos.x as int);
    lemma_signed_word(t.data.pos.y as int);
    lemma_signed_word(t.data.vel.x as int);
    lemma_signed_word(t.data.vel.y as int);
    lemma_signed_word(t.data.rot as int);
}

proof fn lemma_parse_snaps(ws: Seq<u64>, p: int, s: Seq<TimedData>)
    requires
        holds_at(ws, p, snaps_words(s)),
    ensures
        parse_snaps(ws, p, s.len()) == Some((s, p + snaps_words(s).len())),
    decreases s.len(),
{
    if s.len() > 0 {
        lemma_holds_split(ws, p, snaps_words(s.drop_last()), snap_words(s.last()));
        lemma_parse_snaps(ws, p, s.drop_last());
        lemma_parse_snap(ws, p + snaps_words(s.drop_last()).len(), s.last());
        assert(s.drop_last().push(s.last()) =~= s);
    }
}

proof fn lemma_parse_run(ws: Seq<u64>, p: int, s: Seq<TimedData>)
    requires
        holds_at(ws, p, run_words(s)),
        playable(s),
        s.len() <= u64::MAX,
    ensures
        parse_run(ws, p) == Some((s, p + run_words(s).len())),
{
    lemma_holds_split(ws, p, seq![s.len() as u64], snaps_words(s));
    lemma_holds_index(ws, p, seq![s.len() as u64], 0);
    lemma_parse_snaps(ws, p + 1, s);
}

proof fn lemma_parse_runs(ws: Seq<u64>, p: int, rs: Seq<Seq<TimedData>>)
    requires
        holds_at(ws, p, runs_words(rs)),
        forall|i: int| 0 <= i < rs.len() ==> playable(#[trigger] rs[i]) && rs[i].len() <= u64::MAX,
    ensures
        parse_runs(ws, p, rs.len()) == Some((rs, p + runs_words(rs).len())),
    decreases rs.len(),
{
    if rs.len() > 0 {
        lemma_holds_split(ws, p, runs_words(rs.drop_last()), run_words(rs.last()));
        lemma_parse_runs(ws, p, rs.drop_last());
        assert(playable(rs[rs.len() - 1]));
        lemma_parse_run(ws, p + runs_words(rs.drop_last()).len(), rs.last());
        assert(rs.drop_last().push(rs.last()) =~= rs);
    }
}

proof fn lemma_parse_entry(ws: Seq<u64>, p: int, e: (Track, Seq<Seq<TimedData>>))
    requires
        holds_at(ws, p, entry_words(e)),
        forall|i: int| 0 <= i < e.1.len() ==> playable(#[trigger] e.1[i]) && e.1[i].len() <= u64::MAX,
        e.1.len() <= u64::MAX,
    ensures
        parse_entry(ws, p) == Some((e, p + entry_words(e).len())),
{
    let head = seq![e.0.from as u64, e.0.to as u64, e.1.len() as u64];
    lemma_holds_split(ws, p, head, runs_words(e.1));
    lemma_holds_index(ws, p, head, 0);
    lemma_holds_index(ws, p, head, 1);
    lemma_holds_index(ws, p, head, 2);
    lemma_parse_runs(ws, p + 3, e.1);
}

proof fn lemma_parse_entries(ws: Seq<u64>, p: int, es: Seq<(Track, Seq<Seq<TimedData>>)>)
    requires
        holds_at(ws, p, entries_words(es)),
        forall|i: int, j: int|
            0 <= i < es.len() && 0 <= j < es[i].1.len() ==> playable(#[trigger] es[i].1[j]) && es[i].1[j].len()
                <= u64::MAX,
        forall|i: int| 0 <= i < es.len() ==> (#[trigger] es[i]).1.len() <= u64::MAX,
    ensures
        parse_entries(ws, p, es.len()) == Some((es, p + entries_words(es).len())),
    decreases es.len(),
{
    if es.len() > 0 {
        lemma_holds_split(ws, p, entries_words(es.drop_last()), entry_words(es.last()));
        lemma_parse_entries(ws, p, es.drop_last());
        let e = es.last();
        assert(e == es[es.len() - 1]);
        lemma_parse_entry(ws, p + entries_words(es.drop_last()).len(), e);
        assert(es.drop_last().push(es.last()) =~= es);
    }
}

/// Reading back the words of a well-formed store gives the store.
proof fn lemma_store_words_round_trip(d: &Data)
    requires
        d.wf(),
    ensures
        parse_store(store_words(d@)) == Some(d@),
{
    let es = d@;
    let ws = store_words(es);
    assert forall|i: int| 0 <= i < es.len() implies (#[trigger] es[i]).1.len() <= u64::MAX by {
        assert(es[i].1.len() == d.entries@[i].1.len());
    }
    assert forall|i: int, j: int| 0 <= i < es.len() && 0 <= j < es[i].1.len() implies playable(
        #[trigger] es[i].1[j],
    ) && es[i].1[j].len() <= u64::MAX by {
        assert(es[i].1[j] == d.entries@[i].1@[j]@);
        assert(es[i].1[j].len() == d.entries@[i].1@[j].data.len());
    }
    assert(es.len() == d.entries.len());
    assert(ws.subrange(0, ws.len() as int) =~= ws);
    lemma_holds_split(ws, 0, seq![FORMAT_VERSION, es.len() as u64], entries_words(es));
    lemma_holds_index(ws, 0, seq![FORMAT_VERSION, es.len() as u64], 0);
    lemma_holds_index(ws, 0, seq![FORMAT_VERSION, es.len() as u64], 1);
    lemma_parse_entries(ws, 2, es);
}


/// Where `n` items fail to parse, any more fail too.
proof fn lemma_snaps_none(ws: Seq<u64>, p: int, i: nat, n: nat)
    requires
        i <= n,
        parse_snaps(ws, p, i) is None,
    ensures
        parse_snaps(ws, p, n) is None,
    decreases n,
{
    if n > i {
        lemma_snaps_none(ws, p, i, (n - 1) as nat);
    }
}

proof fn lemma_runs_none(ws: Seq<u64>, p: int, i: nat, n: nat)
    requires
        i <= n,
        parse_runs(ws, p, i) is None,
    ensures
        parse_runs(ws, p, n) is None,
    decreases n,
{
    if n > i {
        lemma_runs_none(ws, p, i, (n - 1) as nat);
    }
}

proof fn lemma_entries_none(ws: Seq<u64>, p: int, i: nat, n: nat)
    requires
        i <= n,
        parse_entries(ws, p, i) is None,
    ensures
        parse_entries(ws, p, n) is None,
    decreases n,
{
    if n > i {
        lemma_entries_none(ws, p, i, (n - 1) as nat);
    }
}

fn word_of(v: i32) -> (r: u64)
    ensures
        r == signed_word(v as int),
{
    if v >= 0 {
        v as u64
    } else {
        u64::MAX - ((-(v as i64) - 1) as u64)
    }
}

fn i32_of(w: u64) -> (r: Option<i32>)
    ensures
        r == word_i32(w),
{
    if w <= 0x7fff_ffff {
        Some(w as i32)
    } else if w >= 0xffff_ffff_8000_0000 {
        Some(-((u64::MAX - w) as i32) - 1)
    } else {
        None
    }
}

fn push_snaps(out: &mut Vec<u64>, s: &Vec<TimedData>)
    ensures
        final(out)@ == old(out)@ + snaps_words(s@),
{
    let mut i: usize = 0;
    while i < s.len()
        invariant
            i <= s@.len(),
            out@ == old(out)@ + snaps_words(s@.take(i as int)),
        decreases s@.len() - i,
    {
        let t = s[i];
        let ghost before = out@;
        out.push(t.time);
        out.push(t.data.skin as u64);
        out.push(word_of(t.data.pos.x));
        out.push(word_of(t.data.pos.y));
        out.push(word_of(t.data.vel.x));
        out.push(word_of(t.data.vel.y));
        out.push(word_of(t.data.rot));
        proof {
            assert(s@.take(i + 1).drop_last() =~= s@.take(i as int));
            assert(out@ =~= before + snap_words(t));
            assert(old(out)@ + snaps_words(s@.take(i + 1)) =~= old(out)@ + snaps_words(s@.take(i as int)) + snap_words(t));
        }
        i = i + 1;
    }
    assert(s@.take(i as int) =~= s@);
}

fn push_runs(out: &mut Vec<u64>, rs: &Vec<MoveData>)
    ensures
        final(out)@ == old(out)@ + runs_words(runs_view(*rs)),
{
    let mut i: usize = 0;
    while i < rs.len()
        invariant
            i <= rs@.len(),
            out@ == old(out)@ + runs_words(runs_view(*rs).take(i as int)),
        decreases rs@.len() - i,
    {
        let ghost before = out@;
        let run = &rs[i].data;
        out.push(run.len() as u64);
        push_snaps(out, run);
        proof {
            let v = runs_view(*rs);
            assert(v.take(i + 1).drop_last() =~= v.take(i as int));
            assert(v[i as int] == run@);
            assert(out@ =~= before + run_words(run@));
            assert(old(out)@ + runs_words(v.take(i + 1)) =~= old(out)@ + runs_words(v.take(i as int)) + run_words(run@));
        }
        i = i + 1;
    }
    assert(runs_view(*rs).take(i as int) =~= runs_view(*rs));
}

impl Data {
    /// The store as words: see `store_words`.
    pub fn to_words(&self) -> (r: Vec<u64>)
        ensures
            r@ == store_words(self@),
    {
        let mut out: Vec<u64> = Vec::new();
        out.push(FORMAT_VERSION);
        out.push(self.entries.len() as u64);
        let ghost head = out@;
        let mut i: usize = 0;
        while i < self.entries.len()
            invariant
                i <= self@.len(),
                self@.len() == self.entries@.len(),
                head == seq![FORMAT_VERSION, self@.len() as u64],
                out@ == head + entries_words(self@.take(i as int)),
            decreases self.entries@.len() - i,
        {
            let ghost before = out@;
            let e = &self.entries[i];
            out.push(e.0.from as u64);
            out.push(e.0.to as u64);
            out.push(e.1.len() as u64);
            push_runs(&mut out, &e.1);
            proof {
                let v = self@;
                assert(v.take(i + 1).drop_last() =~= v.take(i as int));
                assert(v[i as int] == (e.0, runs_view(e.1)));
                assert(out@ =~= before + entry_words(v[i as int]));
                assert(head + entries_words(v.take(i + 1)) =~= head + entries_words(v.take(i as int)) + entry_words(
                    v[i as int],
                ));
            }
            i = i + 1;
        }
        assert(self@.take(i as int) =~= self@);
        out
    }
}

fn read_snap(ws: &Vec<u64>, p: usize) -> (r: Option<(TimedData, usize)>)
    ensures
        match r {
            Some((t, q)) => parse_snap(ws@, p as int) == Some((t, q as int)),
            None => parse_snap(ws@, p as int) is None,
        },
{
    if p > ws.len() || ws.len() - p < 7 {
        return None;
    }
    if ws[p + 1] > usize::MAX as u64 {
        return None;
    }
    let px = i32_of(ws[p + 2]);
    let py = i32_of(ws[p + 3]);
    let vx = i32_of(ws[p + 4]);
    let vy = i32_of(ws[p + 5]);
    let rot = i32_of(ws[p + 6]);
    match (px, py, vx, vy, rot) {
        (Some(px), Some(py), Some(vx), Some(vy), Some(rot)) => Some(
            (
                TimedData {
                    time: ws[p],
                    data: PlayerSnapshot {
                        skin: ws[p + 1] as usize,
                        pos: Vec2 { x: px, y: py },
                        vel: Vec2 { x: vx, y: vy },
                        rot,
                    },
                },
                p + 7,
            ),
        ),
        _ => None,
    }
}

fn read_snaps(ws: &Vec<u64>, p: usize, n: u64) -> (r: Option<(Vec<TimedData>, usize)>)
    ensures
        match r {
            Some((s, q)) => parse_snaps(ws@, p as int, n as nat) == Some((s@, q as int)),
            None => parse_snaps(ws@, p as int, n as nat) is None,
        },
{
    let mut acc: Vec<TimedData> = Vec::new();
    let mut q = p;
    let mut i: u64 = 0;
    while i < n
        invariant
            i <= n,
            parse_snaps(ws@, p as int, i as nat) == Some((acc@, q as int)),
        decreases n - i,
    {
        match read_snap(ws, q) {
            Some((t, r)) => {
                acc.push(t);
                q = r;
            },
            None => {
                proof {
                    lemma_snaps_none(ws@, p as int, (i + 1) as nat, n as nat);
                }
                return None;
            },
        }
        i = i + 1;
    }
    Some((acc, q))
}

/// Whether the times of `s` never decrease.
fn is_time_ordered(s: &Vec<TimedData>) -> (r: bool)
    ensures
        r == crate::bots::time_ordered(s@),
{
    let mut i: usize = 1;
    if s.len() == 0 {
        return true;
    }
    while i < s.len()
        invariant
            1 <= i <= s@.len(),
            forall|a: int, b: int| 0 <= a <= b < i ==> #[trigger] s@[a].time <= #[trigger] s@[b].time,
        decreases s@.len() - i,
    {
        if s[i - 1].time > s[i].time {
            return false;
        }
        proof {
            assert forall|a: int, b: int| 0 <= a <= b < i + 1 implies #[trigger] s@[a].time <= #[trigger] s@[b].time by {
                if b == i && a < i {
                    assert(s@[a].time <= s@[i - 1].time);
                }
            }
        }
        i = i + 1;
    }
    true
}

fn read_run(ws: &Vec<u64>, p: usize) -> (r: Option<(MoveData, usize)>)
    ensures
        match r {
            Some((m, q)) => parse_run(ws@, p as int) == Some((m@, q as int)),
            None => parse_run(ws@, p as int) is None,
        },
{
    if p >= ws.len() {
        return None;
    }
    match read_snaps(ws, p + 1, ws[p]) {
        Some((s, q)) => {
            if s.len() > 0 && is_time_ordered(&s) {
                Some((MoveData { data: s }, q))
            } else {
                None
            }
        },
        None => None,
    }
}

fn read_runs(ws: &Vec<u64>, p: usize, n: u64) -> (r: Option<(Vec<MoveData>, usize)>)
    ensures
        match r {
            Some((rs, q)) => parse_runs(ws@, p as int, n as nat) == Some((runs_view(rs), q as int)),
            None => parse_runs(ws@, p as int, n as nat) is None,
        },
{
    let mut acc: Vec<MoveData> = Vec::new();
    let mut q = p;
    let mut i: u64 = 0;
    while i < n
        invariant
            i <= n,
            parse_runs(ws@, p as int, i as nat) == Some((runs_view(acc), q as int)),
        decreases n - i,
    {
        match read_run(ws, q) {
            Some((m, r)) => {
                let ghost before = runs_view(acc);
                acc.push(m);
                assert(runs_view(acc) =~= before.push(m@));
                q = r;
            },
            None => {
                proof {
                    lemma_runs_none(ws@, p as int, (i + 1) as nat, n as nat);
                }
                return None;
            },
        }
        i = i + 1;
    }
    Some((acc, q))
}

fn read_entry(ws: &Vec<u64>, p: usize) -> (r: Option<((Track, Vec<MoveData>), usize)>)
    ensures
        match r {
            Some((e, q)) => parse_entry(ws@, p as int) == Some(((e.0, runs_view(e.1)), q as int)),
            None => parse_entry(ws@, p as int) is None,
        },
{
    if p > ws.len() || ws.len() - p < 3 {
        return None;
    }
    if ws[p] > usize::MAX as u64 || ws[p + 1] > usize::MAX as u64 {
        return None;
    }
    let track = Track { from: ws[p] as usize, to: ws[p + 1] as usize };
    match read_runs(ws, p + 3, ws[p + 2]) {
        Some((rs, q)) => Some(((track, rs), q)),
        None => None,
    }
}

fn read_entries(ws: &Vec<u64>, p: usize, n: u64) -> (r: Option<(Vec<(Track, Vec<MoveData>)>, usize)>)
    ensures
        match r {
            Some((es, q)) => parse_entries(ws@, p as int, n as nat) == Some(((Data { entries: es })@, q as int)),
            None => parse_entries(ws@, p as int, n as nat) is None,
        },
{
    let mut acc: Vec<(Track, Vec<MoveData>)> = Vec::new();
    let mut q = p;
    let mut i: u64 = 0;
    while i < n
        invariant
            i <= n,
            parse_entries(ws@, p as int, i as nat) == Some(((Data { entries: acc })@, q as int)),
        decreases n - i,
    {
        match read_entry(ws, q) {
            Some((e, r)) => {
                let ghost before = (Data { entries: acc })@;
                let ghost ev = (e.0, runs_view(e.1));
                acc.push(e);
                assert((Data { entries: acc })@ =~= before.push(ev));
                q = r;
            },
            None => {
                proof {
                    lemma_entries_none(ws@, p as int, (i + 1) as nat, n as nat);
                }
                return None;
            },
        }
        i = i + 1;
    }
    Some((acc, q))
}

impl Data {
    /// Each track has one entry.
    fn tracks_unique(&self) -> (r: bool)
        ensures
            r == unique_tracks(self@),
    {
        let mut j: usize = 0;
        while j < self.entries.len()
            invariant
                j <= self@.len(),
                self@.len() == self.entries@.len(),
                forall|a: int, b: int| 0 <= a < b < j ==> #[trigger] self@[a].0 != #[trigger] self@[b].0,
            decreases self.entries@.len() - j,
        {
            let mut i: usize = 0;
            while i < j
                invariant
                    i <= j < self@.len(),
                    self@.len() == self.entries@.len(),
                    forall|a: int| 0 <= a < i ==> #[trigger] self@[a].0 != self@[j as int].0,
                decreases j - i,
            {
                if self.entries[i].0 == self.entries[j].0 {
                    assert(self@[i as int].0 == self@[j as int].0);
                    return false;
                }
                i = i + 1;
            }
            j = j + 1;
        }
        true
    }

    /// The store that the words `ws` hold (see `parse_store`), if they hold
    /// one.
    pub fn from_words(ws: &Vec<u64>) -> (r: Option<Data>)
        ensures
            match r {
                Some(d) => parse_store(ws@) == Some(d@) && d.wf(),
                None => parse_store(ws@) is None,
            },
    {
        if ws.len() < 2 || ws[0] != FORMAT_VERSION {
            return None;
        }
        match read_entries(ws, 2, ws[1]) {
            Some((es, q)) => {
                let d = Data { entries: es };
                if q == ws.len() && d.tracks_unique() {
                    proof {
                        lemma_parsed_playable(ws@, 2, ws@[1] as nat);
                    }
                    Some(d)
                } else {
                    None
                }
            },
            None => None,
        }
    }
}

/// Every recording that parses is playable.
proof fn lemma_parsed_playable(ws: Seq<u64>, p: int, n: nat)
    ensures
        parse_entries(ws, p, n) matches Some((es, _)) ==> forall|i: int, j: int|
            0 <= i < es.len() && 0 <= j < es[i].1.len() ==> playable(#[trigger] es[i].1[j]),
    decreases n,
{
    if n > 0 {
        lemma_parsed_playable(ws, p, (n - 1) as nat);
        if let Some((es, _)) = parse_entries(ws, p, n) {
            let (prev, q) = parse_entries(ws, p, (n - 1) as nat)->0;
            let (e, _) = parse_entry(ws, q)->0;
            let (rs, _) = parse_runs(ws, q + 3, ws[q + 2] as nat)->0;
            lemma_runs_playable(ws, q + 3, ws[q + 2] as nat);
            assert forall|i: int, j: int| 0 <= i < es.len() && 0 <= j < es[i].1.len() implies playable(
                #[trigger] es[i].1[j],
            ) by {
                if i < prev.len() {
                    assert(es[i] == prev[i]);
                }
            }
        }
    }
}

proof fn lemma_runs_playable(ws: Seq<u64>, p: int, n: nat)
    ensures
        parse_runs(ws, p, n) matches Some((rs, _)) ==> forall|j: int| 0 <= j < rs.len() ==> playable(#[trigger] rs[j]),
    decreases n,
{
    if n > 0 {
        lemma_runs_playable(ws, p, (n - 1) as nat);
        if let Some((rs, _)) = parse_runs(ws, p, n) {
            let (prev, q) = parse_runs(ws, p, (n - 1) as nat)->0;
            assert forall|j: int| 0 <= j < rs.len() implies playable(#[trigger] rs[j]) by {
                if j < prev.len() {
                    assert(rs[j] == prev[j]);
                }
            }
        }
    }
}


/// The eight bytes of a word, least significant first.
pub open spec fn le_bytes(w: u64) -> Seq<u8> {
    seq![
        (w & 0xff) as u8,
        ((w >> 8u64) & 0xff) as u8,
        ((w >> 16u64) & 0xff) as u8,
        ((w >> 24u64) & 0xff) as u8,
        ((w >> 32u64) & 0xff) as u8,
        ((w >> 40u64) & 0xff) as u8,
        ((w >> 48u64) & 0xff) as u8,
        ((w >> 56u64) & 0xff) as u8,
    ]
}

/// The bytes of a sequence of words.
pub open spec fn bytes_of(ws: Seq<u64>) -> Seq<u8>
    decreases ws.len(),
{
    if ws.len() == 0 {
        Seq::empty()
    } else {
        bytes_of(ws.drop_last()) + le_bytes(ws.last())
    }
}

/// The word whose bytes, least significant first, are `b0` to `b7`.
pub open spec fn word_from(b0: u8, b1: u8, b2: u8, b3: u8, b4: u8, b5: u8, b6: u8, b7: u8) -> u64 {
    (b0 as u64) | ((b1 as u64) << 8u64) | ((b2 as u64) << 16u64) | ((b3 as u64) << 24u64) | ((b4 as u64)
        << 32u64) | ((b5 as u64) << 40u64) | ((b6 as u64) << 48u64) | ((b7 as u64) << 56u64)
}

/// The words that `bs` holds, eight bytes each.
pub open spec fn words_of(bs: Seq<u8>) -> Seq<u64> {
    Seq::new(
        bs.len() / 8,
        |i: int|
            word_from(
                bs[8 * i],
                bs[8 * i + 1],
                bs[8 * i + 2],
                bs[8 * i + 3],
                bs[8 * i + 4],
                bs[8 * i + 5],
                bs[8 * i + 6],
                bs[8 * i + 7],
            ),
    )
}

/// The store that the bytes `bs` hold, if they hold one.
pub open spec fn decode(bs: Seq<u8>) -> Option<Seq<(Track, Seq<Seq<TimedData>>)>> {
    if bs.len() % 8 == 0 {
        parse_store(words_of(bs))
    } else {
        None
    }
}

/// The bytes that a store is saved as.
pub open spec fn encode(es: Seq<(Track, Seq<Seq<TimedData>>)>) -> Seq<u8> {
    bytes_of(store_words(es))
}

proof fn lemma_word_bytes(w: u64)
    ensures
        word_from(
            (w & 0xff) as u8,
            ((w >> 8u64) & 0xff) as u8,
            ((w >> 16u64) & 0xff) as u8,
            ((w >> 24u64) & 0xff) as u8,
            ((w >> 32u64) & 0xff) as u8,
            ((w >> 40u64) & 0xff) as u8,
            ((w >> 48u64) & 0xff) as u8,
            ((w >> 56u64) & 0xff) as u8,
        ) == w,
{
    assert(((w & 0xff) as u8 as u64) | (((((w >> 8u64) & 0xff) as u8) as u64) << 8u64) | (((((w >> 16u64)
        & 0xff) as u8) as u64) << 16u64) | (((((w >> 24u64) & 0xff) as u8) as u64) << 24u64) | (((((w
        >> 32u64) & 0xff) as u8) as u64) << 32u64) | (((((w >> 40u64) & 0xff) as u8) as u64) << 40u64) | (
    ((((w >> 48u64) & 0xff) as u8) as u64) << 48u64) | (((((w >> 56u64) & 0xff) as u8) as u64) << 56u64)
        == w) by (bit_vector);
}

proof fn lemma_bytes_of(ws: Seq<u64>)
    ensures
        bytes_of(ws).len() == 8 * ws.len(),
        forall|i: int, k: int|
            0 <= i < ws.len() && 0 <= k < 8 ==> #[trigger] bytes_of(ws)[8 * i + k] == le_bytes(ws[i])[k],
    decreases ws.len(),
{
    if ws.len() > 0 {
        lemma_bytes_of(ws.drop_last());
        let n = ws.len() - 1;
        assert forall|i: int, k: int| 0 <= i < ws.len() && 0 <= k < 8 implies #[trigger] bytes_of(ws)[8 * i + k]
            == le_bytes(ws[i])[k] by {
            if i < n {
                assert(bytes_of(ws)[8 * i + k] == bytes_of(ws.drop_last())[8 * i + k]);
            } else {
                assert(bytes_of(ws)[8 * i + k] == le_bytes(ws.last())[k]);
            }
        }
    }
}

/// Reading back the bytes of words gives the words.
proof fn lemma_bytes_round_trip(ws: Seq<u64>)
    ensures
        bytes_of(ws).len() % 8 == 0,
        words_of(bytes_of(ws)) == ws,
{
    lemma_bytes_of(ws);
    let bs = bytes_of(ws);
    assert forall|i: int| 0 <= i < ws.len() implies #[trigger] words_of(bs)[i] == ws[i] by {
        assert(bs[8 * i + 0] == le_bytes(ws[i])[0]);
        assert(bs[8 * i + 1] == le_bytes(ws[i])[1]);
        assert(bs[8 * i + 2] == le_bytes(ws[i])[2]);
        assert(bs[8 * i + 3] == le_bytes(ws[i])[3]);
        assert(bs[8 * i + 4] == le_bytes(ws[i])[4]);
        assert(bs[8 * i + 5] == le_bytes(ws[i])[5]);
        assert(bs[8 * i + 6] == le_bytes(ws[i])[6]);
        assert(bs[8 * i + 7] == le_bytes(ws[i])[7]);
        lemma_word_bytes(ws[i]);
    }
    assert(words_of(bs) =~= ws);
}

/// Saving a store and loading the bytes back gives the same store, so every
/// lookup and every playback of the loaded store is that of the saved one.
pub proof fn lemma_save_load_round_trip(d: &Data)
    requires
        d.wf(),
    ensures
        decode(encode(d@)) == Some(d@),
        forall|t: Track| lookup(decode(encode(d@))->0, t) == d.runs(t),
{
    lemma_bytes_round_trip(store_words(d@));
    lemma_store_words_round_trip(d);
}

impl Data {
    /// The bytes that the store is saved as (see `encode`).
    pub fn to_bytes(&self) -> (r: Vec<u8>)
        ensures
            r@ == encode(self@),
    {
        let ws = self.to_words();
        let mut out: Vec<u8> = Vec::new();
        let mut i: usize = 0;
        while i < ws.len()
            invariant
                i <= ws@.len(),
                out@ == bytes_of(ws@.take(i as int)),
            decreases ws@.len() - i,
        {
            let w = ws[i];
            let ghost before = out@;
            out.push((w & 0xff) as u8);
            out.push(((w >> 8u64) & 0xff) as u8);
            out.push(((w >> 16u64) & 0xff) as u8);
            out.push(((w >> 24u64) & 0xff) as u8);
            out.push(((w >> 32u64) & 0xff) as u8);
            out.push(((w >> 40u64) & 0xff) as u8);
            out.push(((w >> 48u64) & 0xff) as u8);
            out.push(((w >> 56u64) & 0xff) as u8);
            proof {
                assert(ws@.take(i + 1).drop_last() =~= ws@.take(i as int));
                assert(out@ =~= before + le_bytes(w));
            }
            i = i + 1;
        }
        assert(ws@.take(i as int) =~= ws@);
        out
    }

    /// The store that the bytes `bs` hold (see `decode`), if they hold one.
    pub fn from_bytes(bs: &[u8]) -> (r: Option<Data>)
        ensures
            match r {
                Some(d) => decode(bs@) == Some(d@) && d.wf(),
                None => decode(bs@) is None,
            },
    {
        if bs.len() % 8 != 0 {
            return None;
        }
        let mut ws: Vec<u64> = Vec::new();
        let mut i: usize = 0;
        while i < bs.len() / 8
            invariant
                i <= bs@.len() / 8,
                ws@ == words_of(bs@).take(i as int),
            decreases bs@.len() / 8 - i,
        {
            let k = 8 * i;
            let w = (bs[k] as u64) | ((bs[k + 1] as u64) << 8u64) | ((bs[k + 2] as u64) << 16u64) | ((bs[k + 3] as u64)
                << 24u64) | ((bs[k + 4] as u64) << 32u64) | ((bs[k + 5] as u64) << 40u64) | ((bs[k + 6] as u64)
                << 48u64) | ((bs[k + 7] as u64) << 56u64);
            ws.push(w);
            proof {
                assert(ws@ =~= words_of(bs@).take(i + 1));
            }
            i = i + 1;
        }
        assert(ws@ =~= words_of(bs@));
        Data::from_words(&ws)
    }

    /// The store that the bytes `bs` hold, or an empty one where they hold
    /// none: a store that cannot be read is never fatal.
    pub fn load(bs: &[u8]) -> (r: Data)
        ensures
            r.wf(),
            r@ == match decode(bs@) {
                Some(es) => es,
                None => Seq::empty(),
            },
    {
        match Data::from_bytes(bs) {
            Some(d) => d,
            None => Data::new(),
        }
    }
}

} // verus!
