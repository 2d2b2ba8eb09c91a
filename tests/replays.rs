use coots::bots::{Data, MoveData, PlayerSnapshot, TimedData};
use coots::geometry::Vec2;
use coots::interop::Player;
use coots::level::{Level, Track};

fn report(x: i32, y: i32, vx: i32, vy: i32, rot: i32) -> Player {
    Player { color: 7, skin: 3, pos: Vec2 { x, y }, vel: Vec2 { x: vx, y: vy }, rot }
}

fn two_point_run() -> MoveData {
    let mut m = MoveData::new();
    m.push(0, report(0, 100, 10, 0, 0));
    m.push(1000, report(2000, -100, 30, 40, 1000));
    m
}

#[test]
fn midpoint_of_two_snapshots() {
    let m = two_point_run();
    let p = m.get(500);
    assert_eq!(p.pos, Vec2 { x: 1000, y: 0 });
    assert_eq!(p.vel, Vec2 { x: 20, y: 20 });
    assert_eq!(p.rot, 500);
    assert_eq!(p.skin, 0);
    assert_eq!(p.color, 0);
}

#[test]
fn midpoint_rounds_down() {
    let mut m = MoveData::new();
    m.push(0, report(-3, 0, 0, 0, 0));
    m.push(1000, report(0, 1, 0, 0, 0));
    let p = m.get(500);
    assert_eq!(p.pos, Vec2 { x: -2, y: 0 });
}

#[test]
fn sampling_clamps_at_both_ends() {
    let mut m = MoveData::new();
    m.push(100, report(5, 5, 1, 1, 1));
    m.push(1100, report(50, 50, 2, 2, 2));
    let before = m.get(0);
    assert_eq!(before.pos, Vec2 { x: 5, y: 5 });
    assert_eq!(before.vel, Vec2 { x: 1, y: 1 });
    let after = m.get(99_999);
    assert_eq!(after.pos, Vec2 { x: 50, y: 50 });
    assert_eq!(after.rot, 2);
    let at_last = m.get(1100);
    assert_eq!(at_last.pos, Vec2 { x: 50, y: 50 });
}

#[test]
fn short_segments_blend_over_one_second() {
    let mut m = MoveData::new();
    m.push(0, report(0, 0, 0, 0, 0));
    m.push(100, report(1000, 0, 0, 0, 0));
    m.push(200, report(2000, 0, 0, 0, 0));
    assert_eq!(m.get(50).pos.x, 50);
    assert_eq!(m.get(150).pos.x, 1050);
}

#[test]
fn single_snapshot_recording() {
    let mut m = MoveData::new();
    m.push(300, report(9, 8, 7, 6, 5));
    assert_eq!(m.get(0).pos, Vec2 { x: 9, y: 8 });
    assert_eq!(m.get(300).pos, Vec2 { x: 9, y: 8 });
    assert_eq!(m.get(1000).pos, Vec2 { x: 9, y: 8 });
    let r = m.result();
    assert_eq!(r.time, 300);
    assert_eq!(r.pos, Vec2 { x: 9, y: 8 });
}

#[test]
fn store_drops_empty_recordings() {
    let mut d = Data::new();
    d.push(Track { from: 0, to: 1 }, MoveData::new());
    assert_eq!(d.entries.len(), 0);
    assert_eq!(d.get(Track { from: 0, to: 1 }, 0).len(), 0);
    assert_eq!(d.max_bots(), 0);
}

#[test]
fn store_samples_every_recording_of_a_track() {
    let mut d = Data::new();
    let t = Track { from: 2, to: 5 };
    d.push(t, two_point_run());
    let mut other = MoveData::new();
    other.push(0, report(7, 7, 0, 0, 0));
    d.push(t, other);
    d.push(Track { from: 5, to: 2 }, two_point_run());
    let sampled = d.get(t, 500);
    assert_eq!(sampled.len(), 2);
    assert_eq!(sampled[0].pos, Vec2 { x: 1000, y: 0 });
    assert_eq!(sampled[1].pos, Vec2 { x: 7, y: 7 });
    assert_eq!(d.get(Track { from: 5, to: 2 }, 500).len(), 1);
    assert_eq!(d.get(Track { from: 1, to: 2 }, 500).len(), 0);
    assert_eq!(d.max_bots(), 1);
    let results = d.get_results(t);
    assert_eq!(results.len(), 2);
    assert_eq!(results[0].time, 1000);
    assert_eq!(results[0].pos, Vec2 { x: 2000, y: -100 });
    assert_eq!(results[1].time, 0);
}

#[test]
fn snapshot_keeps_what_a_recording_needs() {
    let mut m = MoveData::new();
    m.push(42, report(1, 2, 3, 4, 5));
    assert_eq!(m.data.len(), 1);
    assert_eq!(
        m.data[0],
        TimedData {
            time: 42,
            data: PlayerSnapshot { skin: 0, pos: Vec2 { x: 1, y: 2 }, vel: Vec2 { x: 3, y: 4 }, rot: 5 },
        }
    );
}

#[test]
fn store_survives_saving_and_loading() {
    let mut d = Data::new();
    let t = Track { from: 2, to: 5 };
    let mut run = MoveData::new();
    run.push(0, report(-5000, 40, -7, 3, -100));
    run.push(400, report(-1000, 80, 9, -3, 250));
    run.push(1900, report(2500, 120, 0, 0, 600));
    d.push(t, run);
    d.push(Track { from: 5, to: 2 }, two_point_run());
    let before: Vec<_> = [1, 250, 399, 1000, 1899].iter().map(|&time| d.get(t, time)).collect();
    let bytes = d.to_bytes();
    let loaded = Data::load(&bytes);
    let after: Vec<_> = [1, 250, 399, 1000, 1899].iter().map(|&time| loaded.get(t, time)).collect();
    assert_eq!(before, after);
    assert_eq!(loaded.get(Track { from: 5, to: 2 }, 500), d.get(Track { from: 5, to: 2 }, 500));
    assert_eq!(loaded.entries.len(), 2);
}

#[test]
fn unreadable_store_loads_empty() {
    assert_eq!(Data::load(&[]).entries.len(), 0);
    assert_eq!(Data::load(&[1, 2, 3]).entries.len(), 0);
    let mut d = Data::new();
    d.push(Track { from: 0, to: 1 }, two_point_run());
    let mut bytes = d.to_bytes();
    assert!(Data::from_bytes(&bytes).is_some());
    bytes[0] = 2;
    assert!(Data::from_bytes(&bytes).is_none());
    assert_eq!(Data::load(&bytes).entries.len(), 0);
    let mut truncated = d.to_bytes();
    truncated.truncate(truncated.len() - 8);
    assert!(Data::from_bytes(&truncated).is_none());
}

#[test]
fn saved_store_starts_with_its_version() {
    let d = Data::new();
    let bytes = d.to_bytes();
    assert_eq!(bytes, vec![1, 0, 0, 0, 0, 0, 0, 0, 0, 0, 0, 0, 0, 0, 0, 0]);
    let words = d.to_words();
    assert_eq!(words, vec![1, 0]);
    assert!(Data::from_words(&words).is_some());
}

#[test]
fn only_recordings_that_run_the_track_are_kept_slowest_first() {
    let level = Level { cat_locations: vec![Vec2 { x: 0, y: 0 }, Vec2 { x: 10_000, y: 0 }] };
    let t = Track { from: 0, to: 1 };
    let run = |start: i32, end: i32, finish: u64| {
        let mut m = MoveData::new();
        m.push(0, report(start, 0, 0, 0, 0));
        m.push(finish, report(end, 0, 0, 0, 0));
        m
    };
    let mut d = Data::new();
    d.push(t, run(0, 10_000, 3000));
    d.push(t, run(5000, 10_000, 9000));
    d.push(t, run(100, 7_000, 7000));
    d.push(t, run(0, 10_500, 5000));
    d.push(Track { from: 0, to: 7 }, run(0, 0, 100));
    d.retain_reaching(&level, 1000);
    let ends: Vec<u64> = d.get_results(t).iter().map(|r| r.time).collect();
    assert_eq!(ends, vec![5000, 3000]);
    assert_eq!(d.get(Track { from: 0, to: 7 }, 0).len(), 0);
}
