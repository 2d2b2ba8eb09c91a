use coots::bots::{Data, MoveData};
use coots::geometry::Vec2;
use coots::interop::{ClientMessage, Id, Player, ServerMessage};
use coots::level::{Config, Level, Track};
use coots::names::clean_name;
use coots::server::{round_quota, Outgoing, Phase, State, COUNTDOWN_MS};

fn level() -> Level {
    Level {
        cat_locations: vec![
            Vec2 { x: 0, y: 0 },
            Vec2 { x: 10_000, y: 0 },
            Vec2 { x: 0, y: 10_000 },
            Vec2 { x: 10_000, y: 10_000 },
        ],
    }
}

fn config(min_players: usize, server_recordings: bool) -> Config {
    Config {
        min_players,
        new_session_time: 5000,
        cat_move_time: 60_000,
        player_radius: 1000,
        finish_speed: 10,
        elimination_ratio: 400,
        server_recordings,
    }
}

fn at(pos: Vec2) -> Player {
    Player { color: 0, skin: 1, pos, vel: Vec2 { x: 0, y: 0 }, rot: 0 }
}

fn destination(s: &State) -> Vec2 {
    s.level.cat_locations[s.round.track.to]
}

fn origin(s: &State) -> Vec2 {
    s.level.cat_locations[s.round.track.from]
}

fn active(s: &State) -> Vec<Id> {
    s.participants.iter().filter(|p| p.active).map(|p| p.id).collect()
}

fn qualified(s: &State) -> Vec<Id> {
    s.participants.iter().filter(|p| p.qualified).map(|p| p.id).collect()
}

fn connect(s: &mut State) -> Id {
    s.on_connect().unwrap().0
}

fn sent(out: &[Outgoing], to: Id, pred: impl Fn(&ServerMessage) -> bool) -> bool {
    out.iter().any(|o| o.to == to && pred(&o.message))
}

#[test]
fn quota_for_seven_with_four_tenths() {
    assert_eq!(round_quota(1, 7, 400), 5);
    assert_eq!(round_quota(0, 7, 400), 7);
    assert_eq!(round_quota(3, 2, 400), 1);
    assert_eq!(round_quota(2, 4, 400), 3);
    assert_eq!(round_quota(2, 4, 2000), 0);
}

#[test]
fn four_clients_play_a_session_to_the_end() {
    let mut s = State::new(level(), config(2, false), Data::new());
    let ids: Vec<Id> = (0..4).map(|_| connect(&mut s)).collect();
    assert_eq!(ids, vec![2, 3, 4, 5]);
    for &id in &ids {
        s.on_ready(id, true);
    }
    let out = s.tick(0, 0).messages;
    assert_eq!(s.phase, Phase::Countdown { since: 0 });
    assert_eq!(active(&s), ids);
    assert_eq!(s.round.num, 0);
    assert_eq!(s.round.to_be_qualified, 4);
    for &id in &ids {
        assert!(sent(&out, id, |m| matches!(m, ServerMessage::NewRound(_))));
    }

    let out = s.tick(COUNTDOWN_MS + 1, 0).messages;
    assert_eq!(s.phase, Phase::Running { since: COUNTDOWN_MS + 1 });
    let start = origin(&s);
    for &id in &ids {
        assert!(sent(&out, id, |m| matches!(m, ServerMessage::YouHaveBeenRespawned(p) if *p == start)));
        assert!(sent(&out, id, |m| matches!(m, ServerMessage::RoundStarted)));
    }

    let first_destination = s.round.track.to;
    let goal = destination(&s);
    for &id in &ids {
        let out = s.on_player_update(id, at(goal));
        assert!(sent(&out, id, |m| matches!(m, ServerMessage::YouHaveBeenQualified)));
    }
    assert_eq!(qualified(&s), ids);

    s.tick(COUNTDOWN_MS + 500, 5);
    assert_eq!(s.phase, Phase::Countdown { since: COUNTDOWN_MS + 500 });
    assert_eq!(s.round.num, 1);
    assert_eq!(s.round.track.from, first_destination);
    assert_ne!(s.round.track.to, first_destination);
    assert_eq!(s.round.to_be_qualified, 3);
    assert_eq!(active(&s), ids);
    assert!(qualified(&s).is_empty());

    let begin = 2 * COUNTDOWN_MS + 501;
    s.tick(begin, 0);
    assert_eq!(s.phase, Phase::Running { since: begin });
    let goal = destination(&s);
    s.on_player_update(ids[1], at(goal));
    assert_eq!(qualified(&s), vec![ids[1]]);

    let end = begin + 60_001;
    let out = s.tick(end, 0).messages;
    assert_eq!(s.phase, Phase::Waiting { since: end });
    assert_eq!(active(&s), vec![ids[1]]);
    assert!(sent(&out, ids[1], |m| matches!(m, ServerMessage::YouAreWinner)));
    assert!(!sent(&out, ids[1], |m| matches!(m, ServerMessage::Winner(_))));
    assert!(!sent(&out, ids[1], |m| matches!(m, ServerMessage::YouHaveBeenEliminated)));
    assert!(s.participants.iter().all(|p| p.pos.is_none()));
    for &id in [ids[0], ids[2], ids[3]].iter() {
        assert!(sent(&out, ids[1], |m| matches!(m, ServerMessage::UpdatePlayer(x, None) if *x == id)));
    }
    for &id in [ids[0], ids[2], ids[3]].iter() {
        assert!(sent(&out, id, |m| matches!(m, ServerMessage::YouHaveBeenEliminated)));
        assert!(sent(&out, id, |m| matches!(m, ServerMessage::Winner(Some(w)) if *w == ids[1])));
    }

    s.tick(end + 5000, 0);
    assert_eq!(s.phase, Phase::Waiting { since: end });
    s.tick(end + 5001, 0);
    assert_eq!(s.phase, Phase::Countdown { since: end + 5001 });
    assert_eq!(active(&s), ids);
}

#[test]
fn session_without_ready_clients_is_called_off() {
    let mut s = State::new(level(), config(3, false), Data::new());
    connect(&mut s);
    let out = s.tick(10, 0).messages;
    assert!(out.is_empty());
    assert_eq!(s.phase, Phase::Waiting { since: 10 });
    assert!(active(&s).is_empty());
}

#[test]
fn bots_fill_the_roster_and_drop_out_without_recordings() {
    let mut s = State::new(level(), config(3, false), Data::new());
    let a = connect(&mut s);
    s.on_ready(a, true);
    s.tick(0, 0);
    assert_eq!(active(&s), vec![0, 1, a]);
    s.tick(COUNTDOWN_MS + 1, 0);
    assert_eq!(s.phase, Phase::Running { since: COUNTDOWN_MS + 1 });
    s.tick(COUNTDOWN_MS + 100, 0);
    assert_eq!(active(&s), vec![a]);
}

#[test]
fn bots_play_back_recordings_and_qualify() {
    let lvl = level();
    let track = Track { from: 0, to: 1 };
    let goal = lvl.cat_locations[1];
    let mut store = Data::new();
    let mut run = MoveData::new();
    run.push(0, at(lvl.cat_locations[0]));
    run.push(2000, at(goal));
    store.push(track, run);
    let mut s = State::new(lvl, config(2, false), store);
    let a = connect(&mut s);
    s.on_ready(a, true);
    s.tick(0, 0);
    assert_eq!(s.round.track, track);
    assert_eq!(active(&s), vec![0, a]);
    s.tick(COUNTDOWN_MS + 1, 0);
    let out = s.tick(COUNTDOWN_MS + 2, 0).messages;
    assert_eq!(active(&s), vec![0, a]);
    assert!(sent(&out, a, |m| matches!(m, ServerMessage::UpdatePlayer(0, Some(_)))));
    let out = s.tick(COUNTDOWN_MS + 1 + 2000, 0).messages;
    assert_eq!(qualified(&s), vec![0]);
    assert!(sent(&out, a, |m| matches!(m, ServerMessage::UpdatePlayer(0, None))));
}

#[test]
fn reports_of_the_qualified_are_ignored() {
    let mut s = State::new(level(), config(0, true), Data::new());
    let a = connect(&mut s);
    let b = connect(&mut s);
    s.on_ready(a, true);
    s.on_ready(b, true);
    s.tick(0, 0);
    s.tick(COUNTDOWN_MS + 1, 0);
    let goal = destination(&s);
    s.on_player_update(a, at(Vec2 { x: goal.x + 5000, y: goal.y }));
    assert_eq!(s.participants[0].current_replay.data.len(), 1);
    s.on_player_update(a, at(goal));
    assert_eq!(qualified(&s), vec![a]);
    assert_eq!(s.participants[0].current_replay.data.len(), 2);
    let out = s.on_player_update(a, at(goal));
    assert!(out.is_empty());
    assert_eq!(qualified(&s), vec![a]);
    assert_eq!(s.participants[0].current_replay.data.len(), 2);
}

#[test]
fn moving_or_distant_reports_do_not_qualify() {
    let mut s = State::new(level(), config(0, false), Data::new());
    let a = connect(&mut s);
    let b = connect(&mut s);
    s.on_ready(a, true);
    s.on_ready(b, true);
    s.tick(0, 0);
    s.tick(COUNTDOWN_MS + 1, 0);
    let goal = destination(&s);
    let mut moving = at(goal);
    moving.vel = Vec2 { x: 11, y: 0 };
    let out = s.on_player_update(a, moving);
    assert!(sent(&out, b, |m| matches!(m, ServerMessage::UpdatePlayer(id, Some(_)) if *id == a)));
    assert!(qualified(&s).is_empty());
    s.on_player_update(a, at(Vec2 { x: goal.x + 2001, y: goal.y }));
    assert!(qualified(&s).is_empty());
    s.on_player_update(a, at(Vec2 { x: goal.x + 2000, y: goal.y }));
    assert_eq!(qualified(&s), vec![a]);
}

#[test]
fn recordings_go_to_the_store_at_round_end() {
    let mut s = State::new(level(), config(0, true), Data::new());
    let a = connect(&mut s);
    let b = connect(&mut s);
    s.on_ready(a, true);
    s.on_ready(b, true);
    s.tick(0, 0);
    s.tick(COUNTDOWN_MS + 1, 0);
    let track = s.round.track;
    s.on_player_update(a, at(Vec2 { x: 1, y: 1 }));
    let outcome = s.tick(COUNTDOWN_MS + 60_002, 0);
    assert!(outcome.save_replays);
    assert_eq!(s.bots.get(track, 0).len(), 1);
    assert!(s.participants.iter().all(|p| p.current_replay.data.is_empty()));
    assert_eq!(s.phase, Phase::Waiting { since: COUNTDOWN_MS + 60_002 });
}

#[test]
fn disconnect_leaves_the_session() {
    let mut s = State::new(level(), config(0, false), Data::new());
    let a = connect(&mut s);
    let b = connect(&mut s);
    s.on_ready(a, true);
    s.on_ready(b, true);
    s.tick(0, 0);
    let out = s.on_disconnect(a);
    assert_eq!(active(&s), vec![b]);
    assert_eq!(out.len(), 1);
    assert_eq!(out[0].to, b);
    assert!(matches!(out[0].message, ServerMessage::Disconnect(id) if id == a));
    assert!(s.on_disconnect(a).is_empty());
}

#[test]
fn ping_answers_with_counts() {
    let mut s = State::new(level(), config(2, false), Data::new());
    let a = connect(&mut s);
    s.on_ready(a, true);
    s.tick(0, 0);
    s.tick(1, 0);
    let out = s.handle(a, ClientMessage::Ping);
    assert_eq!(out.len(), 2);
    assert!(matches!(out[0].message, ServerMessage::Pong));
    match &out[1].message {
        ServerMessage::Numbers(n) => {
            assert_eq!(n.players_left, 2);
            assert_eq!(n.bots, 1);
            assert_eq!(n.spectators, 0);
            assert_eq!(n.qualified, 0);
        }
        _ => panic!("expected head counts"),
    }
    assert!(s.on_ping(0).is_empty());
}

#[test]
fn new_clients_learn_the_names() {
    let mut s = State::new(level(), config(0, false), Data::new());
    let a = connect(&mut s);
    s.on_name(a, "Ann");
    let (b, out) = s.on_connect().unwrap();
    assert_eq!(out.len(), 1);
    assert_eq!(out[0].to, b);
    assert!(matches!(&out[0].message, ServerMessage::Name(id, n) if *id == a && n == "Ann"));
}

#[test]
fn names_keep_fifteen_letters() {
    assert_eq!(clean_name("a1b2 c-D!"), vec!['a', 'b', 'c', 'D']);
    let long: String = "abcdefghijklmnopqrstuvwxyz".to_string();
    assert_eq!(clean_name(&long).len(), 15);
    assert!(clean_name("123 !?").is_empty());
}

#[test]
fn test_brainoid() {
    let mut s = State::new(level(), config(0, false), Data::new());
    let a = connect(&mut s);
    let b = connect(&mut s);
    let out = s.handle(a, ClientMessage::Name("brainoid".to_string()));
    assert_eq!("brainoid", s.participants[0].name);
    assert!(sent(&out, a, |m| matches!(m, ServerMessage::YourName(n) if n == "brainoid")));
    assert!(sent(&out, b, |m| matches!(m, ServerMessage::Name(id, n) if *id == a && n == "brainoid")));
}

#[test]
fn names_are_censored() {
    let mut s = State::new(level(), config(0, false), Data::new());
    let a = connect(&mut s);
    s.on_name(a, "fuck");
    assert_ne!(s.participants[0].name, "fuck");
}

#[test]
fn tracks_are_drawn_between_distinct_locations() {
    let lvl = level();
    for draw in 0..40u64 {
        let t = lvl.random_track(draw);
        assert_eq!(t.from, (draw % 4) as usize);
        assert!(t.to < 4);
        assert_ne!(t.to, t.from);
    }
    assert_eq!(lvl.random_track_from(2, 2), Track { from: 2, to: 3 });
    assert_eq!(lvl.random_track_from(2, 1), Track { from: 2, to: 1 });
}

#[test]
fn messages_reach_the_controller() {
    let mut s = State::new(level(), config(0, false), Data::new());
    let a = connect(&mut s);
    let b = connect(&mut s);
    assert!(s.handle(a, ClientMessage::Ready(true)).is_empty());
    assert!(s.participants[0].ready);
    s.handle(b, ClientMessage::Ready(true));
    s.tick(0, 0);
    let before = s.handle(a, ClientMessage::UpdatePlayer(at(Vec2 { x: 1, y: 2 })));
    assert!(before.is_empty());
    s.tick(COUNTDOWN_MS + 1, 0);
    let out = s.handle(a, ClientMessage::UpdatePlayer(at(Vec2 { x: 1, y: 2 })));
    assert_eq!(out.len(), 1);
    assert_eq!(out[0].to, b);
    assert_eq!(s.participants[0].pos, Some(Vec2 { x: 1, y: 2 }));
    assert!(s.handle(99, ClientMessage::Ping).is_empty());
}

#[test]
fn clock_never_runs_backwards() {
    let mut s = State::new(level(), config(0, false), Data::new());
    let a = connect(&mut s);
    s.on_ready(a, true);
    s.tick(10_000, 0);
    assert_eq!(s.phase, Phase::Countdown { since: 10_000 });
    s.tick(5, 0);
    assert_eq!(s.clock, 10_000);
    assert_eq!(s.phase, Phase::Countdown { since: 10_000 });
}
