use std::rc::Rc;

use command_replay::pawn::PawnKey;
use command_replay::receiver::{CommandReceiver, StateManager};

struct RecordingManager {
    state_resets: Vec<u16>,
    entity_resets: Vec<u16>,
}

impl RecordingManager {
    fn new() -> RecordingManager {
        RecordingManager { state_resets: Vec::new(), entity_resets: Vec::new() }
    }
}

impl StateManager for RecordingManager {
    fn pawn_reset(&mut self, object_key: u16) {
        self.state_resets.push(object_key);
    }

    fn pawn_reset_entity(&mut self, entity_key: u16) {
        self.entity_resets.push(entity_key);
    }
}

fn cmd(name: &str) -> Rc<String> {
    Rc::new(String::from(name))
}

#[test]
fn simple_replay() {
    let p = PawnKey::State(1);
    let mut recv: CommandReceiver<String> = CommandReceiver::new();
    recv.pawn_init(&p);
    let a = cmd("a");
    let b = cmd("b");
    let c = cmd("c");
    recv.queue_command(10, &p, &a);
    recv.queue_command(11, &p, &b);
    recv.queue_command(12, &p, &c);
    assert_eq!(recv.pop_command().unwrap().0, 10);
    assert_eq!(recv.pop_command().unwrap().0, 11);
    assert_eq!(recv.pop_command().unwrap().0, 12);
    assert!(recv.pop_command().is_none());

    recv.replay_commands(11, &p);
    let mut sm = RecordingManager::new();
    recv.process_command_replay(&mut sm);
    assert_eq!(sm.state_resets, vec![1]);
    assert!(sm.entity_resets.is_empty());

    let (t1, p1, c1) = recv.pop_command_replay().unwrap();
    assert_eq!((t1, p1), (11, p));
    assert!(Rc::ptr_eq(&c1, &b));
    let (t2, p2, c2) = recv.pop_command_replay().unwrap();
    assert_eq!((t2, p2), (12, p));
    assert!(Rc::ptr_eq(&c2, &c));
    assert!(recv.pop_command_replay().is_none());
    assert!(recv.pop_command().is_none());
}

#[test]
fn trigger_collapsing_keeps_the_earlier_tick() {
    let p = PawnKey::State(1);
    let mut recv: CommandReceiver<String> = CommandReceiver::new();
    recv.pawn_init(&p);
    let a = cmd("a");
    let b = cmd("b");
    let c = cmd("c");
    recv.queue_command(10, &p, &a);
    recv.queue_command(11, &p, &b);
    recv.queue_command(12, &p, &c);
    while recv.pop_command().is_some() {}

    recv.replay_commands(12, &p);
    recv.replay_commands(10, &p);
    let mut sm = RecordingManager::new();
    recv.process_command_replay(&mut sm);
    assert_eq!(sm.state_resets, vec![1]);

    let ticks: Vec<u16> = std::iter::from_fn(|| recv.pop_command_replay()).map(|e| e.0).collect();
    assert_eq!(ticks, vec![10, 11, 12]);
}

#[test]
fn untracked_pawn_still_queues_but_retains_nothing() {
    let q = PawnKey::Entity(9);
    let mut recv: CommandReceiver<String> = CommandReceiver::new();
    let x = cmd("x");
    recv.queue_command(5, &q, &x);
    let (t, p, c) = recv.pop_command().unwrap();
    assert_eq!((t, p), (5, q));
    assert!(Rc::ptr_eq(&c, &x));
    assert_eq!(recv.command_history_count(&q), 0);

    recv.replay_commands(5, &q);
    let mut sm = RecordingManager::new();
    recv.process_command_replay(&mut sm);
    assert_eq!(sm.entity_resets, vec![9]);
    assert!(sm.state_resets.is_empty());
    assert!(recv.pop_command_replay().is_none());
}

#[test]
fn eviction_keeps_the_newest_window() {
    let p = PawnKey::State(3);
    let mut recv: CommandReceiver<String> = CommandReceiver::new();
    recv.pawn_init(&p);
    for t in 0..=70u16 {
        recv.queue_command(t, &p, &cmd("k"));
    }
    assert_eq!(recv.command_history_count(&p), 64);
    let entries = recv.command_history_iter(&p, false).unwrap();
    let ticks: Vec<u16> = entries.iter().map(|e| e.0).collect();
    let expected: Vec<u16> = (7..=70).collect();
    assert_eq!(ticks, expected);
}

#[test]
fn cleanup_mid_flight_keeps_queued_commands_but_no_replays() {
    let p = PawnKey::State(1);
    let mut recv: CommandReceiver<String> = CommandReceiver::new();
    recv.pawn_init(&p);
    let a = cmd("a");
    recv.queue_command(1, &p, &a);
    recv.pawn_cleanup(&p);
    let (t, pk, c) = recv.pop_command().unwrap();
    assert_eq!((t, pk), (1, p));
    assert!(Rc::ptr_eq(&c, &a));

    recv.replay_commands(1, &p);
    let mut sm = RecordingManager::new();
    recv.process_command_replay(&mut sm);
    assert_eq!(sm.state_resets, vec![1]);
    assert!(recv.pop_command_replay().is_none());
}

#[test]
fn wrap_boundary_history_and_removal() {
    let p = PawnKey::State(2);
    let mut recv: CommandReceiver<String> = CommandReceiver::new();
    recv.pawn_init(&p);
    for t in 65530..=65535u16 {
        recv.queue_command(t, &p, &cmd("w"));
    }
    for t in 0..=5u16 {
        recv.queue_command(t, &p, &cmd("w"));
    }
    assert_eq!(recv.command_history_count(&p), 12);

    recv.remove_history_until(65534, &p);
    assert_eq!(recv.command_history_count(&p), 8);
    let entries = recv.command_history_iter(&p, false).unwrap();
    let ticks: Vec<u16> = entries.iter().map(|e| e.0).collect();
    assert_eq!(ticks, vec![65534, 65535, 0, 1, 2, 3, 4, 5]);
    let reversed = recv.command_history_iter(&p, true).unwrap();
    let rticks: Vec<u16> = reversed.iter().map(|e| e.0).collect();
    assert_eq!(rticks, vec![5, 4, 3, 2, 1, 0, 65535, 65534]);
}

#[test]
fn replay_crosses_the_tick_wrap() {
    let p = PawnKey::State(8);
    let mut recv: CommandReceiver<String> = CommandReceiver::new();
    recv.pawn_init(&p);
    let ticks: Vec<u16> = (65530..=65535).chain(0..=5).collect();
    let handles: Vec<Rc<String>> = ticks.iter().map(|t| cmd(&format!("c{t}"))).collect();
    for (t, c) in ticks.iter().zip(handles.iter()) {
        recv.queue_command(*t, &p, c);
    }
    // Divergence at the oldest retained tick, before the wrap.
    recv.replay_commands(65530, &p);
    let mut sm = RecordingManager::new();
    recv.process_command_replay(&mut sm);
    assert_eq!(sm.state_resets, vec![8]);
    assert!(recv.pop_command().is_none());

    let replayed: Vec<(u16, PawnKey, Rc<String>)> =
        std::iter::from_fn(|| recv.pop_command_replay()).collect();
    let replayed_ticks: Vec<u16> = replayed.iter().map(|e| e.0).collect();
    assert_eq!(replayed_ticks, ticks);
    for (e, c) in replayed.iter().zip(handles.iter()) {
        assert!(Rc::ptr_eq(&e.2, c));
    }
}

#[test]
fn replay_starting_after_the_wrap_takes_the_newer_part() {
    let p = PawnKey::State(8);
    let mut recv: CommandReceiver<String> = CommandReceiver::new();
    recv.pawn_init(&p);
    for t in (65530..=65535).chain(0..=5) {
        recv.queue_command(t, &p, &cmd("w"));
    }
    recv.replay_commands(2, &p);
    let mut sm = RecordingManager::new();
    recv.process_command_replay(&mut sm);
    let ticks: Vec<u16> = std::iter::from_fn(|| recv.pop_command_replay()).map(|e| e.0).collect();
    assert_eq!(ticks, vec![2, 3, 4, 5]);
}

#[test]
fn replay_request_ahead_of_history_enqueues_nothing() {
    let p = PawnKey::State(8);
    let mut recv: CommandReceiver<String> = CommandReceiver::new();
    recv.pawn_init(&p);
    for t in 0..=5u16 {
        recv.queue_command(t, &p, &cmd("w"));
    }
    // Tick 100 is wrapping-newer than the history's end: nothing to replay,
    // though the reset still happens and the queues are cleared.
    recv.replay_commands(100, &p);
    let mut sm = RecordingManager::new();
    recv.process_command_replay(&mut sm);
    assert_eq!(sm.state_resets, vec![8]);
    assert!(recv.pop_command().is_none());
    assert!(recv.pop_command_replay().is_none());
}

#[test]
fn history_returns_the_same_shared_handle() {
    let p = PawnKey::State(4);
    let mut recv: CommandReceiver<String> = CommandReceiver::new();
    recv.pawn_init(&p);
    let a = cmd("a");
    recv.queue_command(10, &p, &a);
    let entries = recv.command_history_iter(&p, false).unwrap();
    assert_eq!(entries.len(), 1);
    assert_eq!(entries[0].0, 10);
    assert!(Rc::ptr_eq(&entries[0].1, &a));
}

#[test]
fn second_pass_without_new_request_is_a_no_op() {
    let p = PawnKey::State(1);
    let mut recv: CommandReceiver<String> = CommandReceiver::new();
    recv.pawn_init(&p);
    recv.queue_command(1, &p, &cmd("a"));
    recv.queue_command(2, &p, &cmd("b"));
    recv.replay_commands(1, &p);
    let mut sm = RecordingManager::new();
    recv.process_command_replay(&mut sm);
    assert_eq!(sm.state_resets, vec![1]);

    recv.process_command_replay(&mut sm);
    assert_eq!(sm.state_resets, vec![1]);
    let ticks: Vec<u16> = std::iter::from_fn(|| recv.pop_command_replay()).map(|e| e.0).collect();
    assert_eq!(ticks, vec![1, 2]);
}

#[test]
fn repeated_replay_request_equals_one_request() {
    let p = PawnKey::State(1);
    let mut once: CommandReceiver<String> = CommandReceiver::new();
    let mut twice: CommandReceiver<String> = CommandReceiver::new();
    for recv in [&mut once, &mut twice] {
        recv.pawn_init(&p);
        recv.queue_command(3, &p, &cmd("a"));
        recv.queue_command(4, &p, &cmd("b"));
    }
    once.replay_commands(3, &p);
    twice.replay_commands(3, &p);
    twice.replay_commands(3, &p);
    let mut sm1 = RecordingManager::new();
    let mut sm2 = RecordingManager::new();
    once.process_command_replay(&mut sm1);
    twice.process_command_replay(&mut sm2);
    assert_eq!(sm1.state_resets, sm2.state_resets);
    let t1: Vec<u16> = std::iter::from_fn(|| once.pop_command_replay()).map(|e| e.0).collect();
    let t2: Vec<u16> = std::iter::from_fn(|| twice.pop_command_replay()).map(|e| e.0).collect();
    assert_eq!(t1, t2);
}

#[test]
fn replay_pass_empties_the_incoming_queue() {
    let p = PawnKey::State(1);
    let mut recv: CommandReceiver<String> = CommandReceiver::new();
    recv.pawn_init(&p);
    recv.queue_command(1, &p, &cmd("a"));
    recv.queue_command(2, &p, &cmd("b"));
    // Both still queued when the divergence arrives.
    recv.replay_commands(1, &p);
    let mut sm = RecordingManager::new();
    recv.process_command_replay(&mut sm);
    assert!(recv.pop_command().is_none());
    let ticks: Vec<u16> = std::iter::from_fn(|| recv.pop_command_replay()).map(|e| e.0).collect();
    assert_eq!(ticks, vec![1, 2]);
}

#[test]
fn pawn_init_resets_an_existing_history() {
    let p = PawnKey::State(1);
    let mut recv: CommandReceiver<String> = CommandReceiver::new();
    recv.pawn_init(&p);
    recv.queue_command(1, &p, &cmd("a"));
    assert_eq!(recv.command_history_count(&p), 1);
    recv.pawn_init(&p);
    assert_eq!(recv.command_history_count(&p), 0);
}

#[test]
fn state_and_entity_keys_are_disjoint() {
    let s = PawnKey::State(5);
    let e = PawnKey::Entity(5);
    assert_ne!(s, e);
    let mut recv: CommandReceiver<String> = CommandReceiver::new();
    recv.pawn_init(&s);
    recv.queue_command(1, &s, &cmd("a"));
    assert_eq!(recv.command_history_count(&s), 1);
    assert_eq!(recv.command_history_count(&e), 0);
}
