use file_finder::coordinator::{
    keeps_listening, message_of_pulse, outcome_of, owner_step, pulse_step, worker_begin,
    worker_can_take, worker_step, Message, OwnerAction, OwnerEvent, OwnerState, PulseAction,
    PulseState, ScanOutcome, WorkerAction, WorkerEvent, WorkerState, HEARTBEAT_MILLIS,
};
use file_finder::listing::WalkEntry;
use file_finder::stated::{ErrorPolicy, FileStat};
use std::collections::VecDeque;

fn s(text: &str) -> String {
    text.to_string()
}

fn start() -> OwnerEvent {
    OwnerEvent::Start { path: s("root"), extensions: s("txt") }
}

fn file(path: &str, depth: usize) -> Option<WalkEntry> {
    Some(WalkEntry { path: s(path), depth, is_file: true })
}

fn listing() -> Vec<Option<WalkEntry>> {
    vec![
        Some(WalkEntry { path: s("root"), depth: 0, is_file: false }),
        file("root/a.txt", 1),
        file("root/b.md", 1),
        file("root/c.txt", 1),
    ]
}

fn stat(len: u64) -> Option<FileStat> {
    Some(FileStat { len, modified_secs: 86_400, modified_nanos: 5 })
}

#[test]
fn the_heartbeat_sleeps_for_700_milliseconds() {
    assert_eq!(HEARTBEAT_MILLIS, 700);
}

#[test]
fn pulse_steps() {
    assert_eq!(
        pulse_step(PulseState::Watching, false),
        (PulseState::Slept, PulseAction::Pulse { sleep_millis: 700 })
    );
    assert_eq!(pulse_step(PulseState::Watching, true), (PulseState::Stopped, PulseAction::Nothing));
    assert_eq!(pulse_step(PulseState::Slept, false), (PulseState::Watching, PulseAction::Nothing));
    assert_eq!(pulse_step(PulseState::Slept, true), (PulseState::Stopped, PulseAction::SignOff));
    assert_eq!(pulse_step(PulseState::Stopped, false), (PulseState::Stopped, PulseAction::Nothing));
    assert_eq!(pulse_step(PulseState::Stopped, true), (PulseState::Stopped, PulseAction::Nothing));
}

#[test]
fn pulse_messages() {
    assert!(message_of_pulse(PulseAction::Nothing).is_none());
    assert!(matches!(
        message_of_pulse(PulseAction::Pulse { sleep_millis: 700 }),
        Some(Message::Heartbeat(true))
    ));
    assert!(matches!(message_of_pulse(PulseAction::SignOff), Some(Message::Heartbeat(false))));
}

fn heartbeats(flag_up_at_look: usize) -> Vec<bool> {
    let mut sent = Vec::new();
    let mut state = PulseState::Watching;
    let mut look = 0;
    while state != PulseState::Stopped {
        let (next, action) = pulse_step(state, look >= flag_up_at_look);
        if let Some(Message::Heartbeat(alive)) = message_of_pulse(action) {
            sent.push(alive);
        }
        state = next;
        look += 1;
    }
    sent
}

#[test]
fn the_heartbeat_pulses_until_it_sees_the_flag() {
    assert_eq!(heartbeats(0), Vec::<bool>::new());
    assert_eq!(heartbeats(1), vec![true, false]);
    assert_eq!(heartbeats(2), vec![true]);
    assert_eq!(heartbeats(3), vec![true, true, false]);
    assert_eq!(heartbeats(4), vec![true, true]);
    assert_eq!(heartbeats(7), vec![true, true, true, true, false]);
}

#[test]
fn outcomes() {
    assert!(matches!(outcome_of(Ok(Vec::new())), ScanOutcome::Success(records) if records.is_empty()));
    assert!(matches!(outcome_of(Err(s("why"))), ScanOutcome::Failure(message) if message == "why"));
}

#[test]
fn the_worker_begins_by_listing_the_tree() {
    let (state, action) = worker_begin(s("root"), s("txt|md"), ErrorPolicy::SkipRemaining);
    assert!(matches!(action, WorkerAction::Walk(root) if root == "root"));
    assert!(matches!(
        state,
        WorkerState::Walking { path, extensions, policy: ErrorPolicy::SkipRemaining }
            if path == "root" && extensions == "txt|md"
    ));
}

#[test]
fn the_worker_scans_then_flags_then_sends() {
    let (state, _) = worker_begin(s("root"), s("txt"), ErrorPolicy::AbortOnError);
    let (state, action) = worker_step(state, WorkerEvent::Listed(listing()));
    assert!(matches!(&action, WorkerAction::Stat(paths) if paths == &vec![s("root/a.txt"), s("root/c.txt")]));
    assert!(matches!(
        &state,
        WorkerState::Statting { paths, policy: ErrorPolicy::AbortOnError }
            if paths == &vec![s("root/a.txt"), s("root/c.txt")]
    ));
    let (state, action) = worker_step(state, WorkerEvent::Statted(vec![stat(10), stat(2048)]));
    assert!(matches!(action, WorkerAction::RaiseStopFlag));
    assert!(matches!(&state, WorkerState::Flagging(ScanOutcome::Success(records)) if records.len() == 2));
    let (state, action) = worker_step(state, WorkerEvent::Raised);
    assert!(matches!(state, WorkerState::Retired));
    match action {
        WorkerAction::Send(Message::Outcome(ScanOutcome::Success(records))) => {
            assert_eq!(records.len(), 2);
            assert_eq!(records[0].path, "root/a.txt");
            assert_eq!(records[0].size, "10 B");
            assert_eq!(records[1].name, "c.txt");
            assert_eq!(records[1].size, "2.0 KB");
        }
        other => panic!("{:?}", other),
    }
    let (state, action) = worker_step(state, WorkerEvent::Raised);
    assert!(matches!(state, WorkerState::Retired));
    assert!(matches!(action, WorkerAction::Nothing));
}

#[test]
fn the_worker_fails_when_nothing_is_found() {
    let (state, _) = worker_begin(s("root"), s("exe"), ErrorPolicy::AbortOnError);
    let (state, action) = worker_step(state, WorkerEvent::Listed(listing()));
    assert!(matches!(action, WorkerAction::RaiseStopFlag));
    let (state, action) = worker_step(state, WorkerEvent::Raised);
    assert!(matches!(state, WorkerState::Retired));
    assert!(matches!(
        action,
        WorkerAction::Send(Message::Outcome(ScanOutcome::Failure(message)))
            if message == "No files founded in the specified dir"
    ));
}

#[test]
fn the_worker_fails_on_missing_metadata_unless_told_to_skip() {
    let (state, _) = worker_begin(s("root"), s("txt"), ErrorPolicy::AbortOnError);
    let (state, _) = worker_step(state, WorkerEvent::Listed(listing()));
    let (state, _) = worker_step(state, WorkerEvent::Statted(vec![stat(10), None]));
    assert!(matches!(
        &state,
        WorkerState::Flagging(ScanOutcome::Failure(message))
            if message == "Cannot get information of one file root/c.txt"
    ));
    let (state, _) = worker_begin(s("root"), s("txt"), ErrorPolicy::SkipRemaining);
    let (state, _) = worker_step(state, WorkerEvent::Listed(listing()));
    let (state, _) = worker_step(state, WorkerEvent::Statted(vec![stat(10), None]));
    assert!(matches!(&state, WorkerState::Flagging(ScanOutcome::Success(records)) if records.len() == 1));
}

#[test]
fn the_worker_ignores_what_it_does_not_wait_for() {
    let (state, _) = worker_begin(s("root"), s("txt"), ErrorPolicy::AbortOnError);
    let (state, action) = worker_step(state, WorkerEvent::Raised);
    assert!(matches!(action, WorkerAction::Nothing));
    let (state, action) = worker_step(state, WorkerEvent::Statted(Vec::new()));
    assert!(matches!(action, WorkerAction::Nothing));
    assert!(matches!(&state, WorkerState::Walking { path, .. } if path == "root"));
    let (state, _) = worker_step(state, WorkerEvent::Listed(listing()));
    let (state, action) = worker_step(state, WorkerEvent::Listed(listing()));
    assert!(matches!(action, WorkerAction::Nothing));
    let (state, action) = worker_step(state, WorkerEvent::Raised);
    assert!(matches!(action, WorkerAction::Nothing));
    assert!(matches!(&state, WorkerState::Statting { paths, .. } if paths.len() == 2));
    let (state, _) = worker_step(state, WorkerEvent::Statted(vec![stat(1), stat(2)]));
    let (state, action) = worker_step(state, WorkerEvent::Listed(Vec::new()));
    assert!(matches!(action, WorkerAction::Nothing));
    assert!(matches!(state, WorkerState::Flagging(ScanOutcome::Success(_))));
}

#[test]
fn owner_steps() {
    let (state, action) = owner_step(OwnerState::Idle, start());
    assert_eq!(state, OwnerState::Scanning);
    assert!(matches!(
        action,
        OwnerAction::Spawn { path, extensions } if path == "root" && extensions == "txt"
    ));
    assert!(keeps_listening(&state));

    let (state, action) = owner_step(state, OwnerEvent::Received(Message::Heartbeat(true)));
    assert_eq!(state, OwnerState::Scanning);
    assert!(matches!(action, OwnerAction::Pulse));

    let (state, action) = owner_step(state, OwnerEvent::Received(Message::Heartbeat(false)));
    assert_eq!(state, OwnerState::Scanning);
    assert!(matches!(action, OwnerAction::Rest));

    let (state, action) = owner_step(state, start());
    assert_eq!(state, OwnerState::Scanning);
    assert!(matches!(action, OwnerAction::Ignore));

    let outcome = Message::Outcome(ScanOutcome::Failure(s("nothing")));
    let (state, action) = owner_step(state, OwnerEvent::Received(outcome));
    assert_eq!(state, OwnerState::Retired);
    assert!(matches!(action, OwnerAction::ShowFailure(message) if message == "nothing"));
    assert!(!keeps_listening(&state));

    let (state, action) = owner_step(state, OwnerEvent::Received(Message::Heartbeat(false)));
    assert_eq!(state, OwnerState::Retired);
    assert!(matches!(action, OwnerAction::Ignore));
    let (state, action) = owner_step(state, start());
    assert_eq!(state, OwnerState::Retired);
    assert!(matches!(action, OwnerAction::Ignore));
    let outcome = Message::Outcome(ScanOutcome::Success(Vec::new()));
    let (state, action) = owner_step(state, OwnerEvent::Received(outcome));
    assert_eq!(state, OwnerState::Retired);
    assert!(matches!(action, OwnerAction::Ignore));
}

#[test]
fn the_owner_shows_the_records() {
    let outcome = Message::Outcome(ScanOutcome::Success(Vec::new()));
    let (state, action) = owner_step(OwnerState::Scanning, OwnerEvent::Received(outcome));
    assert_eq!(state, OwnerState::Retired);
    assert!(matches!(action, OwnerAction::ShowRecords(records) if records.is_empty()));
}

#[test]
fn an_idle_owner_ignores_messages() {
    let (state, action) = owner_step(OwnerState::Idle, OwnerEvent::Received(Message::Heartbeat(true)));
    assert_eq!(state, OwnerState::Idle);
    assert!(matches!(action, OwnerAction::Ignore));
    assert!(!keeps_listening(&state));
}

/// Runs one scan request with worker, heartbeat and owner taking turns as
/// `seed` says, and gives what the owner acted on: the heartbeats, and
/// whether the outcome came last.
fn run(seed: u64) -> (Vec<bool>, bool) {
    let mut random = seed;
    let mut next = move |bound: u64| {
        random = random.wrapping_mul(6364136223846793005).wrapping_add(1442695040888963407);
        (random >> 33) % bound
    };
    let mut channel: VecDeque<Message> = VecDeque::new();
    let mut flag = false;
    let (mut owner, action) = owner_step(OwnerState::Idle, start());
    let (worker, action) = match action {
        OwnerAction::Spawn { path, extensions } => {
            worker_begin(path, extensions, ErrorPolicy::AbortOnError)
        }
        other => panic!("{:?}", other),
    };
    let mut worker = Some(worker);
    let mut pending = Some(action);
    let mut pulse = PulseState::Watching;
    let mut seen: Vec<bool> = Vec::new();
    let mut ended = false;
    let mut turns = 0;
    while keeps_listening(&owner) {
        turns += 1;
        assert!(turns < 10_000);
        match next(3) {
            0 => {
                let event = match pending.take() {
                    Some(WorkerAction::Walk(_)) => Some(WorkerEvent::Listed(listing())),
                    Some(WorkerAction::Stat(paths)) => {
                        Some(WorkerEvent::Statted(paths.iter().map(|_| stat(1)).collect()))
                    }
                    Some(WorkerAction::RaiseStopFlag) => {
                        flag = true;
                        Some(WorkerEvent::Raised)
                    }
                    Some(WorkerAction::Send(message)) => {
                        channel.push_back(message);
                        None
                    }
                    Some(WorkerAction::Nothing) | None => None,
                };
                if let Some(event) = event {
                    let (state, action) = worker_step(worker.take().unwrap(), event);
                    worker = Some(state);
                    pending = Some(action);
                }
            }
            1 => {
                let (state, action) = pulse_step(pulse, flag);
                pulse = state;
                if let Some(message) = message_of_pulse(action) {
                    channel.push_back(message);
                }
            }
            _ => {
                if let Some(message) = channel.pop_front() {
                    assert!(!ended);
                    let (state, action) = owner_step(owner, OwnerEvent::Received(message));
                    owner = state;
                    match action {
                        OwnerAction::Pulse => {
                            assert_ne!(seen.last(), Some(&false));
                            seen.push(true)
                        }
                        OwnerAction::Rest => {
                            assert_ne!(seen.last(), Some(&false));
                            seen.push(false)
                        }
                        OwnerAction::ShowRecords(records) => {
                            assert_eq!(records.len(), 2);
                            ended = true;
                        }
                        other => panic!("{:?}", other),
                    }
                }
            }
        }
    }
    assert!(flag);
    (seen, ended)
}

#[test]
fn the_owner_gets_heartbeats_and_then_one_outcome() {
    let mut with_heartbeats = 0;
    for seed in 0..500 {
        let (seen, ended) = run(seed);
        assert!(ended);
        if !seen.is_empty() {
            with_heartbeats += 1;
        }
    }
    assert!(with_heartbeats > 0);
}

fn received(seed: u64) -> Vec<Message> {
    let mut random = seed;
    let mut next = move |bound: u64| {
        random = random.wrapping_mul(6364136223846793005).wrapping_add(1442695040888963407);
        (random >> 33) % bound
    };
    let mut channel: VecDeque<Message> = VecDeque::new();
    let mut taken: Vec<Message> = Vec::new();
    let mut flag = false;
    let mut pulse = PulseState::Watching;
    let mut worker = WorkerState::Flagging(ScanOutcome::Failure(s("done")));
    let mut scanning = 3 + next(6);
    for _ in 0..200 {
        match next(3) {
            0 => {
                if scanning > 0 {
                    scanning -= 1;
                } else if !flag {
                    flag = true;
                } else {
                    let (state, action) = worker_step(worker, WorkerEvent::Raised);
                    worker = state;
                    if let WorkerAction::Send(message) = action {
                        channel.push_back(message);
                    }
                }
            }
            1 => {
                let (state, action) = pulse_step(pulse, flag);
                pulse = state;
                if let Some(message) = message_of_pulse(action) {
                    channel.push_back(message);
                }
            }
            _ => {
                if let Some(message) = channel.pop_front() {
                    taken.push(message);
                }
            }
        }
    }
    taken.extend(channel);
    taken
}

#[test]
fn the_channel_carries_live_heartbeats_one_last_heartbeat_and_one_outcome() {
    for seed in 0..500 {
        let messages = received(seed);
        let outcomes = messages.iter().filter(|m| matches!(m, Message::Outcome(_))).count();
        assert_eq!(outcomes, 1);
        let beats: Vec<bool> = messages
            .iter()
            .filter_map(|m| if let Message::Heartbeat(alive) = m { Some(*alive) } else { None })
            .collect();
        let last_ones = beats.iter().filter(|alive| !**alive).count();
        assert!(last_ones <= 1);
        if last_ones == 1 {
            assert_eq!(beats.last(), Some(&false));
        }
    }
}

#[test]
fn the_worker_takes_metadata_that_fits_the_paths() {
    let (state, _) = worker_begin(s("root"), s("txt"), ErrorPolicy::AbortOnError);
    assert!(worker_can_take(&state, &WorkerEvent::Statted(Vec::new())));
    assert!(worker_can_take(&state, &WorkerEvent::Raised));
    let (state, _) = worker_step(state, WorkerEvent::Listed(listing()));
    assert!(worker_can_take(&state, &WorkerEvent::Statted(vec![stat(1), stat(2)])));
    assert!(worker_can_take(&state, &WorkerEvent::Statted(vec![stat(1), None])));
    assert!(worker_can_take(&state, &WorkerEvent::Listed(Vec::new())));
    assert!(!worker_can_take(&state, &WorkerEvent::Statted(vec![stat(1)])));
    assert!(!worker_can_take(&state, &WorkerEvent::Statted(vec![stat(1), stat(2), stat(3)])));
    let late = FileStat { len: 1, modified_secs: u64::MAX, modified_nanos: 0 };
    assert!(!worker_can_take(&state, &WorkerEvent::Statted(vec![stat(1), Some(late)])));
    assert!(worker_can_take(&state, &WorkerEvent::Statted(vec![None, Some(late)])));
}
