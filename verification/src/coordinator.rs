//! The protocol between a scan that runs in the background and its owner.
//!
//! Three parties share one channel and one stop flag. The worker scans, then
//! has the flag raised, then sends the outcome. The heartbeat sends a pulse, sleeps
//! and looks at the flag, again and again, until it sees the flag raised. The
//! owner takes messages off the channel until it has the outcome. Each party
//! is a small state machine here; whoever runs it performs the actions that a
//! step asks for.

use vstd::prelude::*;
use crate::finder::{find, nothing_found};
use crate::listing::{matched_paths, WalkEntry};
use crate::stated::{
    are_records_of,
    can_list,
    enrich,
    failure_message,
    first_missing,
    listable,
    succeeds,
    ErrorPolicy,
    FileRecord,
    FileStat,
};
use crate::text::{copy_strings, split_on};

verus! {

/// How long the heartbeat sleeps after a pulse, in milliseconds.
pub const HEARTBEAT_MILLIS: u64 = 700;

/// How a scan ended.
#[derive(Debug)]
pub enum ScanOutcome {
    /// The records of the files found.
    Success(Vec<FileRecord>),
    /// Why there are none.
    Failure(String),
}

/// What travels over the channel.
#[derive(Debug)]
pub enum Message {
    /// A sign of life: `true` while the scan goes on, `false` as the last one.
    Heartbeat(bool),
    /// The end of the scan.
    Outcome(ScanOutcome),
}

/// The outcome that the result of a scan stands for.
pub fn outcome_of(result: Result<Vec<FileRecord>, String>) -> (outcome: ScanOutcome)
    ensures
        outcome == match result {
            Ok(records) => ScanOutcome::Success(records),
            Err(message) => ScanOutcome::Failure(message),
        },
{
    match result {
        Ok(records) => ScanOutcome::Success(records),
        Err(message) => ScanOutcome::Failure(message),
    }
}

/// Where the heartbeat stands.
#[derive(Debug, Clone, Copy, PartialEq, Eq, Structural)]
pub enum PulseState {
    /// About to look at the flag before a pulse.
    Watching,
    /// A pulse is out and the sleep is over; about to look at the flag again.
    Slept,
    /// Gone.
    Stopped,
}

/// What the heartbeat does next.
#[derive(Debug, Clone, Copy, PartialEq, Eq, Structural)]
pub enum PulseAction {
    /// Nothing; look at the flag again.
    Nothing,
    /// Send `Heartbeat(true)`, then sleep for so many milliseconds.
    Pulse { sleep_millis: u64 },
    /// Send `Heartbeat(false)`.
    SignOff,
}

/// One step of the heartbeat, on what it just saw of the stop flag. While
/// the flag is down it pulses and sleeps for `HEARTBEAT_MILLIS`, then looks
/// again. When it sees the flag up after a sleep it signs off; when it sees
/// the flag up before a pulse it goes without a word.
pub open spec fn pulse_next(state: PulseState, stop_seen: bool) -> (PulseState, PulseAction) {
    match state {
        PulseState::Watching => if stop_seen {
            (PulseState::Stopped, PulseAction::Nothing)
        } else {
            (PulseState::Slept, PulseAction::Pulse { sleep_millis: HEARTBEAT_MILLIS })
        },
        PulseState::Slept => if stop_seen {
            (PulseState::Stopped, PulseAction::SignOff)
        } else {
            (PulseState::Watching, PulseAction::Nothing)
        },
        PulseState::Stopped => (PulseState::Stopped, PulseAction::Nothing),
    }
}

/// One step of the heartbeat, on what it just saw of the stop flag.
pub fn pulse_step(state: PulseState, stop_seen: bool) -> (next: (PulseState, PulseAction))
    ensures
        next == pulse_next(state, stop_seen),
{
    match state {
        PulseState::Watching => if stop_seen {
            (PulseState::Stopped, PulseAction::Nothing)
        } else {
            (PulseState::Slept, PulseAction::Pulse { sleep_millis: HEARTBEAT_MILLIS })
        },
        PulseState::Slept => if stop_seen {
            (PulseState::Stopped, PulseAction::SignOff)
        } else {
            (PulseState::Watching, PulseAction::Nothing)
        },
        PulseState::Stopped => (PulseState::Stopped, PulseAction::Nothing),
    }
}

/// The message that an action of the heartbeat sends, if any.
pub open spec fn pulse_message(action: PulseAction) -> Option<Message> {
    match action {
        PulseAction::Nothing => None,
        PulseAction::Pulse { .. } => Some(Message::Heartbeat(true)),
        PulseAction::SignOff => Some(Message::Heartbeat(false)),
    }
}

/// The message that an action of the heartbeat sends, if any.
pub fn message_of_pulse(action: PulseAction) -> (message: Option<Message>)
    ensures
        message == pulse_message(action),
{
    match action {
        PulseAction::Nothing => None,
        PulseAction::Pulse { .. } => Some(Message::Heartbeat(true)),
        PulseAction::SignOff => Some(Message::Heartbeat(false)),
    }
}

/// Where the worker stands.
#[derive(Debug)]
pub enum WorkerState {
    /// Waiting for the listing of the tree under `path`.
    Walking { path: String, extensions: String, policy: ErrorPolicy },
    /// Waiting for the metadata of the paths found.
    Statting { paths: Vec<String>, policy: ErrorPolicy },
    /// The scan is over. Waiting for the stop flag to go up; the outcome is
    /// still to be sent.
    Flagging(ScanOutcome),
    /// Gone.
    Retired,
}

/// What happens to the worker.
#[derive(Debug)]
pub enum WorkerEvent {
    /// The tree is listed.
    Listed(Vec<Option<WalkEntry>>),
    /// The metadata of the paths found is read, in the order of the paths;
    /// `None` stands for a file whose metadata could not be read.
    Statted(Vec<Option<FileStat>>),
    /// The stop flag is up.
    Raised,
}

/// What the worker does next.
#[derive(Debug)]
pub enum WorkerAction {
    /// Nothing.
    Nothing,
    /// List the tree under this root.
    Walk(String),
    /// Read the metadata of these files.
    Stat(Vec<String>),
    /// Raise the stop flag.
    RaiseStopFlag,
    /// Send this message.
    Send(Message),
}

/// Whether the worker can take `event` in `state`: metadata must come as one
/// look per path found, such that the paths can be listed from it.
pub open spec fn worker_takes(state: WorkerState, event: WorkerEvent) -> bool {
    match (state, event) {
        (WorkerState::Statting { paths, .. }, WorkerEvent::Statted(stats)) => can_list(
            paths.deep_view(),
            stats@,
        ),
        _ => true,
    }
}

/// Whether the worker can take `event` in `state`.
pub fn worker_can_take(state: &WorkerState, event: &WorkerEvent) -> (able: bool)
    ensures
        able == worker_takes(*state, *event),
{
    match state {
        WorkerState::Statting { paths, .. } => match event {
            WorkerEvent::Statted(stats) => listable(paths, stats),
            _ => true,
        },
        _ => true,
    }
}

/// Whether `next` and `action` are a step of the worker from `state` on
/// `event`.
///
/// On the listing the worker searches it: where nothing is found the scan is
/// over with a failure that says so, otherwise the metadata of the paths
/// found is asked for. On the metadata the worker makes the records: the
/// scan is over with them, or with the failure of the listing. Once the scan
/// is over the stop flag goes up first, and the outcome is sent when it is
/// up. Any other event changes nothing.
pub open spec fn worker_moves(
    state: WorkerState,
    event: WorkerEvent,
    next: WorkerState,
    action: WorkerAction,
) -> bool {
    match (state, event) {
        (WorkerState::Walking { path, extensions, policy }, WorkerEvent::Listed(items)) => {
            let found = matched_paths(items.deep_view(), split_on(extensions@, '|'));
            if found.len() == 0 {
                &&& next matches WorkerState::Flagging(ScanOutcome::Failure(message))
                &&& message@ == nothing_found()
                &&& action is RaiseStopFlag
            } else {
                &&& next matches WorkerState::Statting { paths, policy: kept }
                &&& paths.deep_view() == found
                &&& kept == policy
                &&& action matches WorkerAction::Stat(list)
                &&& list.deep_view() == found
            }
        },
        (WorkerState::Statting { paths, policy }, WorkerEvent::Statted(stats)) => {
            &&& next matches WorkerState::Flagging(outcome)
            &&& outcome is Success <==> succeeds(policy, stats@)
            &&& outcome matches ScanOutcome::Success(records) ==> are_records_of(
                records.deep_view(),
                paths.deep_view(),
                stats@,
            )
            &&& outcome matches ScanOutcome::Failure(message) ==> message@ == failure_message(
                paths[first_missing(stats@)]@,
            )
            &&& action is RaiseStopFlag
        },
        (WorkerState::Flagging(outcome), WorkerEvent::Raised) => {
            &&& next is Retired
            &&& action == WorkerAction::Send(Message::Outcome(outcome))
        },
        _ => next == state && action is Nothing,
    }
}

/// The worker of a scan under `path` for the extensions that `extensions`
/// lists, and its first action: to list the tree.
pub fn worker_begin(path: String, extensions: String, policy: ErrorPolicy) -> (begun: (
    WorkerState,
    WorkerAction,
))
    ensures
        begun.0 == (WorkerState::Walking { path, extensions, policy }),
        begun.1 == WorkerAction::Walk(path),
{
    let root = path.clone();
    (WorkerState::Walking { path, extensions, policy }, WorkerAction::Walk(root))
}

/// One step of the worker: what it turns into on `event`, and what it asks
/// for next.
pub fn worker_step(state: WorkerState, event: WorkerEvent) -> (next: (WorkerState, WorkerAction))
    requires
        worker_takes(state, event),
    ensures
        worker_moves(state, event, next.0, next.1),
{
    match state {
        WorkerState::Walking { path, extensions, policy } => match event {
            WorkerEvent::Listed(items) => match find(path, extensions, &items) {
                Err(message) => (
                    WorkerState::Flagging(ScanOutcome::Failure(message)),
                    WorkerAction::RaiseStopFlag,
                ),
                Ok(paths) => {
                    let list = copy_strings(&paths);
                    (WorkerState::Statting { paths, policy }, WorkerAction::Stat(list))
                },
            },
            event => (WorkerState::Walking { path, extensions, policy }, WorkerAction::Nothing),
        },
        WorkerState::Statting { paths, policy } => match event {
            WorkerEvent::Statted(stats) => (
                WorkerState::Flagging(outcome_of(enrich(policy, &paths, &stats))),
                WorkerAction::RaiseStopFlag,
            ),
            event => (WorkerState::Statting { paths, policy }, WorkerAction::Nothing),
        },
        WorkerState::Flagging(outcome) => match event {
            WorkerEvent::Raised => (
                WorkerState::Retired,
                WorkerAction::Send(Message::Outcome(outcome)),
            ),
            event => (WorkerState::Flagging(outcome), WorkerAction::Nothing),
        },
        WorkerState::Retired => (WorkerState::Retired, WorkerAction::Nothing),
    }
}

/// How far the worker is, as the others see it.
pub enum WorkerPhase {
    /// Scanning.
    Working,
    /// The scan is over with this outcome; the outcome is not sent yet.
    Flagging(ScanOutcome),
    /// The outcome is sent.
    Retired,
}

/// How far a worker in `state` is.
pub open spec fn phase_of(state: WorkerState) -> WorkerPhase {
    match state {
        WorkerState::Walking { .. } => WorkerPhase::Working,
        WorkerState::Statting { .. } => WorkerPhase::Working,
        WorkerState::Flagging(outcome) => WorkerPhase::Flagging(outcome),
        WorkerState::Retired => WorkerPhase::Retired,
    }
}

/// A step of the worker asks for the stop flag exactly when it ends the
/// scan, sends a message exactly when it has seen the flag up after that, and
/// then sends the outcome of the scan. Any other step leaves the worker as
/// far as it was.
pub proof fn lemma_worker_step_in_order(
    state: WorkerState,
    event: WorkerEvent,
    next: WorkerState,
    action: WorkerAction,
)
    requires
        worker_moves(state, event, next, action),
    ensures
        action is RaiseStopFlag <==> phase_of(state) is Working && phase_of(next) is Flagging,
        action is Send <==> phase_of(state) is Flagging && event is Raised,
        action is Send ==> phase_of(next) is Retired && action == WorkerAction::Send(
            Message::Outcome(phase_of(state)->Flagging_0),
        ),
        !(action is RaiseStopFlag) && !(action is Send) ==> phase_of(next) == phase_of(state),
{
}

/// Where the owner stands.
#[derive(Debug, Clone, Copy, PartialEq, Eq, Structural)]
pub enum OwnerState {
    /// No scan asked for yet.
    Idle,
    /// Waiting for the outcome.
    Scanning,
    /// The outcome is in; the channel is released.
    Retired,
}

/// What happens to the owner.
#[derive(Debug)]
pub enum OwnerEvent {
    /// A scan under `path` is asked for, for the extensions that `extensions`
    /// lists.
    Start { path: String, extensions: String },
    /// A message came off the channel.
    Received(Message),
}

/// What the owner does next.
#[derive(Debug)]
pub enum OwnerAction {
    /// Nothing.
    Ignore,
    /// Start a heartbeat, and a worker for a scan under `path` for the
    /// extensions that `extensions` lists.
    Spawn { path: String, extensions: String },
    /// Move the progress indicator.
    Pulse,
    /// Bring the progress indicator to rest.
    Rest,
    /// Show the records; stop listening.
    ShowRecords(Vec<FileRecord>),
    /// Show the failure; stop listening.
    ShowFailure(String),
}

/// One step of the owner. An idle owner that is asked for a scan starts
/// worker and heartbeat, once. A live heartbeat moves the progress indicator
/// and the last heartbeat brings it to rest; neither ends the listening. The
/// outcome does. Whatever comes after it, or before a scan was asked for, is
/// ignored.
pub open spec fn owner_next(state: OwnerState, event: OwnerEvent) -> (OwnerState, OwnerAction) {
    match (state, event) {
        (OwnerState::Idle, OwnerEvent::Start { path, extensions }) => (
            OwnerState::Scanning,
            OwnerAction::Spawn { path, extensions },
        ),
        (OwnerState::Scanning, OwnerEvent::Received(Message::Heartbeat(alive))) => (
            OwnerState::Scanning,
            if alive {
                OwnerAction::Pulse
            } else {
                OwnerAction::Rest
            },
        ),
        (
            OwnerState::Scanning,
            OwnerEvent::Received(Message::Outcome(ScanOutcome::Success(records))),
        ) => (OwnerState::Retired, OwnerAction::ShowRecords(records)),
        (
            OwnerState::Scanning,
            OwnerEvent::Received(Message::Outcome(ScanOutcome::Failure(message))),
        ) => (OwnerState::Retired, OwnerAction::ShowFailure(message)),
        (state, _) => (state, OwnerAction::Ignore),
    }
}

/// One step of the owner: what it turns into on `event`, and what it does
/// next.
pub fn owner_step(state: OwnerState, event: OwnerEvent) -> (next: (OwnerState, OwnerAction))
    ensures
        next == owner_next(state, event),
{
    match (state, event) {
        (OwnerState::Idle, OwnerEvent::Start { path, extensions }) => (
            OwnerState::Scanning,
            OwnerAction::Spawn { path, extensions },
        ),
        (OwnerState::Scanning, OwnerEvent::Received(Message::Heartbeat(alive))) => (
            OwnerState::Scanning,
            if alive {
                OwnerAction::Pulse
            } else {
                OwnerAction::Rest
            },
        ),
        (
            OwnerState::Scanning,
            OwnerEvent::Received(Message::Outcome(ScanOutcome::Success(records))),
        ) => (OwnerState::Retired, OwnerAction::ShowRecords(records)),
        (
            OwnerState::Scanning,
            OwnerEvent::Received(Message::Outcome(ScanOutcome::Failure(message))),
        ) => (OwnerState::Retired, OwnerAction::ShowFailure(message)),
        (state, _) => (state, OwnerAction::Ignore),
    }
}

/// Whether the owner keeps listening on the channel.
pub fn keeps_listening(state: &OwnerState) -> (listening: bool)
    ensures
        listening == (*state is Scanning),
{
    match state {
        OwnerState::Scanning => true,
        _ => false,
    }
}

} // verus!
