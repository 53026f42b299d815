//! One scan request as a whole: the worker, the heartbeat and the owner taking
//! their steps in any order, and what the owner gets to see whatever the order.

use vstd::prelude::*;
use crate::coordinator::{
    owner_next,
    pulse_message,
    pulse_next,
    Message,
    OwnerEvent,
    OwnerState,
    PulseState,
    ScanOutcome,
    WorkerPhase,
};

verus! {

/// The state of one scan request.
pub struct Run {
    /// Whether the stop flag is up.
    pub stop_flag: bool,
    pub worker: WorkerPhase,
    pub heartbeat: PulseState,
    pub owner: OwnerState,
    /// Everything sent over the channel so far, oldest first.
    pub sent: Seq<Message>,
    /// How many of these messages the owner has taken off the channel.
    pub taken: nat,
    /// The messages that the owner took while it was listening, in order.
    pub handled: Seq<Message>,
}

/// What can happen next.
pub enum Move {
    /// The owner is asked for the scan.
    Start { path: String, extensions: String },
    /// The worker's scan ends.
    ScanEnds(ScanOutcome),
    /// The stop flag goes up, as the worker asked.
    RaiseFlag,
    /// The worker sends the outcome.
    SendOutcome,
    /// The heartbeat takes a step on what it saw of the stop flag.
    Heartbeat { stop_seen: bool },
    /// The owner takes the next message off the channel.
    Deliver,
}

/// Before anything happens.
pub open spec fn idle() -> Run {
    Run {
        stop_flag: false,
        worker: WorkerPhase::Working,
        heartbeat: PulseState::Watching,
        owner: OwnerState::Idle,
        sent: Seq::empty(),
        taken: 0,
        handled: Seq::empty(),
    }
}

/// Whether `step` can happen in `run`. Worker and heartbeat exist once the
/// scan is asked for. The worker sends the outcome when the flag is up. What
/// the heartbeat saw of the flag may be out of date, but a flag that is down
/// is never seen up.
pub open spec fn can(run: Run, step: Move) -> bool {
    match step {
        Move::Start { .. } => run.owner is Idle,
        Move::ScanEnds(_) => !(run.owner is Idle) && run.worker is Working,
        Move::RaiseFlag => run.worker is Flagging,
        Move::SendOutcome => run.worker is Flagging && run.stop_flag,
        Move::Heartbeat { stop_seen } => !(run.owner is Idle) && (stop_seen ==> run.stop_flag),
        Move::Deliver => run.taken < run.sent.len(),
    }
}

/// The state after `step` happened in `run`.
pub open spec fn after(run: Run, step: Move) -> Run {
    match step {
        Move::Start { path, extensions } => Run {
            owner: owner_next(run.owner, OwnerEvent::Start { path, extensions }).0,
            ..run
        },
        Move::ScanEnds(outcome) => Run { worker: WorkerPhase::Flagging(outcome), ..run },
        Move::RaiseFlag => Run { stop_flag: true, ..run },
        Move::SendOutcome => Run {
            worker: WorkerPhase::Retired,
            sent: run.sent.push(Message::Outcome(run.worker->Flagging_0)),
            ..run
        },
        Move::Heartbeat { stop_seen } => {
            let (heartbeat, action) = pulse_next(run.heartbeat, stop_seen);
            match pulse_message(action) {
                Some(message) => Run { heartbeat, sent: run.sent.push(message), ..run },
                None => Run { heartbeat, ..run },
            }
        },
        Move::Deliver => {
            let message = run.sent[run.taken as int];
            Run {
                owner: owner_next(run.owner, OwnerEvent::Received(message)).0,
                taken: run.taken + 1,
                handled: if run.owner is Scanning {
                    run.handled.push(message)
                } else {
                    run.handled
                },
                ..run
            }
        },
    }
}

/// The state after all of `steps` happened, one after another.
pub open spec fn run_of(steps: Seq<Move>) -> Run
    decreases steps.len(),
{
    if steps.len() == 0 {
        idle()
    } else {
        after(run_of(steps.drop_last()), steps.last())
    }
}

/// Whether each of `steps` can happen where it stands.
pub open spec fn possible(steps: Seq<Move>) -> bool
    decreases steps.len(),
{
    steps.len() == 0 || (possible(steps.drop_last()) && can(
        run_of(steps.drop_last()),
        steps.last(),
    ))
}

/// Zero or more `Heartbeat(true)`, and behind them at most one
/// `Heartbeat(false)`.
pub open spec fn is_pulse_train(messages: Seq<Message>) -> bool {
    forall|i: int|
        0 <= i < messages.len() ==> (#[trigger] messages[i]) is Heartbeat && (i < messages.len() - 1
            ==> messages[i] == Message::Heartbeat(true))
}

/// How many outcomes `messages` holds.
pub open spec fn outcomes_in(messages: Seq<Message>) -> nat
    decreases messages.len(),
{
    if messages.len() == 0 {
        0
    } else if messages.last() is Outcome {
        outcomes_in(messages.drop_last()) + 1
    } else {
        outcomes_in(messages.drop_last())
    }
}

/// What holds of every state that a scan request can come to.
spec fn consistent(run: Run) -> bool {
    &&& run.owner is Idle ==> run.sent.len() == 0 && run.worker is Working
        && run.heartbeat is Watching
    &&& run.stop_flag ==> run.worker is Flagging || run.worker is Retired
    &&& run.worker is Retired ==> run.stop_flag
    &&& outcomes_in(run.sent) == if run.worker is Retired { 1nat } else { 0nat }
    &&& forall|i: int, j: int|
        0 <= i < j < run.sent.len() && #[trigger] run.sent[i] == Message::Heartbeat(false) ==> !(
        #[trigger] run.sent[j] is Heartbeat)
    &&& forall|i: int|
        0 <= i < run.sent.len() && #[trigger] run.sent[i] == Message::Heartbeat(false)
            ==> run.heartbeat is Stopped && run.stop_flag
    &&& run.taken <= run.sent.len()
    &&& run.handled.len() <= run.taken
    &&& run.handled == run.sent.take(run.handled.len() as int)
    &&& !(run.owner is Retired) ==> run.handled.len() == run.taken && outcomes_in(run.handled) == 0
    &&& run.owner is Retired ==> run.handled.len() >= 1 && run.handled.last() is Outcome
}

/// Counting the outcomes of a sequence that grew by one message.
proof fn lemma_outcomes_push(messages: Seq<Message>, last: Message)
    ensures
        outcomes_in(messages.push(last)) == outcomes_in(messages) + if last is Outcome {
            1nat
        } else {
            0nat
        },
{
    assert(messages.push(last).drop_last() =~= messages);
}

/// A beginning of a sequence holds no more outcomes than all of it.
proof fn lemma_outcomes_take(messages: Seq<Message>, n: int)
    requires
        0 <= n <= messages.len(),
    ensures
        outcomes_in(messages.take(n)) <= outcomes_in(messages),
    decreases messages.len(),
{
    if n < messages.len() {
        assert(messages.drop_last().take(n) =~= messages.take(n));
        lemma_outcomes_take(messages.drop_last(), n);
    } else {
        assert(messages.take(n) =~= messages);
    }
}

/// A sequence that counts no outcome holds none.
proof fn lemma_outcomes_none(messages: Seq<Message>)
    requires
        outcomes_in(messages) == 0,
    ensures
        forall|i: int| 0 <= i < messages.len() ==> !(#[trigger] messages[i] is Outcome),
    decreases messages.len(),
{
    if messages.len() > 0 {
        let front = messages.drop_last();
        lemma_outcomes_none(front);
        assert forall|i: int| 0 <= i < messages.len() implies !(
        #[trigger] messages[i] is Outcome) by {
            if i < front.len() {
                assert(messages[i] == front[i]);
            }
        }
    }
}

/// Where the only outcome of a sequence stands last, none stands before it.
proof fn lemma_outcomes_one(messages: Seq<Message>)
    requires
        messages.len() >= 1,
        messages.last() is Outcome,
        outcomes_in(messages) <= 1,
    ensures
        outcomes_in(messages.drop_last()) == 0,
{
}

/// A step keeps a state consistent.
proof fn lemma_consistent_step(run: Run, step: Move)
    requires
        consistent(run),
        can(run, step),
    ensures
        consistent(after(run, step)),
{
    let next = after(run, step);
    let taken = run.handled.len() as int;
    match step {
        Move::Start { .. } => {},
        Move::ScanEnds(_) => {},
        Move::RaiseFlag => {},
        Move::SendOutcome => {
            lemma_outcomes_push(run.sent, Message::Outcome(run.worker->Flagging_0));
            assert(next.sent.take(taken) =~= run.sent.take(taken));
        },
        Move::Heartbeat { stop_seen } => {
            let (heartbeat, action) = pulse_next(run.heartbeat, stop_seen);
            match pulse_message(action) {
                Some(message) => {
                    lemma_outcomes_push(run.sent, message);
                    assert(next.sent.take(taken) =~= run.sent.take(taken));
                },
                None => {},
            }
        },
        Move::Deliver => {
            let message = run.sent[run.taken as int];
            if run.owner is Scanning {
                lemma_outcomes_push(run.handled, message);
                assert(run.sent.take(taken + 1) =~= run.sent.take(taken).push(message));
                if message is Outcome {
                } else {
                    assert(message is Heartbeat);
                }
            }
        },
    }
}

/// Every state that steps lead to is consistent.
proof fn lemma_consistent(steps: Seq<Move>)
    requires
        possible(steps),
    ensures
        consistent(run_of(steps)),
    decreases steps.len(),
{
    if steps.len() > 0 {
        lemma_consistent(steps.drop_last());
        lemma_consistent_step(run_of(steps.drop_last()), steps.last());
    } else {
        assert(idle().sent.take(0) =~= idle().handled);
    }
}

/// Whatever the order in which worker, heartbeat and owner take their steps:
/// the owner acts on zero or more `Heartbeat(true)`, then on at most one
/// `Heartbeat(false)`, then on the outcome, and on nothing after it. It has
/// retired exactly when it has acted on the outcome. What it acts on is what
/// was sent first. No second outcome is ever sent, and the stop flag is up
/// before the outcome or the last heartbeat goes out.
pub proof fn lemma_owner_sees_one_outcome(steps: Seq<Move>)
    requires
        possible(steps),
    ensures
        ({
            let run = run_of(steps);
            &&& outcomes_in(run.sent) <= 1
            &&& outcomes_in(run.sent) == 1 ==> run.stop_flag
            &&& forall|i: int|
                0 <= i < run.sent.len() && #[trigger] run.sent[i] == Message::Heartbeat(false)
                    ==> run.stop_flag
            &&& run.handled == run.sent.take(run.handled.len() as int)
            &&& if run.owner is Retired {
                &&& run.handled.len() >= 1
                &&& run.handled.last() is Outcome
                &&& is_pulse_train(run.handled.drop_last())
            } else {
                is_pulse_train(run.handled)
            }
        }),
{
    lemma_consistent(steps);
    let run = run_of(steps);
    let handled = run.handled;
    lemma_outcomes_take(run.sent, handled.len() as int);
    if run.owner is Retired {
        let train = handled.drop_last();
        lemma_outcomes_one(handled);
        lemma_outcomes_none(train);
        assert forall|i: int| 0 <= i < train.len() implies (#[trigger] train[i]) is Heartbeat && (i
            < train.len() - 1 ==> train[i] == Message::Heartbeat(true)) by {
            assert(train[i] == run.sent[i]);
            if i < train.len() - 1 {
                assert(train[i + 1] == run.sent[i + 1]);
                assert(run.sent[i + 1] is Heartbeat);
            }
        }
    } else {
        lemma_outcomes_none(handled);
        assert forall|i: int| 0 <= i < handled.len() implies (#[trigger] handled[i]) is Heartbeat
            && (i < handled.len() - 1 ==> handled[i] == Message::Heartbeat(true)) by {
            assert(handled[i] == run.sent[i]);
            if i < handled.len() - 1 {
                assert(handled[i + 1] == run.sent[i + 1]);
                assert(run.sent[i + 1] is Heartbeat);
            }
        }
    }
}

/// How far a scan request is.
pub enum Phase {
    /// Not asked for.
    Idle,
    /// The worker scans; the heartbeat pulses.
    Scanning,
    /// The stop flag is up; the outcome is on its way to the owner.
    Delivering,
    /// The owner has the outcome.
    Retired,
}

/// How far the scan request is in `run`.
pub open spec fn phase(run: Run) -> Phase {
    if run.owner is Idle {
        Phase::Idle
    } else if run.owner is Retired {
        Phase::Retired
    } else if run.stop_flag {
        Phase::Delivering
    } else {
        Phase::Scanning
    }
}

/// A scan request goes from idle to scanning when it is asked for, from
/// scanning to delivering when the stop flag goes up, and from delivering to
/// retired when the owner takes the outcome. It takes no other way, and
/// never goes back.
pub proof fn lemma_phases_in_order(steps: Seq<Move>, step: Move)
    requires
        possible(steps),
        can(run_of(steps), step),
    ensures
        ({
            let before = phase(run_of(steps));
            let then = phase(after(run_of(steps), step));
            ||| then == before
            ||| before is Idle && step is Start && then is Scanning
            ||| before is Scanning && step is RaiseFlag && then is Delivering
            ||| before is Delivering && step is Deliver && then is Retired
        }),
{
    let run = run_of(steps);
    lemma_consistent(steps);
    lemma_consistent_step(run, step);
    if step is Deliver && run.owner is Scanning {
        let message = run.sent[run.taken as int];
        if message is Outcome {
            lemma_outcomes_push(run.handled, message);
            let end = run.taken as int + 1;
            lemma_outcomes_take(run.sent, end);
            assert(run.sent.take(end) =~= run.handled.push(message));
        }
    }
}

/// A step that can happen prolongs a run.
proof fn lemma_one_more(steps: Seq<Move>, step: Move)
    requires
        possible(steps),
        can(run_of(steps), step),
    ensures
        possible(steps.push(step)),
        run_of(steps.push(step)) == after(run_of(steps), step),
{
    assert(steps.push(step).drop_last() =~= steps);
}

/// Once the outcome is sent, deliveries take a listening owner to it.
proof fn lemma_deliveries_reach_the_outcome(steps: Seq<Move>) -> (more: Seq<Move>)
    requires
        possible(steps),
        run_of(steps).owner is Scanning,
        run_of(steps).worker is Retired,
    ensures
        possible(steps + more),
        run_of(steps + more).owner is Retired,
    decreases run_of(steps).sent.len() - run_of(steps).taken,
{
    let run = run_of(steps);
    lemma_consistent(steps);
    assert(run.taken < run.sent.len()) by {
        if run.taken == run.sent.len() {
            assert(run.sent.take(run.taken as int) =~= run.sent);
        }
    }
    let longer = steps.push(Move::Deliver);
    lemma_one_more(steps, Move::Deliver);
    if run_of(longer).owner is Retired {
        assert(steps + seq![Move::Deliver] =~= longer);
        seq![Move::Deliver]
    } else {
        let rest = lemma_deliveries_reach_the_outcome(longer);
        assert(steps + (seq![Move::Deliver] + rest) =~= longer + rest);
        seq![Move::Deliver] + rest
    }
}

/// A scan request that is asked for can always come to its end: however far
/// it is, there are further steps that take the owner to the outcome. Should
/// the scan still go on, they begin with its end, whatever its `outcome`.
pub proof fn lemma_outcome_can_arrive(steps: Seq<Move>, outcome: ScanOutcome) -> (more: Seq<Move>)
    requires
        possible(steps),
        !(run_of(steps).owner is Idle),
    ensures
        possible(steps + more),
        run_of(steps + more).owner is Retired,
{
    lemma_consistent(steps);
    if run_of(steps).owner is Retired {
        assert(steps + Seq::<Move>::empty() =~= steps);
        Seq::empty()
    } else {
        let mut now = steps;
        let mut more = Seq::<Move>::empty();
        assert(steps + more =~= now);
        if run_of(now).worker is Working {
            lemma_one_more(now, Move::ScanEnds(outcome));
            now = now.push(Move::ScanEnds(outcome));
            more = more.push(Move::ScanEnds(outcome));
            assert(steps + more =~= now);
        }
        lemma_consistent(now);
        if run_of(now).worker is Flagging && !run_of(now).stop_flag {
            lemma_one_more(now, Move::RaiseFlag);
            now = now.push(Move::RaiseFlag);
            more = more.push(Move::RaiseFlag);
            assert(steps + more =~= now);
        }
        if run_of(now).worker is Flagging {
            lemma_one_more(now, Move::SendOutcome);
            now = now.push(Move::SendOutcome);
            more = more.push(Move::SendOutcome);
            assert(steps + more =~= now);
        }
        let rest = lemma_deliveries_reach_the_outcome(now);
        assert(steps + (more + rest) =~= now + rest);
        more + rest
    }
}

} // verus!
