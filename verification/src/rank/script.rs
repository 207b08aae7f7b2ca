//! Scripts: what a rank says on its transport, reply by reply.
//!
//! A collective is a conversation. Its script names the next call and, for each
//! reply, how the conversation goes on; it ends in a result or a failure. A
//! collective's contract says that the calls it made follow its script and that
//! it returned what the script ended in.

use crate::rank::network::{ExchangeOptions, NetworkFailure};
use crate::rank::error::RankFailure;
use crate::rank::protocol::frame::FrameModel;
use crate::rank::protocol::{ElementType, Opcode};
use crate::rank::topology::error::TopologyFailure;
use vstd::prelude::*;

verus! {

/// What a rank asked of its transport. Times are in nanoseconds.
pub enum TransportCall {
    Heartbeat(u128),
    Send {
        rail: usize,
        destination: u32,
        tag: u64,
        element_type: ElementType,
        element_count: u64,
        payload: Seq<u8>,
    },
    Receive {
        rail: usize,
        source: Option<u32>,
        tag: u64,
        element_type: ElementType,
        element_count: u64,
    },
    Exchange {
        opcode: Opcode,
        element_type: ElementType,
        options: ExchangeOptions,
        payload: Seq<u8>,
    },
    SetTimeout(u128),
    Abort(Seq<char>),
}

/// What the transport answered.
pub enum TransportReply {
    Finished,
    Elapsed(u128),
    Delivered(FrameModel),
    Failed(NetworkFailure),
}

pub struct TransportEvent {
    pub call: TransportCall,
    pub reply: TransportReply,
}

impl TransportReply {
    /// The frame that a receive or an exchange brought.
    pub open spec fn frame(self) -> Result<FrameModel, NetworkFailure> {
        match self {
            TransportReply::Delivered(frame) => Ok(frame),
            TransportReply::Failed(failure) => Err(failure),
            _ => arbitrary(),
        }
    }

    /// Whether a send or a notice went through.
    pub open spec fn outcome(self) -> Result<(), NetworkFailure> {
        match self {
            TransportReply::Finished => Ok(()),
            TransportReply::Failed(failure) => Err(failure),
            _ => arbitrary(),
        }
    }

    /// How long a heartbeat took.
    pub open spec fn time(self) -> Result<u128, NetworkFailure> {
        match self {
            TransportReply::Elapsed(time) => Ok(time),
            TransportReply::Failed(failure) => Err(failure),
            _ => arbitrary(),
        }
    }
}

/// Why a collective failed: by the rank's own checks, on the network, by its
/// topology, or because the device cannot read what it received.
pub enum Failure<E> {
    Rank(RankFailure),
    Network(NetworkFailure),
    Topology(TopologyFailure),
    Device(E),
}

/// A failure and whether it struck inside a channel of a collective.
pub struct Stop<E> {
    pub failure: Failure<E>,
    pub in_channel: bool,
}

pub enum Script<R, E> {
    Done(Result<R, Stop<E>>),
    Ask(TransportCall, spec_fn(TransportReply) -> Script<R, E>),
}

/// The script that ends at once in a value.
pub open spec fn yields<R, E>(value: R) -> Script<R, E> {
    Script::Done(Ok(value))
}

/// The script that ends at once in a failure.
pub open spec fn fails<R, E>(failure: Failure<E>) -> Script<R, E> {
    Script::Done(Err(Stop { failure, in_channel: false }))
}

/// The rank's own refusal for a length.
pub open spec fn bad_length<E>(text: Seq<char>) -> Failure<E> {
    Failure::Rank(RankFailure::InvalidLength(text))
}

/// The rank's own refusal for a size that does not fit.
pub open spec fn too_large<E>(what: Seq<char>) -> Failure<E> {
    Failure::Rank(RankFailure::Overflow(what))
}

/// A reply that the rank does not take.
pub open spec fn bad_reply<E>(text: Seq<char>) -> Failure<E> {
    Failure::Network(NetworkFailure::InvalidConfiguration(text))
}

/// The script `first`, and after its value the script that `next` gives; a
/// failure of `first` ends the whole, marked as one of a channel's own where
/// `in_channel` says so.
pub open spec fn tried<A, B, E>(
    first: Script<A, E>,
    in_channel: bool,
    next: spec_fn(A) -> Script<B, E>,
) -> Script<B, E>
    decreases first,
{
    match first {
        Script::Done(Ok(value)) => next(value),
        Script::Done(Err(stop)) => Script::Done(
            Err(Stop { failure: stop.failure, in_channel: stop.in_channel || in_channel }),
        ),
        Script::Ask(call, rest) => Script::Ask(
            call,
            |reply: TransportReply| tried(rest(reply), in_channel, next),
        ),
    }
}

/// What is left of a script after the events.
pub open spec fn after<R, E>(script: Script<R, E>, events: Seq<TransportEvent>) -> Script<R, E>
    decreases events.len(),
{
    if events.len() == 0 {
        script
    } else {
        match after(script, events.drop_last()) {
            Script::Done(result) => Script::Done(result),
            Script::Ask(_, next) => next(events.last().reply),
        }
    }
}

/// Each event's call is the one that the script names there.
pub open spec fn obeys<R, E>(script: Script<R, E>, events: Seq<TransportEvent>) -> bool
    decreases events.len(),
{
    events.len() == 0 || {
        &&& obeys(script, events.drop_last())
        &&& after(script, events.drop_last()) matches Script::Ask(call, _)
        &&& call == events.last().call
    }
}

/// The events of `now` that `before` does not hold.
pub open spec fn since(before: Seq<TransportEvent>, now: Seq<TransportEvent>) -> Seq<TransportEvent> {
    now.skip(before.len() as int)
}

/// `now` goes on from `before`, by the script.
pub open spec fn followed<R, E>(
    script: Script<R, E>,
    before: Seq<TransportEvent>,
    now: Seq<TransportEvent>,
) -> bool {
    &&& before.len() <= now.len()
    &&& now.take(before.len() as int) == before
    &&& obeys(script, since(before, now))
}

/// What is left of the script at `now`.
pub open spec fn reached<R, E>(
    script: Script<R, E>,
    before: Seq<TransportEvent>,
    now: Seq<TransportEvent>,
) -> Script<R, E> {
    after(script, since(before, now))
}

/// Before the first call the whole script is left.
pub proof fn lemma_start<R, E>(script: Script<R, E>, log: Seq<TransportEvent>)
    ensures
        followed(script, log, log),
        reached(script, log, log) == script,
{
    assert(log.take(log.len() as int) =~= log);
    assert(since(log, log) =~= Seq::empty());
}

/// One call that the script names.
pub proof fn lemma_asked<R, E>(
    script: Script<R, E>,
    before: Seq<TransportEvent>,
    log: Seq<TransportEvent>,
    event: TransportEvent,
)
    requires
        followed(script, before, log),
        reached(script, before, log) is Ask,
        reached(script, before, log)->Ask_0 == event.call,
    ensures
        followed(script, before, log.push(event)),
        reached(script, before, log.push(event)) == (reached(script, before, log)->Ask_1)(
            event.reply,
        ),
{
    let now = log.push(event);
    assert(now.take(before.len() as int) =~= log.take(before.len() as int));
    assert(since(before, now) =~= since(before, log).push(event));
    assert(since(before, now).drop_last() =~= since(before, log));
}

proof fn lemma_after_appended<R, E>(
    script: Script<R, E>,
    first: Seq<TransportEvent>,
    second: Seq<TransportEvent>,
)
    requires
        obeys(script, first),
        obeys(after(script, first), second),
    ensures
        obeys(script, first + second),
        after(script, first + second) == after(after(script, first), second),
    decreases second.len(),
{
    if second.len() == 0 {
        assert(first + second =~= first);
    } else {
        lemma_after_appended(script, first, second.drop_last());
        assert((first + second).drop_last() =~= first + second.drop_last());
        assert((first + second).last() == second.last());
    }
}

proof fn lemma_after_tried<A, B, E>(
    first: Script<A, E>,
    in_channel: bool,
    next: spec_fn(A) -> Script<B, E>,
    events: Seq<TransportEvent>,
)
    requires
        obeys(first, events),
    ensures
        obeys(tried(first, in_channel, next), events),
        after(tried(first, in_channel, next), events) == tried(
            after(first, events),
            in_channel,
            next,
        ),
    decreases events.len(),
{
    if events.len() > 0 {
        lemma_after_tried(first, in_channel, next, events.drop_last());
    }
}

/// A part of the script, run by its own script.
pub proof fn lemma_tried<A, B, E>(
    script: Script<B, E>,
    before: Seq<TransportEvent>,
    log: Seq<TransportEvent>,
    now: Seq<TransportEvent>,
    first: Script<A, E>,
    in_channel: bool,
    next: spec_fn(A) -> Script<B, E>,
)
    requires
        followed(script, before, log),
        reached(script, before, log) == tried(first, in_channel, next),
        followed(first, log, now),
    ensures
        followed(script, before, now),
        reached(script, before, now) == tried(reached(first, log, now), in_channel, next),
{
    lemma_after_tried(first, in_channel, next, since(log, now));
    lemma_after_appended(script, since(before, log), since(log, now));
    lemma_since(before, log, now);
}

/// The rest of the script, run by itself.
pub proof fn lemma_onward<R, E>(
    script: Script<R, E>,
    before: Seq<TransportEvent>,
    log: Seq<TransportEvent>,
    now: Seq<TransportEvent>,
)
    requires
        followed(script, before, log),
        followed(reached(script, before, log), log, now),
    ensures
        followed(script, before, now),
        reached(script, before, now) == reached(reached(script, before, log), log, now),
{
    lemma_after_appended(script, since(before, log), since(log, now));
    lemma_since(before, log, now);
}

proof fn lemma_since(
    before: Seq<TransportEvent>,
    log: Seq<TransportEvent>,
    now: Seq<TransportEvent>,
)
    requires
        before.len() <= log.len() <= now.len(),
        log.take(before.len() as int) == before,
        now.take(log.len() as int) == log,
    ensures
        since(before, now) == since(before, log) + since(log, now),
        now.take(before.len() as int) == before,
{
    assert forall|i: int| 0 <= i < since(before, now).len() implies since(before, now)[i] == (since(
        before,
        log,
    ) + since(log, now))[i] by {
        if before.len() + i < log.len() {
            assert(now.take(log.len() as int)[before.len() + i] == log[before.len() + i]);
        }
    }
    assert(since(before, now) =~= since(before, log) + since(log, now));
    assert(now.take(log.len() as int).take(before.len() as int) =~= now.take(before.len() as int));
}

/// The events run the script to its value.
pub open spec fn ran<R, E>(script: Script<R, E>, events: Seq<TransportEvent>, value: R) -> bool {
    &&& obeys(script, events)
    &&& after(script, events) == Script::<R, E>::Done(Ok(value))
}

/// A script that has ended takes no more calls.
pub proof fn lemma_over<R, E>(result: Result<R, Stop<E>>, events: Seq<TransportEvent>)
    requires
        obeys(Script::<R, E>::Done(result), events),
    ensures
        events.len() == 0,
    decreases events.len(),
{
    if events.len() > 0 {
        lemma_over(result, events.drop_last());
    }
}

/// The first event answers the script's first call, and the others run the rest.
pub proof fn lemma_first_event<R, E>(
    call: TransportCall,
    next: spec_fn(TransportReply) -> Script<R, E>,
    events: Seq<TransportEvent>,
)
    requires
        obeys(Script::Ask(call, next), events),
        events.len() > 0,
    ensures
        events[0].call == call,
        obeys(next(events[0].reply), events.skip(1)),
        after(Script::Ask(call, next), events) == after(next(events[0].reply), events.skip(1)),
    decreases events.len(),
{
    let script = Script::Ask(call, next);
    if events.len() == 1 {
        assert(events.drop_last() =~= Seq::empty());
        assert(events.skip(1) =~= Seq::empty());
        assert(after(script, events.drop_last()) == script);
    } else {
        lemma_first_event(call, next, events.drop_last());
        assert(events.skip(1).drop_last() =~= events.drop_last().skip(1));
    }
}

/// Events that run a script to its value: it has a call for them, and they run
/// what the first reply leaves.
pub proof fn lemma_ran_ask<R, E>(
    call: TransportCall,
    next: spec_fn(TransportReply) -> Script<R, E>,
    events: Seq<TransportEvent>,
    value: R,
)
    requires
        ran(Script::Ask(call, next), events, value),
    ensures
        events.len() > 0,
        events[0].call == call,
        ran(next(events[0].reply), events.skip(1), value),
{
    if events.len() > 0 {
        lemma_first_event(call, next, events);
    }
}

/// Events that run a script in two parts run each of them in turn.
pub proof fn lemma_ran_tried<A, B, E>(
    first: Script<A, E>,
    in_channel: bool,
    next: spec_fn(A) -> Script<B, E>,
    events: Seq<TransportEvent>,
    value: B,
) -> (split: (int, A))
    requires
        ran(tried(first, in_channel, next), events, value),
    ensures
        0 <= split.0 <= events.len(),
        ran(first, events.take(split.0), split.1),
        ran(next(split.1), events.skip(split.0), value),
    decreases first,
{
    match first {
        Script::Done(Ok(mid)) => {
            assert(events.take(0) =~= Seq::empty());
            assert(events.skip(0) =~= events);
            (0, mid)
        },
        Script::Done(Err(stop)) => {
            lemma_over::<B, E>(
                Err(Stop { failure: stop.failure, in_channel: stop.in_channel || in_channel }),
                events,
            );
            arbitrary()
        },
        Script::Ask(call, rest) => {
            let whole = tried(first, in_channel, next);
            assert(whole is Ask && whole->Ask_0 == call);
            lemma_ran_ask(call, whole->Ask_1, events, value);
            let reply = events[0].reply;
            let (k, mid) = lemma_ran_tried(
                rest(reply),
                in_channel,
                next,
                events.skip(1),
                value,
            );
            let one = events.take(1);
            let others = events.skip(1).take(k);
            assert(one + others =~= events.take(k + 1));
            assert(one.drop_last() =~= Seq::empty());
            assert(after(first, one.drop_last()) == first);
            assert(one.last() == events[0]);
            assert(obeys(first, one.drop_last()));
            assert(obeys(first, one));
            assert(after(first, one) == rest(reply));
            lemma_after_appended(first, one, others);
            assert(events.skip(1).skip(k) =~= events.skip(k + 1));
            (k + 1, mid)
        },
    }
}

} // verus!
