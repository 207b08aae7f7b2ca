//! How a script fares with a transport that works: given good answers, it ends in
//! a value unless a count does not fit.

use crate::rank::error::RankFailure;
use crate::rank::script::{
    after, lemma_first_event, lemma_over, obeys, tried, Failure, Script, TransportCall,
    TransportEvent, TransportReply,
};
use vstd::prelude::*;

verus! {

/// Every call is answered as it should be.
pub open spec fn well_answered(
    answers: spec_fn(TransportCall, TransportReply) -> bool,
    events: Seq<TransportEvent>,
) -> bool {
    forall|i: int|
        0 <= i < events.len() ==> answers((#[trigger] events[i]).call, events[i].reply)
}

/// A size or a count did not fit.
pub open spec fn overflowed<E>(failure: Failure<E>) -> bool {
    failure matches Failure::Rank(RankFailure::Overflow(_))
}

/// A script that has ended has a value that is hoped for, or stopped because a
/// count did not fit.
pub open spec fn stands<R, E>(script: Script<R, E>, hopes: spec_fn(R) -> bool) -> bool {
    match script {
        Script::Done(Ok(value)) => hopes(value),
        Script::Done(Err(stop)) => overflowed(stop.failure),
        Script::Ask(..) => true,
    }
}

/// Well answered, the script stands wherever it is.
pub open spec fn fares<R, E>(
    script: Script<R, E>,
    answers: spec_fn(TransportCall, TransportReply) -> bool,
    hopes: spec_fn(R) -> bool,
) -> bool {
    forall|events: Seq<TransportEvent>| #[trigger]
        obeys(script, events) && well_answered(answers, events) ==> stands(
            after(script, events),
            hopes,
        )
}

/// Any value will do.
pub open spec fn anything<R>() -> spec_fn(R) -> bool {
    |value: R| true
}

/// A script that has ended.
pub proof fn lemma_fares_done<R, E>(
    script: Script<R, E>,
    answers: spec_fn(TransportCall, TransportReply) -> bool,
    hopes: spec_fn(R) -> bool,
)
    requires
        script is Done,
        stands(script, hopes),
    ensures
        fares(script, answers, hopes),
{
    assert forall|events: Seq<TransportEvent>| #[trigger]
        obeys(script, events) && well_answered(answers, events) implies stands(
        after(script, events),
        hopes,
    ) by {
        lemma_over(script->Done_0, events);
    }
}

/// A call, and how the script goes on after each good answer.
pub proof fn lemma_fares_ask<R, E>(
    script: Script<R, E>,
    answers: spec_fn(TransportCall, TransportReply) -> bool,
    hopes: spec_fn(R) -> bool,
)
    requires
        script is Ask,
        forall|reply: TransportReply|
            answers(script->Ask_0, reply) ==> fares(
                #[trigger] (script->Ask_1)(reply),
                answers,
                hopes,
            ),
    ensures
        fares(script, answers, hopes),
{
    assert forall|events: Seq<TransportEvent>| #[trigger]
        obeys(script, events) && well_answered(answers, events) implies stands(
        after(script, events),
        hopes,
    ) by {
        if events.len() > 0 {
            let next = script->Ask_1;
            lemma_first_event(script->Ask_0, next, events);
            let rest = events.skip(1);
            assert(answers(events[0].call, events[0].reply));
            assert(well_answered(answers, rest)) by {
                assert forall|i: int| 0 <= i < rest.len() implies answers(
                    (#[trigger] rest[i]).call,
                    rest[i].reply,
                ) by {
                    assert(rest[i] == events[i + 1]);
                }
            }
            assert(fares(next(events[0].reply), answers, hopes));
            assert(obeys(next(events[0].reply), rest));
        }
    }
}

/// Events that follow two scripts in turn are still with the first, or the first
/// has come to a value and the others are with what that leads to.
proof fn lemma_parts<A, B, E>(
    first: Script<A, E>,
    in_channel: bool,
    next: spec_fn(A) -> Script<B, E>,
    events: Seq<TransportEvent>,
) -> (split: int)
    requires
        obeys(tried(first, in_channel, next), events),
    ensures
        0 <= split <= events.len(),
        obeys(first, events.take(split)),
        split == events.len() ==> after(tried(first, in_channel, next), events) == tried(
            after(first, events),
            in_channel,
            next,
        ),
        split < events.len() ==> {
            &&& after(first, events.take(split)) matches Script::Done(Ok(value))
            &&& obeys(next(value), events.skip(split))
            &&& after(tried(first, in_channel, next), events) == after(
                next(value),
                events.skip(split),
            )
        },
    decreases events.len(),
{
    let whole = tried(first, in_channel, next);
    if events.len() == 0 {
        assert(events.take(0) =~= events);
        0
    } else {
        let before = events.drop_last();
        let split = lemma_parts(first, in_channel, next, before);
        assert(before.take(split) =~= events.take(split));
        if split < before.len() {
            assert(events.skip(split).drop_last() =~= before.skip(split));
            assert(events.skip(split).last() == events.last());
            split
        } else {
            assert(before.take(split) =~= before);
            match after(first, before) {
                Script::Ask(call, rest) => {
                    assert(events.take(split + 1) =~= events);
                    assert(obeys(first, events));
                    split + 1
                },
                Script::Done(Ok(value)) => {
                    assert(events.skip(split).drop_last() =~= Seq::<TransportEvent>::empty());
                    assert(events.skip(split).len() == 1);
                    assert(events.skip(split).last() == events.last());
                    assert(after(whole, before) == next(value));
                    assert(after(next(value), events.skip(split).drop_last()) == next(value));
                    assert(obeys(next(value), events.skip(split).drop_last()));
                    assert(obeys(next(value), events.skip(split)));
                    assert(after(whole, events) == after(next(value), events.skip(split)));
                    split
                },
                Script::Done(Err(_)) => {
                    assert(false);
                    split
                },
            }
        }
    }
}

/// Two scripts in turn.
pub proof fn lemma_fares_tried<A, B, E>(
    first: Script<A, E>,
    in_channel: bool,
    next: spec_fn(A) -> Script<B, E>,
    answers: spec_fn(TransportCall, TransportReply) -> bool,
    hopes: spec_fn(A) -> bool,
    wishes: spec_fn(B) -> bool,
)
    requires
        fares(first, answers, hopes),
        forall|value: A| #[trigger] hopes(value) ==> fares(next(value), answers, wishes),
    ensures
        fares(tried(first, in_channel, next), answers, wishes),
{
    let whole = tried(first, in_channel, next);
    assert forall|events: Seq<TransportEvent>| #[trigger]
        obeys(whole, events) && well_answered(answers, events) implies stands(
        after(whole, events),
        wishes,
    ) by {
        let split = lemma_parts(first, in_channel, next, events);
        let start = events.take(split);
        let rest = events.skip(split);
        assert forall|i: int| 0 <= i < start.len() implies answers(
            (#[trigger] start[i]).call,
            start[i].reply,
        ) by {
            assert(start[i] == events[i]);
        }
        assert forall|i: int| 0 <= i < rest.len() implies answers(
            (#[trigger] rest[i]).call,
            rest[i].reply,
        ) by {
            assert(rest[i] == events[i + split]);
        }
        assert(stands(after(first, start), hopes));
        if split == events.len() {
            assert(start =~= events);
            match after(first, events) {
                Script::Done(Ok(value)) => {
                    assert(hopes(value));
                    let none = Seq::<TransportEvent>::empty();
                    assert(obeys(next(value), none));
                    assert(after(next(value), none) == next(value));
                },
                Script::Done(Err(_)) => {},
                Script::Ask(..) => {},
            }
        } else {
            let value = after(first, start)->Done_0->Ok_0;
            assert(hopes(value));
            assert(fares(next(value), answers, wishes));
            assert(obeys(next(value), rest));
        }
    }
}

} // verus!
