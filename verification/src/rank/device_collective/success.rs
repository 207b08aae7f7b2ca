//! What a call returns where the device refuses nothing and the transport works.

use crate::rank::device::RankDevice;
use crate::rank::device_collective::hierarchical::prospects::works;
use crate::rank::device_collective::{carries, conversed, performed, Scope, Standing};
use crate::rank::error::RankError;
use crate::rank::network::NetworkError;
use crate::rank::prospects::{fares, overflowed, well_answered};
use crate::rank::script::{after, obeys, since, Failure, Script};
use crate::rank::topology::TopologyError;
use vstd::prelude::*;

verus! {

/// The error reports that a size or a count did not fit.
pub open spec fn reports_overflow<E>(error: E) -> bool where
    E: From<RankError> + From<NetworkError> + From<TopologyError>,
 {
    exists|failure: Failure<E>| overflowed(failure) && #[trigger] carries(error, failure)
}

proof fn lemma_conversed_succeeds<T, D: RankDevice<T>, R>(
    script: Script<R, D::Error>,
    hopes: spec_fn(R) -> bool,
    before: Standing<D::Error>,
    now: Standing<D::Error>,
    result: Result<R, D::Error>,
    in_channel: bool,
) where D::Error: From<RankError> + From<NetworkError> + From<TopologyError>
    requires
        fares(script, works::<T, D>(), hopes),
        conversed(script, before, now, result, in_channel),
        now.faults == before.faults,
        well_answered(works::<T, D>(), since(before.log, now.log)),
    ensures
        match result {
            Ok(value) => hopes(value),
            Err(error) => reports_overflow(error),
        },
{
    let events = since(before.log, now.log);
    assert(obeys(script, events));
    if let Err(error) = result {
        assert(now.faults.len() == before.faults.len());
        let stop = after(script, events)->Done_0->Err_0;
        assert(carries(error, stop.failure));
    }
}

/// A collective whose script fares well returns its value where the device refused
/// nothing and every call was answered as a working transport does; the only error
/// is that a size or a count does not fit.
pub proof fn law_working_parts_bring_a_result<T, D: RankDevice<T>, R>(
    script: Script<R, D::Error>,
    hopes: spec_fn(R) -> bool,
    label: Seq<char>,
    scope: Scope,
    before: Standing<D::Error>,
    now: Standing<D::Error>,
    result: Result<R, D::Error>,
) where D::Error: From<RankError> + From<NetworkError> + From<TopologyError>
    requires
        fares(script, works::<T, D>(), hopes),
        performed::<T, D, R>(script, label, scope, before, now, result),
        now.faults == before.faults,
        well_answered(works::<T, D>(), since(before.log, now.log)),
    ensures
        match result {
            Ok(value) => hopes(value),
            Err(error) => reports_overflow(error),
        },
{
    if conversed(script, before, now, result, false) {
        lemma_conversed_succeeds::<T, D, R>(script, hopes, before, now, result, false);
    } else {
        let quiet = Standing { log: now.log.drop_last(), faults: now.faults };
        let events = since(before.log, now.log);
        let fewer = since(before.log, quiet.log);
        assert forall|i: int| 0 <= i < fewer.len() implies works::<T, D>()(
            (#[trigger] fewer[i]).call,
            fewer[i].reply,
        ) by {
            assert(fewer[i] == events[i]);
        }
        lemma_conversed_succeeds::<T, D, R>(script, hopes, before, quiet, result, true);
    }
}

} // verus!
