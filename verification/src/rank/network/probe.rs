//! Probing the links between ranks: what is measured, how samples become
//! link metrics, and the topology that all measurements give.

use crate::chars::{chars_of, number, parse_number, trim_chars, trimmed};
use crate::math::{
    saturate_u128, saturate_u64, saturating_add_u64, saturating_mul_u128, saturating_mul_u64,
};
use crate::rank::hash::{fnv, fnv_u32, fnv_u64, FNV_OFFSET};
use crate::rank::network::control::{
    checked, invalid, not_unicode, not_unicode_error,
};
use crate::rank::network::{NetworkError, NetworkFailure};
use crate::rank::protocol::header::{extend, get_u64};
use crate::rank::protocol::MAX_FRAME_PAYLOAD_BYTES;
use crate::rank::topology::links::{
    CollectiveTopology, TopologyAggregateLink, TopologyLink, TopologyModel, TopologyRailLink,
};
use crate::rank::topology::parse::{Variable, VariableModel};
use crate::rank::topology::{TopologyFailure, MAX_P2P_RAILS};
use crate::rank::CollectiveTransport;
use crate::text::{decimal, push_decimal, push_usize, quote, quoted};
use vstd::bytes::*;
use vstd::prelude::*;
use vstd::relations::*;
use vstd::seq_lib::*;
use vstd::string::*;

verus! {

pub const TOPOLOGY_PROBE_TAG_PREFIX: u64 = 0x475a_0000_0000_0000;

#[derive(Debug, Clone, Copy, PartialEq, Eq, Structural)]
pub struct TopologyProbeOptions {
    pub payload_bytes: usize,
    pub latency_iterations: usize,
    pub bandwidth_iterations: usize,
    pub warmup_iterations: usize,
}

impl Default for TopologyProbeOptions {
    fn default() -> (options: Self)
        ensures
            options == default_options(),
    {
        Self {
            payload_bytes: 1_048_576,
            latency_iterations: 16,
            bandwidth_iterations: 3,
            warmup_iterations: 1,
        }
    }
}

pub open spec fn default_options() -> TopologyProbeOptions {
    TopologyProbeOptions {
        payload_bytes: 1_048_576,
        latency_iterations: 16,
        bandwidth_iterations: 3,
        warmup_iterations: 1,
    }
}

/// The settings that probe options are read from.
#[derive(Debug, Clone, PartialEq, Eq)]
pub struct ProbeVariables {
    /// `GX1_TOPOLOGY_PROBE_BYTES`
    pub payload_bytes: Variable,
    /// `GX1_TOPOLOGY_PROBE_LATENCY_ITERATIONS`
    pub latency_iterations: Variable,
    /// `GX1_TOPOLOGY_PROBE_BANDWIDTH_ITERATIONS`
    pub bandwidth_iterations: Variable,
    /// `GX1_TOPOLOGY_PROBE_WARMUP_ITERATIONS`
    pub warmup_iterations: Variable,
}

/// The number that a probe setting holds, or its default.
pub open spec fn probe_setting(name: Seq<char>, value: VariableModel, default: nat) -> Result<
    nat,
    NetworkFailure,
> {
    match value {
        VariableModel::Absent => Ok(default),
        VariableModel::NotUnicode(text) => Err(not_unicode(name, text)),
        VariableModel::Text(text) => match number(trimmed(text), usize::MAX as nat) {
            Some(number) => Ok(number),
            None => Err(invalid(name + " must be a non-negative integer, got "@ + quoted(text))),
        },
    }
}

fn parse_probe_usize(name: &'static str, value: &Variable, default: usize) -> (result: Result<
    usize,
    NetworkError,
>)
    ensures
        match probe_setting(name@, value@, default as nat) {
            Ok(number) => result is Ok && result->Ok_0 == number,
            Err(failure) => result is Err && result->Err_0@ == failure,
        },
{
    match value {
        Variable::Absent => Ok(default),
        Variable::NotUnicode(text) => Err(not_unicode_error(name, text.as_str())),
        Variable::Text(text) => {
            let chars = chars_of(text.as_str());
            let inner = trim_chars(chars.as_slice());
            match parse_number(inner.as_slice(), usize::MAX as u64) {
                Some(number) => Ok(number as usize),
                None => {
                    let mut message = String::from_str(name);
                    message.append(" must be a non-negative integer, got ");
                    let shown = quote(text.as_str());
                    message.append(shown.as_str());
                    Err(NetworkError::InvalidConfiguration(message))
                },
            }
        },
    }
}

/// Why options cannot be used.
pub open spec fn options_defect(options: TopologyProbeOptions) -> Option<NetworkFailure> {
    if options.payload_bytes == 0 || options.payload_bytes > MAX_FRAME_PAYLOAD_BYTES {
        Some(
            invalid(
                "topology probe payload "@ + decimal(options.payload_bytes as nat)
                    + " is outside 1..="@ + decimal(MAX_FRAME_PAYLOAD_BYTES as nat),
            ),
        )
    } else if options.latency_iterations == 0 || options.bandwidth_iterations == 0 {
        Some(
            invalid(
                "topology probe latency and bandwidth iterations must be greater than zero"@,
            ),
        )
    } else if options.latency_iterations > 10_000 || options.bandwidth_iterations > 10_000
        || options.warmup_iterations > 10_000 {
        Some(invalid("topology probe iteration counts must not exceed 10000"@))
    } else {
        None
    }
}

/// The options that settings describe.
pub open spec fn options_of(
    payload: VariableModel,
    latency: VariableModel,
    bandwidth: VariableModel,
    warmup: VariableModel,
) -> Result<TopologyProbeOptions, NetworkFailure> {
    match probe_setting("GX1_TOPOLOGY_PROBE_BYTES"@, payload, 1_048_576) {
        Err(failure) => Err(failure),
        Ok(payload_bytes) => match probe_setting(
            "GX1_TOPOLOGY_PROBE_LATENCY_ITERATIONS"@,
            latency,
            16,
        ) {
            Err(failure) => Err(failure),
            Ok(latency_iterations) => match probe_setting(
                "GX1_TOPOLOGY_PROBE_BANDWIDTH_ITERATIONS"@,
                bandwidth,
                3,
            ) {
                Err(failure) => Err(failure),
                Ok(bandwidth_iterations) => match probe_setting(
                    "GX1_TOPOLOGY_PROBE_WARMUP_ITERATIONS"@,
                    warmup,
                    1,
                ) {
                    Err(failure) => Err(failure),
                    Ok(warmup_iterations) => {
                        let options = TopologyProbeOptions {
                            payload_bytes: payload_bytes as usize,
                            latency_iterations: latency_iterations as usize,
                            bandwidth_iterations: bandwidth_iterations as usize,
                            warmup_iterations: warmup_iterations as usize,
                        };
                        match options_defect(options) {
                            Some(defect) => Err(defect),
                            None => Ok(options),
                        }
                    },
                },
            },
        },
    }
}

impl TopologyProbeOptions {
    pub fn from_environment(variables: &ProbeVariables) -> (result: Result<Self, NetworkError>)
        ensures
            match options_of(
                variables.payload_bytes@,
                variables.latency_iterations@,
                variables.bandwidth_iterations@,
                variables.warmup_iterations@,
            ) {
                Ok(options) => result is Ok && result->Ok_0 == options,
                Err(failure) => result is Err && result->Err_0@ == failure,
            },
    {
        let payload_bytes: usize = match parse_probe_usize(
            "GX1_TOPOLOGY_PROBE_BYTES",
            &variables.payload_bytes,
            1_048_576,
        ) {
            Ok(value) => value,
            Err(error) => {
                return Err(error);
            },
        };
        let latency_iterations: usize = match parse_probe_usize(
            "GX1_TOPOLOGY_PROBE_LATENCY_ITERATIONS",
            &variables.latency_iterations,
            16,
        ) {
            Ok(value) => value,
            Err(error) => {
                return Err(error);
            },
        };
        let bandwidth_iterations: usize = match parse_probe_usize(
            "GX1_TOPOLOGY_PROBE_BANDWIDTH_ITERATIONS",
            &variables.bandwidth_iterations,
            3,
        ) {
            Ok(value) => value,
            Err(error) => {
                return Err(error);
            },
        };
        let warmup_iterations: usize = match parse_probe_usize(
            "GX1_TOPOLOGY_PROBE_WARMUP_ITERATIONS",
            &variables.warmup_iterations,
            1,
        ) {
            Ok(value) => value,
            Err(error) => {
                return Err(error);
            },
        };
        let options = Self {
            payload_bytes,
            latency_iterations,
            bandwidth_iterations,
            warmup_iterations,
        };
        match options.validate() {
            Ok(()) => Ok(options),
            Err(error) => Err(error),
        }
    }

    pub fn validate(self) -> (result: Result<(), NetworkError>)
        ensures
            checked(result, options_defect(self)),
    {
        if self.payload_bytes == 0 || self.payload_bytes > MAX_FRAME_PAYLOAD_BYTES {
            let mut text = String::from_str("topology probe payload ");
            push_usize(&mut text, self.payload_bytes);
            text.append(" is outside 1..=");
            push_usize(&mut text, MAX_FRAME_PAYLOAD_BYTES);
            return Err(NetworkError::InvalidConfiguration(text));
        }
        if self.latency_iterations == 0 || self.bandwidth_iterations == 0 {
            return Err(
                NetworkError::invalid(
                    "topology probe latency and bandwidth iterations must be greater than zero",
                ),
            );
        }
        if self.latency_iterations > 10_000 || self.bandwidth_iterations > 10_000
            || self.warmup_iterations > 10_000 {
            return Err(
                NetworkError::invalid("topology probe iteration counts must not exceed 10000"),
            );
        }
        Ok(())
    }
}

/// A measured time, at least one nanosecond.
pub fn duration_ns(nanoseconds: u128) -> (time: u64)
    ensures
        time == (if nanoseconds == 0 {
            1
        } else {
            saturate_u64(nanoseconds as int)
        }),
{
    if nanoseconds == 0 {
        1
    } else if nanoseconds > u64::MAX as u128 {
        u64::MAX
    } else {
        nanoseconds as u64
    }
}

pub open spec fn value_leq() -> spec_fn(u64, u64) -> bool {
    |a: u64, b: u64| a <= b
}

/// The middle of the sorted samples, the upper one of two.
pub open spec fn median_of(samples: Seq<u64>) -> u64 {
    samples.sort_by(value_leq())[samples.len() as int / 2]
}

proof fn lemma_insert_value(values: Seq<u64>, place: int, value: u64)
    requires
        0 <= place <= values.len(),
    ensures
        values.insert(place, value).to_multiset() == values.to_multiset().insert(value),
{
    broadcast use vstd::multiset::group_multiset_axioms;

    let more = values.insert(place, value);
    to_multiset_remove(more, place);
    assert(more.remove(place) =~= values);
    more.to_multiset_ensures();
    assert(more[place] == value);
    assert(more.contains(value));
    assert(more.to_multiset().count(value) > 0);
    assert(more.to_multiset() =~= values.to_multiset().insert(value));
}

pub fn median(samples: &[u64]) -> (middle: u64)
    requires
        samples@.len() > 0,
    ensures
        middle == median_of(samples@),
{
    let mut sorted: Vec<u64> = Vec::new();
    let mut index: usize = 0;
    assert(samples@.take(0) =~= Seq::<u64>::empty());
    assert(sorted@ =~= Seq::<u64>::empty());
    while index < samples.len()
        invariant
            index <= samples@.len(),
            sorted_by(sorted@, value_leq()),
            sorted@.len() == index,
            sorted@.to_multiset() == samples@.take(index as int).to_multiset(),
        decreases samples@.len() - index,
    {
        let value: u64 = samples[index];
        let mut place: usize = sorted.len();
        while place > 0 && value < sorted[place - 1]
            invariant
                place <= sorted@.len(),
                sorted_by(sorted@, value_leq()),
                forall|i: int| place <= i < sorted@.len() ==> value <= #[trigger] sorted@[i],
            decreases place,
        {
            place = place - 1;
        }
        let ghost before = sorted@;
        sorted.insert(place, value);
        proof {
            lemma_insert_value(before, place as int, value);
            let now = samples@.take(index + 1);
            assert(now =~= samples@.take(index as int).push(value));
            to_multiset_build(samples@.take(index as int), value);
            assert forall|i: int, j: int| 0 <= i < j < sorted@.len() implies #[trigger] value_leq()(
                sorted@[i],
                sorted@[j],
            ) by {
                if i < place && j < place {
                    assert(value_leq()(before[i], before[j]));
                } else if i > place && j > place {
                    assert(value_leq()(before[i - 1], before[j - 1]));
                } else if i == place {
                    assert(value <= before[j - 1]);
                } else if j == place {
                    if i < place - 1 {
                        assert(value_leq()(before[i], before[place - 1]));
                    }
                } else {
                    assert(value_leq()(before[i], before[j - 1]));
                }
            }
        }
        index = index + 1;
    }
    proof {
        assert(samples@.take(index as int) =~= samples@);
        assert(total_ordering(value_leq()));
        samples@.lemma_sort_by_ensures(value_leq());
        lemma_sorted_unique(sorted@, samples@.sort_by(value_leq()), value_leq());
    }
    sorted[samples.len() / 2]
}

/// The largest power of four that a value reaches; one for zero.
pub open spec fn bucket(value: u64) -> u64
    decreases value,
{
    if value < 4 {
        1
    } else {
        (4 * bucket(value / 4)) as u64
    }
}

/// A power of four.
pub open spec fn is_power_of_four(value: int) -> bool
    decreases value,
{
    value == 1 || (value >= 4 && value % 4 == 0 && is_power_of_four(value / 4))
}

/// A bucket is a power of four that the value reaches, and the next power of
/// four is beyond the value: values in one bucket differ by less than a factor
/// of four.
pub proof fn law_bucket(value: u64)
    ensures
        is_power_of_four(bucket(value) as int),
        1 <= bucket(value),
        value >= 1 ==> bucket(value) <= value,
        value < 4 * bucket(value),
    decreases value,
{
    if value >= 4 {
        law_bucket(value / 4);
    }
}

/// The bandwidth that a measurement stands for.
pub fn conservative_probe_bandwidth_bucket(value: u64) -> (result: u64)
    ensures
        result == bucket(value),
    decreases value,
{
    if value < 4 {
        1
    } else {
        proof {
            law_bucket(value / 4);
        }
        4 * conservative_probe_bandwidth_bucket(value / 4)
    }
}

/// The latency that a measurement stands for.
pub open spec fn latency_bucket(value: u64) -> u64 {
    saturate_u64(4 * bucket(value))
}

pub fn conservative_probe_latency_bucket(value: u64) -> (result: u64)
    ensures
        result == latency_bucket(value),
{
    saturating_mul_u64(4, conservative_probe_bandwidth_bucket(value))
}

/// The bytes that a probe tag hashes.
pub open spec fn probe_tag_bytes(
    first_rank: u32,
    second_rank: u32,
    rail: usize,
    direction: u64,
    kind: u64,
) -> Seq<u8> {
    spec_u32_to_le_bytes(first_rank) + spec_u32_to_le_bytes(second_rank) + spec_u64_to_le_bytes(
        rail as u64,
    ) + spec_u64_to_le_bytes(direction) + spec_u64_to_le_bytes(kind)
}

pub fn topology_probe_tag(
    first_rank: u32,
    second_rank: u32,
    rail: usize,
    direction: u64,
    kind: u64,
) -> (tag: u64)
    ensures
        tag == TOPOLOGY_PROBE_TAG_PREFIX | (fnv(
            probe_tag_bytes(first_rank, second_rank, rail, direction, kind),
        ) & 0x0000_ffff_ffff_ffff),
{
    let ghost mut seen = Seq::<u8>::empty();
    let mut hash: u64 = fnv_u32(FNV_OFFSET, first_rank, Ghost(seen));
    proof {
        seen = seen + spec_u32_to_le_bytes(first_rank);
    }
    hash = fnv_u32(hash, second_rank, Ghost(seen));
    proof {
        seen = seen + spec_u32_to_le_bytes(second_rank);
    }
    hash = fnv_u64(hash, rail as u64, Ghost(seen));
    proof {
        seen = seen + spec_u64_to_le_bytes(rail as u64);
    }
    hash = fnv_u64(hash, direction, Ghost(seen));
    proof {
        seen = seen + spec_u64_to_le_bytes(direction);
    }
    hash = fnv_u64(hash, kind, Ghost(seen));
    assert(seen + spec_u64_to_le_bytes(kind) =~= probe_tag_bytes(
        first_rank,
        second_rank,
        rail,
        direction,
        kind,
    ));
    TOPOLOGY_PROBE_TAG_PREFIX | (hash & 0x0000_ffff_ffff_ffff)
}

/// What one direction of a link measures.
#[derive(Debug, Clone, Copy, PartialEq, Eq, Structural)]
pub struct LinkProbe {
    pub bandwidth_mbps: u64,
    pub latency_ns: u64,
}

/// A value that is at least one.
pub open spec fn at_least_one(value: u64) -> u64 {
    if value == 0 {
        1
    } else {
        value
    }
}

/// Megabytes per second, from bytes in a time of at least a nanosecond.
pub open spec fn megabytes_per_second(bytes: u128, nanoseconds: u64) -> u64 {
    at_least_one(
        saturate_u64(saturate_u128(bytes * 1_000) as int / (at_least_one(nanoseconds) as int)),
    )
}

/// The time of one way, from round trips.
pub open spec fn one_way(latencies: Seq<u64>) -> u64 {
    (saturate_u64(median_of(latencies) + 1) / 2) as u64
}

/// The link that samples measure: the latency is half a round trip, and the
/// bandwidth counts the time that remains without the round trip.
pub open spec fn measured_link(latencies: Seq<u64>, times: Seq<u64>, payload: usize) -> LinkProbe {
    let latency = one_way(latencies);
    let trip = saturate_u64(latency * 2);
    let elapsed = median_of(times);
    LinkProbe {
        bandwidth_mbps: megabytes_per_second(
            payload as u128,
            if elapsed > trip {
                (elapsed - trip) as u64
            } else {
                0
            },
        ),
        latency_ns: at_least_one(latency),
    }
}

fn bandwidth_of(bytes: u128, nanoseconds: u64) -> (bandwidth: u64)
    ensures
        bandwidth == megabytes_per_second(bytes, nanoseconds),
{
    let time: u64 = if nanoseconds == 0 {
        1
    } else {
        nanoseconds
    };
    let rate: u128 = saturating_mul_u128(bytes, 1_000) / time as u128;
    let bounded: u64 = if rate > u64::MAX as u128 {
        u64::MAX
    } else {
        rate as u64
    };
    if bounded == 0 {
        1
    } else {
        bounded
    }
}

/// The link that samples measure.
pub fn link_probe(latency_samples: &[u64], bandwidth_samples: &[u64], payload_bytes: usize) -> (probe:
    LinkProbe)
    requires
        latency_samples@.len() > 0,
        bandwidth_samples@.len() > 0,
    ensures
        probe == measured_link(latency_samples@, bandwidth_samples@, payload_bytes),
{
    let latency_ns: u64 = saturating_add_u64(median(latency_samples), 1) / 2;
    let elapsed_ns: u64 = median(bandwidth_samples);
    let trip: u64 = saturating_mul_u64(latency_ns, 2);
    let transfer_ns: u64 = if elapsed_ns > trip {
        elapsed_ns - trip
    } else {
        0
    };
    LinkProbe {
        bandwidth_mbps: bandwidth_of(payload_bytes as u128, transfer_ns),
        latency_ns: if latency_ns == 0 {
            1
        } else {
            latency_ns
        },
    }
}

/// What all rails carry together.
pub fn aggregate_probe(bandwidth_samples: &[u64], payload_bytes: usize, rails: usize) -> (bandwidth:
    u64)
    requires
        bandwidth_samples@.len() > 0,
    ensures
        bandwidth == megabytes_per_second(
            saturate_u128(payload_bytes * rails),
            median_of(bandwidth_samples@),
        ),
{
    bandwidth_of(
        saturating_mul_u128(payload_bytes as u128, rails as u128),
        median(bandwidth_samples),
    )
}

/// The values of a gathered payload.
pub open spec fn value_at(payload: Seq<u8>, index: int) -> u64 {
    spec_u64_from_le_bytes(payload.subrange(8 * index, 8 * index + 8))
}

/// What a rank contributes of one rail: its own direction, zero elsewhere.
pub fn rail_metrics(
    rank: u32,
    first_rank: u32,
    second_rank: u32,
    forward: Option<LinkProbe>,
    reverse: Option<LinkProbe>,
) -> (payload: Vec<u8>)
    requires
        rank == first_rank ==> forward is Some,
        rank == second_rank ==> reverse is Some,
    ensures
        payload@ == spec_u64_to_le_bytes(
            if rank == first_rank {
                forward->0.bandwidth_mbps
            } else {
                0
            },
        ) + spec_u64_to_le_bytes(
            if rank == first_rank {
                forward->0.latency_ns
            } else {
                0
            },
        ) + spec_u64_to_le_bytes(
            if rank == second_rank {
                reverse->0.bandwidth_mbps
            } else {
                0
            },
        ) + spec_u64_to_le_bytes(
            if rank == second_rank {
                reverse->0.latency_ns
            } else {
                0
            },
        ),
{
    let mut there = LinkProbe { bandwidth_mbps: 0, latency_ns: 0 };
    let mut back = LinkProbe { bandwidth_mbps: 0, latency_ns: 0 };
    if rank == first_rank {
        match forward {
            Some(probe) => {
                there = probe;
            },
            None => {},
        }
    }
    if rank == second_rank {
        match reverse {
            Some(probe) => {
                back = probe;
            },
            None => {},
        }
    }
    let mut payload: Vec<u8> = Vec::new();
    extend(&mut payload, u64_to_le_bytes(there.bandwidth_mbps).as_slice());
    extend(&mut payload, u64_to_le_bytes(there.latency_ns).as_slice());
    extend(&mut payload, u64_to_le_bytes(back.bandwidth_mbps).as_slice());
    extend(&mut payload, u64_to_le_bytes(back.latency_ns).as_slice());
    assert(payload@ =~= spec_u64_to_le_bytes(there.bandwidth_mbps) + spec_u64_to_le_bytes(
        there.latency_ns,
    ) + spec_u64_to_le_bytes(back.bandwidth_mbps) + spec_u64_to_le_bytes(back.latency_ns));
    payload
}

/// What a rank contributes of all rails together.
pub fn aggregate_metrics(
    rank: u32,
    first_rank: u32,
    second_rank: u32,
    forward: Option<u64>,
    reverse: Option<u64>,
) -> (payload: Vec<u8>)
    requires
        rank == first_rank ==> forward is Some,
        rank == second_rank ==> reverse is Some,
    ensures
        payload@ == spec_u64_to_le_bytes(
            if rank == first_rank {
                forward->0
            } else {
                0
            },
        ) + spec_u64_to_le_bytes(
            if rank == second_rank {
                reverse->0
            } else {
                0
            },
        ),
{
    let mut there: u64 = 0;
    let mut back: u64 = 0;
    if rank == first_rank {
        match forward {
            Some(bandwidth) => {
                there = bandwidth;
            },
            None => {},
        }
    }
    if rank == second_rank {
        match reverse {
            Some(bandwidth) => {
                back = bandwidth;
            },
            None => {},
        }
    }
    let mut payload: Vec<u8> = Vec::new();
    extend(&mut payload, u64_to_le_bytes(there).as_slice());
    extend(&mut payload, u64_to_le_bytes(back).as_slice());
    assert(payload@ =~= spec_u64_to_le_bytes(there) + spec_u64_to_le_bytes(back));
    payload
}

/// What is to be measured next.
#[derive(Debug, Clone, Copy, PartialEq, Eq, Structural)]
pub enum ProbeTask {
    /// One rail of a pair, in both directions.
    Rail { first_rank: u32, second_rank: u32, rail: usize },
    /// All rails of a pair at once, in both directions.
    Aggregate { first_rank: u32, second_rank: u32 },
    Done,
}

/// A probe as plain data.
#[verifier::ext_equal]
pub struct ProbeModel {
    pub topology: TopologyModel,
    pub rails: usize,
    pub first: u32,
    pub second: u32,
    pub rail: usize,
    pub bandwidth: u64,
    pub latency: u64,
    pub sum: u64,
}

impl ProbeModel {
    pub open spec fn done(self) -> bool {
        self.first + 1 >= self.topology.world_size
    }

    pub open spec fn valid(self) -> bool {
        &&& self.topology.valid()
        &&& 0 < self.rails <= MAX_P2P_RAILS
        &&& self.bandwidth > 0
        &&& self.done() || self.first < self.second < self.topology.world_size
        &&& self.rail < self.rails || (self.rail == self.rails && self.rails > 1)
    }

    pub open spec fn task(self) -> ProbeTask {
        if self.done() {
            ProbeTask::Done
        } else if self.rail < self.rails {
            ProbeTask::Rail { first_rank: self.first, second_rank: self.second, rail: self.rail }
        } else {
            ProbeTask::Aggregate { first_rank: self.first, second_rank: self.second }
        }
    }

    pub open spec fn start(world_size: u32, rails: usize) -> ProbeModel {
        ProbeModel {
            topology: TopologyModel::empty(world_size),
            rails,
            first: 0,
            second: 1,
            rail: 0,
            bandwidth: u64::MAX,
            latency: 0,
            sum: 0,
        }
    }

    /// The pair's link is what its worst rail gives; then the next pair.
    pub open spec fn finished(self) -> ProbeModel {
        let size = self.topology.world_size;
        ProbeModel {
            topology: self.topology.with_link(
                TopologyLink {
                    first_rank: self.first,
                    second_rank: self.second,
                    bandwidth_mbps: self.bandwidth,
                    latency_ns: self.latency,
                },
            ),
            first: if self.second + 1 < size {
                self.first
            } else {
                (self.first + 1) as u32
            },
            second: if self.second + 1 < size {
                (self.second + 1) as u32
            } else {
                saturate_u32(self.first + 2)
            },
            rail: 0,
            bandwidth: u64::MAX,
            latency: 0,
            sum: 0,
            ..self
        }
    }

    /// Why gathered rail metrics are refused.
    pub open spec fn rail_defect(self, payload: Seq<u8>) -> Option<NetworkFailure> {
        let first = self.first as int;
        let second = self.second as int;
        if payload.len() as int / 8 != 4 * self.topology.world_size {
            Some(
                invalid(
                    "topology probe gathered "@ + decimal((payload.len() as int / 8) as nat)
                        + " metrics, expected "@ + decimal((4 * self.topology.world_size) as nat),
                ),
            )
        } else if value_at(payload, 4 * first) == 0 || value_at(payload, 4 * second + 2) == 0 {
            Some(
                invalid(
                    "topology probe for ranks "@ + decimal(first as nat) + "-"@ + decimal(
                        second as nat,
                    ) + " rail "@ + decimal(self.rail as nat) + " returned zero bandwidth"@,
                ),
            )
        } else {
            None
        }
    }

    /// The rail's link: the slower direction counts.
    pub open spec fn rail_link(self, payload: Seq<u8>) -> TopologyRailLink {
        let there = value_at(payload, 4 * self.first);
        let back = value_at(payload, 4 * self.second + 2);
        let there_latency = value_at(payload, 4 * self.first + 1);
        let back_latency = value_at(payload, 4 * self.second + 3);
        TopologyRailLink {
            rail: self.rail,
            first_rank: self.first,
            second_rank: self.second,
            bandwidth_mbps: bucket(
                if there <= back {
                    there
                } else {
                    back
                },
            ),
            latency_ns: latency_bucket(
                if there_latency >= back_latency {
                    there_latency
                } else {
                    back_latency
                },
            ),
        }
    }

    /// The probe with one more rail.
    pub open spec fn with_rail(self, payload: Seq<u8>) -> ProbeModel {
        let link = self.rail_link(payload);
        let more = ProbeModel {
            topology: self.topology.with_rail_link(link),
            rail: (self.rail + 1) as usize,
            bandwidth: if link.bandwidth_mbps < self.bandwidth {
                link.bandwidth_mbps
            } else {
                self.bandwidth
            },
            latency: if link.latency_ns > self.latency {
                link.latency_ns
            } else {
                self.latency
            },
            sum: saturate_u64(self.sum + link.bandwidth_mbps),
            ..self
        };
        if self.rails == 1 {
            more.finished()
        } else {
            more
        }
    }

    /// Why gathered aggregate metrics are refused.
    pub open spec fn aggregate_defect(self, payload: Seq<u8>) -> Option<NetworkFailure> {
        let first = self.first as int;
        let second = self.second as int;
        if payload.len() as int / 8 != 2 * self.topology.world_size {
            Some(
                invalid(
                    "topology aggregate probe gathered "@ + decimal(
                        (payload.len() as int / 8) as nat,
                    ) + " metrics, expected "@ + decimal((2 * self.topology.world_size) as nat),
                ),
            )
        } else if value_at(payload, 2 * first) == 0 || value_at(payload, 2 * second + 1) == 0 {
            Some(
                invalid(
                    "topology aggregate probe for ranks "@ + decimal(first as nat) + "-"@
                        + decimal(second as nat) + " returned zero bandwidth"@,
                ),
            )
        } else {
            None
        }
    }

    /// What the pair's rails carry together: no more than their sum.
    pub open spec fn aggregate_link(self, payload: Seq<u8>) -> TopologyAggregateLink {
        let there = value_at(payload, 2 * self.first);
        let back = value_at(payload, 2 * self.second + 1);
        let together = bucket(
            if there <= back {
                there
            } else {
                back
            },
        );
        TopologyAggregateLink {
            first_rank: self.first,
            second_rank: self.second,
            bandwidth_mbps: at_least_one(
                if together <= self.sum {
                    together
                } else {
                    self.sum
                },
            ),
        }
    }

    pub open spec fn with_aggregate(self, payload: Seq<u8>) -> ProbeModel {
        (ProbeModel {
            topology: self.topology.with_aggregate_link(self.aggregate_link(payload)),
            ..self
        }).finished()
    }
}

pub open spec fn saturate_u32(value: int) -> u32 {
    if value > u32::MAX {
        u32::MAX
    } else {
        value as u32
    }
}

/// The state of a probe: pair after pair, rail after rail.
#[derive(Debug)]
pub struct TopologyProbe {
    topology: CollectiveTopology,
    rails: usize,
    first: u32,
    second: u32,
    rail: usize,
    bandwidth: u64,
    latency: u64,
    sum: u64,
}

impl View for TopologyProbe {
    type V = ProbeModel;

    closed spec fn view(&self) -> ProbeModel {
        ProbeModel {
            topology: self.topology@,
            rails: self.rails,
            first: self.first,
            second: self.second,
            rail: self.rail,
            bandwidth: self.bandwidth,
            latency: self.latency,
            sum: self.sum,
        }
    }
}

fn metrics_error(head: &str, found: usize, expected: u64) -> (error: NetworkError)
    ensures
        error@ == invalid(
            head@ + decimal(found as nat) + " metrics, expected "@ + decimal(expected as nat),
        ),
{
    let mut text = String::from_str(head);
    push_usize(&mut text, found);
    text.append(" metrics, expected ");
    push_decimal(&mut text, expected);
    NetworkError::InvalidConfiguration(text)
}

impl TopologyProbe {
    /// Starts a probe of a peer session.
    pub fn new(
        world_size: u32,
        rails: usize,
        transport: CollectiveTransport,
        options: TopologyProbeOptions,
    ) -> (result: Result<Self, NetworkError>)
        requires
            0 < rails <= MAX_P2P_RAILS,
        ensures
            if options_defect(options) is Some {
                result is Err && result->Err_0@ == options_defect(options)->0
            } else if transport != CollectiveTransport::TcpPeer {
                result is Err && result->Err_0@ == invalid(
                    "automatic link probing requires GX1_COLLECTIVE_TRANSPORT=tcp_peer"@,
                )
            } else if world_size == 0 {
                result is Err && result->Err_0@ == invalid(
                    "cannot create probed collective topology: "@
                        + TopologyFailure::EmptyWorld.message(),
                )
            } else {
                &&& result is Ok
                &&& result->Ok_0@ == ProbeModel::start(world_size, rails)
                &&& result->Ok_0@.valid()
            },
    {
        match options.validate() {
            Ok(()) => {},
            Err(error) => {
                return Err(error);
            },
        }
        if transport != CollectiveTransport::TcpPeer {
            return Err(
                NetworkError::invalid(
                    "automatic link probing requires GX1_COLLECTIVE_TRANSPORT=tcp_peer",
                ),
            );
        }
        match CollectiveTopology::empty(world_size) {
            Ok(topology) => {
                let probe = Self {
                    topology,
                    rails,
                    first: 0,
                    second: 1,
                    rail: 0,
                    bandwidth: u64::MAX,
                    latency: 0,
                    sum: 0,
                };
                assert(probe@ =~= ProbeModel::start(world_size, rails));
                Ok(probe)
            },
            Err(error) => {
                let mut text = String::from_str("cannot create probed collective topology: ");
                let reason = error.to_string();
                text.append(reason.as_str());
                Err(NetworkError::InvalidConfiguration(text))
            },
        }
    }

    /// What is to be measured next.
    pub fn task(&self) -> (task: ProbeTask)
        requires
            self@.valid(),
        ensures
            task == self@.task(),
    {
        if self.first as u64 + 1 >= self.topology.world_size as u64 {
            ProbeTask::Done
        } else if self.rail < self.rails {
            ProbeTask::Rail { first_rank: self.first, second_rank: self.second, rail: self.rail }
        } else {
            ProbeTask::Aggregate { first_rank: self.first, second_rank: self.second }
        }
    }

    fn finish(&mut self) -> (result: Result<(), NetworkError>)
        requires
            old(self)@.topology.valid(),
            0 < old(self)@.rails <= MAX_P2P_RAILS,
            old(self)@.bandwidth > 0,
            !old(self)@.done(),
            old(self)@.first < old(self)@.second < old(self)@.topology.world_size,
        ensures
            result is Ok,
            final(self)@ == old(self)@.finished(),
            final(self)@.valid(),
    {
        let ghost before = self@;
        match self.topology.add_link(
            TopologyLink {
                first_rank: self.first,
                second_rank: self.second,
                bandwidth_mbps: self.bandwidth,
                latency_ns: self.latency,
            },
        ) {
            Ok(()) => {},
            Err(_) => {
                return Err(NetworkError::invalid("cannot add probed topology link"));
            },
        }
        if self.second + 1 < self.topology.world_size {
            self.second = self.second + 1;
        } else {
            let first: u32 = self.first + 1;
            self.first = first;
            self.second = if first == u32::MAX {
                u32::MAX
            } else {
                first + 1
            };
        }
        self.rail = 0;
        self.bandwidth = u64::MAX;
        self.latency = 0;
        self.sum = 0;
        assert(self@ =~= before.finished());
        Ok(())
    }

    /// Takes the rail metrics that all ranks gathered.
    pub fn record_rail(&mut self, payload: &[u8]) -> (result: Result<(), NetworkError>)
        requires
            old(self)@.valid(),
            old(self)@.task() is Rail,
        ensures
            final(self)@.valid(),
            match old(self)@.rail_defect(payload@) {
                Some(defect) => {
                    &&& result is Err
                    &&& result->Err_0@ == defect
                    &&& final(self)@ == old(self)@
                },
                None => result is Ok && final(self)@ == old(self)@.with_rail(payload@),
            },
    {
        let ghost before = self@;
        let found: usize = payload.len() / 8;
        let expected: u64 = self.topology.world_size as u64 * 4;
        if found as u64 != expected {
            return Err(metrics_error("topology probe gathered ", found, expected));
        }
        let first: usize = self.first as usize;
        let second: usize = self.second as usize;
        assert(32 * second + 32 <= payload.len());
        assert(32 * first + 32 <= payload.len());
        let there: u64 = get_u64(payload, 8 * (4 * first));
        let there_latency: u64 = get_u64(payload, 8 * (4 * first + 1));
        let back: u64 = get_u64(payload, 8 * (4 * second + 2));
        let back_latency: u64 = get_u64(payload, 8 * (4 * second + 3));
        if there == 0 || back == 0 {
            let mut text = String::from_str("topology probe for ranks ");
            push_decimal(&mut text, self.first as u64);
            text.append("-");
            push_decimal(&mut text, self.second as u64);
            text.append(" rail ");
            push_usize(&mut text, self.rail);
            text.append(" returned zero bandwidth");
            return Err(NetworkError::InvalidConfiguration(text));
        }
        let slower: u64 = if there <= back {
            there
        } else {
            back
        };
        let later: u64 = if there_latency >= back_latency {
            there_latency
        } else {
            back_latency
        };
        let bandwidth_mbps: u64 = conservative_probe_bandwidth_bucket(slower);
        let latency_ns: u64 = conservative_probe_latency_bucket(later);
        proof {
            law_bucket(slower);
        }
        let link = TopologyRailLink {
            rail: self.rail,
            first_rank: self.first,
            second_rank: self.second,
            bandwidth_mbps,
            latency_ns,
        };
        assert(link == before.rail_link(payload@));
        match self.topology.add_rail_link(link) {
            Ok(()) => {},
            Err(_) => {
                return Err(NetworkError::invalid("cannot add probed topology rail link"));
            },
        }
        if bandwidth_mbps < self.bandwidth {
            self.bandwidth = bandwidth_mbps;
        }
        if latency_ns > self.latency {
            self.latency = latency_ns;
        }
        self.sum = saturating_add_u64(self.sum, bandwidth_mbps);
        self.rail = self.rail + 1;
        if self.rails == 1 {
            return self.finish();
        }
        assert(self@ =~= before.with_rail(payload@));
        Ok(())
    }

    /// Takes the aggregate metrics that all ranks gathered.
    pub fn record_aggregate(&mut self, payload: &[u8]) -> (result: Result<(), NetworkError>)
        requires
            old(self)@.valid(),
            old(self)@.task() is Aggregate,
        ensures
            final(self)@.valid(),
            match old(self)@.aggregate_defect(payload@) {
                Some(defect) => {
                    &&& result is Err
                    &&& result->Err_0@ == defect
                    &&& final(self)@ == old(self)@
                },
                None => result is Ok && final(self)@ == old(self)@.with_aggregate(payload@),
            },
    {
        let ghost before = self@;
        let found: usize = payload.len() / 8;
        let expected: u64 = self.topology.world_size as u64 * 2;
        if found as u64 != expected {
            return Err(metrics_error("topology aggregate probe gathered ", found, expected));
        }
        let first: usize = self.first as usize;
        let second: usize = self.second as usize;
        assert(16 * second + 16 <= payload.len());
        assert(16 * first + 16 <= payload.len());
        let there: u64 = get_u64(payload, 8 * (2 * first));
        let back: u64 = get_u64(payload, 8 * (2 * second + 1));
        if there == 0 || back == 0 {
            let mut text = String::from_str("topology aggregate probe for ranks ");
            push_decimal(&mut text, self.first as u64);
            text.append("-");
            push_decimal(&mut text, self.second as u64);
            text.append(" returned zero bandwidth");
            return Err(NetworkError::InvalidConfiguration(text));
        }
        let together: u64 = conservative_probe_bandwidth_bucket(
            if there <= back {
                there
            } else {
                back
            },
        );
        let capped: u64 = if together <= self.sum {
            together
        } else {
            self.sum
        };
        let link = TopologyAggregateLink {
            first_rank: self.first,
            second_rank: self.second,
            bandwidth_mbps: if capped == 0 {
                1
            } else {
                capped
            },
        };
        assert(link == before.aggregate_link(payload@));
        match self.topology.add_aggregate_link(link) {
            Ok(()) => {},
            Err(_) => {
                return Err(NetworkError::invalid("cannot add probed topology aggregate link"));
            },
        }
        assert(self@ =~= (ProbeModel {
            topology: before.topology.with_aggregate_link(link),
            ..before
        }));
        self.finish()
    }

    /// The topology of a finished probe.
    pub fn into_topology(self) -> (topology: CollectiveTopology)
        ensures
            topology@ == self@.topology,
    {
        self.topology
    }
}

} // verus!
