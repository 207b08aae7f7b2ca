//! What the two ranks of a probed pair do, one message after another.

use crate::rank::network::probe::{
    options_defect, probe_tag_bytes, topology_probe_tag, TopologyProbeOptions,
    TOPOLOGY_PROBE_TAG_PREFIX,
};
use crate::rank::hash::fnv;
use vstd::prelude::*;

verus! {

/// One direction of a pair of ranks.
#[derive(Debug, Clone, Copy, PartialEq, Eq, Structural)]
pub struct ProbeDirection {
    pub first_rank: u32,
    pub second_rank: u32,
    pub sender: u32,
    pub receiver: u32,
    pub index: u64,
}

impl ProbeDirection {
    pub fn forward(first_rank: u32, second_rank: u32) -> (direction: Self)
        ensures
            direction == (ProbeDirection {
                first_rank,
                second_rank,
                sender: first_rank,
                receiver: second_rank,
                index: 0,
            }),
    {
        Self { first_rank, second_rank, sender: first_rank, receiver: second_rank, index: 0 }
    }

    pub fn reverse(first_rank: u32, second_rank: u32) -> (direction: Self)
        ensures
            direction == (ProbeDirection {
                first_rank,
                second_rank,
                sender: second_rank,
                receiver: first_rank,
                index: 1,
            }),
    {
        Self { first_rank, second_rank, sender: second_rank, receiver: first_rank, index: 1 }
    }

    /// The tag of its messages of one kind on a rail.
    pub open spec fn spec_tag(self, rail: usize, kind: u64) -> u64 {
        TOPOLOGY_PROBE_TAG_PREFIX | (fnv(
            probe_tag_bytes(self.first_rank, self.second_rank, rail, self.index, kind),
        ) & 0x0000_ffff_ffff_ffff)
    }

    pub fn tag(&self, rail: usize, kind: u64) -> (tag: u64)
        ensures
            tag == self.spec_tag(rail, kind),
    {
        topology_probe_tag(self.first_rank, self.second_rank, rail, self.index, kind)
    }
}

/// What is being measured: one rail, or all rails at once.
#[derive(Debug, Clone, Copy, PartialEq, Eq, Structural)]
pub enum ProbeScope {
    Rail(usize),
    AllRails(usize),
}

/// Whether the time that a message takes counts, and for what.
#[derive(Debug, Clone, Copy, PartialEq, Eq, Structural)]
pub enum ProbeSample {
    Warmup,
    Latency,
    Bandwidth,
}

/// A message of a probe: `bytes` times the byte `fill`.
#[derive(Debug, Clone, Copy, PartialEq, Eq, Structural)]
pub struct ProbeMessage {
    pub rail: usize,
    pub tag: u64,
    pub bytes: usize,
    pub fill: u8,
}

/// The next thing to do in a direction.
#[derive(Debug, Clone, PartialEq, Eq)]
pub enum ProbeStep {
    /// Send all of these at once and take the time.
    Send { to: u32, messages: Vec<ProbeMessage>, sample: ProbeSample },
    /// Receive these in turn.
    Receive { from: u32, messages: Vec<ProbeMessage> },
    Done,
}

/// The same as plain data.
pub enum StepModel {
    Send { to: u32, messages: Seq<ProbeMessage>, sample: ProbeSample },
    Receive { from: u32, messages: Seq<ProbeMessage> },
    Done,
}

impl View for ProbeStep {
    type V = StepModel;

    open spec fn view(&self) -> StepModel {
        match *self {
            ProbeStep::Send { to, messages, sample } => StepModel::Send {
                to,
                messages: messages@,
                sample,
            },
            ProbeStep::Receive { from, messages } => StepModel::Receive {
                from,
                messages: messages@,
            },
            ProbeStep::Done => StepModel::Done,
        }
    }
}

/// How many rounds of small messages measure the latency.
pub open spec fn latency_rounds(scope: ProbeScope, options: TopologyProbeOptions) -> int {
    match scope {
        ProbeScope::Rail(_) => options.warmup_iterations + options.latency_iterations,
        ProbeScope::AllRails(_) => 0,
    }
}

/// How many rounds there are.
pub open spec fn rounds(scope: ProbeScope, options: TopologyProbeOptions) -> int {
    latency_rounds(scope, options) + options.warmup_iterations + options.bandwidth_iterations
}

/// What a round's time counts for: each of the two series starts with its
/// warm-up.
pub open spec fn sample_of(scope: ProbeScope, options: TopologyProbeOptions, round: int) -> ProbeSample {
    let small = latency_rounds(scope, options);
    if round < small {
        if round < options.warmup_iterations {
            ProbeSample::Warmup
        } else {
            ProbeSample::Latency
        }
    } else if round < small + options.warmup_iterations {
        ProbeSample::Warmup
    } else {
        ProbeSample::Bandwidth
    }
}

/// The messages of a round.
pub open spec fn messages_of(
    direction: ProbeDirection,
    scope: ProbeScope,
    options: TopologyProbeOptions,
    round: int,
) -> Seq<ProbeMessage> {
    match scope {
        ProbeScope::Rail(rail) => if round < latency_rounds(scope, options) {
            seq![ProbeMessage { rail, tag: direction.spec_tag(rail, 0), bytes: 1, fill: 0 }]
        } else {
            seq![
                ProbeMessage {
                    rail,
                    tag: direction.spec_tag(rail, 1),
                    bytes: options.payload_bytes,
                    fill: 0xa5,
                },
            ]
        },
        ProbeScope::AllRails(rails) => Seq::new(
            rails as nat,
            |rail: int|
                ProbeMessage {
                    rail: rail as usize,
                    tag: direction.spec_tag(rail as usize, 2),
                    bytes: options.payload_bytes,
                    fill: 0x5a,
                },
        ),
    }
}

/// What a rank does in a round.
pub open spec fn step_of(
    direction: ProbeDirection,
    scope: ProbeScope,
    options: TopologyProbeOptions,
    rank: u32,
    round: int,
) -> StepModel {
    let messages = messages_of(direction, scope, options, round);
    if round >= rounds(scope, options) {
        StepModel::Done
    } else if rank == direction.sender {
        StepModel::Send {
            to: direction.receiver,
            messages,
            sample: sample_of(scope, options, round),
        }
    } else if rank == direction.receiver {
        StepModel::Receive { from: direction.sender, messages }
    } else {
        StepModel::Done
    }
}

/// What a rank does next after `round` rounds.
pub fn probe_step(
    direction: ProbeDirection,
    scope: ProbeScope,
    options: TopologyProbeOptions,
    rank: u32,
    round: usize,
) -> (step: ProbeStep)
    requires
        options_defect(options) is None,
    ensures
        step@ == step_of(direction, scope, options, rank, round as int),
{
    let small: usize = match scope {
        ProbeScope::Rail(_) => options.warmup_iterations + options.latency_iterations,
        ProbeScope::AllRails(_) => 0,
    };
    if round >= small + options.warmup_iterations + options.bandwidth_iterations {
        return ProbeStep::Done;
    }
    if rank != direction.sender && rank != direction.receiver {
        return ProbeStep::Done;
    }
    let mut messages: Vec<ProbeMessage> = Vec::new();
    match scope {
        ProbeScope::Rail(rail) => {
            if round < small {
                messages.push(ProbeMessage { rail, tag: direction.tag(rail, 0), bytes: 1, fill: 0 });
            } else {
                messages.push(
                    ProbeMessage {
                        rail,
                        tag: direction.tag(rail, 1),
                        bytes: options.payload_bytes,
                        fill: 0xa5,
                    },
                );
            }
        },
        ProbeScope::AllRails(rails) => {
            let mut rail: usize = 0;
            while rail < rails
                invariant
                    rail <= rails,
                    messages@.len() == rail,
                    forall|i: int|
                        0 <= i < rail ==> #[trigger] messages@[i] == messages_of(
                            direction,
                            ProbeScope::AllRails(rails),
                            options,
                            round as int,
                        )[i],
                decreases rails - rail,
            {
                messages.push(
                    ProbeMessage {
                        rail,
                        tag: direction.tag(rail, 2),
                        bytes: options.payload_bytes,
                        fill: 0x5a,
                    },
                );
                rail = rail + 1;
            }
        },
    }
    assert(messages@ =~= messages_of(direction, scope, options, round as int));
    if rank != direction.sender {
        return ProbeStep::Receive { from: direction.sender, messages };
    }
    let sample = if round < small {
        if round < options.warmup_iterations {
            ProbeSample::Warmup
        } else {
            ProbeSample::Latency
        }
    } else if round < small + options.warmup_iterations {
        ProbeSample::Warmup
    } else {
        ProbeSample::Bandwidth
    };
    ProbeStep::Send { to: direction.receiver, messages, sample }
}

/// How many of the first rounds count for a kind of sample.
pub open spec fn sampled(
    scope: ProbeScope,
    options: TopologyProbeOptions,
    sample: ProbeSample,
    count: int,
) -> int
    decreases count,
{
    if count <= 0 {
        0
    } else {
        sampled(scope, options, sample, count - 1) + if sample_of(scope, options, count - 1)
            == sample {
            1int
        } else {
            0int
        }
    }
}

proof fn lemma_sampled(scope: ProbeScope, options: TopologyProbeOptions, count: int)
    requires
        0 <= count <= rounds(scope, options),
    ensures
        ({
            let small = latency_rounds(scope, options);
            let warmup = options.warmup_iterations as int;
            &&& sampled(scope, options, ProbeSample::Latency, count) == if count <= warmup || small
                == 0 {
                0
            } else if count <= small {
                count - warmup
            } else {
                small - warmup
            }
            &&& sampled(scope, options, ProbeSample::Bandwidth, count) == if count <= small
                + warmup {
                0
            } else {
                count - small - warmup
            }
        }),
    decreases count,
{
    if count > 0 {
        lemma_sampled(scope, options, count - 1);
    }
}

/// The sender of a direction keeps exactly as many bandwidth samples as the
/// options ask for, and of a single rail as many latency samples.
pub proof fn law_samples_are_as_many_as_asked(scope: ProbeScope, options: TopologyProbeOptions)
    ensures
        sampled(scope, options, ProbeSample::Bandwidth, rounds(scope, options))
            == options.bandwidth_iterations,
        sampled(scope, options, ProbeSample::Latency, rounds(scope, options)) == match scope {
            ProbeScope::Rail(_) => options.latency_iterations as int,
            ProbeScope::AllRails(_) => 0,
        },
{
    lemma_sampled(scope, options, rounds(scope, options));
}

/// In every round the receiver takes the very messages that the sender sends,
/// both are done after the same round, and no other rank takes part.
pub proof fn law_receives_match_sends(
    direction: ProbeDirection,
    scope: ProbeScope,
    options: TopologyProbeOptions,
    rank: u32,
    round: int,
)
    requires
        direction.sender != direction.receiver,
        0 <= round,
    ensures
        ({
            let sent = step_of(direction, scope, options, direction.sender, round);
            let received = step_of(direction, scope, options, direction.receiver, round);
            &&& sent is Done <==> received is Done
            &&& sent is Done <==> round >= rounds(scope, options)
            &&& !(sent is Done) ==> sent is Send && received is Receive && sent->Send_messages
                == received->Receive_messages && sent->to == direction.receiver && received->from
                == direction.sender
            &&& rank != direction.sender && rank != direction.receiver ==> step_of(
                direction,
                scope,
                options,
                rank,
                round,
            ) is Done
        }),
{
}

} // verus!
