//! Coordinator-side agreement on the order and the contract of operations.

use crate::rank::protocol::{ElementType, Opcode, ProtocolError};
use crate::text::{decimal, push_decimal};
use vstd::prelude::*;
use vstd::string::*;

verus! {

#[derive(Debug, Clone, Copy, PartialEq, Eq, Structural)]
pub struct OperationDescriptor {
    pub opcode: Opcode,
    pub element_type: ElementType,
    pub root_rank: u32,
    pub element_count: u64,
    pub layout_hash: u64,
}

impl OperationDescriptor {
    /// The descriptor as text.
    pub open spec fn description(self) -> Seq<char> {
        "OperationDescriptor { opcode: "@ + self.opcode.spec_name() + ", element_type: "@
            + self.element_type.spec_name() + ", root_rank: "@ + decimal(self.root_rank as nat)
            + ", element_count: "@ + decimal(self.element_count as nat) + ", layout_hash: "@
            + decimal(self.layout_hash as nat) + " }"@
    }

    pub fn new(
        opcode: Opcode,
        element_type: ElementType,
        root_rank: u32,
        element_count: u64,
    ) -> (descriptor: Self)
        ensures
            descriptor == (OperationDescriptor {
                opcode,
                element_type,
                root_rank,
                element_count,
                layout_hash: 0,
            }),
    {
        Self { opcode, element_type, root_rank, element_count, layout_hash: 0 }
    }

    pub fn with_layout_hash(self, layout_hash: u64) -> (descriptor: Self)
        ensures
            descriptor == (OperationDescriptor { layout_hash, ..self }),
    {
        let mut descriptor = self;
        descriptor.layout_hash = layout_hash;
        descriptor
    }

    /// Appends the descriptor as text.
    pub fn push_description(&self, out: &mut String)
        ensures
            final(out)@ == old(out)@ + self.description(),
    {
        let ghost before = out@;
        let mut text = String::from_str("OperationDescriptor { opcode: ");
        text.append(self.opcode.name());
        text.append(", element_type: ");
        text.append(self.element_type.name());
        text.append(", root_rank: ");
        push_decimal(&mut text, self.root_rank as u64);
        text.append(", element_count: ");
        push_decimal(&mut text, self.element_count);
        text.append(", layout_hash: ");
        push_decimal(&mut text, self.layout_hash);
        text.append(" }");
        out.append(text.as_str());
    }
}

/// An agreement as plain data: the ranks' submissions for the next sequence.
pub struct AgreementModel {
    pub world_size: nat,
    pub next_sequence: u64,
    pub submissions: Seq<Option<OperationDescriptor>>,
}

impl AgreementModel {
    /// One slot per rank, and all submissions alike.
    pub open spec fn valid(self) -> bool {
        &&& self.world_size > 0
        &&& self.submissions.len() == self.world_size
        &&& forall|i: int, j: int|
            0 <= i < self.world_size && 0 <= j < self.world_size && (
            #[trigger] self.submissions[i]) is Some && (#[trigger] self.submissions[j]) is Some
                ==> self.submissions[i] == self.submissions[j]
    }

    /// No rank has submitted for the next sequence.
    pub open spec fn idle(self) -> bool {
        forall|i: int| 0 <= i < self.world_size ==> (#[trigger] self.submissions[i]) is None
    }

    /// A rank submitted a descriptor other than `descriptor`.
    pub open spec fn conflicts(self, descriptor: OperationDescriptor) -> bool {
        exists|i: int|
            0 <= i < self.world_size && (#[trigger] self.submissions[i]) is Some
                && self.submissions[i] != Some(descriptor)
    }

    /// Every rank but `rank` has submitted.
    pub open spec fn lacks_only(self, rank: int) -> bool {
        forall|i: int|
            0 <= i < self.world_size && i != rank ==> (#[trigger] self.submissions[i]) is Some
    }

    /// The descriptor that ranks have submitted for the next sequence.
    pub open spec fn held(self) -> OperationDescriptor {
        choose|descriptor: OperationDescriptor|
            #[trigger] self.submissions.contains(Some(descriptor))
    }

    /// The agreement on the sequence after this one.
    pub open spec fn advanced(self) -> AgreementModel {
        AgreementModel {
            next_sequence: (self.next_sequence + 1) as u64,
            submissions: Seq::new(self.world_size, |i: int| None::<OperationDescriptor>),
            ..self
        }
    }

    /// The agreement after a submission, and its answer.
    pub open spec fn submitted(
        self,
        rank: int,
        sequence: u64,
        descriptor: OperationDescriptor,
    ) -> (AgreementModel, Result<bool, ProtocolError>) {
        if rank >= self.world_size {
            (
                self,
                Err(
                    ProtocolError::RankOutOfRange {
                        name: "source",
                        rank: (rank as usize) as u32,
                        world_size: (self.world_size as usize) as u32,
                    },
                ),
            )
        } else if sequence != self.next_sequence {
            (
                self,
                Err(
                    ProtocolError::SequenceMismatch {
                        expected: self.next_sequence,
                        actual: sequence,
                    },
                ),
            )
        } else if self.submissions[rank] is Some {
            (self, Err(ProtocolError::DuplicateSubmission { rank: rank as usize, sequence }))
        } else if self.conflicts(descriptor) {
            (
                self,
                Err(
                    ProtocolError::CollectiveMismatch {
                        sequence,
                        expected: self.held(),
                        actual: descriptor,
                    },
                ),
            )
        } else if !self.lacks_only(rank) {
            (
                AgreementModel {
                    submissions: self.submissions.update(rank, Some(descriptor)),
                    ..self
                },
                Ok(false),
            )
        } else if sequence < u64::MAX {
            (self.advanced(), Ok(true))
        } else {
            (
                AgreementModel { next_sequence: u64::MAX, ..self.advanced() },
                Err(ProtocolError::SequenceOverflow),
            )
        }
    }
}

/// Coordinator-side sequence agreement. An operation becomes ready only when
/// every rank submitted exactly the same descriptor for the same sequence.
#[derive(Debug)]
pub struct CollectiveAgreement {
    world_size: usize,
    next_sequence: u64,
    submissions: Vec<Option<OperationDescriptor>>,
}

impl View for CollectiveAgreement {
    type V = AgreementModel;

    closed spec fn view(&self) -> AgreementModel {
        AgreementModel {
            world_size: self.world_size as nat,
            next_sequence: self.next_sequence,
            submissions: self.submissions@,
        }
    }
}

fn empty_slots(count: usize) -> (slots: Vec<Option<OperationDescriptor>>)
    ensures
        slots@ == Seq::new(count as nat, |i: int| None::<OperationDescriptor>),
{
    let mut slots: Vec<Option<OperationDescriptor>> = Vec::new();
    let mut index: usize = 0;
    while index < count
        invariant
            index <= count,
            slots@.len() == index,
            forall|i: int| 0 <= i < index ==> slots@[i] is None,
        decreases count - index,
    {
        slots.push(None);
        index = index + 1;
    }
    assert(slots@ =~= Seq::new(count as nat, |i: int| None::<OperationDescriptor>));
    slots
}

impl CollectiveAgreement {
    pub fn new(world_size: usize) -> (result: Result<Self, ProtocolError>)
        ensures
            match result {
                Ok(agreement) => {
                    &&& world_size > 0
                    &&& agreement@.world_size == world_size
                    &&& agreement@.next_sequence == 0
                    &&& agreement@.valid()
                    &&& agreement@.idle()
                },
                Err(error) => world_size == 0 && error == ProtocolError::EmptyWorld,
            },
    {
        if world_size == 0 {
            return Err(ProtocolError::EmptyWorld);
        }
        Ok(Self { world_size, next_sequence: 0, submissions: empty_slots(world_size) })
    }

    pub fn next_sequence(&self) -> (sequence: u64)
        ensures
            sequence == self@.next_sequence,
    {
        self.next_sequence
    }

    pub fn submit(
        &mut self,
        rank: usize,
        sequence: u64,
        descriptor: OperationDescriptor,
    ) -> (result: Result<bool, ProtocolError>)
        requires
            old(self)@.valid(),
        ensures
            final(self)@.valid(),
            (final(self)@, result) == old(self)@.submitted(rank as int, sequence, descriptor),
    {
        if rank >= self.world_size {
            return Err(
                ProtocolError::RankOutOfRange {
                    name: "source",
                    rank: rank as u32,
                    world_size: self.world_size as u32,
                },
            );
        }
        if sequence != self.next_sequence {
            return Err(
                ProtocolError::SequenceMismatch { expected: self.next_sequence, actual: sequence },
            );
        }
        if self.submissions[rank].is_some() {
            return Err(ProtocolError::DuplicateSubmission { rank, sequence });
        }
        let ghost before = self@;
        let mut others = true;
        let mut index: usize = 0;
        while index < self.world_size
            invariant
                *self == *old(self),
                before == self@,
                before.valid(),
                before.submissions == self.submissions@,
                before.world_size == self.world_size,
                index <= self.world_size,
                forall|i: int|
                    0 <= i < index && (#[trigger] before.submissions[i]) is Some
                        ==> before.submissions[i] == Some(descriptor),
                others == (forall|i: int|
                    0 <= i < index && i != rank ==> (#[trigger] before.submissions[i]) is Some),
                rank < self.world_size,
                sequence == before.next_sequence,
                before.submissions[rank as int] is None,
            decreases self.world_size - index,
        {
            match self.submissions[index] {
                Some(expected) => {
                    if expected != descriptor {
                        assert(before.submissions[index as int] != Some(descriptor));
                        assert(before.conflicts(descriptor));
                        assert(before.submissions.contains(Some(expected)));
                        assert(before.submissions.contains(Some(before.held())));
                        return Err(
                            ProtocolError::CollectiveMismatch {
                                sequence,
                                expected,
                                actual: descriptor,
                            },
                        );
                    }
                },
                None => {
                    if index != rank {
                        others = false;
                        assert(before.submissions[index as int] is None);
                    }
                },
            }
            index = index + 1;
        }
        assert(!before.conflicts(descriptor));
        if others {
            assert(before.lacks_only(rank as int));
            self.submissions = empty_slots(self.world_size);
            match self.next_sequence.checked_add(1) {
                Some(next) => {
                    self.next_sequence = next;
                    assert(self@ == before.advanced());
                    Ok(true)
                },
                None => Err(ProtocolError::SequenceOverflow),
            }
        } else {
            assert(!before.lacks_only(rank as int));
            self.submissions.set(rank, Some(descriptor));
            assert(self@ == (AgreementModel {
                submissions: before.submissions.update(rank as int, Some(descriptor)),
                ..before
            }));
            Ok(false)
        }
    }
}

} // verus!
