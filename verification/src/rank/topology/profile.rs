//! Measured profiles and when a tuning accepts them.

use crate::chars::{chars_of, lower_chars, lowered, spells, text_of};
use crate::math::{saturate_u64, saturating_mul_u64};
use crate::rank::topology::fingerprint::hex_text;
use crate::rank::topology::links::{CollectiveTopology, LinkCost, TopologyModel};
use crate::rank::topology::pairs::{sort_pairs, sorted_pairs};
use crate::rank::topology::parse::{
    aggregate_links_added, parse_topology_aggregate_links, parse_topology_links,
    parse_topology_rail_links, rail_links_added, topology_of,
};
use crate::rank::topology::tuning::{
    validate_ring_channels, CollectiveTuning, ProfileModel, TuningModel,
};
use crate::rank::topology::error::{transport_name, transport_text};
use crate::rank::topology::{
    CollectiveAutotuneEntry, CollectiveAutotuneProfile, CollectiveKind, TopologyError,
    TopologyFailure, COLLECTIVE_AUTOTUNE_PROFILE_VERSION, MAX_RING_CHANNELS,
};
use crate::rank::CollectiveAlgorithm;
use crate::text::{decimal, hex_fixed, push_decimal, push_usize, quote, quoted};
use vstd::prelude::*;
use vstd::string::*;

verus! {

/// An algorithm's name in messages.
pub open spec fn algorithm_text(algorithm: CollectiveAlgorithm) -> Seq<char> {
    match algorithm {
        CollectiveAlgorithm::Direct => "Direct"@,
        CollectiveAlgorithm::Ring => "Ring"@,
        CollectiveAlgorithm::Pairwise => "Pairwise"@,
        CollectiveAlgorithm::Hierarchical => "Hierarchical"@,
    }
}

pub fn algorithm_name(algorithm: CollectiveAlgorithm) -> (name: &'static str)
    ensures
        name@ == algorithm_text(algorithm),
{
    match algorithm {
        CollectiveAlgorithm::Direct => "Direct",
        CollectiveAlgorithm::Ring => "Ring",
        CollectiveAlgorithm::Pairwise => "Pairwise",
        CollectiveAlgorithm::Hierarchical => "Hierarchical",
    }
}

/// A fingerprint without its prefix, in lower case.
pub open spec fn plain_fingerprint(text: Seq<char>) -> Seq<char> {
    if text.len() >= 2 && text[0] == '0' && text[1] == 'x' {
        lowered(text.skip(2))
    } else {
        lowered(text)
    }
}

fn read_fingerprint(text: &str) -> (plain: String)
    ensures
        plain@ == plain_fingerprint(text@),
{
    let chars = chars_of(text);
    let mut rest: Vec<char> = Vec::new();
    let start: usize = if chars.len() >= 2 && chars[0] == '0' && chars[1] == 'x' {
        2
    } else {
        0
    };
    let mut index: usize = start;
    while index < chars.len()
        invariant
            start <= index <= chars@.len(),
            rest@ == chars@.subrange(start as int, index as int),
        decreases chars@.len() - index,
    {
        rest.push(chars[index]);
        assert(rest@ =~= chars@.subrange(start as int, index + 1));
        index = index + 1;
    }
    assert(start == 2 ==> rest@ =~= text@.skip(2));
    assert(start == 0 ==> rest@ =~= text@);
    let lower = lower_chars(rest.as_slice());
    text_of(lower.as_slice())
}

/// Two measured values within a factor of four of each other.
pub open spec fn close(first: u64, second: u64) -> bool {
    if first == 0 || second == 0 {
        first == second
    } else if first < second {
        second <= saturate_u64(first * 4)
    } else {
        first <= saturate_u64(second * 4)
    }
}

pub fn metric_within_factor(first: u64, second: u64, factor: u64) -> (within: bool)
    ensures
        within == if first == 0 || second == 0 {
            first == second
        } else if first < second {
            second <= saturate_u64(first * factor)
        } else {
            first <= saturate_u64(second * factor)
        },
{
    if first == 0 || second == 0 {
        return first == second;
    }
    if first < second {
        second <= saturating_mul_u64(first, factor)
    } else {
        first <= saturating_mul_u64(second, factor)
    }
}

/// Two links that are alike.
pub open spec fn links_close(first: Option<LinkCost>, second: Option<LinkCost>) -> bool {
    match (first, second) {
        (None, None) => true,
        (Some(a), Some(b)) => close(a.bandwidth_mbps, b.bandwidth_mbps) && close(
            a.latency_ns,
            b.latency_ns,
        ),
        _ => false,
    }
}

/// Two caps that are alike.
pub open spec fn caps_close(first: Option<u64>, second: Option<u64>) -> bool {
    match (first, second) {
        (None, None) => true,
        (Some(a), Some(b)) => close(a, b),
        _ => false,
    }
}

/// Two tables whose links are alike, pair by pair.
pub open spec fn tables_close(
    a: Seq<Seq<Option<LinkCost>>>,
    b: Seq<Seq<Option<LinkCost>>>,
    size: int,
) -> bool {
    forall|i: int, j: int|
        0 <= i < j < size ==> links_close(#[trigger] a[i][j], b[i][j])
}

impl TopologyModel {
    /// Two probes of what may be one machine: the same links, rails and caps,
    /// each measured value within a factor of four.
    pub open spec fn resembles(self, other: TopologyModel) -> bool {
        &&& self.world_size == other.world_size
        &&& tables_close(self.links, other.links, self.world_size as int)
        &&& self.rail_links.len() == other.rail_links.len()
        &&& forall|r: int|
            0 <= r < self.rail_links.len() ==> tables_close(
                #[trigger] self.rail_links[r],
                other.rail_links[r],
                self.world_size as int,
            )
        &&& forall|i: int, j: int|
            0 <= i < j < self.world_size ==> caps_close(
                #[trigger] self.aggregate_links[i][j],
                other.aggregate_links[i][j],
            )
    }
}

fn same_link(first: Option<LinkCost>, second: Option<LinkCost>) -> (same: bool)
    ensures
        same == links_close(first, second),
{
    match (first, second) {
        (None, None) => true,
        (Some(a), Some(b)) => metric_within_factor(a.bandwidth_mbps, b.bandwidth_mbps, 4)
            && metric_within_factor(a.latency_ns, b.latency_ns, 4),
        _ => false,
    }
}

fn same_cap(first: Option<u64>, second: Option<u64>) -> (same: bool)
    ensures
        same == caps_close(first, second),
{
    match (first, second) {
        (None, None) => true,
        (Some(a), Some(b)) => metric_within_factor(a, b, 4),
        _ => false,
    }
}

fn same_rail(current: &CollectiveTopology, detected: &CollectiveTopology, rail: usize) -> (same:
    bool)
    requires
        current@.valid(),
        detected@.valid(),
        current@.world_size == detected@.world_size,
        rail < current@.rail_links.len(),
        rail < detected@.rail_links.len(),
    ensures
        same == tables_close(
            current@.rail_links[rail as int],
            detected@.rail_links[rail as int],
            current@.world_size as int,
        ),
{
    let ghost a = current@.rail_links[rail as int];
    let ghost b = detected@.rail_links[rail as int];
    let size: u32 = current.world_size;
    let mut first: u32 = 0;
    while first < size
        invariant
            first <= size,
            size == current@.world_size,
            size == detected@.world_size,
            current@.valid(),
            detected@.valid(),
            rail < current@.rail_links.len(),
            rail < detected@.rail_links.len(),
            a == current@.rail_links[rail as int],
            b == detected@.rail_links[rail as int],
            forall|i: int, j: int|
                0 <= i < first && i < j < size ==> links_close(#[trigger] a[i][j], b[i][j]),
        decreases size - first,
    {
        let mut second: u32 = first + 1;
        while second < size
            invariant
                first < second <= size,
                size == current@.world_size,
                size == detected@.world_size,
                current@.valid(),
                detected@.valid(),
                rail < current@.rail_links.len(),
                rail < detected@.rail_links.len(),
                a == current@.rail_links[rail as int],
                b == detected@.rail_links[rail as int],
                forall|j: int|
                    first < j < second ==> links_close(
                        #[trigger] a[first as int][j],
                        b[first as int][j],
                    ),
            decreases size - second,
        {
            proof {
                assert(crate::rank::topology::links::link_table(a, size as int));
                assert(crate::rank::topology::links::link_table(b, size as int));
                assert(a[first as int].len() == size && b[first as int].len() == size);
            }
            if !same_link(
                current.rail_links[rail][first as usize][second as usize],
                detected.rail_links[rail][first as usize][second as usize],
            ) {
                assert(!links_close(a[first as int][second as int], b[first as int][second as int]));
                return false;
            }
            second = second + 1;
        }
        first = first + 1;
    }
    true
}

pub fn probed_topology_matches(current: &CollectiveTopology, detected: &CollectiveTopology) -> (same:
    bool)
    requires
        current@.valid(),
        detected@.valid(),
    ensures
        same == current@.resembles(detected@),
{
    if current.world_size != detected.world_size {
        return false;
    }
    let size: u32 = current.world_size;
    let mut first: u32 = 0;
    while first < size
        invariant
            first <= size,
            size == current@.world_size,
            size == detected@.world_size,
            current@.valid(),
            detected@.valid(),
            forall|i: int, j: int|
                0 <= i < first && i < j < size ==> links_close(
                    #[trigger] current@.links[i][j],
                    detected@.links[i][j],
                ),
        decreases size - first,
    {
        let mut second: u32 = first + 1;
        while second < size
            invariant
                first < second <= size,
                size == current@.world_size,
                size == detected@.world_size,
                current@.valid(),
                detected@.valid(),
                forall|j: int|
                    first < j < second ==> links_close(
                        #[trigger] current@.links[first as int][j],
                        detected@.links[first as int][j],
                    ),
            decreases size - second,
        {
            if !same_link(current.link(first, second), detected.link(first, second)) {
                assert(!links_close(
                    current@.links[first as int][second as int],
                    detected@.links[first as int][second as int],
                ));
                return false;
            }
            second = second + 1;
        }
        first = first + 1;
    }
    if current.rail_links.len() != detected.rail_links.len() {
        return false;
    }
    let mut rail: usize = 0;
    while rail < current.rail_links.len()
        invariant
            rail <= current@.rail_links.len(),
            size == current@.world_size,
            size == detected@.world_size,
            current@.valid(),
            detected@.valid(),
            current@.rail_links.len() == detected@.rail_links.len(),
            forall|r: int|
                0 <= r < rail ==> tables_close(
                    #[trigger] current@.rail_links[r],
                    detected@.rail_links[r],
                    size as int,
                ),
        decreases current@.rail_links.len() - rail,
    {
        if !same_rail(current, detected, rail) {
            return false;
        }
        rail = rail + 1;
    }
    let mut row: u32 = 0;
    while row < size
        invariant
            row <= size,
            size == current@.world_size,
            size == detected@.world_size,
            current@.valid(),
            detected@.valid(),
            forall|i: int, j: int|
                0 <= i < row && i < j < size ==> caps_close(
                    #[trigger] current@.aggregate_links[i][j],
                    detected@.aggregate_links[i][j],
                ),
        decreases size - row,
    {
        let mut second: u32 = row + 1;
        while second < size
            invariant
                row < second <= size,
                size == current@.world_size,
                size == detected@.world_size,
                current@.valid(),
                detected@.valid(),
                forall|j: int|
                    row < j < second ==> caps_close(
                        #[trigger] current@.aggregate_links[row as int][j],
                        detected@.aggregate_links[row as int][j],
                    ),
            decreases size - second,
        {
            if !same_cap(
                current.aggregate_bandwidth_mbps(row, second),
                detected.aggregate_bandwidth_mbps(row, second),
            ) {
                assert(!caps_close(
                    current@.aggregate_links[row as int][second as int],
                    detected@.aggregate_links[row as int][second as int],
                ));
                return false;
            }
            second = second + 1;
        }
        row = row + 1;
    }
    true
}

/// How messages name an entry.
pub open spec fn range_text(entry: CollectiveAutotuneEntry) -> Seq<char> {
    entry.operation.spec_name() + " range "@ + decimal(entry.min_payload_bytes as nat) + "..="@
        + decimal(entry.max_payload_bytes as nat)
}

/// Whether an algorithm can run a collective at all.
pub open spec fn can_run(algorithm: CollectiveAlgorithm, kind: CollectiveKind) -> bool {
    if kind == CollectiveKind::AllToAll {
        algorithm == CollectiveAlgorithm::Direct || algorithm == CollectiveAlgorithm::Pairwise
    } else {
        algorithm != CollectiveAlgorithm::Pairwise
    }
}

/// What is wrong with one entry.
pub open spec fn entry_defect(entry: CollectiveAutotuneEntry, grouped: bool) -> Option<
    TopologyFailure,
> {
    if entry.min_payload_bytes > entry.max_payload_bytes {
        Some(TopologyFailure::InvalidProfile(range_text(entry) + " is reversed"@))
    } else if entry.measured_time_ns == 0 {
        Some(TopologyFailure::InvalidProfile(range_text(entry) + " has zero measured time"@))
    } else if !(0 < entry.ring_channels <= MAX_RING_CHANNELS) {
        Some(
            TopologyFailure::InvalidProfile(
                range_text(entry) + " has invalid ring channel count "@ + decimal(
                    entry.ring_channels as nat,
                ),
            ),
        )
    } else if !can_run(entry.algorithm, entry.operation) {
        Some(
            TopologyFailure::InvalidProfile(
                "algorithm "@ + algorithm_text(entry.algorithm) + " cannot execute "@
                    + entry.operation.spec_name(),
            ),
        )
    } else if entry.algorithm == CollectiveAlgorithm::Hierarchical && !grouped {
        Some(
            TopologyFailure::InvalidProfile(
                "hierarchical measurement requires configured topology groups"@,
            ),
        )
    } else {
        None
    }
}

/// What is wrong with the first of the first `count` entries that has a defect.
pub open spec fn entries_defect(
    entries: Seq<CollectiveAutotuneEntry>,
    grouped: bool,
    count: int,
) -> Option<TopologyFailure>
    decreases count,
{
    if count <= 0 {
        None
    } else {
        match entries_defect(entries, grouped, count - 1) {
            Some(defect) => Some(defect),
            None => entry_defect(entries[count - 1], grouped),
        }
    }
}

/// The ranges of one kind among the first `count` entries.
pub open spec fn ranges_of(
    entries: Seq<CollectiveAutotuneEntry>,
    kind: CollectiveKind,
    count: int,
) -> Seq<(u64, u64)>
    decreases count,
{
    if count <= 0 {
        Seq::empty()
    } else if entries[count - 1].operation == kind {
        ranges_of(entries, kind, count - 1).push(
            (entries[count - 1].min_payload_bytes, entries[count - 1].max_payload_bytes),
        )
    } else {
        ranges_of(entries, kind, count - 1)
    }
}

/// How messages name two ranges that overlap.
pub open spec fn overlap_text(kind: CollectiveKind, a: (u64, u64), b: (u64, u64)) -> Seq<char> {
    kind.spec_name() + " ranges "@ + decimal(a.0 as nat) + "..="@ + decimal(a.1 as nat) + " and "@
        + decimal(b.0 as nat) + "..="@ + decimal(b.1 as nat) + " overlap"@
}

/// The first overlap of neighbours among the first `count` sorted ranges.
pub open spec fn overlap_defect(kind: CollectiveKind, ranges: Seq<(u64, u64)>, count: int) -> Option<
    TopologyFailure,
>
    decreases count,
{
    if count <= 1 {
        None
    } else {
        match overlap_defect(kind, ranges, count - 1) {
            Some(defect) => Some(defect),
            None => if ranges[count - 1].0 <= ranges[count - 2].1 {
                Some(
                    TopologyFailure::InvalidProfile(
                        overlap_text(kind, ranges[count - 2], ranges[count - 1]),
                    ),
                )
            } else {
                None
            },
        }
    }
}

/// The first overlap of one kind's ranges.
pub open spec fn kind_defect(entries: Seq<CollectiveAutotuneEntry>, kind: CollectiveKind) -> Option<
    TopologyFailure,
> {
    let ranges = sorted_pairs(ranges_of(entries, kind, entries.len() as int));
    overlap_defect(kind, ranges, ranges.len() as int)
}

/// The topology that a profile says it was measured on.
pub open spec fn detected_topology(
    world_size: u32,
    rails: int,
    links: Seq<char>,
    rail_links: Option<Seq<char>>,
    aggregate_links: Option<Seq<char>>,
) -> Result<TopologyModel, TopologyFailure> {
    match topology_of(world_size, links) {
        Err(failure) => Err(failure),
        Ok(plain) => match (match rail_links {
            Some(text) => rail_links_added(plain, text, rails),
            None => Ok(plain),
        }) {
            Err(failure) => Err(failure),
            Ok(railed) => match aggregate_links {
                Some(text) => aggregate_links_added(railed, text),
                None => Ok(railed),
            },
        },
    }
}

/// What a profile recorded of the machine that it was measured on.
pub struct Detected {
    pub links: Option<Seq<char>>,
    pub rail_links: Option<Seq<char>>,
    pub aggregate_links: Option<Seq<char>>,
    pub allowed: bool,
}

pub open spec fn undetected() -> Detected {
    Detected { links: None, rail_links: None, aggregate_links: None, allowed: false }
}

/// The text of an optional string.
pub open spec fn optional_text(text: Option<&str>) -> Option<Seq<char>> {
    match text {
        Some(text) => Some(text@),
        None => None,
    }
}

impl TuningModel {
    /// A topology fingerprint that does not fit.
    pub open spec fn fingerprint_mismatch(self, found: Seq<char>) -> TopologyFailure {
        TopologyFailure::InvalidProfile(
            "topology fingerprint "@ + quoted(found) + " does not match "@ + quoted(
                hex_fixed(self.fingerprint() as nat, 16),
            ),
        )
    }

    /// What is wrong with a profile's topology fingerprint: it is this tuning's,
    /// or that of a detected topology which this one resembles.
    pub open spec fn fingerprint_defect(self, found: Seq<char>, detected: Detected) -> Option<
        TopologyFailure,
    > {
        if found == hex_fixed(self.fingerprint() as nat, 16) {
            None
        } else {
            match detected.links {
                Some(links) => if detected.allowed {
                    match detected_topology(
                        self.topology.world_size,
                        self.p2p_rails as int,
                        links,
                        detected.rail_links,
                        detected.aggregate_links,
                    ) {
                        Err(failure) => Some(failure),
                        Ok(topology) => if self.topology.resembles(topology) && self.rail_order()
                            == self.moved(topology).rail_order() && hex_fixed(
                            self.moved(topology).fingerprint() as nat,
                            16,
                        ) == found {
                            None
                        } else {
                            Some(self.fingerprint_mismatch(found))
                        },
                    }
                } else {
                    Some(self.fingerprint_mismatch(found))
                },
                None => Some(self.fingerprint_mismatch(found)),
            }
        }
    }

    /// What is wrong with a profile's measurements.
    pub open spec fn measurements_defect(self, entries: Seq<CollectiveAutotuneEntry>) -> Option<
        TopologyFailure,
    > {
        if entries.len() == 0 {
            Some(TopologyFailure::InvalidProfile("profile contains no measurements"@))
        } else if entries_defect(
            entries,
            self.hierarchy_groups is Some,
            entries.len() as int,
        ) is Some {
            entries_defect(entries, self.hierarchy_groups is Some, entries.len() as int)
        } else if kind_defect(entries, CollectiveKind::AllReduce) is Some {
            kind_defect(entries, CollectiveKind::AllReduce)
        } else if kind_defect(entries, CollectiveKind::AllGather) is Some {
            kind_defect(entries, CollectiveKind::AllGather)
        } else if kind_defect(entries, CollectiveKind::ReduceScatter) is Some {
            kind_defect(entries, CollectiveKind::ReduceScatter)
        } else {
            kind_defect(entries, CollectiveKind::AllToAll)
        }
    }

    /// What is wrong with a profile.
    pub open spec fn profile_defect(self, profile: ProfileModel, detected: Detected) -> Option<
        TopologyFailure,
    > {
        let found = plain_fingerprint(profile.topology_fingerprint);
        let executed = plain_fingerprint(profile.execution_fingerprint);
        if profile.version != COLLECTIVE_AUTOTUNE_PROFILE_VERSION {
            Some(
                TopologyFailure::InvalidProfile(
                    "unsupported version "@ + decimal(profile.version as nat) + ", expected "@
                        + decimal(COLLECTIVE_AUTOTUNE_PROFILE_VERSION as nat),
                ),
            )
        } else if profile.world_size != self.topology.world_size {
            Some(
                TopologyFailure::InvalidProfile(
                    "world size "@ + decimal(profile.world_size as nat)
                        + " does not match configured world size "@ + decimal(
                        self.topology.world_size as nat,
                    ),
                ),
            )
        } else if self.fingerprint_defect(found, detected) is Some {
            self.fingerprint_defect(found, detected)
        } else if executed != hex_fixed(self.execution() as nat, 16) {
            Some(
                TopologyFailure::InvalidProfile(
                    "execution fingerprint "@ + quoted(executed) + " does not match "@ + quoted(
                        hex_fixed(self.execution() as nat, 16),
                    ) + " for transport "@ + transport_text(self.transport),
                ),
            )
        } else {
            self.measurements_defect(profile.entries)
        }
    }
}

fn range_message(entry: &CollectiveAutotuneEntry) -> (text: String)
    ensures
        text@ == range_text(*entry),
{
    let mut text = String::from_str(entry.operation.name());
    text.append(" range ");
    push_decimal(&mut text, entry.min_payload_bytes);
    text.append("..=");
    push_decimal(&mut text, entry.max_payload_bytes);
    text
}

fn validate_entry(entry: &CollectiveAutotuneEntry, grouped: bool) -> (result: Result<
    (),
    TopologyError,
>)
    ensures
        match entry_defect(*entry, grouped) {
            Some(defect) => result is Err && result->Err_0@ == defect,
            None => result is Ok,
        },
{
    if entry.min_payload_bytes > entry.max_payload_bytes {
        let mut text = range_message(entry);
        text.append(" is reversed");
        return Err(TopologyError::InvalidProfile(text));
    }
    if entry.measured_time_ns == 0 {
        let mut text = range_message(entry);
        text.append(" has zero measured time");
        return Err(TopologyError::InvalidProfile(text));
    }
    match validate_ring_channels(entry.ring_channels) {
        Ok(()) => {},
        Err(_) => {
            let mut text = range_message(entry);
            text.append(" has invalid ring channel count ");
            push_usize(&mut text, entry.ring_channels);
            return Err(TopologyError::InvalidProfile(text));
        },
    }
    let valid_algorithm: bool = match entry.operation {
        CollectiveKind::AllToAll => match entry.algorithm {
            CollectiveAlgorithm::Direct | CollectiveAlgorithm::Pairwise => true,
            _ => false,
        },
        _ => match entry.algorithm {
            CollectiveAlgorithm::Pairwise => false,
            _ => true,
        },
    };
    if !valid_algorithm {
        let mut text = String::from_str("algorithm ");
        text.append(algorithm_name(entry.algorithm));
        text.append(" cannot execute ");
        text.append(entry.operation.name());
        return Err(TopologyError::InvalidProfile(text));
    }
    if entry.algorithm == CollectiveAlgorithm::Hierarchical && !grouped {
        return Err(
            TopologyError::InvalidProfile(
                String::from_str("hierarchical measurement requires configured topology groups"),
            ),
        );
    }
    Ok(())
}

proof fn lemma_entries_defect(
    entries: Seq<CollectiveAutotuneEntry>,
    grouped: bool,
    count: int,
    end: int,
)
    requires
        count <= end,
        entries_defect(entries, grouped, count) is Some,
    ensures
        entries_defect(entries, grouped, end) == entries_defect(entries, grouped, count),
    decreases end - count,
{
    if count < end {
        lemma_entries_defect(entries, grouped, count, end - 1);
    }
}

proof fn lemma_overlap_defect(kind: CollectiveKind, ranges: Seq<(u64, u64)>, count: int, end: int)
    requires
        count <= end,
        overlap_defect(kind, ranges, count) is Some,
    ensures
        overlap_defect(kind, ranges, end) == overlap_defect(kind, ranges, count),
    decreases end - count,
{
    if count < end {
        lemma_overlap_defect(kind, ranges, count, end - 1);
    }
}

fn validate_ranges(entries: &[CollectiveAutotuneEntry], kind: CollectiveKind) -> (result: Result<
    (),
    TopologyError,
>)
    ensures
        match kind_defect(entries@, kind) {
            Some(defect) => result is Err && result->Err_0@ == defect,
            None => result is Ok,
        },
{
    let mut ranges: Vec<(u64, u64)> = Vec::new();
    let mut index: usize = 0;
    while index < entries.len()
        invariant
            index <= entries@.len(),
            ranges@ == ranges_of(entries@, kind, index as int),
        decreases entries@.len() - index,
    {
        let entry = entries[index];
        if entry.operation == kind {
            ranges.push((entry.min_payload_bytes, entry.max_payload_bytes));
        }
        index = index + 1;
    }
    let sorted = sort_pairs(ranges.as_slice());
    let ghost model = sorted@;
    let mut place: usize = 1;
    while place < sorted.len()
        invariant
            1 <= place,
            place <= sorted@.len() || sorted@.len() == 0,
            model == sorted@,
            model == sorted_pairs(ranges_of(entries@, kind, entries@.len() as int)),
            overlap_defect(kind, model, place as int) is None,
        decreases sorted@.len() - place,
    {
        let before: (u64, u64) = sorted[place - 1];
        let after: (u64, u64) = sorted[place];
        if after.0 <= before.1 {
            let mut text = String::from_str(kind.name());
            text.append(" ranges ");
            push_decimal(&mut text, before.0);
            text.append("..=");
            push_decimal(&mut text, before.1);
            text.append(" and ");
            push_decimal(&mut text, after.0);
            text.append("..=");
            push_decimal(&mut text, after.1);
            text.append(" overlap");
            proof {
                assert(overlap_defect(kind, model, place + 1) is Some);
                lemma_overlap_defect(kind, model, place + 1, model.len() as int);
            }
            return Err(TopologyError::InvalidProfile(text));
        }
        place = place + 1;
    }
    Ok(())
}

impl CollectiveTuning {
    fn fingerprint_error(&self, found: &str) -> (error: TopologyError)
        requires
            self@.valid(),
        ensures
            error@ == self@.fingerprint_mismatch(found@),
    {
        let mut text = String::from_str("topology fingerprint ");
        let shown = quote(found);
        text.append(shown.as_str());
        text.append(" does not match ");
        let expected = self.topology_fingerprint_hex();
        let expected_shown = quote(expected.as_str());
        text.append(expected_shown.as_str());
        TopologyError::InvalidProfile(text)
    }

    fn validate_fingerprint(
        &self,
        found: &str,
        detected_topology_links: Option<&str>,
        detected_topology_rail_links: Option<&str>,
        detected_topology_aggregate_links: Option<&str>,
        allow_detected_topology: bool,
    ) -> (result: Result<(), TopologyError>)
        requires
            self@.valid(),
        ensures
            match self@.fingerprint_defect(
                found@,
                (Detected {
                    links: optional_text(detected_topology_links),
                    rail_links: optional_text(detected_topology_rail_links),
                    aggregate_links: optional_text(detected_topology_aggregate_links),
                    allowed: allow_detected_topology,
                }),
            ) {
                Some(defect) => result is Err && result->Err_0@ == defect,
                None => result is Ok,
            },
    {
        let expected = self.topology_fingerprint_hex();
        let found_chars = chars_of(found);
        if spells(found_chars.as_slice(), expected.as_str()) {
            return Ok(());
        }
        let encoded = match detected_topology_links {
            Some(encoded) => encoded,
            None => {
                return Err(self.fingerprint_error(found));
            },
        };
        if !allow_detected_topology {
            return Err(self.fingerprint_error(found));
        }
        let mut detected = match parse_topology_links(self.topology.world_size, encoded) {
            Ok(topology) => topology,
            Err(error) => {
                return Err(error);
            },
        };
        match detected_topology_rail_links {
            Some(encoded) => match parse_topology_rail_links(
                &mut detected,
                encoded,
                self.p2p_rails,
            ) {
                Ok(()) => {},
                Err(error) => {
                    return Err(error);
                },
            },
            None => {},
        }
        match detected_topology_aggregate_links {
            Some(encoded) => match parse_topology_aggregate_links(&mut detected, encoded) {
                Ok(()) => {},
                Err(error) => {
                    return Err(error);
                },
            },
            None => {},
        }
        if !probed_topology_matches(&self.topology, &detected) {
            return Err(self.fingerprint_error(found));
        }
        let own = self.rail_order();
        let pinned = self.rail_order_over(&detected);
        if !same_rails(own.as_slice(), pinned.as_slice()) {
            return Err(self.fingerprint_error(found));
        }
        let pinned_fingerprint = hex_text(self.fingerprint_over(&detected));
        if !spells(found_chars.as_slice(), pinned_fingerprint.as_str()) {
            return Err(self.fingerprint_error(found));
        }
        Ok(())
    }

    fn validate_measurements(&self, entries: &[CollectiveAutotuneEntry]) -> (result: Result<
        (),
        TopologyError,
    >)
        ensures
            match self@.measurements_defect(entries@) {
                Some(defect) => result is Err && result->Err_0@ == defect,
                None => result is Ok,
            },
    {
        if entries.len() == 0 {
            return Err(
                TopologyError::InvalidProfile(String::from_str("profile contains no measurements")),
            );
        }
        let grouped: bool = self.hierarchy_groups.is_some();
        let mut index: usize = 0;
        while index < entries.len()
            invariant
                index <= entries@.len(),
                entries@.len() > 0,
                grouped == (self@.hierarchy_groups is Some),
                entries_defect(entries@, grouped, index as int) is None,
            decreases entries@.len() - index,
        {
            match validate_entry(&entries[index], grouped) {
                Ok(()) => {},
                Err(error) => {
                    proof {
                        assert(entries_defect(entries@, grouped, index + 1) is Some);
                        lemma_entries_defect(
                            entries@,
                            grouped,
                            index + 1,
                            entries@.len() as int,
                        );
                    }
                    return Err(error);
                },
            }
            index = index + 1;
        }
        match validate_ranges(entries, CollectiveKind::AllReduce) {
            Ok(()) => {},
            Err(error) => {
                return Err(error);
            },
        }
        match validate_ranges(entries, CollectiveKind::AllGather) {
            Ok(()) => {},
            Err(error) => {
                return Err(error);
            },
        }
        match validate_ranges(entries, CollectiveKind::ReduceScatter) {
            Ok(()) => {},
            Err(error) => {
                return Err(error);
            },
        }
        validate_ranges(entries, CollectiveKind::AllToAll)
    }

    /// Refuses a profile that was measured on something else, or whose
    /// measurements do not fit together.
    pub fn validate_autotune_profile_with_detected(
        &self,
        profile: &CollectiveAutotuneProfile,
        detected_topology_links: Option<&str>,
        detected_topology_rail_links: Option<&str>,
        detected_topology_aggregate_links: Option<&str>,
        allow_detected_topology: bool,
    ) -> (result: Result<(), TopologyError>)
        requires
            self@.valid(),
        ensures
            match self@.profile_defect(
                profile@,
                (Detected {
                    links: optional_text(detected_topology_links),
                    rail_links: optional_text(detected_topology_rail_links),
                    aggregate_links: optional_text(detected_topology_aggregate_links),
                    allowed: allow_detected_topology,
                }),
            ) {
                Some(defect) => result is Err && result->Err_0@ == defect,
                None => result is Ok,
            },
    {
        if profile.version != COLLECTIVE_AUTOTUNE_PROFILE_VERSION {
            let mut text = String::from_str("unsupported version ");
            push_decimal(&mut text, profile.version as u64);
            text.append(", expected ");
            push_decimal(&mut text, COLLECTIVE_AUTOTUNE_PROFILE_VERSION as u64);
            return Err(TopologyError::InvalidProfile(text));
        }
        let world_size: u32 = self.topology.world_size;
        if profile.world_size != world_size {
            let mut text = String::from_str("world size ");
            push_decimal(&mut text, profile.world_size as u64);
            text.append(" does not match configured world size ");
            push_decimal(&mut text, world_size as u64);
            return Err(TopologyError::InvalidProfile(text));
        }
        let fingerprint = read_fingerprint(profile.topology_fingerprint.as_str());
        match self.validate_fingerprint(
            fingerprint.as_str(),
            detected_topology_links,
            detected_topology_rail_links,
            detected_topology_aggregate_links,
            allow_detected_topology,
        ) {
            Ok(()) => {},
            Err(error) => {
                return Err(error);
            },
        }
        let executed = read_fingerprint(profile.execution_fingerprint.as_str());
        let expected = self.execution_fingerprint_hex();
        let executed_chars = chars_of(executed.as_str());
        if !spells(executed_chars.as_slice(), expected.as_str()) {
            let mut text = String::from_str("execution fingerprint ");
            let shown = quote(executed.as_str());
            text.append(shown.as_str());
            text.append(" does not match ");
            let expected_shown = quote(expected.as_str());
            text.append(expected_shown.as_str());
            text.append(" for transport ");
            text.append(transport_name(self.transport));
            return Err(TopologyError::InvalidProfile(text));
        }
        self.validate_measurements(profile.entries.as_slice())
    }

    /// Refuses a profile that does not fit this tuning.
    pub fn validate_autotune_profile(&self, profile: &CollectiveAutotuneProfile) -> (result: Result<
        (),
        TopologyError,
    >)
        requires
            self@.valid(),
        ensures
            match self@.profile_defect(profile@, undetected()) {
                Some(defect) => result is Err && result->Err_0@ == defect,
                None => result is Ok,
            },
    {
        self.validate_autotune_profile_with_detected(profile, None, None, None, false)
    }
}

fn same_rails(a: &[usize], b: &[usize]) -> (same: bool)
    ensures
        same == (a@ == b@),
{
    if a.len() != b.len() {
        return false;
    }
    let mut index: usize = 0;
    while index < a.len()
        invariant
            index <= a@.len(),
            a@.len() == b@.len(),
            forall|i: int| 0 <= i < index ==> #[trigger] a@[i] == b@[i],
        decreases a@.len() - index,
    {
        if a[index] != b[index] {
            return false;
        }
        index = index + 1;
    }
    assert(a@ =~= b@);
    true
}

/// What a tuning with a profile holds: whatever a payload is planned by
/// measurement, the measurement covers the payload, and the profile was
/// accepted with an algorithm that can run the collective.
pub proof fn law_measured_plans_are_measured(
    tuning: TuningModel,
    detected: Detected,
    kind: CollectiveKind,
    payload: usize,
)
    requires
        tuning.autotune_profile is Some,
        tuning.profile_defect(tuning.autotune_profile->0, detected) is None,
        tuning.measured(kind, payload) is Some,
    ensures
        ({
            let entry = tuning.measured(kind, payload)->0;
            &&& tuning.autotune_profile->0.entries.contains(entry)
            &&& entry.operation == kind
            &&& entry.min_payload_bytes <= payload <= entry.max_payload_bytes
            &&& can_run(entry.algorithm, kind)
            &&& 0 < entry.ring_channels <= MAX_RING_CHANNELS
            &&& entry.algorithm == CollectiveAlgorithm::Hierarchical
                ==> tuning.hierarchy_groups is Some
        }),
{
    let entries = tuning.autotune_profile->0.entries;
    lemma_measured_from(entries, kind, payload, 0);
    let place = choose|i: int|
        0 <= i < entries.len() && entries[i] == tuning.measured(kind, payload)->0
            && TuningModel::measures(entries[i], kind, payload);
    lemma_entries_sound(
        entries,
        tuning.hierarchy_groups is Some,
        entries.len() as int,
        place,
    );
}

/// An accepted profile has a channel in every entry.
pub proof fn lemma_accepted_channels(
    tuning: TuningModel,
    profile: ProfileModel,
    detected: Detected,
)
    requires
        tuning.profile_defect(profile, detected) is None,
    ensures
        forall|i: int|
            0 <= i < profile.entries.len() ==> 0 < (#[trigger] profile.entries[i]).ring_channels,
{
    let entries = profile.entries;
    assert forall|i: int| 0 <= i < entries.len() implies 0 < (
    #[trigger] entries[i]).ring_channels by {
        lemma_entries_sound(
            entries,
            tuning.hierarchy_groups is Some,
            entries.len() as int,
            i,
        );
    }
}

proof fn lemma_measured_from(
    entries: Seq<CollectiveAutotuneEntry>,
    kind: CollectiveKind,
    payload: usize,
    from: int,
)
    requires
        0 <= from,
        TuningModel::measured_from(entries, kind, payload, from) is Some,
    ensures
        exists|i: int|
            0 <= i < entries.len() && #[trigger] entries[i] == TuningModel::measured_from(
                entries,
                kind,
                payload,
                from,
            )->0 && TuningModel::measures(entries[i], kind, payload),
    decreases entries.len() - from,
{
    if from < entries.len() {
        if TuningModel::measures(entries[from], kind, payload) {
            assert(entries[from] == TuningModel::measured_from(entries, kind, payload, from)->0);
        } else {
            lemma_measured_from(entries, kind, payload, from + 1);
        }
    }
}

proof fn lemma_entries_sound(
    entries: Seq<CollectiveAutotuneEntry>,
    grouped: bool,
    count: int,
    place: int,
)
    requires
        0 <= place < count <= entries.len(),
        entries_defect(entries, grouped, count) is None,
    ensures
        entry_defect(entries[place], grouped) is None,
    decreases count,
{
    if place < count - 1 {
        lemma_entries_sound(entries, grouped, count - 1, place);
    }
}

/// In an accepted profile no two ranges of one kind overlap.
pub proof fn law_accepted_ranges_are_apart(
    tuning: TuningModel,
    profile: ProfileModel,
    detected: Detected,
    kind: CollectiveKind,
    a: int,
    b: int,
)
    requires
        tuning.profile_defect(profile, detected) is None,
        ({
            let ranges = sorted_pairs(ranges_of(profile.entries, kind, profile.entries.len() as int));
            0 <= a < b < ranges.len()
        }),
    ensures
        ({
            let ranges = sorted_pairs(ranges_of(profile.entries, kind, profile.entries.len() as int));
            ranges[a].1 < ranges[b].0
        }),
{
    let entries = profile.entries;
    let ranges = sorted_pairs(ranges_of(entries, kind, entries.len() as int));
    assert(kind_defect(entries, kind) is None);
    lemma_no_overlap(kind, ranges, ranges.len() as int, b);
    let all = ranges_of(entries, kind, entries.len() as int);
    lemma_ranges_ascend(entries, kind, tuning.hierarchy_groups is Some, entries.len() as int);
    crate::rank::topology::pairs::lemma_sorted_pairs_hold(all);
    assert(all.contains(ranges[b - 1]));
    lemma_apart_chain(kind, ranges, all, a, b);
}

proof fn lemma_no_overlap(kind: CollectiveKind, ranges: Seq<(u64, u64)>, count: int, place: int)
    requires
        overlap_defect(kind, ranges, count) is None,
        1 <= place < count,
    ensures
        ranges[place - 1].1 < ranges[place].0,
    decreases count,
{
    if place < count - 1 {
        lemma_no_overlap(kind, ranges, count - 1, place);
    }
}

proof fn lemma_ranges_ascend(
    entries: Seq<CollectiveAutotuneEntry>,
    kind: CollectiveKind,
    grouped: bool,
    count: int,
)
    requires
        0 <= count <= entries.len(),
        entries_defect(entries, grouped, count) is None,
    ensures
        forall|p: (u64, u64)| #[trigger]
            ranges_of(entries, kind, count).contains(p) ==> p.0 <= p.1,
    decreases count,
{
    if count > 0 {
        lemma_ranges_ascend(entries, kind, grouped, count - 1);
        let shorter = ranges_of(entries, kind, count - 1);
        let longer = ranges_of(entries, kind, count);
        assert forall|p: (u64, u64)| #[trigger] longer.contains(p) implies p.0 <= p.1 by {
            let k = choose|k: int| 0 <= k < longer.len() && longer[k] == p;
            if k < shorter.len() {
                assert(shorter[k] == p);
                assert(shorter.contains(p));
            } else {
                assert(entry_defect(entries[count - 1], grouped) is None);
            }
        }
    } else {
        assert(ranges_of(entries, kind, count).len() == 0);
    }
}

proof fn lemma_apart_chain(
    kind: CollectiveKind,
    ranges: Seq<(u64, u64)>,
    all: Seq<(u64, u64)>,
    a: int,
    b: int,
)
    requires
        0 <= a < b < ranges.len(),
        overlap_defect(kind, ranges, ranges.len() as int) is None,
        forall|p: (u64, u64)| #[trigger] all.contains(p) ==> p.0 <= p.1,
        forall|i: int| 0 <= i < ranges.len() ==> all.contains(#[trigger] ranges[i]),
    ensures
        ranges[a].1 < ranges[b].0,
    decreases b - a,
{
    lemma_no_overlap(kind, ranges, ranges.len() as int, b);
    if a < b - 1 {
        lemma_apart_chain(kind, ranges, all, a, b - 1);
        assert(all.contains(ranges[b - 1]));
    }
}

} // verus!
