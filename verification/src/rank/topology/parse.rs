//! Topology descriptions as text.

use crate::chars::{
    char_lists, chars_of, halves, lower_chars, lowered, number, parse_number, spells, split,
    split_chars, split_once, trim_chars, trimmed,
};
use crate::rank::layout::rank_lists;
use crate::rank::topology::groups::{hierarchy_defect, is_hierarchy, validate_hierarchy_groups};
use crate::rank::topology::links::{
    CollectiveTopology, TopologyAggregateLink, TopologyLink, TopologyModel, TopologyRailLink,
};
use crate::rank::topology::rails::{is_rail_order, rail_order_defect, validate_rail_order};
use crate::rank::topology::rings::{is_ring, ring_defect, validate_ring_order};
use crate::rank::topology::{TopologyError, TopologyFailure, MAX_P2P_RAILS};
use vstd::prelude::*;
use vstd::string::*;

verus! {

/// What a named setting holds: nothing, a text, or bytes that are no text and
/// of which `NotUnicode` holds a readable rendering.
#[derive(Debug, Clone, PartialEq, Eq)]
pub enum Variable {
    Absent,
    Text(String),
    NotUnicode(String),
}

/// The same with its text as a character sequence.
pub enum VariableModel {
    Absent,
    Text(Seq<char>),
    NotUnicode(Seq<char>),
}

impl View for Variable {
    type V = VariableModel;

    open spec fn view(&self) -> VariableModel {
        match *self {
            Variable::Absent => VariableModel::Absent,
            Variable::Text(text) => VariableModel::Text(text@),
            Variable::NotUnicode(text) => VariableModel::NotUnicode(text@),
        }
    }
}

/// A setting that cannot be used.
pub open spec fn unusable(name: Seq<char>, value: Seq<char>) -> TopologyFailure {
    TopologyFailure::InvalidEnvironment { name, value }
}

pub fn unusable_setting(name: &'static str, value: &str) -> (error: TopologyError)
    ensures
        error@ == unusable(name@, value@),
{
    TopologyError::InvalidEnvironment { name, value: String::from_str(value) }
}

/// The number that a setting holds, or its default.
pub open spec fn number_setting(
    name: Seq<char>,
    value: VariableModel,
    default: nat,
    limit: nat,
) -> Result<nat, TopologyFailure> {
    match value {
        VariableModel::Absent => Ok(default),
        VariableModel::NotUnicode(text) => Err(unusable(name, text)),
        VariableModel::Text(text) => match number(text, limit) {
            Some(value) => Ok(value),
            None => Err(unusable(name, text)),
        },
    }
}

pub fn parse_u64_environment(name: &'static str, value: &Variable, default: u64) -> (result: Result<
    u64,
    TopologyError,
>)
    ensures
        match number_setting(name@, value@, default as nat, u64::MAX as nat) {
            Ok(number) => result is Ok && result->Ok_0 == number,
            Err(failure) => result is Err && result->Err_0@ == failure,
        },
{
    match value {
        Variable::Absent => Ok(default),
        Variable::NotUnicode(text) => Err(unusable_setting(name, text.as_str())),
        Variable::Text(text) => {
            let chars = chars_of(text.as_str());
            match parse_number(chars.as_slice(), u64::MAX) {
                Some(number) => Ok(number),
                None => Err(unusable_setting(name, text.as_str())),
            }
        },
    }
}

pub fn parse_usize_environment(name: &'static str, value: &Variable, default: usize) -> (result:
    Result<usize, TopologyError>)
    ensures
        match number_setting(name@, value@, default as nat, usize::MAX as nat) {
            Ok(number) => result is Ok && result->Ok_0 == number,
            Err(failure) => result is Err && result->Err_0@ == failure,
        },
{
    match value {
        Variable::Absent => Ok(default),
        Variable::NotUnicode(text) => Err(unusable_setting(name, text.as_str())),
        Variable::Text(text) => {
            let chars = chars_of(text.as_str());
            match parse_number(chars.as_slice(), usize::MAX as u64) {
                Some(number) => Ok(number as usize),
                None => Err(unusable_setting(name, text.as_str())),
            }
        },
    }
}

/// A text that is a word, whatever its case and the white space round it.
pub open spec fn is_word(text: Seq<char>, word: Seq<char>) -> bool {
    lowered(trimmed(text)) == word
}

/// A text in lower case, without white space at its ends.
pub fn plain_word(text: &str) -> (word: Vec<char>)
    ensures
        word@ == lowered(trimmed(text@)),
{
    let chars = chars_of(text);
    let inner = trim_chars(chars.as_slice());
    lower_chars(inner.as_slice())
}

/// Whether a text is a word, whatever its case and the white space round it.
pub fn reads(text: &str, word: &str) -> (same: bool)
    ensures
        same == is_word(text@, word@),
{
    let plain = plain_word(text);
    spells(plain.as_slice(), word)
}

/// The number that a field spells inside white space.
pub open spec fn field_number(field: Seq<char>, limit: nat) -> Option<nat> {
    number(trimmed(field), limit)
}

pub fn parse_field(field: &[char], limit: u64) -> (result: Option<u64>)
    ensures
        match field_number(field@, limit as nat) {
            Some(value) => result == Some(value as u64) && value <= limit,
            None => result is None,
        },
{
    let inner = trim_chars(field);
    parse_number(inner.as_slice(), limit)
}

/// Every field spells a number.
pub open spec fn all_numbers(fields: Seq<Seq<char>>, limit: nat) -> bool {
    forall|i: int| 0 <= i < fields.len() ==> field_number(#[trigger] fields[i], limit) is Some
}

/// The ranks that fields spell.
pub open spec fn rank_values(fields: Seq<Seq<char>>) -> Seq<u32> {
    Seq::new(fields.len(), |i: int| field_number(fields[i], u32::MAX as nat)->0 as u32)
}

/// The rails that fields spell.
pub open spec fn rail_values(fields: Seq<Seq<char>>) -> Seq<usize> {
    Seq::new(fields.len(), |i: int| field_number(fields[i], usize::MAX as nat)->0 as usize)
}

/// The ring order that a text spells, or why it spells none.
pub open spec fn ring_order_of(world_size: u32, text: Seq<char>) -> Result<
    Seq<u32>,
    TopologyFailure,
> {
    let fields = split(text, ',');
    if !all_numbers(fields, u32::MAX as nat) {
        Err(unusable("GX1_RING_ORDER"@, text))
    } else {
        match ring_defect(world_size, rank_values(fields)) {
            Some(defect) => Err(defect),
            None => Ok(rank_values(fields)),
        }
    }
}

pub fn parse_ring_order(world_size: u32, value: &str) -> (result: Result<Vec<u32>, TopologyError>)
    ensures
        match ring_order_of(world_size, value@) {
            Ok(order) => result is Ok && result->Ok_0@ == order && is_ring(world_size, order),
            Err(failure) => result is Err && result->Err_0@ == failure,
        },
{
    let chars = chars_of(value);
    let fields = split_chars(chars.as_slice(), ',');
    let ghost model = split(value@, ',');
    let mut order: Vec<u32> = Vec::new();
    let mut index: usize = 0;
    while index < fields.len()
        invariant
            index <= fields.len(),
            model == split(value@, ','),
            model == char_lists(fields@),
            order@.len() == index,
            forall|i: int|
                0 <= i < index ==> field_number(#[trigger] model[i], u32::MAX as nat) == Some(
                    order@[i] as nat,
                ),
        decreases fields.len() - index,
    {
        assert(model[index as int] == fields@[index as int]@);
        match parse_field(fields[index].as_slice(), u32::MAX as u64) {
            Some(rank) => {
                order.push(rank as u32);
            },
            None => {
                assert(!all_numbers(model, u32::MAX as nat));
                return Err(unusable_setting("GX1_RING_ORDER", value));
            },
        }
        index = index + 1;
    }
    assert(all_numbers(model, u32::MAX as nat));
    assert(order@ =~= rank_values(model));
    match validate_ring_order(world_size, order.as_slice()) {
        Ok(()) => Ok(order),
        Err(error) => Err(error),
    }
}

/// The rail order that a text spells, or why it spells none.
pub open spec fn rail_order_of(rail_count: int, text: Seq<char>) -> Result<
    Seq<usize>,
    TopologyFailure,
> {
    let fields = split(text, ',');
    if !all_numbers(fields, usize::MAX as nat) {
        Err(unusable("GX1_RAIL_ORDER"@, text))
    } else {
        match rail_order_defect(rail_count, rail_values(fields)) {
            Some(defect) => Err(defect),
            None => Ok(rail_values(fields)),
        }
    }
}

pub fn parse_rail_order(rail_count: usize, value: &str) -> (result: Result<
    Vec<usize>,
    TopologyError,
>)
    ensures
        match rail_order_of(rail_count as int, value@) {
            Ok(order) => {
                &&& result is Ok
                &&& result->Ok_0@ == order
                &&& is_rail_order(rail_count as int, order)
            },
            Err(failure) => result is Err && result->Err_0@ == failure,
        },
{
    let chars = chars_of(value);
    let fields = split_chars(chars.as_slice(), ',');
    let ghost model = split(value@, ',');
    let mut order: Vec<usize> = Vec::new();
    let mut index: usize = 0;
    while index < fields.len()
        invariant
            index <= fields.len(),
            model == split(value@, ','),
            model == char_lists(fields@),
            order@.len() == index,
            forall|i: int|
                0 <= i < index ==> field_number(#[trigger] model[i], usize::MAX as nat) == Some(
                    order@[i] as nat,
                ),
        decreases fields.len() - index,
    {
        assert(model[index as int] == fields@[index as int]@);
        match parse_field(fields[index].as_slice(), usize::MAX as u64) {
            Some(rail) => {
                order.push(rail as usize);
            },
            None => {
                assert(!all_numbers(model, usize::MAX as nat));
                return Err(unusable_setting("GX1_RAIL_ORDER", value));
            },
        }
        index = index + 1;
    }
    assert(all_numbers(model, usize::MAX as nat));
    assert(order@ =~= rail_values(model));
    match validate_rail_order(rail_count, order.as_slice()) {
        Ok(()) => Ok(order),
        Err(error) => Err(error),
    }
}

/// The first `count` fields that are not blank.
pub open spec fn filled_fields(fields: Seq<Seq<char>>, count: int) -> Seq<Seq<char>>
    decreases count,
{
    if count <= 0 {
        Seq::empty()
    } else {
        let rest = filled_fields(fields, count - 1);
        if trimmed(fields[count - 1]).len() == 0 {
            rest
        } else {
            rest.push(fields[count - 1])
        }
    }
}

/// The fields of one group.
pub open spec fn group_fields(group: Seq<char>) -> Seq<Seq<char>> {
    let fields = split(group, ',');
    filled_fields(fields, fields.len() as int)
}

/// The groups that a text spells, or why it spells none.
pub open spec fn groups_of(world_size: u32, text: Seq<char>) -> Result<
    Seq<Seq<u32>>,
    TopologyFailure,
> {
    let parts = split(text, ';');
    if !(forall|g: int|
        0 <= g < parts.len() ==> all_numbers(group_fields(#[trigger] parts[g]), u32::MAX as nat)) {
        Err(unusable("GX1_TOPOLOGY_GROUPS"@, text))
    } else {
        let groups = Seq::new(parts.len(), |g: int| rank_values(group_fields(parts[g])));
        match hierarchy_defect(world_size, groups) {
            Some(defect) => Err(defect),
            None => Ok(groups),
        }
    }
}

/// The ranks of one group.
fn parse_group(group: &[char]) -> (result: Option<Vec<u32>>)
    ensures
        if all_numbers(group_fields(group@), u32::MAX as nat) {
            result is Some && (result->0)@ == rank_values(group_fields(group@))
        } else {
            result is None
        },
{
    let fields = split_chars(group, ',');
    let ghost model = split(group@, ',');
    let ghost wanted = group_fields(group@);
    let mut ranks: Vec<u32> = Vec::new();
    let mut index: usize = 0;
    while index < fields.len()
        invariant
            index <= fields.len(),
            model == split(group@, ','),
            model == char_lists(fields@),
            wanted == group_fields(group@),
            all_numbers(filled_fields(model, index as int), u32::MAX as nat),
            ranks@ == rank_values(filled_fields(model, index as int)),
        decreases fields.len() - index,
    {
        assert(model[index as int] == fields@[index as int]@);
        let ghost before = filled_fields(model, index as int);
        let inner = trim_chars(fields[index].as_slice());
        if inner.len() > 0 {
            let ghost after = filled_fields(model, index + 1);
            assert(after == before.push(model[index as int]));
            match parse_number(inner.as_slice(), u32::MAX as u64) {
                Some(rank) => {
                    ranks.push(rank as u32);
                    proof {
                        assert forall|i: int| 0 <= i < after.len() implies field_number(
                            #[trigger] after[i],
                            u32::MAX as nat,
                        ) is Some by {
                            if i < before.len() {
                                assert(after[i] == before[i]);
                            }
                        }
                        assert(ranks@ =~= rank_values(after));
                    }
                },
                None => {
                    proof {
                        assert(after[before.len() as int] == model[index as int]);
                        lemma_filled_kept(
                            model,
                            index + 1,
                            model.len() as int,
                            before.len() as int,
                        );
                        assert(wanted[before.len() as int] == model[index as int]);
                        assert(!all_numbers(wanted, u32::MAX as nat));
                    }
                    return None;
                },
            }
        }
        index = index + 1;
    }
    Some(ranks)
}

/// A field that was kept stays at its place.
proof fn lemma_filled_kept(fields: Seq<Seq<char>>, count: int, end: int, place: int)
    requires
        0 <= count <= end,
        0 <= place < filled_fields(fields, count).len(),
    ensures
        place < filled_fields(fields, end).len(),
        filled_fields(fields, end)[place] == filled_fields(fields, count)[place],
    decreases end - count,
{
    if count < end {
        lemma_filled_kept(fields, count, end - 1, place);
    }
}

pub fn parse_hierarchy_groups(world_size: u32, value: &str) -> (result: Result<
    Vec<Vec<u32>>,
    TopologyError,
>)
    ensures
        match groups_of(world_size, value@) {
            Ok(groups) => {
                &&& result is Ok
                &&& rank_lists(result->Ok_0@) == groups
                &&& is_hierarchy(world_size, groups)
            },
            Err(failure) => result is Err && result->Err_0@ == failure,
        },
{
    let chars = chars_of(value);
    let parts = split_chars(chars.as_slice(), ';');
    let ghost model = split(value@, ';');
    let mut groups: Vec<Vec<u32>> = Vec::new();
    let mut index: usize = 0;
    while index < parts.len()
        invariant
            index <= parts.len(),
            model == split(value@, ';'),
            model == char_lists(parts@),
            groups@.len() == index,
            forall|g: int|
                0 <= g < index ==> all_numbers(
                    group_fields(#[trigger] model[g]),
                    u32::MAX as nat,
                ) && groups@[g]@ == rank_values(group_fields(model[g])),
        decreases parts.len() - index,
    {
        assert(model[index as int] == parts@[index as int]@);
        match parse_group(parts[index].as_slice()) {
            Some(group) => {
                groups.push(group);
            },
            None => {
                assert(!all_numbers(group_fields(model[index as int]), u32::MAX as nat));
                return Err(unusable_setting("GX1_TOPOLOGY_GROUPS", value));
            },
        }
        index = index + 1;
    }
    proof {
        let wanted = Seq::new(model.len(), |g: int| rank_values(group_fields(model[g])));
        assert(rank_lists(groups@) =~= wanted) by {
            assert forall|g: int| 0 <= g < wanted.len() implies #[trigger] rank_lists(groups@)[g]
                == wanted[g] by {
                assert(all_numbers(group_fields(model[g]), u32::MAX as nat));
            }
        }
    }
    match validate_hierarchy_groups(world_size, groups.as_slice()) {
        Ok(()) => Ok(groups),
        Err(error) => Err(error),
    }
}

/// The two ranks that `first-second` spells.
pub open spec fn pair_of(text: Seq<char>) -> Option<(u32, u32)> {
    match halves(text, '-') {
        Some((first, second)) => match (
            field_number(first, u32::MAX as nat),
            field_number(second, u32::MAX as nat),
        ) {
            (Some(first), Some(second)) => Some((first as u32, second as u32)),
            _ => None,
        },
        None => None,
    }
}

/// The link that `first-second:bandwidth:latency` spells.
pub open spec fn link_of(text: Seq<char>) -> Option<TopologyLink> {
    match halves(text, ':') {
        Some((ranks, metrics)) => match (pair_of(ranks), halves(metrics, ':')) {
            (Some((first_rank, second_rank)), Some((bandwidth, latency))) => match (
                field_number(bandwidth, u64::MAX as nat),
                field_number(latency, u64::MAX as nat),
            ) {
                (Some(bandwidth), Some(latency)) => Some(
                    TopologyLink {
                        first_rank,
                        second_rank,
                        bandwidth_mbps: bandwidth as u64,
                        latency_ns: latency as u64,
                    },
                ),
                _ => None,
            },
            _ => None,
        },
        None => None,
    }
}

/// The rail link that `rail@first-second:bandwidth:latency` spells, where the
/// rail is one of the session's.
pub open spec fn rail_link_of(text: Seq<char>, rails: int) -> Option<TopologyRailLink> {
    match halves(text, '@') {
        Some((rail, rest)) => match (field_number(rail, usize::MAX as nat), link_of(rest)) {
            (Some(rail), Some(link)) => if rail < rails {
                Some(
                    TopologyRailLink {
                        rail: rail as usize,
                        first_rank: link.first_rank,
                        second_rank: link.second_rank,
                        bandwidth_mbps: link.bandwidth_mbps,
                        latency_ns: link.latency_ns,
                    },
                )
            } else {
                None
            },
            _ => None,
        },
        None => None,
    }
}

/// The cap that `first-second:bandwidth` spells.
pub open spec fn aggregate_link_of(text: Seq<char>) -> Option<TopologyAggregateLink> {
    match halves(text, ':') {
        Some((ranks, bandwidth)) => match (
            pair_of(ranks),
            field_number(bandwidth, u64::MAX as nat),
        ) {
            (Some((first_rank, second_rank)), Some(bandwidth)) => Some(
                TopologyAggregateLink {
                    first_rank,
                    second_rank,
                    bandwidth_mbps: bandwidth as u64,
                },
            ),
            _ => None,
        },
        None => None,
    }
}

fn parse_pair(text: &[char]) -> (result: Option<(u32, u32)>)
    ensures
        result == pair_of(text@),
{
    match split_once(text, '-') {
        Some((first, second)) => match (
            parse_field(first.as_slice(), u32::MAX as u64),
            parse_field(second.as_slice(), u32::MAX as u64),
        ) {
            (Some(first), Some(second)) => Some((first as u32, second as u32)),
            _ => None,
        },
        None => None,
    }
}

fn parse_link(text: &[char]) -> (result: Option<TopologyLink>)
    ensures
        result == link_of(text@),
{
    let (ranks, metrics) = match split_once(text, ':') {
        Some(parts) => parts,
        None => {
            return None;
        },
    };
    let (bandwidth, latency) = match split_once(metrics.as_slice(), ':') {
        Some(parts) => parts,
        None => {
            return None;
        },
    };
    let (first_rank, second_rank) = match parse_pair(ranks.as_slice()) {
        Some(pair) => pair,
        None => {
            return None;
        },
    };
    match (
        parse_field(bandwidth.as_slice(), u64::MAX),
        parse_field(latency.as_slice(), u64::MAX),
    ) {
        (Some(bandwidth_mbps), Some(latency_ns)) => Some(
            TopologyLink { first_rank, second_rank, bandwidth_mbps, latency_ns },
        ),
        _ => None,
    }
}

fn parse_rail_link(text: &[char], rails: usize) -> (result: Option<TopologyRailLink>)
    ensures
        result == rail_link_of(text@, rails as int),
{
    let (rail, rest) = match split_once(text, '@') {
        Some(parts) => parts,
        None => {
            return None;
        },
    };
    match (parse_field(rail.as_slice(), usize::MAX as u64), parse_link(rest.as_slice())) {
        (Some(rail), Some(link)) => if rail < rails as u64 {
            Some(
                TopologyRailLink {
                    rail: rail as usize,
                    first_rank: link.first_rank,
                    second_rank: link.second_rank,
                    bandwidth_mbps: link.bandwidth_mbps,
                    latency_ns: link.latency_ns,
                },
            )
        } else {
            None
        },
        _ => None,
    }
}

fn parse_aggregate_link(text: &[char]) -> (result: Option<TopologyAggregateLink>)
    ensures
        result == aggregate_link_of(text@),
{
    let (ranks, bandwidth) = match split_once(text, ':') {
        Some(parts) => parts,
        None => {
            return None;
        },
    };
    match (parse_pair(ranks.as_slice()), parse_field(bandwidth.as_slice(), u64::MAX)) {
        (Some((first_rank, second_rank)), Some(bandwidth_mbps)) => Some(
            TopologyAggregateLink { first_rank, second_rank, bandwidth_mbps },
        ),
        _ => None,
    }
}

/// A topology with the links of the first `count` fields, or why one of them is
/// refused.
pub open spec fn with_links(
    start: TopologyModel,
    text: Seq<char>,
    fields: Seq<Seq<char>>,
    count: int,
) -> Result<TopologyModel, TopologyFailure>
    decreases count,
{
    if count <= 0 {
        Ok(start)
    } else {
        match with_links(start, text, fields, count - 1) {
            Err(failure) => Err(failure),
            Ok(model) => if trimmed(fields[count - 1]).len() == 0 {
                Ok(model)
            } else {
                match link_of(trimmed(fields[count - 1])) {
                    None => Err(unusable("GX1_TOPOLOGY_LINKS"@, text)),
                    Some(link) => match model.pair_defect(
                        link.first_rank,
                        link.second_rank,
                        link.bandwidth_mbps,
                    ) {
                        Some(defect) => Err(defect),
                        None => Ok(model.with_link(link)),
                    },
                }
            },
        }
    }
}

/// The topology that a text of links spells.
pub open spec fn topology_of(world_size: u32, text: Seq<char>) -> Result<
    TopologyModel,
    TopologyFailure,
> {
    if world_size == 0 {
        Err(TopologyFailure::EmptyWorld)
    } else {
        let fields = split(text, ',');
        with_links(TopologyModel::empty(world_size), text, fields, fields.len() as int)
    }
}

proof fn lemma_links_fail(
    start: TopologyModel,
    text: Seq<char>,
    fields: Seq<Seq<char>>,
    count: int,
    end: int,
)
    requires
        count <= end,
    ensures
        with_links(start, text, fields, count) is Err ==> with_links(start, text, fields, end)
            == with_links(start, text, fields, count),
    decreases end - count,
{
    if count < end {
        lemma_links_fail(start, text, fields, count, end - 1);
    }
}

pub fn parse_topology_links(world_size: u32, value: &str) -> (result: Result<
    CollectiveTopology,
    TopologyError,
>)
    ensures
        match topology_of(world_size, value@) {
            Ok(model) => {
                &&& result is Ok
                &&& result->Ok_0@ == model
                &&& result->Ok_0@.valid()
                &&& model.world_size == world_size
            },
            Err(failure) => result is Err && result->Err_0@ == failure,
        },
{
    let mut topology = match CollectiveTopology::empty(world_size) {
        Ok(topology) => topology,
        Err(error) => {
            return Err(error);
        },
    };
    let chars = chars_of(value);
    let fields = split_chars(chars.as_slice(), ',');
    let ghost model = split(value@, ',');
    let ghost start = topology@;
    let mut index: usize = 0;
    while index < fields.len()
        invariant
            index <= fields.len(),
            model == split(value@, ','),
            model == char_lists(fields@),
            world_size > 0,
            start == TopologyModel::empty(world_size),
            topology@.valid(),
            topology@.world_size == world_size,
            with_links(start, value@, model, index as int) == Ok::<_, TopologyFailure>(topology@),
        decreases fields.len() - index,
    {
        assert(model[index as int] == fields@[index as int]@);
        proof {
            lemma_links_fail(start, value@, model, index + 1, model.len() as int);
        }
        let inner = trim_chars(fields[index].as_slice());
        if inner.len() > 0 {
            match parse_link(inner.as_slice()) {
                Some(link) => {
                    match topology.add_link(link) {
                        Ok(()) => {},
                        Err(error) => {
                            return Err(error);
                        },
                    }
                },
                None => {
                    return Err(unusable_setting("GX1_TOPOLOGY_LINKS", value));
                },
            }
        }
        index = index + 1;
    }
    Ok(topology)
}

/// A topology with the rail links of the first `count` fields, or why one of
/// them is refused.
pub open spec fn with_rail_links(
    start: TopologyModel,
    text: Seq<char>,
    rails: int,
    fields: Seq<Seq<char>>,
    count: int,
) -> Result<TopologyModel, TopologyFailure>
    decreases count,
{
    if count <= 0 {
        Ok(start)
    } else {
        match with_rail_links(start, text, rails, fields, count - 1) {
            Err(failure) => Err(failure),
            Ok(model) => if trimmed(fields[count - 1]).len() == 0 {
                Ok(model)
            } else {
                match rail_link_of(trimmed(fields[count - 1]), rails) {
                    None => Err(unusable("GX1_TOPOLOGY_RAIL_LINKS"@, text)),
                    Some(link) => if link.rail >= MAX_P2P_RAILS {
                        Err(
                            TopologyFailure::InvalidP2pRails(
                                crate::math::saturate_usize(link.rail + 1),
                            ),
                        )
                    } else {
                        match model.pair_defect(
                            link.first_rank,
                            link.second_rank,
                            link.bandwidth_mbps,
                        ) {
                            Some(defect) => Err(defect),
                            None => Ok(model.with_rail_link(link)),
                        }
                    },
                }
            },
        }
    }
}

/// A topology with the rail links that a text spells.
pub open spec fn rail_links_added(start: TopologyModel, text: Seq<char>, rails: int) -> Result<
    TopologyModel,
    TopologyFailure,
> {
    let fields = split(text, ',');
    with_rail_links(start, text, rails, fields, fields.len() as int)
}

proof fn lemma_rail_links_fail(
    start: TopologyModel,
    text: Seq<char>,
    rails: int,
    fields: Seq<Seq<char>>,
    count: int,
    end: int,
)
    requires
        count <= end,
    ensures
        with_rail_links(start, text, rails, fields, count) is Err ==> with_rail_links(
            start,
            text,
            rails,
            fields,
            end,
        ) == with_rail_links(start, text, rails, fields, count),
    decreases end - count,
{
    if count < end {
        lemma_rail_links_fail(start, text, rails, fields, count, end - 1);
    }
}

/// Adds the rail links that a text spells. Links before a refused one stay.
pub fn parse_topology_rail_links(
    topology: &mut CollectiveTopology,
    value: &str,
    p2p_rails: usize,
) -> (result: Result<(), TopologyError>)
    requires
        old(topology)@.valid(),
    ensures
        final(topology)@.valid(),
        final(topology)@.world_size == old(topology)@.world_size,
        match rail_links_added(old(topology)@, value@, p2p_rails as int) {
            Ok(model) => result is Ok && final(topology)@ == model,
            Err(failure) => result is Err && result->Err_0@ == failure,
        },
{
    let chars = chars_of(value);
    let fields = split_chars(chars.as_slice(), ',');
    let ghost model = split(value@, ',');
    let ghost start = topology@;
    let mut index: usize = 0;
    while index < fields.len()
        invariant
            index <= fields.len(),
            model == split(value@, ','),
            model == char_lists(fields@),
            start == old(topology)@,
            topology@.valid(),
            topology@.world_size == start.world_size,
            with_rail_links(start, value@, p2p_rails as int, model, index as int) == Ok::<
                _,
                TopologyFailure,
            >(topology@),
        decreases fields.len() - index,
    {
        assert(model[index as int] == fields@[index as int]@);
        proof {
            lemma_rail_links_fail(
                start,
                value@,
                p2p_rails as int,
                model,
                index + 1,
                model.len() as int,
            );
        }
        let inner = trim_chars(fields[index].as_slice());
        if inner.len() > 0 {
            match parse_rail_link(inner.as_slice(), p2p_rails) {
                Some(link) => {
                    match topology.add_rail_link(link) {
                        Ok(()) => {},
                        Err(error) => {
                            return Err(error);
                        },
                    }
                },
                None => {
                    return Err(unusable_setting("GX1_TOPOLOGY_RAIL_LINKS", value));
                },
            }
        }
        index = index + 1;
    }
    Ok(())
}

/// A topology with the caps of the first `count` fields, or why one of them is
/// refused.
pub open spec fn with_aggregate_links(
    start: TopologyModel,
    text: Seq<char>,
    fields: Seq<Seq<char>>,
    count: int,
) -> Result<TopologyModel, TopologyFailure>
    decreases count,
{
    if count <= 0 {
        Ok(start)
    } else {
        match with_aggregate_links(start, text, fields, count - 1) {
            Err(failure) => Err(failure),
            Ok(model) => if trimmed(fields[count - 1]).len() == 0 {
                Ok(model)
            } else {
                match aggregate_link_of(trimmed(fields[count - 1])) {
                    None => Err(unusable("GX1_TOPOLOGY_AGGREGATE_LINKS"@, text)),
                    Some(link) => match model.pair_defect(
                        link.first_rank,
                        link.second_rank,
                        link.bandwidth_mbps,
                    ) {
                        Some(defect) => Err(defect),
                        None => Ok(model.with_aggregate_link(link)),
                    },
                }
            },
        }
    }
}

/// A topology with the caps that a text spells.
pub open spec fn aggregate_links_added(start: TopologyModel, text: Seq<char>) -> Result<
    TopologyModel,
    TopologyFailure,
> {
    let fields = split(text, ',');
    with_aggregate_links(start, text, fields, fields.len() as int)
}

proof fn lemma_aggregate_links_fail(
    start: TopologyModel,
    text: Seq<char>,
    fields: Seq<Seq<char>>,
    count: int,
    end: int,
)
    requires
        count <= end,
    ensures
        with_aggregate_links(start, text, fields, count) is Err ==> with_aggregate_links(
            start,
            text,
            fields,
            end,
        ) == with_aggregate_links(start, text, fields, count),
    decreases end - count,
{
    if count < end {
        lemma_aggregate_links_fail(start, text, fields, count, end - 1);
    }
}

/// Adds the caps that a text spells. Caps before a refused one stay.
pub fn parse_topology_aggregate_links(topology: &mut CollectiveTopology, value: &str) -> (result:
    Result<(), TopologyError>)
    requires
        old(topology)@.valid(),
    ensures
        final(topology)@.valid(),
        final(topology)@.world_size == old(topology)@.world_size,
        match aggregate_links_added(old(topology)@, value@) {
            Ok(model) => result is Ok && final(topology)@ == model,
            Err(failure) => result is Err && result->Err_0@ == failure,
        },
{
    let chars = chars_of(value);
    let fields = split_chars(chars.as_slice(), ',');
    let ghost model = split(value@, ',');
    let ghost start = topology@;
    let mut index: usize = 0;
    while index < fields.len()
        invariant
            index <= fields.len(),
            model == split(value@, ','),
            model == char_lists(fields@),
            start == old(topology)@,
            topology@.valid(),
            topology@.world_size == start.world_size,
            with_aggregate_links(start, value@, model, index as int) == Ok::<_, TopologyFailure>(
                topology@,
            ),
        decreases fields.len() - index,
    {
        assert(model[index as int] == fields@[index as int]@);
        proof {
            lemma_aggregate_links_fail(start, value@, model, index + 1, model.len() as int);
        }
        let inner = trim_chars(fields[index].as_slice());
        if inner.len() > 0 {
            match parse_aggregate_link(inner.as_slice()) {
                Some(link) => {
                    match topology.add_aggregate_link(link) {
                        Ok(()) => {},
                        Err(error) => {
                            return Err(error);
                        },
                    }
                },
                None => {
                    return Err(unusable_setting("GX1_TOPOLOGY_AGGREGATE_LINKS", value));
                },
            }
        }
        index = index + 1;
    }
    Ok(())
}

} // verus!
