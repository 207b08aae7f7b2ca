//! Fingerprints of a tuning's topology and of how it executes.

use crate::rank::hash::{fnv, fnv_u64, law_one_byte_shows, FNV_OFFSET};
use crate::rank::layout::rank_lists;
use crate::rank::topology::links::{
    link_table, rank_pairs, rank_pairs_of, table, CollectiveTopology, LinkCost, TopologyModel,
};
use crate::rank::topology::rails::law_preferred_rails;
use crate::rank::topology::tuning::{copy_rails, CollectiveTuning, TuningModel};
use crate::rank::topology::COLLECTIVE_EXECUTION_REVISION;
use crate::rank::CollectiveTransport;
use crate::text::{hex_fixed, push_hex};
use vstd::bytes::*;
use vstd::prelude::*;
use vstd::string::*;

verus! {

pub const RAIL_LINKS_MARK: u64 = 0x4758_5241_494c_4c4b;

pub const AGGREGATE_LINKS_MARK: u64 = 0x4758_4147_4752_4547;

pub const RAIL_COUNT_MARK: u64 = 0x4758_5241_494c_0001;

pub const RAIL_ORDER_MARK: u64 = 0x4758_5241_494c_4f52;

/// The little-endian images of words, in order.
pub open spec fn image(words: Seq<u64>) -> Seq<u8>
    decreases words.len(),
{
    if words.len() == 0 {
        Seq::empty()
    } else {
        image(words.drop_last()) + spec_u64_to_le_bytes(words.last())
    }
}

/// A link's words.
pub open spec fn link_words(link: Option<LinkCost>) -> Seq<u64> {
    match link {
        Some(link) => seq![1u64, link.bandwidth_mbps, link.latency_ns],
        None => seq![0u64],
    }
}

/// A cap's words.
pub open spec fn cap_words(cap: Option<u64>) -> Seq<u64> {
    match cap {
        Some(bandwidth) => seq![1u64, bandwidth],
        None => seq![0u64],
    }
}

/// The words of the listed pairs' links.
pub open spec fn links_words(rows: Seq<Seq<Option<LinkCost>>>, pairs: Seq<(u32, u32)>) -> Seq<u64>
    decreases pairs.len(),
{
    if pairs.len() == 0 {
        Seq::empty()
    } else {
        let (first, second) = pairs.last();
        links_words(rows, pairs.drop_last()) + seq![first as u64, second as u64] + link_words(
            rows[first as int][second as int],
        )
    }
}

/// The words of the listed pairs' caps.
pub open spec fn caps_words(rows: Seq<Seq<Option<u64>>>, pairs: Seq<(u32, u32)>) -> Seq<u64>
    decreases pairs.len(),
{
    if pairs.len() == 0 {
        Seq::empty()
    } else {
        let (first, second) = pairs.last();
        caps_words(rows, pairs.drop_last()) + seq![first as u64, second as u64] + cap_words(
            rows[first as int][second as int],
        )
    }
}

/// The words of the first `count` rails.
pub open spec fn rails_words(
    rails: Seq<Seq<Seq<Option<LinkCost>>>>,
    pairs: Seq<(u32, u32)>,
    count: int,
) -> Seq<u64>
    decreases count,
{
    if count <= 0 {
        Seq::empty()
    } else {
        rails_words(rails, pairs, count - 1) + seq![(count - 1) as u64] + links_words(
            rails[count - 1],
            pairs,
        )
    }
}

/// Ranks as words.
pub open spec fn ranks_words(ranks: Seq<u32>) -> Seq<u64> {
    Seq::new(ranks.len(), |i: int| ranks[i] as u64)
}

/// Lists of ranks as words, each behind its length.
pub open spec fn lists_words(lists: Seq<Seq<u32>>) -> Seq<u64>
    decreases lists.len(),
{
    if lists.len() == 0 {
        Seq::empty()
    } else {
        lists_words(lists.drop_last()) + seq![lists.last().len() as u64] + ranks_words(
            lists.last(),
        )
    }
}

/// The rails in their own order.
pub open spec fn rails_in_order(count: nat) -> Seq<usize> {
    Seq::new(count, |i: int| i as usize)
}

impl TopologyModel {
    /// Whether any pair has a cap.
    pub open spec fn has_caps(self) -> bool {
        exists|i: int, j: int|
            0 <= i < self.aggregate_links.len() && 0 <= j < self.aggregate_links[i].len()
                && #[trigger] self.aggregate_links[i][j] is Some
    }

    /// The words of a topology's links.
    pub open spec fn words(self) -> Seq<u64> {
        let pairs = rank_pairs_of(self.world_size);
        seq![self.world_size as u64] + links_words(self.links, pairs) + (
        if self.rail_links.len() == 0 {
            Seq::empty()
        } else {
            seq![RAIL_LINKS_MARK, self.rail_links.len() as u64] + rails_words(
                self.rail_links,
                pairs,
                self.rail_links.len() as int,
            )
        }) + (if self.has_caps() {
            seq![AGGREGATE_LINKS_MARK] + caps_words(self.aggregate_links, pairs)
        } else {
            Seq::empty()
        })
    }
}

impl TuningModel {
    /// The words of how the rails are used.
    pub open spec fn rail_words(self) -> Seq<u64> {
        (if self.p2p_rails != 1 {
            seq![RAIL_COUNT_MARK, self.p2p_rails as u64]
        } else {
            Seq::empty()
        }) + (if self.rail_order() != rails_in_order(self.p2p_rails as nat) {
            seq![RAIL_ORDER_MARK] + Seq::new(
                self.rail_order().len(),
                |i: int| self.rail_order()[i] as u64,
            )
        } else {
            Seq::empty()
        })
    }

    /// Everything that a topology fingerprint covers.
    pub open spec fn words(self) -> Seq<u64> {
        self.topology.words() + seq![self.ring_orders.len() as u64] + lists_words(self.ring_orders)
            + (match self.hierarchy_groups {
            Some(groups) => seq![groups.len() as u64] + lists_words(groups),
            None => seq![0u64],
        }) + seq![self.direct_bandwidth_mbps, self.direct_latency_ns] + self.rail_words()
    }

    /// The topology fingerprint.
    pub open spec fn fingerprint(self) -> u64 {
        fnv(image(self.words()))
    }

    /// The execution fingerprint.
    pub open spec fn execution(self) -> u64 {
        fnv(image(seq![COLLECTIVE_EXECUTION_REVISION, transport_code(self.transport)]))
    }

    /// The same tuning over another topology.
    pub open spec fn moved(self, topology: TopologyModel) -> TuningModel {
        TuningModel { topology, ..self }
    }
}

/// A transport's number in execution fingerprints.
pub open spec fn transport_code(transport: CollectiveTransport) -> u64 {
    match transport {
        CollectiveTransport::HostStaged => 1,
        CollectiveTransport::TcpHostStaged => 2,
        CollectiveTransport::TcpPeer => 3,
        CollectiveTransport::PciePeer => 4,
        CollectiveTransport::Rdma => 5,
        CollectiveTransport::GxLink => 6,
    }
}

/// The topology fingerprint covers neither how many channels run nor which
/// transport carries them, which algorithms are allowed or were measured.
pub proof fn law_fingerprint_covers_topology_only(a: TuningModel, b: TuningModel)
    requires
        a.topology == b.topology,
        a.ring_orders == b.ring_orders,
        a.hierarchy_groups == b.hierarchy_groups,
        a.direct_bandwidth_mbps == b.direct_bandwidth_mbps,
        a.direct_latency_ns == b.direct_latency_ns,
        a.p2p_rails == b.p2p_rails,
        a.rail_order_override == b.rail_order_override,
    ensures
        a.fingerprint() == b.fingerprint(),
{
    assert(a.rail_order() == b.rail_order());
    assert(a.words() == b.words());
}

/// The execution fingerprint depends on the transport alone.
pub proof fn law_execution_covers_transport_only(a: TuningModel, b: TuningModel)
    requires
        a.transport == b.transport,
    ensures
        a.execution() == b.execution(),
{
}

/// The image of words, and then of one more.
proof fn lemma_image_push(words: Seq<u64>, word: u64)
    ensures
        image(words.push(word)) == image(words) + spec_u64_to_le_bytes(word),
{
    assert(words.push(word).drop_last() =~= words);
}

/// Words that end in one byte each, and are alike but for that, have different
/// hashes.
proof fn lemma_last_byte_shows(words: Seq<u64>, a: u64, b: u64)
    requires
        a < 256,
        b < 256,
        a != b,
    ensures
        fnv(image(words.push(a))) != fnv(image(words.push(b))),
{
    lemma_image_push(words, a);
    lemma_image_push(words, b);
    spec_u64_to_le_bytes_to_open(a);
    spec_u64_to_le_bytes_to_open(b);
    assert(a & 0xff == a && (a >> 8) & 0xff == 0 && (a >> 16) & 0xff == 0 && (a >> 24) & 0xff == 0
        && (a >> 32) & 0xff == 0 && (a >> 40) & 0xff == 0 && (a >> 48) & 0xff == 0 && (a >> 56)
        & 0xff == 0) by (bit_vector)
        requires
            a < 256,
    ;
    assert(b & 0xff == b && (b >> 8) & 0xff == 0 && (b >> 16) & 0xff == 0 && (b >> 24) & 0xff == 0
        && (b >> 32) & 0xff == 0 && (b >> 40) & 0xff == 0 && (b >> 48) & 0xff == 0 && (b >> 56)
        & 0xff == 0) by (bit_vector)
        requires
            b < 256,
    ;
    let one = image(words.push(a));
    let other = image(words.push(b));
    let at = image(words).len() as int;
    assert(one[at] == a as u8 && other[at] == b as u8);
    law_one_byte_shows(FNV_OFFSET, one, other, at);
}

/// The execution fingerprint tells all transports apart.
pub proof fn law_execution_tells_transports_apart(a: TuningModel, b: TuningModel)
    requires
        a.transport != b.transport,
    ensures
        a.execution() != b.execution(),
{
    let words = seq![COLLECTIVE_EXECUTION_REVISION];
    let one = transport_code(a.transport);
    let other = transport_code(b.transport);
    lemma_last_byte_shows(words, one, other);
    assert(words.push(one) =~= seq![COLLECTIVE_EXECUTION_REVISION, one]);
    assert(words.push(other) =~= seq![COLLECTIVE_EXECUTION_REVISION, other]);
}

/// The topology fingerprint tells how many rails there are, where there are
/// several and they are used in their own order.
pub proof fn law_fingerprint_tells_rail_counts_apart(a: TuningModel, b: TuningModel)
    requires
        a.valid(),
        b.valid(),
        a.topology == b.topology,
        a.ring_orders == b.ring_orders,
        a.hierarchy_groups == b.hierarchy_groups,
        a.direct_bandwidth_mbps == b.direct_bandwidth_mbps,
        a.direct_latency_ns == b.direct_latency_ns,
        a.rail_order() == rails_in_order(a.p2p_rails as nat),
        b.rail_order() == rails_in_order(b.p2p_rails as nat),
        a.p2p_rails > 1,
        b.p2p_rails > 1,
        a.p2p_rails != b.p2p_rails,
    ensures
        a.fingerprint() != b.fingerprint(),
{
    let words = a.topology.words() + seq![a.ring_orders.len() as u64] + lists_words(a.ring_orders)
        + (match a.hierarchy_groups {
        Some(groups) => seq![groups.len() as u64] + lists_words(groups),
        None => seq![0u64],
    }) + seq![a.direct_bandwidth_mbps, a.direct_latency_ns] + seq![RAIL_COUNT_MARK];
    assert(a.words() =~= words.push(a.p2p_rails as u64));
    assert(b.words() =~= words.push(b.p2p_rails as u64));
    lemma_last_byte_shows(words, a.p2p_rails as u64, b.p2p_rails as u64);
}

/// Eight bytes for every word.
proof fn lemma_image_length(words: Seq<u64>)
    ensures
        image(words).len() == 8 * words.len(),
    decreases words.len(),
{
    lemma_auto_spec_u64_to_from_le_bytes();
    if words.len() > 0 {
        lemma_image_length(words.drop_last());
    }
}

/// The bytes that a topology fingerprint hashes grow when a grouping is added.
pub proof fn law_fingerprint_covers_grouping(tuning: TuningModel, groups: Seq<Seq<u32>>)
    requires
        tuning.hierarchy_groups is None,
        groups.len() > 0,
    ensures
        ({
            let grouped = TuningModel { hierarchy_groups: Some(groups), ..tuning };
            &&& grouped.fingerprint() == fnv(image(grouped.words()))
            &&& tuning.fingerprint() == fnv(image(tuning.words()))
            &&& image(grouped.words()).len() > image(tuning.words()).len()
        }),
{
    let grouped = TuningModel { hierarchy_groups: Some(groups), ..tuning };
    assert(grouped.rail_order() == tuning.rail_order());
    assert(grouped.rail_words() == tuning.rail_words());
    assert(lists_words(groups).len() > 0);
    lemma_image_length(grouped.words());
    lemma_image_length(tuning.words());
}

/// The bytes that a topology fingerprint hashes grow when one rail becomes
/// several.
pub proof fn law_fingerprint_covers_rails(tuning: TuningModel, rails: usize)
    requires
        tuning.valid(),
        tuning.p2p_rails == 1,
        rails > 1,
    ensures
        ({
            let railed = TuningModel { p2p_rails: rails, ..tuning };
            &&& railed.fingerprint() == fnv(image(railed.words()))
            &&& tuning.fingerprint() == fnv(image(tuning.words()))
            &&& image(railed.words()).len() > image(tuning.words()).len()
        }),
{
    let railed = TuningModel { p2p_rails: rails, ..tuning };
    if tuning.rail_order_override is None {
        law_preferred_rails(tuning.topology, 1);
        let order = tuning.rail_order();
        let single = Seq::new(1, |i: int| i as usize);
        assert(order =~= seq![order[0]]);
        order.to_multiset_ensures();
        single.to_multiset_ensures();
        assert(order.to_multiset().count(order[0]) > 0);
        assert(single.contains(order[0]));
    }
    assert(tuning.rail_order() =~= rails_in_order(1));
    assert(tuning.rail_words() =~= Seq::<u64>::empty());
    assert(railed.rail_words().len() >= 2);
    lemma_image_length(railed.words());
    lemma_image_length(tuning.words());
}

/// Spelling out a rail order that is already in use changes no fingerprint.
pub proof fn law_pinned_rail_order_keeps_fingerprint(tuning: TuningModel)
    ensures
        (TuningModel { rail_order_override: Some(tuning.rail_order()), ..tuning }).fingerprint()
            == tuning.fingerprint(),
{
    let pinned = TuningModel { rail_order_override: Some(tuning.rail_order()), ..tuning };
    assert(pinned.rail_order() == tuning.rail_order());
    assert(pinned.words() == tuning.words());
}

fn hash_words(words: &[u64]) -> (hash: u64)
    ensures
        hash == fnv(image(words@)),
{
    let mut hash: u64 = FNV_OFFSET;
    let mut index: usize = 0;
    assert(words@.take(0) =~= Seq::<u64>::empty());
    while index < words.len()
        invariant
            index <= words@.len(),
            hash == fnv(image(words@.take(index as int))),
        decreases words@.len() - index,
    {
        hash = fnv_u64(hash, words[index], Ghost(image(words@.take(index as int))));
        assert(words@.take(index + 1).drop_last() =~= words@.take(index as int));
        index = index + 1;
    }
    assert(words@.take(index as int) =~= words@);
    hash
}

fn push_links(
    out: &mut Vec<u64>,
    rows: &[Vec<Option<LinkCost>>],
    pairs: &[(u32, u32)],
    world_size: u32,
)
    requires
        link_table(table(rows@), world_size as int),
        forall|k: int|
            0 <= k < pairs@.len() ==> (#[trigger] pairs@[k]).0 < world_size && pairs@[k].1
                < world_size,
    ensures
        final(out)@ == old(out)@ + links_words(table(rows@), pairs@),
{
    let ghost start = out@;
    let mut index: usize = 0;
    assert(pairs@.take(0) =~= Seq::<(u32, u32)>::empty());
    assert(out@ =~= start + links_words(table(rows@), pairs@.take(0)));
    while index < pairs.len()
        invariant
            index <= pairs@.len(),
            link_table(table(rows@), world_size as int),
            forall|k: int|
                0 <= k < pairs@.len() ==> (#[trigger] pairs@[k]).0 < world_size && pairs@[k].1
                    < world_size,
            out@ == start + links_words(table(rows@), pairs@.take(index as int)),
        decreases pairs@.len() - index,
    {
        let (first, second) = pairs[index];
        proof {
            assert(pairs@[index as int].0 < world_size);
            assert(table(rows@)[first as int].len() == world_size);
            assert(pairs@.take(index + 1).drop_last() =~= pairs@.take(index as int));
        }
        out.push(first as u64);
        out.push(second as u64);
        match rows[first as usize][second as usize] {
            Some(link) => {
                out.push(1);
                out.push(link.bandwidth_mbps);
                out.push(link.latency_ns);
            },
            None => {
                out.push(0);
            },
        }
        assert(out@ =~= start + links_words(table(rows@), pairs@.take(index + 1)));
        index = index + 1;
    }
    assert(pairs@.take(index as int) =~= pairs@);
}

fn push_caps(out: &mut Vec<u64>, topology: &CollectiveTopology, pairs: &[(u32, u32)])
    requires
        topology@.valid(),
        forall|k: int|
            0 <= k < pairs@.len() ==> (#[trigger] pairs@[k]).0 < topology@.world_size && pairs@[k].1
                < topology@.world_size,
    ensures
        final(out)@ == old(out)@ + caps_words(topology@.aggregate_links, pairs@),
{
    let ghost start = out@;
    let ghost rows = topology@.aggregate_links;
    let mut index: usize = 0;
    assert(pairs@.take(0) =~= Seq::<(u32, u32)>::empty());
    assert(out@ =~= start + caps_words(rows, pairs@.take(0)));
    while index < pairs.len()
        invariant
            index <= pairs@.len(),
            topology@.valid(),
            rows == topology@.aggregate_links,
            forall|k: int|
                0 <= k < pairs@.len() ==> (#[trigger] pairs@[k]).0 < topology@.world_size
                    && pairs@[k].1 < topology@.world_size,
            out@ == start + caps_words(rows, pairs@.take(index as int)),
        decreases pairs@.len() - index,
    {
        let (first, second) = pairs[index];
        proof {
            assert(pairs@[index as int].0 < topology@.world_size);
            assert(pairs@.take(index + 1).drop_last() =~= pairs@.take(index as int));
        }
        out.push(first as u64);
        out.push(second as u64);
        match topology.aggregate_bandwidth_mbps(first, second) {
            Some(bandwidth) => {
                out.push(1);
                out.push(bandwidth);
            },
            None => {
                out.push(0);
            },
        }
        assert(out@ =~= start + caps_words(rows, pairs@.take(index + 1)));
        index = index + 1;
    }
    assert(pairs@.take(index as int) =~= pairs@);
}

fn push_lists(out: &mut Vec<u64>, lists: &[Vec<u32>])
    ensures
        final(out)@ == old(out)@ + lists_words(rank_lists(lists@)),
{
    let ghost start = out@;
    let ghost model = rank_lists(lists@);
    let mut index: usize = 0;
    assert(model.take(0) =~= Seq::<Seq<u32>>::empty());
    assert(out@ =~= start + lists_words(model.take(0)));
    while index < lists.len()
        invariant
            index <= lists@.len(),
            model == rank_lists(lists@),
            out@ == start + lists_words(model.take(index as int)),
        decreases lists@.len() - index,
    {
        let ghost before = out@;
        let list = &lists[index];
        assert(model.take(index + 1).drop_last() =~= model.take(index as int));
        out.push(list.len() as u64);
        let mut place: usize = 0;
        while place < list.len()
            invariant
                place <= list@.len(),
                out@ == before + seq![list@.len() as u64] + ranks_words(list@).take(place as int),
            decreases list@.len() - place,
        {
            out.push(list[place] as u64);
            assert(out@ =~= before + seq![list@.len() as u64] + ranks_words(list@).take(place + 1));
            place = place + 1;
        }
        assert(ranks_words(list@).take(place as int) =~= ranks_words(list@));
        assert(out@ =~= start + lists_words(model.take(index + 1)));
        index = index + 1;
    }
    assert(model.take(index as int) =~= model);
}

impl CollectiveTopology {
    fn has_caps(&self) -> (some: bool)
        ensures
            some == self@.has_caps(),
    {
        let mut row: usize = 0;
        while row < self.aggregate_links.len()
            invariant
                row <= self.aggregate_links@.len(),
                forall|i: int, j: int|
                    0 <= i < row && 0 <= j < self@.aggregate_links[i].len()
                        ==> #[trigger] self@.aggregate_links[i][j] is None,
            decreases self.aggregate_links@.len() - row,
        {
            let cells = &self.aggregate_links[row];
            assert(self@.aggregate_links[row as int] == cells@);
            let mut column: usize = 0;
            while column < cells.len()
                invariant
                    row < self.aggregate_links@.len(),
                    self@.aggregate_links[row as int] == cells@,
                    column <= cells@.len(),
                    forall|j: int| 0 <= j < column ==> #[trigger] cells@[j] is None,
                decreases cells@.len() - column,
            {
                if cells[column].is_some() {
                    assert(self@.aggregate_links[row as int][column as int] is Some);
                    return true;
                }
                column = column + 1;
            }
            row = row + 1;
        }
        false
    }

    fn push_topology(&self, out: &mut Vec<u64>)
        requires
            self@.valid(),
            old(out)@.len() == 0,
        ensures
            final(out)@ == self@.words(),
    {
        let ghost model = self@;
        let pairs = rank_pairs(self.world_size);
        let ghost listed = pairs@;
        out.push(self.world_size as u64);
        push_links(out, self.links.as_slice(), pairs.as_slice(), self.world_size);
        let ghost plain = seq![model.world_size as u64] + links_words(model.links, listed);
        assert(out@ =~= plain);
        if self.rail_links.len() > 0 {
            out.push(RAIL_LINKS_MARK);
            out.push(self.rail_links.len() as u64);
            let ghost start = out@;
            let mut rail: usize = 0;
            assert(out@ =~= start + rails_words(model.rail_links, listed, 0));
            while rail < self.rail_links.len()
                invariant
                    rail <= self.rail_links@.len(),
                    model == self@,
                    self@.valid(),
                    listed == pairs@,
                    forall|k: int|
                        0 <= k < pairs@.len() ==> (#[trigger] pairs@[k]).0 < pairs@[k].1
                            < self.world_size,
                    out@ == start + rails_words(model.rail_links, listed, rail as int),
                decreases self.rail_links@.len() - rail,
            {
                out.push(rail as u64);
                assert(link_table(model.rail_links[rail as int], model.world_size as int));
                assert(model.rail_links[rail as int] == table(self.rail_links@[rail as int]@));
                push_links(
                    out,
                    self.rail_links[rail].as_slice(),
                    pairs.as_slice(),
                    self.world_size,
                );
                assert(out@ =~= start + rails_words(model.rail_links, listed, rail + 1));
                rail = rail + 1;
            }
        }
        let ghost railed = plain + (if model.rail_links.len() == 0 {
            Seq::empty()
        } else {
            seq![RAIL_LINKS_MARK, model.rail_links.len() as u64] + rails_words(
                model.rail_links,
                listed,
                model.rail_links.len() as int,
            )
        });
        assert(out@ =~= railed);
        if self.has_caps() {
            out.push(AGGREGATE_LINKS_MARK);
            push_caps(out, self, pairs.as_slice());
        }
        assert(out@ =~= model.words());
    }
}

impl CollectiveTuning {
    /// The rail order over another topology.
    pub fn rail_order_over(&self, topology: &CollectiveTopology) -> (order: Vec<usize>)
        requires
            topology@.valid(),
            0 < self@.p2p_rails,
        ensures
            order@ == self@.moved(topology@).rail_order(),
    {
        match &self.rail_order_override {
            Some(order) => copy_rails(order.as_slice()),
            None => topology.preferred_rail_order(self.p2p_rails),
        }
    }

    /// The topology fingerprint over another topology.
    pub fn fingerprint_over(&self, topology: &CollectiveTopology) -> (fingerprint: u64)
        requires
            self@.valid(),
            topology@.valid(),
        ensures
            fingerprint == self@.moved(topology@).fingerprint(),
    {
        let ghost model = self@.moved(topology@);
        let mut words: Vec<u64> = Vec::new();
        topology.push_topology(&mut words);
        words.push(self.ring_orders.len() as u64);
        push_lists(&mut words, self.ring_orders.as_slice());
        match &self.hierarchy_groups {
            Some(groups) => {
                words.push(groups.len() as u64);
                push_lists(&mut words, groups.as_slice());
            },
            None => {
                words.push(0);
            },
        }
        words.push(self.direct_bandwidth_mbps);
        words.push(self.direct_latency_ns);
        let ghost base = model.topology.words() + seq![model.ring_orders.len() as u64]
            + lists_words(model.ring_orders) + (match model.hierarchy_groups {
            Some(groups) => seq![groups.len() as u64] + lists_words(groups),
            None => seq![0u64],
        }) + seq![model.direct_bandwidth_mbps, model.direct_latency_ns];
        assert(words@ =~= base);
        if self.p2p_rails != 1 {
            words.push(RAIL_COUNT_MARK);
            words.push(self.p2p_rails as u64);
        }
        let ghost counted = words@;
        let order = self.rail_order_over(topology);
        let mut plain: bool = order.len() == self.p2p_rails;
        let mut index: usize = 0;
        while plain && index < order.len()
            invariant
                index <= order@.len(),
                plain ==> order@.len() == self.p2p_rails,
                !plain ==> order@ != rails_in_order(self.p2p_rails as nat),
                plain ==> forall|i: int| 0 <= i < index ==> #[trigger] order@[i] == i,
            decreases order@.len() - index,
        {
            if order[index] != index {
                assert(order@[index as int] != rails_in_order(self.p2p_rails as nat)[index as int]);
                plain = false;
            }
            index = index + 1;
        }
        if plain {
            assert(order@ =~= rails_in_order(self.p2p_rails as nat));
        } else {
            words.push(RAIL_ORDER_MARK);
            let mut rail: usize = 0;
            while rail < order.len()
                invariant
                    rail <= order@.len(),
                    words@ == counted + seq![RAIL_ORDER_MARK] + Seq::new(
                        rail as nat,
                        |i: int| order@[i] as u64,
                    ),
                decreases order@.len() - rail,
            {
                words.push(order[rail] as u64);
                assert(words@ =~= counted + seq![RAIL_ORDER_MARK] + Seq::new(
                    (rail + 1) as nat,
                    |i: int| order@[i] as u64,
                ));
                rail = rail + 1;
            }
        }
        assert(words@ =~= model.words());
        hash_words(words.as_slice())
    }

    pub fn topology_fingerprint(&self) -> (fingerprint: u64)
        requires
            self@.valid(),
        ensures
            fingerprint == self@.fingerprint(),
    {
        assert(self@.moved(self.topology@) == self@);
        self.fingerprint_over(&self.topology)
    }

    pub fn topology_fingerprint_hex(&self) -> (text: String)
        requires
            self@.valid(),
        ensures
            text@ == hex_fixed(self@.fingerprint() as nat, 16),
    {
        hex_text(self.topology_fingerprint())
    }

    pub fn execution_fingerprint(&self) -> (fingerprint: u64)
        ensures
            fingerprint == self@.execution(),
    {
        let code: u64 = match self.transport {
            CollectiveTransport::HostStaged => 1,
            CollectiveTransport::TcpHostStaged => 2,
            CollectiveTransport::TcpPeer => 3,
            CollectiveTransport::PciePeer => 4,
            CollectiveTransport::Rdma => 5,
            CollectiveTransport::GxLink => 6,
        };
        let mut words: Vec<u64> = Vec::new();
        words.push(COLLECTIVE_EXECUTION_REVISION);
        words.push(code);
        assert(words@ =~= seq![COLLECTIVE_EXECUTION_REVISION, transport_code(self@.transport)]);
        hash_words(words.as_slice())
    }

    pub fn execution_fingerprint_hex(&self) -> (text: String)
        ensures
            text@ == hex_fixed(self@.execution() as nat, 16),
    {
        hex_text(self.execution_fingerprint())
    }
}

/// A fingerprint as sixteen hexadecimal digits.
pub fn hex_text(fingerprint: u64) -> (text: String)
    ensures
        text@ == hex_fixed(fingerprint as nat, 16),
{
    let mut text = String::from_str("");
    proof {
        reveal_strlit("");
    }
    push_hex(&mut text, fingerprint, 16);
    assert(text@ =~= hex_fixed(fingerprint as nat, 16));
    text
}

} // verus!
