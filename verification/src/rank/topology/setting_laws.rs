//! What settings say is what a tuning does.

use crate::chars::{
    digits_value, first_of, halves, is_digit, lower, lowered, number, split, trim_end, trim_start,
    trimmed, white_space,
};
use crate::rank::topology::links::{
    TopologyAggregateLink, TopologyLink, TopologyModel, TopologyRailLink,
};
use crate::rank::topology::parse::{
    aggregate_link_of, field_number, link_of, number_setting, pair_of, rail_link_of, rank_values,
    ring_order_of, VariableModel,
};
use crate::rank::topology::plan_laws::law_policies_are_obeyed;
use crate::rank::topology::rings::ring_defect;
use crate::rank::topology::settings::{
    policy_of, ring_order_setting, transport_of, tuning_of, VariablesModel,
};
use crate::rank::topology::{AlgorithmPolicy, CollectiveKind, TopologyFailure};
use crate::rank::{CollectiveAlgorithm, CollectiveTransport};
use crate::text::decimal;
use vstd::prelude::*;
use vstd::string::*;

verus! {

/// A text has the letters of a word in lower case, each of them in either case.
pub open spec fn has_letters(text: Seq<char>, word: Seq<char>) -> bool {
    &&& text.len() == word.len()
    &&& forall|i: int|
        0 <= i < word.len() ==> {
            ||| (#[trigger] text[i]) == word[i]
            ||| 'A' <= text[i] <= 'Z' && word[i] as int == text[i] as int + 32
        }
}

/// A text between white space.
pub open spec fn padded(text: Seq<char>, before: Seq<char>, after: Seq<char>) -> bool {
    &&& 0 < text.len()
    &&& !white_space(text[0])
    &&& !white_space(text.last())
    &&& forall|i: int| 0 <= i < before.len() ==> white_space(#[trigger] before[i])
    &&& forall|i: int| 0 <= i < after.len() ==> white_space(#[trigger] after[i])
}

proof fn lemma_start_goes(before: Seq<char>, text: Seq<char>)
    requires
        0 < text.len(),
        !white_space(text[0]),
        forall|i: int| 0 <= i < before.len() ==> white_space(#[trigger] before[i]),
    ensures
        trim_start(before + text) == text,
    decreases before.len(),
{
    if before.len() == 0 {
        assert(before + text =~= text);
    } else {
        assert(white_space(before[0]));
        assert((before + text).skip(1) =~= before.skip(1) + text);
        lemma_start_goes(before.skip(1), text);
    }
}

proof fn lemma_end_goes(text: Seq<char>, after: Seq<char>)
    requires
        0 < text.len(),
        !white_space(text.last()),
        forall|i: int| 0 <= i < after.len() ==> white_space(#[trigger] after[i]),
    ensures
        trim_end(text + after) == text,
    decreases after.len(),
{
    if after.len() == 0 {
        assert(text + after =~= text);
    } else {
        assert(white_space(after[after.len() - 1]));
        assert((text + after).drop_last() =~= text + after.drop_last());
        lemma_end_goes(text, after.drop_last());
    }
}

proof fn lemma_padding_goes(text: Seq<char>, before: Seq<char>, after: Seq<char>)
    requires
        padded(text, before, after),
    ensures
        trimmed(before + text + after) == text,
{
    assert(before + text + after =~= before + (text + after));
    lemma_start_goes(before, text + after);
    lemma_end_goes(text, after);
}

/// No letter of a word is in upper case.
spec fn plain(word: Seq<char>) -> bool {
    forall|i: int| 0 <= i < word.len() ==> !('A' <= #[trigger] word[i] <= 'Z')
}

proof fn lemma_letters(text: Seq<char>, word: Seq<char>)
    requires
        plain(word),
    ensures
        lowered(text) == word <==> has_letters(text, word),
{
    if has_letters(text, word) {
        assert forall|i: int| 0 <= i < word.len() implies lowered(text)[i] == word[i] by {
            assert(text[i] == word[i] || 'A' <= text[i] <= 'Z');
        }
        assert(lowered(text) =~= word);
    }
    if lowered(text) == word {
        assert forall|i: int| 0 <= i < word.len() implies {
            ||| (#[trigger] text[i]) == word[i]
            ||| 'A' <= text[i] <= 'Z' && word[i] as int == text[i] as int + 32
        } by {
            assert(lowered(text)[i] == lower(text[i]));
        }
    }
}

/// Each policy is read from its own name, in any case and with white space round
/// it, and nothing else is read as a policy.
pub proof fn law_policies_are_read_by_name(text: Seq<char>, before: Seq<char>, after: Seq<char>)
    requires
        padded(text, before, after),
    ensures
        ({
            let read = policy_of(VariableModel::Text(before + text + after));
            &&& has_letters(text, seq!['a', 'u', 't', 'o']) <==> read == Ok::<
                AlgorithmPolicy,
                TopologyFailure,
            >(AlgorithmPolicy::Auto)
            &&& has_letters(text, seq!['d', 'i', 'r', 'e', 'c', 't']) <==> read == Ok::<
                AlgorithmPolicy,
                TopologyFailure,
            >(AlgorithmPolicy::Direct)
            &&& has_letters(text, seq!['r', 'i', 'n', 'g']) <==> read == Ok::<
                AlgorithmPolicy,
                TopologyFailure,
            >(AlgorithmPolicy::Ring)
            &&& has_letters(
                text,
                seq!['h', 'i', 'e', 'r', 'a', 'r', 'c', 'h', 'i', 'c', 'a', 'l'],
            ) <==> read == Ok::<AlgorithmPolicy, TopologyFailure>(AlgorithmPolicy::Hierarchical)
        }),
        policy_of(VariableModel::Absent) == Ok::<AlgorithmPolicy, TopologyFailure>(
            AlgorithmPolicy::Auto,
        ),
{
    lemma_padding_goes(text, before, after);
    reveal_strlit("auto");
    reveal_strlit("direct");
    reveal_strlit("ring");
    reveal_strlit("hierarchical");
    assert("auto"@ =~= seq!['a', 'u', 't', 'o']);
    assert("direct"@ =~= seq!['d', 'i', 'r', 'e', 'c', 't']);
    assert("ring"@ =~= seq!['r', 'i', 'n', 'g']);
    assert("hierarchical"@ =~= seq!['h', 'i', 'e', 'r', 'a', 'r', 'c', 'h', 'i', 'c', 'a', 'l']);
    lemma_letters(text, "auto"@);
    lemma_letters(text, "direct"@);
    lemma_letters(text, "ring"@);
    lemma_letters(text, "hierarchical"@);
    assert("auto"@[0] != "ring"@[0]);
}

/// A transport is read from any of its own names, in any case and with white space
/// round it.
pub proof fn law_transports_are_read_by_name(text: Seq<char>, before: Seq<char>, after: Seq<char>)
    requires
        padded(text, before, after),
    ensures
        has_letters(text, seq!['p', 'e', 'e', 'r']) || has_letters(
            text,
            seq!['t', 'c', 'p', '_', 'p', 'e', 'e', 'r'],
        ) <==> transport_of(VariableModel::Text(before + text + after)) == Ok::<
            CollectiveTransport,
            TopologyFailure,
        >(CollectiveTransport::TcpPeer),
        has_letters(text, seq!['c', 'o', 'o', 'r', 'd', 'i', 'n', 'a', 't', 'o', 'r'])
            ==> transport_of(VariableModel::Text(before + text + after)) == Ok::<
            CollectiveTransport,
            TopologyFailure,
        >(CollectiveTransport::TcpHostStaged),
        transport_of(VariableModel::Absent) == Ok::<CollectiveTransport, TopologyFailure>(
            CollectiveTransport::TcpHostStaged,
        ),
{
    lemma_padding_goes(text, before, after);
    reveal_strlit("peer");
    reveal_strlit("tcp_peer");
    reveal_strlit("coordinator");
    reveal_strlit("tcp_coordinator");
    reveal_strlit("tcp_host_staged");
    assert("peer"@ =~= seq!['p', 'e', 'e', 'r']);
    assert("tcp_peer"@ =~= seq!['t', 'c', 'p', '_', 'p', 'e', 'e', 'r']);
    assert("coordinator"@ =~= seq!['c', 'o', 'o', 'r', 'd', 'i', 'n', 'a', 't', 'o', 'r']);
    lemma_letters(text, "peer"@);
    lemma_letters(text, "tcp_peer"@);
    lemma_letters(text, "coordinator"@);
    assert("peer"@.len() == 4 && "tcp_peer"@.len() == 8 && "coordinator"@.len() == 11
        && "tcp_coordinator"@.len() == 15 && "tcp_host_staged"@.len() == 15);
}

/// A tuning has the policy that its setting names, and plans by it: with `Direct`
/// every collective of every size runs over the coordinator, with `Ring` none does
/// where there are other ranks.
pub proof fn law_read_policies_are_obeyed(
    world_size: u32,
    probed: Option<TopologyModel>,
    value: VariablesModel,
    kind: CollectiveKind,
    payload: usize,
)
    requires
        tuning_of(world_size, probed, value) is Ok,
    ensures
        ({
            let tuning = tuning_of(world_size, probed, value)->Ok_0;
            let plan = tuning.plan(kind, payload);
            let policy = policy_of(value.algorithm);
            &&& policy == Ok::<AlgorithmPolicy, TopologyFailure>(tuning.algorithm_policy)
            &&& policy->Ok_0 == AlgorithmPolicy::Direct ==> plan.algorithm
                == CollectiveAlgorithm::Direct
            &&& policy->Ok_0 == AlgorithmPolicy::Ring && 1 < tuning.ring_order.len()
                ==> plan.algorithm == (if kind == CollectiveKind::AllToAll {
                CollectiveAlgorithm::Pairwise
            } else {
                CollectiveAlgorithm::Ring
            })
            &&& policy->Ok_0 == AlgorithmPolicy::Hierarchical ==> tuning.hierarchy_groups is Some
        }),
{
    law_policies_are_obeyed(tuning_of(world_size, probed, value)->Ok_0, kind, payload);
}

proof fn lemma_digits(n: nat)
    ensures
        0 < decimal(n).len(),
        forall|i: int| 0 <= i < decimal(n).len() ==> is_digit(#[trigger] decimal(n)[i]),
        digits_value(decimal(n)) == n,
    decreases n,
{
    reveal_with_fuel(digits_value, 2);
    if n >= 10 {
        lemma_digits(n / 10);
        let digits = decimal(n);
        assert(digits.drop_last() =~= decimal(n / 10));
        assert forall|i: int| 0 <= i < digits.len() implies is_digit(#[trigger] digits[i]) by {
            if i < digits.len() - 1 {
                assert(digits[i] == decimal(n / 10)[i]);
            }
        }
    } else {
        assert(decimal(n).drop_last() =~= Seq::empty());
    }
}

/// A number in decimal digits is read back where it is not beyond the limit, and
/// is refused where it is. A setting that is absent has its default.
pub proof fn law_numbers_are_read_back(name: Seq<char>, n: nat, default: nat, limit: nat)
    ensures
        number(decimal(n), limit) == (if n <= limit {
            Some(n)
        } else {
            None
        }),
        n <= limit ==> number_setting(name, VariableModel::Text(decimal(n)), default, limit)
            == Ok::<nat, TopologyFailure>(n),
        n > limit ==> number_setting(name, VariableModel::Text(decimal(n)), default, limit) is Err,
        number_setting(name, VariableModel::Absent, default, limit) == Ok::<nat, TopologyFailure>(
            default,
        ),
{
    lemma_digits(n);
    assert(is_digit(decimal(n)[0]));
}

/// The value of a setting that is absent or a number.
pub open spec fn says(value: VariableModel, default: nat, n: nat) -> bool {
    ||| value is Absent && n == default
    ||| value == VariableModel::Text(decimal(n))
}

/// A tuning has the numbers that its settings say: the threshold, by default 256
/// KiB, the channels and rails, by default one, and the bandwidth and latency over
/// the coordinator, by default 32000 MB/s and 1000 ns. Its transport is the one
/// that is named.
pub proof fn law_read_numbers_are_kept(
    world_size: u32,
    probed: Option<TopologyModel>,
    value: VariablesModel,
    n: nat,
)
    requires
        tuning_of(world_size, probed, value) is Ok,
    ensures
        ({
            let tuning = tuning_of(world_size, probed, value)->Ok_0;
            &&& says(value.ring_threshold, 262144, n) ==> tuning.ring_threshold_bytes == n
            &&& says(value.ring_channels, 1, n) ==> tuning.ring_channels == n
            &&& says(value.p2p_rails, 1, n) ==> tuning.p2p_rails == n
            &&& says(value.direct_bandwidth, 32000, n) ==> tuning.direct_bandwidth_mbps == n
            &&& says(value.direct_latency, 1000, n) ==> tuning.direct_latency_ns == n
            &&& 0 < tuning.ring_channels <= 64
            &&& 0 < tuning.p2p_rails <= 64
            &&& 0 < tuning.direct_bandwidth_mbps
            &&& transport_of(value.transport) == Ok::<CollectiveTransport, TopologyFailure>(
                tuning.transport,
            )
        }),
{
    lemma_digits(n);
    assert(is_digit(decimal(n)[0]));
}

/// No digit is white space.
pub open spec fn digits_stand_out() -> bool {
    forall|c: char| is_digit(c) ==> !(#[trigger] white_space(c))
}

proof fn lemma_field(n: nat, limit: nat)
    requires
        digits_stand_out(),
        n <= limit,
    ensures
        field_number(decimal(n), limit) == Some(n),
{
    lemma_digits(n);
    let text = decimal(n);
    assert(is_digit(text[0]));
    assert(is_digit(text[text.len() - 1]));
    let none = Seq::<char>::empty();
    lemma_padding_goes(text, none, none);
    assert(none + text + none =~= text);
}

/// Ranks in decimal digits, with commas between them.
pub open spec fn written(order: Seq<u32>) -> Seq<char>
    decreases order.len(),
{
    if order.len() <= 1 {
        decimal(order[0] as nat)
    } else {
        written(order.drop_last()) + seq![','] + decimal(order.last() as nat)
    }
}

proof fn lemma_split_field(text: Seq<char>, field: Seq<char>, separator: char)
    requires
        forall|i: int| 0 <= i < field.len() ==> #[trigger] field[i] != separator,
    ensures
        split(text + seq![separator] + field, separator) == split(text, separator).push(field),
        split(field, separator) == seq![field],
    decreases field.len(),
{
    let whole = text + seq![separator] + field;
    if field.len() == 0 {
        assert(whole.drop_last() =~= text);
        assert(whole.last() == separator);
        assert(field =~= Seq::empty());
        assert(split(whole, separator) =~= split(text, separator).push(field));
        assert(split(field, separator) =~= seq![field]);
    } else {
        let shorter = field.drop_last();
        lemma_split_field(text, shorter, separator);
        assert(whole.drop_last() =~= text + seq![separator] + shorter);
        assert(whole.last() == field.last());
        assert(field.last() == field[field.len() - 1]);
        let before = split(text, separator).push(shorter);
        assert(before.drop_last() =~= split(text, separator));
        assert(shorter.push(field.last()) =~= field);
        assert(split(whole, separator) =~= split(text, separator).push(field));
        assert(seq![shorter].drop_last() =~= Seq::empty());
        assert(split(field, separator) =~= seq![field]);
    }
}

proof fn lemma_written(order: Seq<u32>)
    requires
        0 < order.len(),
    ensures
        split(written(order), ',') == Seq::new(order.len(), |i: int| decimal(order[i] as nat)),
    decreases order.len(),
{
    let fields = Seq::new(order.len(), |i: int| decimal(order[i] as nat));
    let last = decimal(order.last() as nat);
    lemma_digits(order.last() as nat);
    assert forall|i: int| 0 <= i < last.len() implies #[trigger] last[i] != ',' by {
        assert(is_digit(last[i]));
    }
    if order.len() == 1 {
        lemma_split_field(Seq::empty(), last, ',');
        assert(split(written(order), ',') =~= fields);
    } else {
        lemma_written(order.drop_last());
        lemma_split_field(written(order.drop_last()), last, ',');
        assert(split(written(order), ',') =~= fields);
    }
}

/// A ring order that is written out is read back, and is the tuning's where it is
/// set.
pub proof fn law_ring_orders_are_read_back(
    world_size: u32,
    order: Seq<u32>,
    topology: TopologyModel,
)
    requires
        digits_stand_out(),
        0 < order.len(),
        ring_defect(world_size, order) is None,
    ensures
        ring_order_of(world_size, written(order)) == Ok::<Seq<u32>, TopologyFailure>(order),
        ring_order_setting(world_size, topology, VariableModel::Text(written(order))) == Ok::<
            Seq<u32>,
            TopologyFailure,
        >(order),
{
    lemma_written(order);
    let fields = split(written(order), ',');
    assert forall|i: int| 0 <= i < fields.len() implies field_number(
        #[trigger] fields[i],
        u32::MAX as nat,
    ) == Some(order[i] as nat) by {
        lemma_field(order[i] as nat, u32::MAX as nat);
    }
    assert(rank_values(fields) =~= order);
}

proof fn lemma_first(before: Seq<char>, separator: char, after: Seq<char>)
    requires
        forall|i: int| 0 <= i < before.len() ==> #[trigger] before[i] != separator,
    ensures
        halves(before + seq![separator] + after, separator) == Some((before, after)),
{
    let text = before + seq![separator] + after;
    lemma_first_place(before, separator, after);
    let at = before.len() as int;
    assert(text.take(at) =~= before);
    assert(text.skip(at + 1) =~= after);
}

proof fn lemma_first_place(before: Seq<char>, separator: char, after: Seq<char>)
    requires
        forall|i: int| 0 <= i < before.len() ==> #[trigger] before[i] != separator,
    ensures
        first_of(before + seq![separator] + after, separator) == before.len(),
    decreases before.len(),
{
    let text = before + seq![separator] + after;
    if before.len() == 0 {
        assert(text[0] == separator);
    } else {
        assert(text[0] == before[0]);
        assert(text.skip(1) =~= before.skip(1) + seq![separator] + after);
        lemma_first_place(before.skip(1), separator, after);
    }
}

/// A link that is written out as its ranks, its bandwidth and its latency is read
/// back.
pub proof fn law_links_are_read_back(link: TopologyLink)
    requires
        digits_stand_out(),
    ensures
        link_of(
            (decimal(link.first_rank as nat) + seq!['-'] + decimal(link.second_rank as nat))
                + seq![':'] + (decimal(link.bandwidth_mbps as nat) + seq![':'] + decimal(
                link.latency_ns as nat,
            )),
        ) == Some(link),
{
    let first = decimal(link.first_rank as nat);
    let second = decimal(link.second_rank as nat);
    let bandwidth = decimal(link.bandwidth_mbps as nat);
    let latency = decimal(link.latency_ns as nat);
    lemma_digits(link.first_rank as nat);
    lemma_digits(link.second_rank as nat);
    lemma_digits(link.bandwidth_mbps as nat);
    let ranks = first + seq!['-'] + second;
    assert forall|i: int| 0 <= i < first.len() implies #[trigger] first[i] != '-' by {
        assert(is_digit(first[i]));
    }
    assert forall|i: int| 0 <= i < ranks.len() implies #[trigger] ranks[i] != ':' by {
        if i < first.len() {
            assert(is_digit(first[i]));
        } else if i > first.len() {
            assert(is_digit(second[i - first.len() - 1]));
        }
    }
    assert forall|i: int| 0 <= i < bandwidth.len() implies #[trigger] bandwidth[i] != ':' by {
        assert(is_digit(bandwidth[i]));
    }
    lemma_first(first, '-', second);
    lemma_first(bandwidth, ':', latency);
    lemma_first(ranks, ':', bandwidth + seq![':'] + latency);
    lemma_field(link.first_rank as nat, u32::MAX as nat);
    lemma_field(link.second_rank as nat, u32::MAX as nat);
    lemma_field(link.bandwidth_mbps as nat, u64::MAX as nat);
    lemma_field(link.latency_ns as nat, u64::MAX as nat);
    assert(pair_of(ranks) == Some((link.first_rank, link.second_rank)));
}

/// A rail's link that is written out behind its rail is read back where the rail is
/// one of the session's, and refused where it is not.
pub proof fn law_rail_links_are_read_back(link: TopologyRailLink, rails: int)
    requires
        digits_stand_out(),
    ensures
        rail_link_of(
            decimal(link.rail as nat) + seq!['@'] + ((decimal(link.first_rank as nat) + seq!['-']
                + decimal(link.second_rank as nat)) + seq![':'] + (decimal(
                link.bandwidth_mbps as nat,
            ) + seq![':'] + decimal(link.latency_ns as nat))),
            rails,
        ) == (if link.rail < rails {
            Some(link)
        } else {
            None
        }),
{
    let plain = TopologyLink {
        first_rank: link.first_rank,
        second_rank: link.second_rank,
        bandwidth_mbps: link.bandwidth_mbps,
        latency_ns: link.latency_ns,
    };
    let rail = decimal(link.rail as nat);
    let rest = (decimal(link.first_rank as nat) + seq!['-'] + decimal(link.second_rank as nat))
        + seq![':'] + (decimal(link.bandwidth_mbps as nat) + seq![':'] + decimal(
        link.latency_ns as nat,
    ));
    lemma_digits(link.rail as nat);
    assert forall|i: int| 0 <= i < rail.len() implies #[trigger] rail[i] != '@' by {
        assert(is_digit(rail[i]));
    }
    lemma_first(rail, '@', rest);
    lemma_field(link.rail as nat, usize::MAX as nat);
    law_links_are_read_back(plain);
}

/// A cap that is written out as its ranks and its bandwidth is read back.
pub proof fn law_caps_are_read_back(link: TopologyAggregateLink)
    requires
        digits_stand_out(),
    ensures
        aggregate_link_of(
            (decimal(link.first_rank as nat) + seq!['-'] + decimal(link.second_rank as nat))
                + seq![':'] + decimal(link.bandwidth_mbps as nat),
        ) == Some(link),
{
    let first = decimal(link.first_rank as nat);
    let second = decimal(link.second_rank as nat);
    let ranks = first + seq!['-'] + second;
    lemma_digits(link.first_rank as nat);
    lemma_digits(link.second_rank as nat);
    assert forall|i: int| 0 <= i < first.len() implies #[trigger] first[i] != '-' by {
        assert(is_digit(first[i]));
    }
    assert forall|i: int| 0 <= i < ranks.len() implies #[trigger] ranks[i] != ':' by {
        if i < first.len() {
            assert(is_digit(first[i]));
        } else if i > first.len() {
            assert(is_digit(second[i - first.len() - 1]));
        }
    }
    lemma_first(first, '-', second);
    lemma_first(ranks, ':', decimal(link.bandwidth_mbps as nat));
    lemma_field(link.first_rank as nat, u32::MAX as nat);
    lemma_field(link.second_rank as nat, u32::MAX as nat);
    lemma_field(link.bandwidth_mbps as nat, u64::MAX as nat);
    assert(pair_of(ranks) == Some((link.first_rank, link.second_rank)));
}

} // verus!
