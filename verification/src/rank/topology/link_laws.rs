//! How the list of a topology's links changes when a link is added.

use crate::rank::topology::links::{
    lemma_pairs_bounds, links_of, pairs_below, rank_pairs_of, row_pairs, LinkCost, TopologyLink,
    TopologyModel,
};
use vstd::prelude::*;

verus! {

/// One pair comes before another.
pub open spec fn pair_less(a: (u32, u32), b: (u32, u32)) -> bool {
    a.0 < b.0 || (a.0 == b.0 && a.1 < b.1)
}

/// The ranks of a link.
pub open spec fn ends(link: TopologyLink) -> (u32, u32) {
    (link.first_rank, link.second_rank)
}

/// The links stand in ascending order of their ranks, each pair once.
pub open spec fn links_sorted(links: Seq<TopologyLink>) -> bool {
    forall|i: int, j: int|
        0 <= i < j < links.len() ==> pair_less(ends(#[trigger] links[i]), ends(#[trigger] links[j]))
}

/// A link as it is listed: the lower rank first.
pub open spec fn listed(link: TopologyLink) -> TopologyLink {
    if link.first_rank <= link.second_rank {
        link
    } else {
        TopologyLink { first_rank: link.second_rank, second_rank: link.first_rank, ..link }
    }
}

spec fn pairs_sorted(pairs: Seq<(u32, u32)>) -> bool {
    forall|i: int, j: int|
        0 <= i < j < pairs.len() ==> pair_less(#[trigger] pairs[i], #[trigger] pairs[j])
}

proof fn lemma_row(first: int, end: int)
    requires
        0 <= first,
        end <= u32::MAX,
    ensures
        pairs_sorted(row_pairs(first, end)),
        forall|k: int|
            0 <= k < row_pairs(first, end).len() ==> (#[trigger] row_pairs(first, end)[k]).0
                == first && row_pairs(first, end)[k].1 < end,
        forall|pair: (u32, u32)|
            pair.0 == first && first < pair.1 < end ==> #[trigger] row_pairs(first, end).contains(
                pair,
            ),
    decreases end - first,
{
    if end > first + 1 {
        let shorter = row_pairs(first, end - 1);
        let row = row_pairs(first, end);
        lemma_row(first, end - 1);
        assert forall|k: int| 0 <= k < row.len() implies (#[trigger] row[k]).0 == first && row[k].1
            < end by {
            assert(k < shorter.len() ==> row[k] == shorter[k]);
        }
        assert forall|i: int, j: int| 0 <= i < j < row.len() implies pair_less(
            #[trigger] row[i],
            #[trigger] row[j],
        ) by {
            assert(row[i] == shorter[i]);
            assert(j < shorter.len() ==> row[j] == shorter[j]);
        }
        assert forall|pair: (u32, u32)|
            pair.0 == first && first < pair.1 < end implies #[trigger] row.contains(pair) by {
            if pair.1 < end - 1 {
                assert(shorter.contains(pair));
                let k = choose|k: int| 0 <= k < shorter.len() && shorter[k] == pair;
                assert(row[k] == pair);
            } else {
                assert(row[shorter.len() as int] == pair);
            }
        }
    }
}

proof fn lemma_pairs(rows: int, size: int)
    requires
        rows <= size <= u32::MAX,
    ensures
        pairs_sorted(pairs_below(rows, size)),
        forall|k: int|
            0 <= k < pairs_below(rows, size).len() ==> (#[trigger] pairs_below(rows, size)[k]).0
                < rows,
        forall|pair: (u32, u32)|
            pair.0 < rows && pair.0 < pair.1 < size ==> #[trigger] pairs_below(
                rows,
                size,
            ).contains(pair),
    decreases rows,
{
    if rows > 0 {
        let head = pairs_below(rows - 1, size);
        let row = row_pairs(rows - 1, size);
        let all = pairs_below(rows, size);
        lemma_pairs(rows - 1, size);
        lemma_row(rows - 1, size);
        assert forall|k: int| 0 <= k < all.len() implies (#[trigger] all[k]).0 < rows by {
            if k < head.len() {
                assert(all[k] == head[k]);
            } else {
                assert(all[k] == row[k - head.len()]);
            }
        }
        assert forall|i: int, j: int| 0 <= i < j < all.len() implies pair_less(
            #[trigger] all[i],
            #[trigger] all[j],
        ) by {
            let h = head.len() as int;
            if j < h {
                assert(all[i] == head[i] && all[j] == head[j]);
            } else if i < h {
                assert(all[i] == head[i] && all[j] == row[j - h]);
            } else {
                assert(all[i] == row[i - h] && all[j] == row[j - h]);
            }
        }
        assert forall|pair: (u32, u32)|
            pair.0 < rows && pair.0 < pair.1 < size implies #[trigger] all.contains(pair) by {
            if pair.0 < rows - 1 {
                assert(head.contains(pair));
                let k = choose|k: int| 0 <= k < head.len() && head[k] == pair;
                assert(all[k] == pair);
            } else {
                assert(row.contains(pair));
                let k = choose|k: int| 0 <= k < row.len() && row[k] == pair;
                assert(all[head.len() + k] == pair);
            }
        }
    }
}

/// The links of two lists of pairs.
proof fn lemma_links_joined(model: TopologyModel, a: Seq<(u32, u32)>, b: Seq<(u32, u32)>)
    ensures
        links_of(model, a + b) == links_of(model, a) + links_of(model, b),
    decreases b.len(),
{
    if b.len() == 0 {
        assert(a + b =~= a);
        assert(links_of(model, a) + links_of(model, b) =~= links_of(model, a));
    } else {
        lemma_links_joined(model, a, b.drop_last());
        assert((a + b).drop_last() =~= a + b.drop_last());
        assert((a + b).last() == b.last());
        assert(links_of(model, a + b) =~= links_of(model, a) + links_of(model, b));
    }
}

/// The links of sorted pairs are sorted, and none lies after the last pair.
proof fn lemma_links_sorted(model: TopologyModel, pairs: Seq<(u32, u32)>)
    requires
        pairs_sorted(pairs),
    ensures
        links_sorted(links_of(model, pairs)),
        forall|i: int|
            0 <= i < links_of(model, pairs).len() ==> pairs.contains(
                ends(#[trigger] links_of(model, pairs)[i]),
            ),
    decreases pairs.len(),
{
    if pairs.len() > 0 {
        let fewer = pairs.drop_last();
        lemma_links_sorted(model, fewer);
        let rest = links_of(model, fewer);
        let all = links_of(model, pairs);
        let last = pairs.len() - 1;
        assert forall|i: int| 0 <= i < rest.len() implies pairs.contains(
            ends(#[trigger] rest[i]),
        ) && pair_less(ends(rest[i]), pairs.last()) by {
            assert(fewer.contains(ends(rest[i])));
            let k = choose|k: int| 0 <= k < fewer.len() && fewer[k] == ends(rest[i]);
            assert(pairs[k] == fewer[k]);
            assert(pair_less(pairs[k], pairs[last]));
        }
        assert forall|i: int| 0 <= i < all.len() implies pairs.contains(
            ends(#[trigger] all[i]),
        ) by {
            if i < rest.len() {
                assert(all[i] == rest[i]);
            } else {
                assert(ends(all[i]) == pairs[last]);
            }
        }
        assert forall|i: int, j: int| 0 <= i < j < all.len() implies pair_less(
            ends(#[trigger] all[i]),
            ends(#[trigger] all[j]),
        ) by {
            assert(all[i] == rest[i]);
            if j < rest.len() {
                assert(all[j] == rest[j]);
            } else {
                assert(ends(all[j]) == pairs.last());
            }
        }
    }
}

/// Pairs that a new link does not join keep their links.
proof fn lemma_links_untouched(
    model: TopologyModel,
    link: TopologyLink,
    pairs: Seq<(u32, u32)>,
)
    requires
        model.valid(),
        forall|k: int|
            0 <= k < pairs.len() ==> (#[trigger] pairs[k]).0 < pairs[k].1 < model.world_size
                && pairs[k] != ends(listed(link)),
    ensures
        links_of(model.with_link(link), pairs) == links_of(model, pairs),
    decreases pairs.len(),
{
    if pairs.len() > 0 {
        let fewer = pairs.drop_last();
        assert forall|k: int| 0 <= k < fewer.len() implies (#[trigger] fewer[k]).0 < fewer[k].1
            < model.world_size && fewer[k] != ends(listed(link)) by {
            assert(fewer[k] == pairs[k]);
        }
        lemma_links_untouched(model, link, fewer);
        let last = pairs.len() - 1;
        assert(pairs[last].0 < pairs[last].1 < model.world_size);
        assert(model.with_link(link).link(pairs[last].0 as int, pairs[last].1 as int)
            == model.link(pairs[last].0 as int, pairs[last].1 as int));
    }
}

/// A topology lists its links in ascending order, the lower rank first. A link
/// that is added takes its place among them: the place of the one that joined
/// its ranks before, or a new one.
pub proof fn law_added_link_takes_its_place(model: TopologyModel, link: TopologyLink) -> (place: int)
    requires
        model.valid(),
        model.pair_defect(link.first_rank, link.second_rank, link.bandwidth_mbps) is None,
    ensures
        ({
            let pairs = rank_pairs_of(model.world_size);
            let before = links_of(model, pairs);
            let after = links_of(model.with_link(link), pairs);
            &&& links_sorted(before)
            &&& links_sorted(after)
            &&& 0 <= place <= before.len()
            &&& if model.link(link.first_rank as int, link.second_rank as int) is Some {
                &&& place < before.len()
                &&& ends(before[place]) == ends(listed(link))
                &&& after == before.update(place, listed(link))
            } else {
                after == before.insert(place, listed(link))
            }
        }),
{
    let size = model.world_size as int;
    let pairs = rank_pairs_of(model.world_size);
    let changed = model.with_link(link);
    let own = ends(listed(link));
    lemma_pairs(size, size);
    lemma_pairs_bounds(size, size);
    lemma_links_sorted(model, pairs);
    lemma_links_sorted(changed, pairs);
    assert(pairs.contains(own));
    let k = choose|k: int| 0 <= k < pairs.len() && pairs[k] == own;
    let head = pairs.take(k);
    let tail = pairs.skip(k + 1);
    let one = seq![own];
    assert(pairs =~= head + one + tail);
    lemma_links_joined(model, head + one, tail);
    lemma_links_joined(model, head, one);
    lemma_links_joined(changed, head + one, tail);
    lemma_links_joined(changed, head, one);
    assert forall|i: int| 0 <= i < head.len() implies (#[trigger] head[i]).0 < head[i].1 < size
        && head[i] != own by {
        assert(head[i] == pairs[i]);
        assert(pair_less(pairs[i], pairs[k]));
    }
    assert forall|i: int| 0 <= i < tail.len() implies (#[trigger] tail[i]).0 < tail[i].1 < size
        && tail[i] != own by {
        assert(tail[i] == pairs[k + 1 + i]);
        assert(pair_less(pairs[k], pairs[k + 1 + i]));
    }
    lemma_links_untouched(model, link, head);
    lemma_links_untouched(model, link, tail);
    assert(one.drop_last() =~= Seq::empty());
    assert(one.last() == own);
    assert(model.link(own.0 as int, own.1 as int) == model.link(
        link.first_rank as int,
        link.second_rank as int,
    )) by {
        let a = link.first_rank as int;
        let b = link.second_rank as int;
        assert(model.links[a][b] == model.links[b][a]);
    }
    assert(changed.link(own.0 as int, own.1 as int) == Some(
        LinkCost { bandwidth_mbps: link.bandwidth_mbps, latency_ns: link.latency_ns },
    ));
    let before = links_of(model, pairs);
    let after = links_of(changed, pairs);
    let place = links_of(model, head).len() as int;
    reveal_with_fuel(links_of, 2);
    assert(links_of(changed, one) =~= seq![listed(link)]);
    if model.link(link.first_rank as int, link.second_rank as int) is Some {
        assert(links_of(model, one).len() == 1);
        assert(after =~= before.update(place, listed(link)));
        assert(before[place] == links_of(model, one)[0]);
    } else {
        assert(links_of(model, one) =~= Seq::empty());
        assert(after =~= before.insert(place, listed(link)));
    }
    place
}

} // verus!
