//! The rings that channels run over: the primary ring and, after it, the rings
//! that use other links.

use crate::rank::layout::rank_lists;
use crate::rank::topology::links::{CollectiveTopology, TopologyModel};
use crate::rank::topology::order::copy_ranks;
use crate::rank::topology::pairs::{
    lemma_sorted_pairs_equal, same_pairs, sort_pairs, sorted_pairs,
};
use crate::rank::topology::rings::{
    around, is_ring, next_place, no_ring, offered_rings,
};
use crate::rank::topology::MAX_RING_CHANNELS;
use vstd::prelude::*;

verus! {

/// A link's two ends, the lower rank first.
pub open spec fn ring_edge(order: Seq<u32>, index: int) -> (u64, u64) {
    let first = order[index];
    let second = order[around(index, order.len() as int)];
    if first <= second {
        (first as u64, second as u64)
    } else {
        (second as u64, first as u64)
    }
}

/// The links of a ring, in ring order.
pub open spec fn ring_edge_list(order: Seq<u32>) -> Seq<(u64, u64)> {
    Seq::new(order.len(), |i: int| ring_edge(order, i))
}

/// Two rings use the same links.
pub open spec fn same_links(a: Seq<u32>, b: Seq<u32>) -> bool {
    ring_edge_list(a).to_multiset() == ring_edge_list(b).to_multiset()
}

/// The links of a ring in ascending order.
pub fn ring_edges(order: &[u32]) -> (edges: Vec<(u64, u64)>)
    ensures
        edges@ == sorted_pairs(ring_edge_list(order@)),
{
    let mut edges: Vec<(u64, u64)> = Vec::new();
    let mut index: usize = 0;
    while index < order.len()
        invariant
            index <= order.len(),
            edges@.len() == index,
            forall|i: int| 0 <= i < index ==> #[trigger] edges@[i] == ring_edge(order@, i),
        decreases order.len() - index,
    {
        let first: u32 = order[index];
        let second: u32 = order[next_place(index, order.len())];
        if first <= second {
            edges.push((first as u64, second as u64));
        } else {
            edges.push((second as u64, first as u64));
        }
        index = index + 1;
    }
    assert(edges@ =~= ring_edge_list(order@));
    sort_pairs(edges.as_slice())
}

/// Whether two rings use the same links.
pub fn share_links(a: &[u32], b: &[u32]) -> (same: bool)
    ensures
        same == same_links(a@, b@),
{
    proof {
        lemma_sorted_pairs_equal(ring_edge_list(a@), ring_edge_list(b@));
    }
    let first = ring_edges(a);
    let second = ring_edges(b);
    same_pairs(first.as_slice(), second.as_slice())
}

/// A ring of the list uses the same links.
pub open spec fn links_taken(orders: Seq<Seq<u32>>, ring: Seq<u32>) -> bool {
    exists|i: int| 0 <= i < orders.len() && same_links(#[trigger] orders[i], ring)
}

/// The orders, and after them the first `count` candidates that use other
/// links than all rings before them.
pub open spec fn with_alternatives(
    orders: Seq<Seq<u32>>,
    candidates: Seq<Seq<u32>>,
    count: int,
) -> Seq<Seq<u32>>
    decreases count,
{
    if count <= 0 {
        orders
    } else {
        let before = with_alternatives(orders, candidates, count - 1);
        if links_taken(before, candidates[count - 1]) {
            before
        } else {
            before.push(candidates[count - 1])
        }
    }
}

/// The rings of a topology behind a primary one.
pub open spec fn channel_rings(model: TopologyModel, primary: Seq<u32>) -> Seq<Seq<u32>> {
    if no_ring(model) {
        seq![primary]
    } else {
        let offered = offered_rings(model, MAX_RING_CHANNELS as nat);
        with_alternatives(seq![primary], offered, offered.len() as int)
    }
}

proof fn lemma_alternatives(
    world_size: u32,
    orders: Seq<Seq<u32>>,
    candidates: Seq<Seq<u32>>,
    count: int,
)
    requires
        0 <= count <= candidates.len(),
        forall|i: int| 0 <= i < orders.len() ==> is_ring(world_size, #[trigger] orders[i]),
        forall|i: int| 0 <= i < candidates.len() ==> is_ring(world_size, #[trigger] candidates[i]),
    ensures
        orders.len() <= with_alternatives(orders, candidates, count).len() <= orders.len() + count,
        with_alternatives(orders, candidates, count).take(orders.len() as int) == orders,
        forall|i: int|
            0 <= i < with_alternatives(orders, candidates, count).len() ==> is_ring(
                world_size,
                #[trigger] with_alternatives(orders, candidates, count)[i],
            ),
    decreases count,
{
    if count > 0 {
        lemma_alternatives(world_size, orders, candidates, count - 1);
        let before = with_alternatives(orders, candidates, count - 1);
        let after = with_alternatives(orders, candidates, count);
        assert(after.take(orders.len() as int) =~= before.take(orders.len() as int));
        assert forall|i: int| 0 <= i < after.len() implies is_ring(
            world_size,
            #[trigger] after[i],
        ) by {
            if i < before.len() {
                assert(after[i] == before[i]);
            }
        }
    } else {
        assert(orders.take(orders.len() as int) =~= orders);
    }
}

/// The primary ring, and after it every other offered ring whose links no
/// earlier one uses.
pub fn ring_orders_with_primary(topology: &CollectiveTopology, primary: &[u32]) -> (orders: Vec<
    Vec<u32>,
>)
    requires
        topology@.valid(),
        is_ring(topology@.world_size, primary@),
    ensures
        rank_lists(orders@) == channel_rings(topology@, primary@),
        orders@.len() > 0,
        orders@[0]@ == primary@,
        forall|i: int|
            0 <= i < orders@.len() ==> is_ring(
                topology@.world_size,
                #[trigger] rank_lists(orders@)[i],
            ),
{
    let mut orders: Vec<Vec<u32>> = Vec::new();
    orders.push(copy_ranks(primary));
    let ghost start = seq![primary@];
    assert(rank_lists(orders@) =~= start);
    let candidates = match topology.best_ring_orders(MAX_RING_CHANNELS) {
        Ok(candidates) => candidates,
        Err(_) => {
            return orders;
        },
    };
    let ghost offered = rank_lists(candidates@);
    let mut index: usize = 0;
    while index < candidates.len()
        invariant
            index <= candidates.len(),
            offered == rank_lists(candidates@),
            rank_lists(orders@) == with_alternatives(start, offered, index as int),
        decreases candidates.len() - index,
    {
        let mut taken = false;
        let mut place: usize = 0;
        while place < orders.len()
            invariant
                place <= orders.len(),
                index < candidates.len(),
                offered == rank_lists(candidates@),
                taken == exists|i: int|
                    0 <= i < place && same_links(
                        #[trigger] rank_lists(orders@)[i],
                        offered[index as int],
                    ),
            decreases orders.len() - place,
        {
            let shared = share_links(orders[place].as_slice(), candidates[index].as_slice());
            assert(rank_lists(orders@)[place as int] == orders@[place as int]@);
            taken = taken || shared;
            place = place + 1;
        }
        assert(taken == links_taken(rank_lists(orders@), offered[index as int]));
        if !taken {
            let ghost before = rank_lists(orders@);
            orders.push(copy_ranks(candidates[index].as_slice()));
            assert(rank_lists(orders@) =~= before.push(offered[index as int]));
        }
        index = index + 1;
    }
    proof {
        lemma_alternatives(topology@.world_size, start, offered, offered.len() as int);
        assert(rank_lists(orders@).take(1)[0] == rank_lists(orders@)[0]);
    }
    orders
}

} // verus!
