//! Hierarchies: partitions of the ranks into groups, given or found by their
//! fast links.

use crate::rank::layout::rank_lists;
use crate::rank::topology::links::{rank_pairs, rank_pairs_of, CollectiveTopology, TopologyModel};
use crate::rank::topology::paths::{link_time, link_transfer_time_ns, repeat, unset, lemma_set_flag};
use crate::rank::topology::{TopologyError, TopologyFailure};
use crate::text::{decimal, push_decimal, push_usize};
use vstd::prelude::*;
use vstd::string::*;

verus! {

/// The members of the first `count` groups, group after group.
pub open spec fn members(groups: Seq<Seq<u32>>, count: int) -> Seq<u32>
    decreases count,
{
    if count <= 0 {
        Seq::empty()
    } else {
        members(groups, count - 1) + groups[count - 1]
    }
}

/// The first refusal among the first `count` ranks of a list behind `prior`.
pub open spec fn member_defect(world_size: u32, list: Seq<u32>, prior: int, count: int) -> Option<
    TopologyFailure,
>
    decreases count - prior,
{
    if count <= prior {
        None
    } else {
        match member_defect(world_size, list, prior, count - 1) {
            Some(defect) => Some(defect),
            None => if list[count - 1] >= world_size {
                Some(TopologyFailure::RankOutOfRange { rank: list[count - 1], world_size })
            } else if list.take(count - 1).contains(list[count - 1]) {
                Some(
                    TopologyFailure::InvalidHierarchy(
                        "rank "@ + decimal(list[count - 1] as nat) + " appears more than once"@,
                    ),
                )
            } else {
                None
            },
        }
    }
}

/// The first refusal among the first `count` groups.
pub open spec fn group_defect(world_size: u32, groups: Seq<Seq<u32>>, count: int) -> Option<
    TopologyFailure,
>
    decreases count,
{
    if count <= 0 {
        None
    } else {
        match group_defect(world_size, groups, count - 1) {
            Some(defect) => Some(defect),
            None => if groups[count - 1].len() == 0 {
                Some(
                    TopologyFailure::InvalidHierarchy(
                        "group "@ + decimal((count - 1) as nat) + " is empty"@,
                    ),
                )
            } else {
                member_defect(
                    world_size,
                    members(groups, count),
                    members(groups, count - 1).len() as int,
                    members(groups, count).len() as int,
                )
            },
        }
    }
}

/// The ranks below `end` that a list lacks, separated by commas.
pub open spec fn missing_text(list: Seq<u32>, end: int) -> Seq<char>
    decreases end,
{
    if end <= 0 {
        Seq::empty()
    } else {
        let rest = missing_text(list, end - 1);
        if list.contains((end - 1) as u32) {
            rest
        } else if rest.len() == 0 {
            decimal((end - 1) as nat)
        } else {
            rest + ","@ + decimal((end - 1) as nat)
        }
    }
}

/// A list holds every rank of the world.
pub open spec fn covers(list: Seq<u32>, world_size: int) -> bool {
    forall|r: int| 0 <= r < world_size ==> list.contains(#[trigger] (r as u32))
}

/// Why a hierarchy is refused, if it is.
pub open spec fn hierarchy_defect(world_size: u32, groups: Seq<Seq<u32>>) -> Option<
    TopologyFailure,
> {
    let count = groups.len() as int;
    if count < 2 {
        Some(TopologyFailure::InvalidHierarchy("requires at least two non-empty groups"@))
    } else if group_defect(world_size, groups, count) is Some {
        group_defect(world_size, groups, count)
    } else if !covers(members(groups, count), world_size as int) {
        Some(
            TopologyFailure::InvalidHierarchy(
                "does not cover ranks ["@ + missing_text(
                    members(groups, count),
                    world_size as int,
                ) + "]"@,
            ),
        )
    } else {
        None
    }
}

/// No rank stands at two places of the first `count` groups.
pub open spec fn apart(groups: Seq<Seq<u32>>, count: int) -> bool {
    forall|g: int, i: int, h: int, j: int|
        0 <= g < count && 0 <= h < count && 0 <= i < groups[g].len() && 0 <= j < groups[h].len()
            && (g != h || i != j) ==> #[trigger] groups[g][i] != #[trigger] groups[h][j]
}

/// A rank stands in one of the first `count` groups.
pub open spec fn grouped(groups: Seq<Seq<u32>>, count: int, rank: u32) -> bool {
    exists|g: int| 0 <= g < count && (#[trigger] groups[g]).contains(rank)
}

/// Groups of ranks of the world.
pub open spec fn groups_inside(world_size: u32, groups: Seq<Seq<u32>>, count: int) -> bool {
    forall|g: int, i: int|
        0 <= g < count && 0 <= i < groups[g].len() ==> #[trigger] groups[g][i] < world_size
}

/// A partition of the world into non-empty groups.
pub open spec fn is_partition(world_size: u32, groups: Seq<Seq<u32>>) -> bool {
    let count = groups.len() as int;
    &&& forall|g: int| 0 <= g < count ==> (#[trigger] groups[g]).len() > 0
    &&& groups_inside(world_size, groups, count)
    &&& apart(groups, count)
    &&& forall|r: int| 0 <= r < world_size ==> grouped(groups, count, #[trigger] (r as u32))
}

/// A partition of the world into two or more non-empty groups.
pub open spec fn is_hierarchy(world_size: u32, groups: Seq<Seq<u32>>) -> bool {
    groups.len() >= 2 && is_partition(world_size, groups)
}

/// What the flat list of members holds.
proof fn lemma_members_hold(groups: Seq<Seq<u32>>, count: int)
    requires
        0 <= count <= groups.len(),
    ensures
        forall|r: u32| #[trigger]
            members(groups, count).contains(r) <==> grouped(groups, count, r),
    decreases count,
{
    let all = members(groups, count);
    if count > 0 {
        lemma_members_hold(groups, count - 1);
        let head = members(groups, count - 1);
        let tail = groups[count - 1];
        assert forall|r: u32| #[trigger] all.contains(r) <==> grouped(groups, count, r) by {
            if all.contains(r) {
                let k = choose|k: int| 0 <= k < all.len() && all[k] == r;
                if k < head.len() {
                    assert(head[k] == r);
                    assert(head.contains(r));
                    let g = choose|g: int| 0 <= g < count - 1 && (#[trigger] groups[g]).contains(r);
                    assert(groups[g].contains(r));
                } else {
                    assert(tail[k - head.len()] == r);
                    assert(groups[count - 1].contains(r));
                }
            }
            if grouped(groups, count, r) {
                let g = choose|g: int| 0 <= g < count && (#[trigger] groups[g]).contains(r);
                if g < count - 1 {
                    assert(grouped(groups, count - 1, r));
                    assert(head.contains(r));
                    let k = choose|k: int| 0 <= k < head.len() && head[k] == r;
                    assert(all[k] == r);
                } else {
                    let k = choose|k: int| 0 <= k < tail.len() && tail[k] == r;
                    assert(all[head.len() + k] == r);
                }
            }
        }
    } else {
        assert(all =~= Seq::<u32>::empty());
    }
}

/// Groups that are apart have a flat list without duplicates.
proof fn lemma_members_distinct(groups: Seq<Seq<u32>>, count: int)
    requires
        0 <= count <= groups.len(),
        apart(groups, count),
    ensures
        members(groups, count).no_duplicates(),
    decreases count,
{
    let all = members(groups, count);
    if count > 0 {
        lemma_members_distinct(groups, count - 1);
        lemma_members_hold(groups, count - 1);
        let head = members(groups, count - 1);
        assert forall|i: int, j: int| 0 <= i < j < all.len() implies all[i] != all[j] by {
            if j < head.len() {
                assert(head[i] != head[j]);
            } else if i >= head.len() {
                assert(groups[count - 1][i - head.len()] != groups[count - 1][j - head.len()]);
            } else {
                assert(head.contains(head[i]));
                let g = choose|g: int|
                    0 <= g < count - 1 && (#[trigger] groups[g]).contains(head[i]);
                let k = choose|k: int| 0 <= k < groups[g].len() && groups[g][k] == head[i];
                assert(groups[g][k] != groups[count - 1][j - head.len()]);
            }
        }
    }
}

/// A flat list without duplicates belongs to groups that are apart.
proof fn lemma_distinct_members(groups: Seq<Seq<u32>>, count: int, g: int, i: int, h: int, j: int)
    requires
        0 <= count <= groups.len(),
        members(groups, count).no_duplicates(),
        0 <= g < count,
        0 <= h < count,
        0 <= i < groups[g].len(),
        0 <= j < groups[h].len(),
        g != h || i != j,
    ensures
        groups[g][i] != groups[h][j],
    decreases count,
{
    let all = members(groups, count);
    let head = members(groups, count - 1);
    assert(all == head + groups[count - 1]);
    assert forall|a: int, b: int| 0 <= a < head.len() && 0 <= b < head.len() && a != b implies head[a]
        != head[b] by {
        assert(all[a] != all[b]);
    }
    if g == count - 1 && h == count - 1 {
        assert(all[head.len() + i] != all[head.len() + j]);
    } else if g < count - 1 && h < count - 1 {
        lemma_distinct_members(groups, count - 1, g, i, h, j);
    } else {
        lemma_members_hold(groups, count - 1);
        let (low, at, high) = if g == count - 1 {
            (h, j, i)
        } else {
            (g, i, j)
        };
        assert(groups[low].contains(groups[low][at]));
        assert(grouped(groups, count - 1, groups[low][at]));
        assert(head.contains(groups[low][at]));
        let k = choose|k: int| 0 <= k < head.len() && head[k] == groups[low][at];
        assert(all[k] != all[head.len() + high]);
    }
}

/// Groups and their flat list stay inside the world together.
proof fn lemma_members_inside(world_size: u32, groups: Seq<Seq<u32>>, count: int)
    requires
        0 <= count <= groups.len(),
    ensures
        (forall|i: int|
            0 <= i < members(groups, count).len() ==> #[trigger] members(groups, count)[i]
                < world_size) <==> groups_inside(world_size, groups, count),
    decreases count,
{
    let all = members(groups, count);
    if count > 0 {
        lemma_members_inside(world_size, groups, count - 1);
        let head = members(groups, count - 1);
        if forall|i: int| 0 <= i < all.len() ==> #[trigger] all[i] < world_size {
            assert forall|i: int| 0 <= i < head.len() implies #[trigger] head[i] < world_size by {
                assert(all[i] < world_size);
            }
            assert forall|g: int, i: int|
                0 <= g < count && 0 <= i < groups[g].len() implies #[trigger] groups[g][i]
                < world_size by {
                if g == count - 1 {
                    assert(all[head.len() + i] < world_size);
                }
            }
        }
        if groups_inside(world_size, groups, count) {
            assert(groups_inside(world_size, groups, count - 1));
            assert forall|i: int| 0 <= i < all.len() implies #[trigger] all[i] < world_size by {
                if i < head.len() {
                    assert(head[i] < world_size);
                } else {
                    assert(groups[count - 1][i - head.len()] < world_size);
                }
            }
        }
    }
}

/// The flat list of members against the groups themselves.
pub proof fn lemma_members(world_size: u32, groups: Seq<Seq<u32>>, count: int)
    requires
        0 <= count <= groups.len(),
    ensures
        forall|r: u32| #[trigger]
            members(groups, count).contains(r) <==> grouped(groups, count, r),
        members(groups, count).no_duplicates() <==> apart(groups, count),
        (forall|i: int|
            0 <= i < members(groups, count).len() ==> #[trigger] members(groups, count)[i]
                < world_size) <==> groups_inside(world_size, groups, count),
{
    lemma_members_hold(groups, count);
    lemma_members_inside(world_size, groups, count);
    if apart(groups, count) {
        lemma_members_distinct(groups, count);
    }
    if members(groups, count).no_duplicates() {
        assert forall|g: int, i: int, h: int, j: int|
            0 <= g < count && 0 <= h < count && 0 <= i < groups[g].len() && 0 <= j
                < groups[h].len() && (g != h || i != j) implies #[trigger] groups[g][i]
            != #[trigger] groups[h][j] by {
            lemma_distinct_members(groups, count, g, i, h, j);
        }
    }
}

proof fn lemma_member_defect(world_size: u32, list: Seq<u32>, prior: int, count: int)
    requires
        0 <= prior <= count <= list.len(),
        list.take(prior).no_duplicates(),
        forall|i: int| 0 <= i < prior ==> #[trigger] list[i] < world_size,
    ensures
        member_defect(world_size, list, prior, count) is None <==> {
            &&& list.take(count).no_duplicates()
            &&& forall|i: int| 0 <= i < count ==> #[trigger] list[i] < world_size
        },
    decreases count,
{
    if count > prior {
        lemma_member_defect(world_size, list, prior, count - 1);
        let head = list.take(count - 1);
        let more = list.take(count);
        if member_defect(world_size, list, prior, count) is None {
            assert forall|i: int, j: int| 0 <= i < count && 0 <= j < count && i != j implies more[i]
                != more[j] by {
                if i < count - 1 && j < count - 1 {
                    assert(head[i] != head[j]);
                } else if i == count - 1 {
                    assert(head[j] == more[j]);
                    assert(head.contains(head[j]));
                } else {
                    assert(head[i] == more[i]);
                    assert(head.contains(head[i]));
                }
            }
        }
        if more.no_duplicates() && (forall|i: int|
            0 <= i < count ==> #[trigger] list[i] < world_size) {
            assert forall|i: int, j: int|
                0 <= i < count - 1 && 0 <= j < count - 1 && i != j implies head[i] != head[j] by {
                assert(more[i] != more[j]);
            }
            if head.contains(list[count - 1]) {
                let k = choose|k: int| 0 <= k < head.len() && head[k] == list[count - 1];
                assert(more[k] == more[count - 1]);
            }
            assert(list[count - 1] < world_size);
        }
    }
}

proof fn lemma_group_defect(world_size: u32, groups: Seq<Seq<u32>>, count: int)
    requires
        0 <= count <= groups.len(),
    ensures
        group_defect(world_size, groups, count) is None <==> {
            &&& forall|g: int| 0 <= g < count ==> (#[trigger] groups[g]).len() > 0
            &&& members(groups, count).no_duplicates()
            &&& forall|i: int|
                0 <= i < members(groups, count).len() ==> #[trigger] members(groups, count)[i]
                    < world_size
        },
    decreases count,
{
    if count > 0 {
        lemma_group_defect(world_size, groups, count - 1);
        let head = members(groups, count - 1);
        let all = members(groups, count);
        assert(all.take(head.len() as int) =~= head);
        assert(all.take(all.len() as int) =~= all);
        if head.no_duplicates() && (forall|i: int|
            0 <= i < head.len() ==> #[trigger] head[i] < world_size) {
            assert forall|i: int| 0 <= i < head.len() implies #[trigger] all[i] < world_size by {
                assert(all[i] == head[i]);
            }
            lemma_member_defect(world_size, all, head.len() as int, all.len() as int);
        } else {
            if all.no_duplicates() {
                assert forall|i: int, j: int|
                    0 <= i < head.len() && 0 <= j < head.len() && i != j implies head[i]
                    != head[j] by {
                    assert(all[i] != all[j]);
                }
                let i = choose|i: int| 0 <= i < head.len() && !(#[trigger] head[i] < world_size);
                assert(all[i] == head[i]);
            }
        }
        if forall|g: int| 0 <= g < count ==> (#[trigger] groups[g]).len() > 0 {
            assert(groups[count - 1].len() > 0);
        }
    }
}

/// A hierarchy that nothing is wrong with is a partition of the world.
pub proof fn law_accepted_hierarchies(world_size: u32, groups: Seq<Seq<u32>>)
    ensures
        hierarchy_defect(world_size, groups) is None <==> is_hierarchy(world_size, groups),
{
    let count = groups.len() as int;
    lemma_group_defect(world_size, groups, count);
    lemma_members(world_size, groups, count);
    let all = members(groups, count);
    if covers(all, world_size as int) {
        assert forall|r: int| 0 <= r < world_size implies grouped(
            groups,
            count,
            #[trigger] (r as u32),
        ) by {
            assert(all.contains(r as u32));
        }
    }
    if forall|r: int| 0 <= r < world_size ==> grouped(groups, count, #[trigger] (r as u32)) {
        assert forall|r: int| 0 <= r < world_size implies all.contains(#[trigger] (r as u32)) by {
            assert(grouped(groups, count, r as u32));
        }
    }
}

proof fn lemma_group_defect_stays(world_size: u32, groups: Seq<Seq<u32>>, count: int, end: int)
    requires
        0 <= count <= end,
    ensures
        group_defect(world_size, groups, count) is Some ==> group_defect(world_size, groups, end)
            == group_defect(world_size, groups, count),
    decreases end - count,
{
    if count < end {
        lemma_group_defect_stays(world_size, groups, count, end - 1);
    }
}

proof fn lemma_member_defect_stays(
    world_size: u32,
    list: Seq<u32>,
    prior: int,
    count: int,
    end: int,
)
    requires
        prior <= count <= end,
    ensures
        member_defect(world_size, list, prior, count) is Some ==> member_defect(
            world_size,
            list,
            prior,
            end,
        ) == member_defect(world_size, list, prior, count),
    decreases end - count,
{
    if count < end {
        lemma_member_defect_stays(world_size, list, prior, count, end - 1);
    }
}

/// Whether something is in a list after one more item.
proof fn lemma_push_contains(list: Seq<u32>, item: u32)
    ensures
        forall|r: u32| #[trigger] list.push(item).contains(r) <==> list.contains(r) || r == item,
{
    let more = list.push(item);
    assert forall|r: u32| #[trigger] more.contains(r) <==> list.contains(r) || r == item by {
        if list.contains(r) {
            let k = choose|k: int| 0 <= k < list.len() && list[k] == r;
            assert(more[k] == r);
        }
        if r == item {
            assert(more[list.len() as int] == r);
        }
        if more.contains(r) && r != item {
            let k = choose|k: int| 0 <= k < more.len() && more[k] == r;
            assert(list[k] == r);
        }
    }
}

pub fn validate_hierarchy_groups(world_size: u32, groups: &[Vec<u32>]) -> (result: Result<
    (),
    TopologyError,
>)
    ensures
        match hierarchy_defect(world_size, rank_lists(groups@)) {
            Some(defect) => result is Err && result->Err_0@ == defect,
            None => result is Ok,
        },
        result is Ok <==> is_hierarchy(world_size, rank_lists(groups@)),
{
    let ghost model = rank_lists(groups@);
    let ghost total = model.len() as int;
    proof {
        law_accepted_hierarchies(world_size, model);
    }
    if groups.len() < 2 {
        return Err(
            TopologyError::InvalidHierarchy(
                String::from_str("requires at least two non-empty groups"),
            ),
        );
    }
    let mut seen: Vec<bool> = repeat(false, world_size as usize);
    let mut index: usize = 0;
    while index < groups.len()
        invariant
            index <= groups.len(),
            model == rank_lists(groups@),
            total == model.len(),
            total >= 2,
            seen@.len() == world_size,
            group_defect(world_size, model, index as int) is None,
            forall|v: int|
                0 <= v < world_size ==> (#[trigger] seen@[v] <==> members(
                    model,
                    index as int,
                ).contains(v as u32)),
            hierarchy_defect(world_size, model) is None <==> is_hierarchy(world_size, model),
        decreases groups.len() - index,
    {
        proof {
            lemma_group_defect_stays(world_size, model, index + 1, total);
        }
        if groups[index].len() == 0 {
            let mut text = String::from_str("group ");
            push_usize(&mut text, index);
            text.append(" is empty");
            return Err(TopologyError::InvalidHierarchy(text));
        }
        let ghost head = members(model, index as int);
        let ghost all = members(model, index + 1);
        let mut place: usize = 0;
        assert(all.take(head.len() as int) =~= head);
        while place < groups[index].len()
            invariant
                index < groups@.len(),
                place <= groups@[index as int]@.len(),
                model == rank_lists(groups@),
                total == model.len(),
                total >= 2,
                seen@.len() == world_size,
                head == members(model, index as int),
                all == members(model, index + 1),
                all == head + groups@[index as int]@,
                groups@[index as int]@.len() > 0,
                group_defect(world_size, model, index as int) is None,
                group_defect(world_size, model, index + 1) is Some ==> group_defect(
                    world_size,
                    model,
                    total,
                ) == group_defect(world_size, model, index + 1),
                member_defect(
                    world_size,
                    all,
                    head.len() as int,
                    head.len() + place,
                ) is None,
                forall|v: int|
                    0 <= v < world_size ==> (#[trigger] seen@[v] <==> all.take(
                        head.len() + place,
                    ).contains(v as u32)),
                hierarchy_defect(world_size, model) is None <==> is_hierarchy(world_size, model),
            decreases groups@[index as int]@.len() - place,
        {
            let rank: u32 = groups[index][place];
            let ghost at = head.len() + place;
            proof {
                assert(all[at] == rank);
                lemma_member_defect_stays(
                    world_size,
                    all,
                    head.len() as int,
                    at + 1,
                    all.len() as int,
                );
            }
            if rank >= world_size {
                return Err(TopologyError::RankOutOfRange { rank, world_size });
            }
            if seen[rank as usize] {
                let mut text = String::from_str("rank ");
                push_decimal(&mut text, rank as u64);
                text.append(" appears more than once");
                return Err(TopologyError::InvalidHierarchy(text));
            }
            seen.set(rank as usize, true);
            proof {
                assert(all.take(at + 1) =~= all.take(at).push(rank));
                lemma_push_contains(all.take(at), rank);
            }
            place = place + 1;
        }
        assert(all.take(all.len() as int) =~= all);
        index = index + 1;
    }
    let ghost list = members(model, total);
    let mut missing = String::new();
    let mut found = false;
    let mut rank: u32 = 0;
    assert(missing@ =~= Seq::<char>::empty());
    while rank < world_size
        invariant
            rank <= world_size,
            seen@.len() == world_size,
            list == members(model, total),
            forall|v: int|
                0 <= v < world_size ==> (#[trigger] seen@[v] <==> list.contains(v as u32)),
            missing@ == missing_text(list, rank as int),
            found == (missing@.len() > 0),
            found == exists|r: int| 0 <= r < rank && !list.contains(#[trigger] (r as u32)),
        decreases world_size - rank,
    {
        if !seen[rank as usize] {
            if found {
                missing.append(",");
            }
            push_decimal(&mut missing, rank as u64);
            proof {
                lemma_decimal_some(rank as nat);
                assert(!list.contains((rank as int) as u32));
                if !found {
                    assert(missing@ =~= decimal(rank as nat));
                }
            }
            found = true;
        }
        rank = rank + 1;
    }
    if found {
        assert(!covers(list, world_size as int));
        let mut text = String::from_str("does not cover ranks [");
        text.append(missing.as_str());
        text.append("]");
        return Err(TopologyError::InvalidHierarchy(text));
    }
    assert(covers(list, world_size as int));
    Ok(())
}

proof fn lemma_decimal_some(n: nat)
    ensures
        decimal(n).len() > 0,
{
}

/// A link that is no slower than a threshold.
pub open spec fn is_fast(model: TopologyModel, bytes: int, threshold: u64, a: int, b: int) -> bool {
    model.link(a, b) matches Some(cost) && link_time(cost, bytes) <= threshold
}

/// Ranks each joined to the next by a fast link.
pub open spec fn fast_walk(
    model: TopologyModel,
    bytes: int,
    threshold: u64,
    ranks: Seq<int>,
) -> bool {
    &&& ranks.len() > 0
    &&& forall|i: int| 0 <= i < ranks.len() ==> 0 <= #[trigger] ranks[i] < model.world_size
    &&& forall|i: int|
        0 <= i < ranks.len() - 1 ==> is_fast(
            model,
            bytes,
            threshold,
            #[trigger] ranks[i],
            ranks[i + 1],
        )
}

/// Two ranks joined by fast links.
pub open spec fn connected(
    model: TopologyModel,
    bytes: int,
    threshold: u64,
    a: int,
    b: int,
) -> bool {
    exists|ranks: Seq<int>| #[trigger]
        fast_walk(model, bytes, threshold, ranks) && ranks[0] == a && ranks.last() == b
}

/// The ranks below `end` joined to a rank, ascending.
pub open spec fn domain(
    model: TopologyModel,
    bytes: int,
    threshold: u64,
    rank: int,
    end: int,
) -> Seq<u32>
    decreases end,
{
    if end <= 0 {
        Seq::empty()
    } else {
        let rest = domain(model, bytes, threshold, rank, end - 1);
        if connected(model, bytes, threshold, rank, end - 1) {
            rest.push((end - 1) as u32)
        } else {
            rest
        }
    }
}

/// A lower rank is joined to a rank.
pub open spec fn joined_below(
    model: TopologyModel,
    bytes: int,
    threshold: u64,
    rank: int,
    end: int,
) -> bool {
    exists|lower: int|
        0 <= lower < end && #[trigger] connected(model, bytes, threshold, lower, rank)
}

/// The domains of fast links whose lowest rank is below `end`, by lowest rank.
pub open spec fn domains(model: TopologyModel, bytes: int, threshold: u64, end: int) -> Seq<
    Seq<u32>,
>
    decreases end,
{
    if end <= 0 {
        Seq::empty()
    } else {
        let rest = domains(model, bytes, threshold, end - 1);
        if joined_below(model, bytes, threshold, end - 1, end - 1) {
            rest
        } else {
            rest.push(domain(model, bytes, threshold, end - 1, model.world_size as int))
        }
    }
}

proof fn lemma_connected_self(model: TopologyModel, bytes: int, threshold: u64, a: int)
    requires
        0 <= a < model.world_size,
    ensures
        connected(model, bytes, threshold, a, a),
{
    let here = seq![a];
    assert(fast_walk(model, bytes, threshold, here));
}

proof fn lemma_connected_on(
    model: TopologyModel,
    bytes: int,
    threshold: u64,
    a: int,
    b: int,
    c: int,
)
    requires
        connected(model, bytes, threshold, a, b),
        is_fast(model, bytes, threshold, b, c),
        0 <= c < model.world_size,
    ensures
        connected(model, bytes, threshold, a, c),
{
    let ranks = choose|ranks: Seq<int>| #[trigger]
        fast_walk(model, bytes, threshold, ranks) && ranks[0] == a && ranks.last() == b;
    let more = ranks.push(c);
    assert forall|i: int| 0 <= i < more.len() - 1 implies is_fast(
        model,
        bytes,
        threshold,
        #[trigger] more[i],
        more[i + 1],
    ) by {
        assert(more[i] == ranks[i]);
        if i < ranks.len() - 1 {
            assert(more[i + 1] == ranks[i + 1]);
        }
    }
    assert(fast_walk(model, bytes, threshold, more));
}

proof fn lemma_connected_transitive(
    model: TopologyModel,
    bytes: int,
    threshold: u64,
    a: int,
    b: int,
    c: int,
)
    requires
        connected(model, bytes, threshold, a, b),
        connected(model, bytes, threshold, b, c),
    ensures
        connected(model, bytes, threshold, a, c),
{
    let first = choose|ranks: Seq<int>| #[trigger]
        fast_walk(model, bytes, threshold, ranks) && ranks[0] == a && ranks.last() == b;
    let second = choose|ranks: Seq<int>| #[trigger]
        fast_walk(model, bytes, threshold, ranks) && ranks[0] == b && ranks.last() == c;
    let both = first + second.skip(1);
    let n = first.len() as int;
    assert forall|i: int| 0 <= i < both.len() implies 0 <= #[trigger] both[i]
        < model.world_size by {
        if i < n {
            assert(both[i] == first[i]);
        } else {
            assert(both[i] == second[i - n + 1]);
        }
    }
    assert forall|i: int| 0 <= i < both.len() - 1 implies is_fast(
        model,
        bytes,
        threshold,
        #[trigger] both[i],
        both[i + 1],
    ) by {
        if i < n - 1 {
            assert(both[i] == first[i]);
            assert(both[i + 1] == first[i + 1]);
        } else {
            assert(both[i] == second[i - n + 1]);
            assert(both[i + 1] == second[i - n + 2]);
        }
    }
    assert(fast_walk(model, bytes, threshold, both));
    assert(both.last() == c);
}

/// A set of flagged ranks that fast links do not leave holds all that is
/// joined to its members.
proof fn lemma_closed_flags(
    model: TopologyModel,
    bytes: int,
    threshold: u64,
    flags: Seq<bool>,
    ranks: Seq<int>,
    end: int,
)
    requires
        flags.len() == model.world_size,
        fast_walk(model, bytes, threshold, ranks),
        flags[ranks[0]],
        0 <= end < ranks.len(),
        forall|u: int, v: int|
            0 <= u < flags.len() && 0 <= v < flags.len() && #[trigger] flags[u] && is_fast(
                model,
                bytes,
                threshold,
                u,
                v,
            ) ==> #[trigger] flags[v],
    ensures
        flags[ranks[end]],
    decreases end,
{
    if end > 0 {
        lemma_closed_flags(model, bytes, threshold, flags, ranks, end - 1);
        assert(is_fast(model, bytes, threshold, ranks[end - 1], ranks[end]));
        assert(0 <= ranks[end - 1] < model.world_size);
        assert(0 <= ranks[end] < model.world_size);
    }
}

/// The ranks still to be looked at are flagged, and a flagged rank that is not
/// among them has told its neighbours.
spec fn spreading(
    model: TopologyModel,
    bytes: int,
    threshold: u64,
    start: int,
    flags: Seq<bool>,
    pending: Seq<u32>,
) -> bool {
    &&& flags.len() == model.world_size
    &&& 0 <= start < model.world_size
    &&& flags[start]
    &&& forall|i: int|
        0 <= i < pending.len() ==> #[trigger] pending[i] < model.world_size && flags[pending[i] as int]
    &&& forall|v: int|
        0 <= v < flags.len() && #[trigger] flags[v] ==> connected(
            model,
            bytes,
            threshold,
            start,
            v,
        )
    &&& forall|u: int, v: int|
        0 <= u < flags.len() && 0 <= v < flags.len() && #[trigger] flags[u] && !pending.contains(
            u as u32,
        ) && is_fast(model, bytes, threshold, u, v) ==> #[trigger] flags[v]
}

impl CollectiveTopology {
    fn fast(&self, first: u32, second: u32, bytes: usize, threshold: u64) -> (fast: bool)
        requires
            self@.valid(),
            first < self@.world_size,
            second < self@.world_size,
        ensures
            fast == is_fast(self@, bytes as int, threshold, first as int, second as int),
    {
        match self.link(first, second) {
            Some(link) => {
                assert(self@.links[first as int][second as int] matches Some(cost)
                    ==> cost.bandwidth_mbps > 0);
                link_transfer_time_ns(link, bytes) <= threshold
            },
            None => false,
        }
    }

    /// Flags the ranks joined to `start` by fast links.
    fn spread(&self, start: u32, bytes: usize, threshold: u64) -> (flags: Vec<bool>)
        requires
            self@.valid(),
            start < self@.world_size,
        ensures
            flags@.len() == self@.world_size,
            forall|v: int|
                0 <= v < self@.world_size ==> (#[trigger] flags@[v] <==> connected(
                    self@,
                    bytes as int,
                    threshold,
                    start as int,
                    v,
                )),
    {
        let ghost model = self@;
        let ghost size = bytes as int;
        let mut flags: Vec<bool> = repeat(false, self.world_size as usize);
        flags.set(start as usize, true);
        let mut pending: Vec<u32> = Vec::new();
        pending.push(start);
        proof {
            lemma_connected_self(model, size, threshold, start as int);
            assert(pending@[0] == start);
            assert(pending@.contains(start));
        }
        while pending.len() > 0
            invariant
                self@.valid(),
                model == self@,
                size == bytes,
                start < model.world_size,
                spreading(model, size, threshold, start as int, flags@, pending@),
            decreases unset(flags@), pending@.len(),
        {
            let ghost before = pending@;
            let ghost known = flags@;
            let rank: u32 = match pending.pop() {
                Some(rank) => rank,
                None => 0,
            };
            proof {
                assert(before.last() == rank);
                assert(pending@ =~= before.drop_last());
                assert(rank < model.world_size);
                lemma_push_contains(pending@, rank);
                assert(before =~= pending@.push(rank));
                assert forall|u: int, v: int|
                    0 <= u < flags@.len() && 0 <= v < flags@.len() && #[trigger] flags@[u]
                        && !pending@.contains(u as u32) && u != rank && is_fast(
                        model,
                        size,
                        threshold,
                        u,
                        v,
                    ) implies #[trigger] flags@[v] by {
                    assert(u as u32 != rank);
                    assert(!before.contains(u as u32));
                }
            }
            let mut peer: u32 = 0;
            while peer < self.world_size
                invariant
                    peer <= self.world_size,
                    self@.valid(),
                    model == self@,
                    size == bytes,
                    start < model.world_size,
                    rank < model.world_size,
                    flags@.len() == model.world_size,
                    known.len() == model.world_size,
                    flags@[rank as int],
                    flags@[start as int],
                    unset(flags@) <= unset(known),
                    unset(flags@) == unset(known) ==> pending@.len() == before.len() - 1,
                    before.len() > 0,
                    forall|i: int|
                        0 <= i < pending@.len() ==> #[trigger] pending@[i] < model.world_size
                            && flags@[pending@[i] as int],
                    forall|v: int|
                        0 <= v < flags@.len() && #[trigger] flags@[v] ==> connected(
                            model,
                            size,
                            threshold,
                            start as int,
                            v,
                        ),
                    forall|u: int, v: int|
                        0 <= u < flags@.len() && 0 <= v < flags@.len() && #[trigger] flags@[u]
                            && !pending@.contains(u as u32) && u != rank && is_fast(
                            model,
                            size,
                            threshold,
                            u,
                            v,
                        ) ==> #[trigger] flags@[v],
                    forall|v: int|
                        0 <= v < peer && is_fast(model, size, threshold, rank as int, v)
                            ==> #[trigger] flags@[v],
                decreases self.world_size - peer,
            {
                if !flags[peer as usize] && self.fast(rank, peer, bytes, threshold) {
                    let ghost earlier = flags@;
                    let ghost waiting = pending@;
                    proof {
                        lemma_connected_on(
                            model,
                            size,
                            threshold,
                            start as int,
                            rank as int,
                            peer as int,
                        );
                        lemma_set_flag(flags@, peer as int);
                    }
                    flags.set(peer as usize, true);
                    pending.push(peer);
                    proof {
                        lemma_push_contains(waiting, peer);
                        assert forall|u: int, v: int|
                            0 <= u < flags@.len() && 0 <= v < flags@.len() && #[trigger] flags@[u]
                                && !pending@.contains(u as u32) && u != rank && is_fast(
                                model,
                                size,
                                threshold,
                                u,
                                v,
                            ) implies #[trigger] flags@[v] by {
                            assert(u != peer);
                            assert(earlier[u]);
                            assert(!waiting.contains(u as u32));
                            assert(earlier[v]);
                        }
                        assert forall|i: int| 0 <= i < pending@.len() implies #[trigger] pending@[i]
                            < model.world_size && flags@[pending@[i] as int] by {
                            if i < waiting.len() {
                                assert(pending@[i] == waiting[i]);
                            }
                        }
                    }
                }
                peer = peer + 1;
            }
            proof {
                assert forall|u: int, v: int|
                    0 <= u < flags@.len() && 0 <= v < flags@.len() && #[trigger] flags@[u]
                        && !pending@.contains(u as u32) && is_fast(
                        model,
                        size,
                        threshold,
                        u,
                        v,
                    ) implies #[trigger] flags@[v] by {}
            }
        }
        proof {
            assert forall|v: int| 0 <= v < model.world_size implies (#[trigger] flags@[v]
                <==> connected(model, size, threshold, start as int, v)) by {
                if connected(model, size, threshold, start as int, v) {
                    let ranks = choose|ranks: Seq<int>| #[trigger]
                        fast_walk(model, size, threshold, ranks) && ranks[0] == start as int
                            && ranks.last() == v;
                    lemma_closed_flags(
                        model,
                        size,
                        threshold,
                        flags@,
                        ranks,
                        ranks.len() - 1,
                    );
                }
            }
        }
        flags
    }

    /// The domains of links that are no slower than a threshold.
    pub fn fast_domains(&self, bytes: usize, threshold: u64) -> (groups: Vec<Vec<u32>>)
        requires
            self@.valid(),
        ensures
            rank_lists(groups@) == domains(
                self@,
                bytes as int,
                threshold,
                self@.world_size as int,
            ),
    {
        let ghost model = self@;
        let ghost size = bytes as int;
        let mut covered: Vec<bool> = repeat(false, self.world_size as usize);
        let mut groups: Vec<Vec<u32>> = Vec::new();
        assert(rank_lists(groups@) =~= Seq::<Seq<u32>>::empty());
        let mut first: u32 = 0;
        while first < self.world_size
            invariant
                first <= self.world_size,
                self@.valid(),
                model == self@,
                size == bytes,
                covered@.len() == model.world_size,
                forall|v: int|
                    0 <= v < model.world_size ==> (#[trigger] covered@[v] <==> joined_below(
                        model,
                        size,
                        threshold,
                        v,
                        first as int,
                    )),
                rank_lists(groups@) == domains(model, size, threshold, first as int),
            decreases self.world_size - first,
        {
            let ghost before = covered@;
            if covered[first as usize] {
                proof {
                    let lower = choose|lower: int|
                        0 <= lower < first && #[trigger] connected(
                            model,
                            size,
                            threshold,
                            lower,
                            first as int,
                        );
                    assert forall|v: int| 0 <= v < model.world_size implies (
                    #[trigger] covered@[v] <==> joined_below(
                        model,
                        size,
                        threshold,
                        v,
                        first + 1,
                    )) by {
                        lemma_joined_step(model, size, threshold, v, first as int);
                        if connected(model, size, threshold, first as int, v) {
                            lemma_connected_transitive(
                                model,
                                size,
                                threshold,
                                lower,
                                first as int,
                                v,
                            );
                            assert(joined_below(model, size, threshold, v, first as int));
                        }
                    }
                }
            } else {
                let flags = self.spread(first, bytes, threshold);
                let mut group: Vec<u32> = Vec::new();
                let mut rank: u32 = 0;
                while rank < self.world_size
                    invariant
                        rank <= self.world_size,
                        model == self@,
                        size == bytes,
                        first < model.world_size,
                        flags@.len() == model.world_size,
                        covered@.len() == model.world_size,
                        before.len() == model.world_size,
                        forall|v: int|
                            0 <= v < model.world_size ==> (#[trigger] flags@[v] <==> connected(
                                model,
                                size,
                                threshold,
                                first as int,
                                v,
                            )),
                        forall|v: int|
                            0 <= v < model.world_size ==> (#[trigger] covered@[v] <==> before[v]
                                || (v < rank && flags@[v])),
                        group@ == domain(model, size, threshold, first as int, rank as int),
                    decreases self.world_size - rank,
                {
                    assert(flags@[rank as int] <==> connected(
                        model,
                        size,
                        threshold,
                        first as int,
                        rank as int,
                    ));
                    if flags[rank as usize] {
                        group.push(rank);
                        covered.set(rank as usize, true);
                    }
                    rank = rank + 1;
                }
                let ghost earlier = rank_lists(groups@);
                groups.push(group);
                proof {
                    assert(rank_lists(groups@) =~= earlier.push(
                        domain(model, size, threshold, first as int, model.world_size as int),
                    ));
                    assert forall|v: int| 0 <= v < model.world_size implies (
                    #[trigger] covered@[v] <==> joined_below(
                        model,
                        size,
                        threshold,
                        v,
                        first + 1,
                    )) by {
                        lemma_joined_step(model, size, threshold, v, first as int);
                        assert(before[v] <==> joined_below(
                            model,
                            size,
                            threshold,
                            v,
                            first as int,
                        ));
                        assert(flags@[v] <==> connected(
                            model,
                            size,
                            threshold,
                            first as int,
                            v,
                        ));
                    }
                    assert(!joined_below(model, size, threshold, first as int, first as int));
                }
            }
            first = first + 1;
        }
        groups
    }
}

proof fn lemma_joined_step(model: TopologyModel, bytes: int, threshold: u64, rank: int, end: int)
    requires
        0 <= end,
    ensures
        joined_below(model, bytes, threshold, rank, end + 1) <==> joined_below(
            model,
            bytes,
            threshold,
            rank,
            end,
        ) || connected(model, bytes, threshold, end, rank),
{
    if joined_below(model, bytes, threshold, rank, end + 1) {
        let lower = choose|lower: int|
            0 <= lower < end + 1 && #[trigger] connected(model, bytes, threshold, lower, rank);
        if lower < end {
            assert(0 <= lower < end && connected(model, bytes, threshold, lower, rank));
        }
    }
    if joined_below(model, bytes, threshold, rank, end) {
        let lower = choose|lower: int|
            0 <= lower < end && #[trigger] connected(model, bytes, threshold, lower, rank);
        assert(0 <= lower < end + 1 && connected(model, bytes, threshold, lower, rank));
    }
    if connected(model, bytes, threshold, end, rank) {
        assert(0 <= end < end + 1 && connected(model, bytes, threshold, end, rank));
    }
}

/// Adds a time to an ascending list, unless it is there already.
pub open spec fn with_time(times: Seq<u64>, time: u64) -> Seq<u64>
    decreases times.len(),
{
    if times.len() == 0 || times.last() < time {
        times.push(time)
    } else if times.last() == time {
        times
    } else {
        with_time(times.drop_last(), time).push(times.last())
    }
}

/// The distinct times of the listed pairs' links, ascending.
pub open spec fn link_times(
    model: TopologyModel,
    bytes: int,
    pairs: Seq<(u32, u32)>,
) -> Seq<u64>
    decreases pairs.len(),
{
    if pairs.len() == 0 {
        Seq::empty()
    } else {
        let rest = link_times(model, bytes, pairs.drop_last());
        match model.link(pairs.last().0 as int, pairs.last().1 as int) {
            Some(cost) => with_time(rest, link_time(cost, bytes)),
            None => rest,
        }
    }
}

fn add_time(times: &mut Vec<u64>, time: u64)
    ensures
        final(times)@ == with_time(old(times)@, time),
{
    let ghost before = times@;
    let mut place: usize = times.len();
    let ghost tail = Seq::<u64>::empty();
    assert(before.take(place as int) =~= before);
    assert(with_time(before, time) =~= with_time(before.take(place as int), time)
        + before.skip(place as int));
    while place > 0 && times[place - 1] > time
        invariant
            place <= times@.len(),
            times@ == before,
            with_time(before, time) == with_time(before.take(place as int), time) + before.skip(
                place as int,
            ),
        decreases place,
    {
        proof {
            let head = before.take(place as int);
            assert(head.last() == before[place - 1]);
            assert(head.drop_last() =~= before.take(place - 1));
            assert(with_time(head, time) == with_time(before.take(place - 1), time).push(
                before[place - 1],
            ));
            assert(with_time(before.take(place - 1), time).push(before[place - 1]) + before.skip(
                place as int,
            ) =~= with_time(before.take(place - 1), time) + before.skip(place - 1));
        }
        place = place - 1;
    }
    if place > 0 && times[place - 1] == time {
        proof {
            assert(before.take(place as int).last() == time);
            assert(before.take(place as int) + before.skip(place as int) =~= before);
        }
        return;
    }
    times.insert(place, time);
    proof {
        let head = before.take(place as int);
        assert(with_time(head, time) == head.push(time)) by {
            if head.len() > 0 {
                assert(head.last() == before[place - 1]);
            }
        }
        assert(times@ =~= head.push(time) + before.skip(place as int));
    }
}

impl CollectiveTopology {
    /// The distinct link times, ascending.
    pub fn link_thresholds(&self, bytes: usize) -> (times: Vec<u64>)
        requires
            self@.valid(),
        ensures
            times@ == link_times(self@, bytes as int, rank_pairs_of(self@.world_size)),
    {
        let pairs = rank_pairs(self.world_size);
        let mut times: Vec<u64> = Vec::new();
        let mut index: usize = 0;
        while index < pairs.len()
            invariant
                index <= pairs.len(),
                self@.valid(),
                forall|k: int|
                    0 <= k < pairs@.len() ==> (#[trigger] pairs@[k]).0 < pairs@[k].1
                        < self.world_size,
                times@ == link_times(self@, bytes as int, pairs@.take(index as int)),
            decreases pairs.len() - index,
        {
            let (first, second) = pairs[index];
            assert(pairs@.take(index + 1).drop_last() =~= pairs@.take(index as int));
            match self.link(first, second) {
                Some(link) => {
                    assert(self@.links[first as int][second as int] matches Some(cost)
                        ==> cost.bandwidth_mbps > 0);
                    add_time(&mut times, link_transfer_time_ns(link, bytes));
                },
                None => {},
            }
            index = index + 1;
        }
        assert(pairs@.take(index as int) =~= pairs@);
        times
    }
}

/// A domain holds, in ascending order, exactly what is joined to its rank.
pub proof fn lemma_domain(model: TopologyModel, bytes: int, threshold: u64, rank: int, end: int)
    requires
        0 <= end <= model.world_size,
    ensures
        forall|i: int, j: int|
            0 <= i < j < domain(model, bytes, threshold, rank, end).len()
                ==> #[trigger] domain(model, bytes, threshold, rank, end)[i]
                < #[trigger] domain(model, bytes, threshold, rank, end)[j],
        forall|i: int|
            0 <= i < domain(model, bytes, threshold, rank, end).len()
                ==> #[trigger] domain(model, bytes, threshold, rank, end)[i] < end && connected(
                model,
                bytes,
                threshold,
                rank,
                domain(model, bytes, threshold, rank, end)[i] as int,
            ),
        forall|v: int|
            0 <= v < end && #[trigger] connected(model, bytes, threshold, rank, v) ==> domain(
                model,
                bytes,
                threshold,
                rank,
                end,
            ).contains(v as u32),
    decreases end,
{
    if end > 0 {
        lemma_domain(model, bytes, threshold, rank, end - 1);
        let less = domain(model, bytes, threshold, rank, end - 1);
        let now = domain(model, bytes, threshold, rank, end);
        assert forall|i: int| 0 <= i < now.len() implies #[trigger] now[i] < end && connected(
            model,
            bytes,
            threshold,
            rank,
            now[i] as int,
        ) by {
            if i < less.len() {
                assert(now[i] == less[i]);
            }
        }
        assert forall|i: int, j: int| 0 <= i < j < now.len() implies #[trigger] now[i]
            < #[trigger] now[j] by {
            if j < less.len() {
                assert(less[i] < less[j]);
            } else {
                assert(now[i] == less[i]);
            }
        }
        assert forall|v: int|
            0 <= v < end && #[trigger] connected(model, bytes, threshold, rank, v) implies now.contains(
            v as u32,
        ) by {
            if v < end - 1 {
                assert(less.contains(v as u32));
                let k = choose|k: int| 0 <= k < less.len() && less[k] == v as u32;
                assert(now[k] == v as u32);
            } else {
                assert(now[less.len() as int] == v as u32);
            }
        }
    }
}

proof fn lemma_connected_symmetric(
    model: TopologyModel,
    bytes: int,
    threshold: u64,
    a: int,
    b: int,
)
    requires
        model.valid(),
        connected(model, bytes, threshold, a, b),
    ensures
        connected(model, bytes, threshold, b, a),
{
    let ranks = choose|ranks: Seq<int>| #[trigger]
        fast_walk(model, bytes, threshold, ranks) && ranks[0] == a && ranks.last() == b;
    let n = ranks.len() as int;
    let back = Seq::new(ranks.len(), |i: int| ranks[n - 1 - i]);
    assert forall|i: int| 0 <= i < back.len() - 1 implies is_fast(
        model,
        bytes,
        threshold,
        #[trigger] back[i],
        back[i + 1],
    ) by {
        let k = n - 2 - i;
        assert(is_fast(model, bytes, threshold, ranks[k], ranks[k + 1]));
        assert(0 <= ranks[k] < model.world_size && 0 <= ranks[k + 1] < model.world_size);
        assert(model.links[ranks[k]][ranks[k + 1]] == model.links[ranks[k + 1]][ranks[k]]);
    }
    assert forall|i: int| 0 <= i < back.len() implies 0 <= #[trigger] back[i]
        < model.world_size by {
        assert(0 <= ranks[n - 1 - i] < model.world_size);
    }
    assert(fast_walk(model, bytes, threshold, back));
    assert(back[0] == b && back.last() == a);
}

/// The lowest ranks of the domains, one for each domain, ascending.
spec fn domain_heads(model: TopologyModel, bytes: int, threshold: u64, end: int) -> Seq<int>
    decreases end,
{
    if end <= 0 {
        Seq::empty()
    } else {
        let rest = domain_heads(model, bytes, threshold, end - 1);
        if joined_below(model, bytes, threshold, end - 1, end - 1) {
            rest
        } else {
            rest.push(end - 1)
        }
    }
}

proof fn lemma_domain_heads(model: TopologyModel, bytes: int, threshold: u64, end: int)
    requires
        0 <= end <= model.world_size,
    ensures
        ({
            let heads = domain_heads(model, bytes, threshold, end);
            let groups = domains(model, bytes, threshold, end);
            &&& heads.len() == groups.len()
            &&& forall|g: int|
                0 <= g < heads.len() ==> 0 <= #[trigger] heads[g] < end && !joined_below(
                    model,
                    bytes,
                    threshold,
                    heads[g],
                    heads[g],
                ) && groups[g] == domain(
                    model,
                    bytes,
                    threshold,
                    heads[g],
                    model.world_size as int,
                )
            &&& forall|g: int, h: int|
                0 <= g < h < heads.len() ==> #[trigger] heads[g] < #[trigger] heads[h]
            &&& forall|k: int|
                0 <= k < end && !joined_below(model, bytes, threshold, k, k)
                    ==> #[trigger] heads.contains(k)
        }),
    decreases end,
{
    if end > 0 {
        lemma_domain_heads(model, bytes, threshold, end - 1);
        let less = domain_heads(model, bytes, threshold, end - 1);
        let now = domain_heads(model, bytes, threshold, end);
        assert forall|k: int|
            0 <= k < end && !joined_below(model, bytes, threshold, k, k) implies #[trigger] now.contains(
            k,
        ) by {
            if k < end - 1 {
                assert(less.contains(k));
                let i = choose|i: int| 0 <= i < less.len() && less[i] == k;
                assert(now[i] == k);
            } else {
                assert(now[less.len() as int] == k);
            }
        }
    }
}

/// The lowest rank that is joined to a rank.
proof fn lemma_lowest_joined(
    model: TopologyModel,
    bytes: int,
    threshold: u64,
    rank: int,
    joined: int,
) -> (lowest: int)
    requires
        0 <= joined < model.world_size,
        connected(model, bytes, threshold, joined, rank),
    ensures
        0 <= lowest <= joined,
        connected(model, bytes, threshold, lowest, rank),
        !joined_below(model, bytes, threshold, lowest, lowest),
    decreases joined,
{
    if joined_below(model, bytes, threshold, joined, joined) {
        let lower = choose|lower: int|
            0 <= lower < joined && #[trigger] connected(model, bytes, threshold, lower, joined);
        lemma_connected_transitive(model, bytes, threshold, lower, joined, rank);
        lemma_lowest_joined(model, bytes, threshold, rank, lower)
    } else {
        joined
    }
}

/// The domains of fast links partition the world.
pub proof fn law_domains_partition(model: TopologyModel, bytes: int, threshold: u64)
    requires
        model.valid(),
    ensures
        is_partition(
            model.world_size,
            domains(model, bytes, threshold, model.world_size as int),
        ),
{
    let size = model.world_size as int;
    let groups = domains(model, bytes, threshold, size);
    let heads = domain_heads(model, bytes, threshold, size);
    let count = groups.len() as int;
    lemma_domain_heads(model, bytes, threshold, size);
    assert forall|g: int| 0 <= g < count implies (#[trigger] groups[g]).len() > 0 by {
        assert(0 <= heads[g] < size);
        lemma_domain(model, bytes, threshold, heads[g], size);
        lemma_connected_self(model, bytes, threshold, heads[g]);
        assert(groups[g].contains(heads[g] as u32));
    }
    assert forall|g: int, i: int|
        0 <= g < count && 0 <= i < groups[g].len() implies #[trigger] groups[g][i]
        < model.world_size by {
        assert(0 <= heads[g] < size);
        lemma_domain(model, bytes, threshold, heads[g], size);
    }
    assert forall|g: int, i: int, h: int, j: int|
        0 <= g < count && 0 <= h < count && 0 <= i < groups[g].len() && 0 <= j < groups[h].len() && (
        g != h || i != j) implies #[trigger] groups[g][i] != #[trigger] groups[h][j] by {
        assert(0 <= heads[g] < size && 0 <= heads[h] < size);
        lemma_domain(model, bytes, threshold, heads[g], size);
        lemma_domain(model, bytes, threshold, heads[h], size);
        if g == h {
            if i < j {
                assert(groups[g][i] < groups[g][j]);
            } else {
                assert(groups[g][j] < groups[g][i]);
            }
        } else if groups[g][i] == groups[h][j] {
            let rank = groups[g][i] as int;
            let (low, high) = if heads[g] < heads[h] {
                (heads[g], heads[h])
            } else {
                (heads[h], heads[g])
            };
            assert(connected(model, bytes, threshold, heads[g], rank));
            assert(connected(model, bytes, threshold, heads[h], rank));
            lemma_connected_symmetric(model, bytes, threshold, high, rank);
            lemma_connected_transitive(model, bytes, threshold, low, rank, high);
            assert(g < h ==> heads[g] < heads[h]);
            assert(h < g ==> heads[h] < heads[g]);
            assert(joined_below(model, bytes, threshold, high, high));
        }
    }
    assert forall|r: int| 0 <= r < model.world_size implies grouped(
        groups,
        count,
        #[trigger] (r as u32),
    ) by {
        lemma_connected_self(model, bytes, threshold, r);
        let lowest = lemma_lowest_joined(model, bytes, threshold, r, r);
        assert(heads.contains(lowest));
        let g = choose|g: int| 0 <= g < heads.len() && heads[g] == lowest;
        lemma_domain(model, bytes, threshold, lowest, size);
        assert(groups[g].contains(r as u32));
    }
}

} // verus!
