//! What holds of the two ways of grouping, for every list of descriptors.

use crate::aggregate::{
    adjacent_groups, groups_by_name, groups_fit, joined, lemma_adjacent_last,
    lemma_position_of, lemma_position_of_is, position_of, single, Group,
};
use crate::descriptor::{descriptors_fit, total_size, Descriptor};
use vstd::prelude::*;

verus! {

/// The sum of the totals of all groups.
pub open spec fn sum_totals(gs: Seq<Group>) -> nat
    decreases gs.len(),
{
    if gs.len() == 0 {
        0
    } else {
        sum_totals(gs.drop_last()) + gs.last().total
    }
}

/// The sum of the member counts of all groups.
pub open spec fn sum_counts(gs: Seq<Group>) -> nat
    decreases gs.len(),
{
    if gs.len() == 0 {
        0
    } else {
        sum_counts(gs.drop_last()) + gs.last().count
    }
}

/// The number of descriptors named `name`.
pub open spec fn count_of_name(descs: Seq<Descriptor>, name: Seq<char>) -> nat
    decreases descs.len(),
{
    if descs.len() == 0 {
        0
    } else if descs.last().name == name {
        count_of_name(descs.drop_last(), name) + 1
    } else {
        count_of_name(descs.drop_last(), name)
    }
}

/// The sum of the sizes of the descriptors named `name`.
pub open spec fn size_of_name(descs: Seq<Descriptor>, name: Seq<char>) -> nat
    decreases descs.len(),
{
    if descs.len() == 0 {
        0
    } else if descs.last().name == name {
        size_of_name(descs.drop_last(), name) + descs.last().size
    } else {
        size_of_name(descs.drop_last(), name)
    }
}

/// No two groups carry the same name.
pub open spec fn distinct_names(gs: Seq<Group>) -> bool {
    forall|i: int, j: int| 0 <= i < j < gs.len() ==> gs[i].name != gs[j].name
}

/// The descriptors of each name stand next to each other.
pub open spec fn contiguous_names(descs: Seq<Descriptor>) -> bool {
    forall|i: int, j: int, k: int|
        0 <= i < j < k < descs.len() && descs[i].name == descs[k].name ==> descs[j].name
            == descs[i].name
}

/// Replacing one group changes the sums by the difference at that place.
proof fn lemma_sums_update(gs: Seq<Group>, p: int, g: Group)
    requires
        0 <= p < gs.len(),
    ensures
        sum_totals(gs.update(p, g)) + gs[p].total == sum_totals(gs) + g.total,
        sum_counts(gs.update(p, g)) + gs[p].count == sum_counts(gs) + g.count,
    decreases gs.len(),
{
    let changed = gs.update(p, g);
    if p == gs.len() - 1 {
        assert(changed.drop_last() == gs.drop_last());
    } else {
        assert(changed.drop_last() == gs.drop_last().update(p, g));
        lemma_sums_update(gs.drop_last(), p, g);
    }
}

/// Grouping by name loses nothing: the totals of the groups add up to the
/// sizes of the descriptors, and their member counts to the number of
/// descriptors.
pub proof fn lemma_by_name_conserves(descs: Seq<Descriptor>)
    ensures
        sum_totals(groups_by_name(descs)) == total_size(descs),
        sum_counts(groups_by_name(descs)) == descs.len(),
    decreases descs.len(),
{
    if descs.len() > 0 {
        let earlier = groups_by_name(descs.drop_last());
        let d = descs.last();
        lemma_by_name_conserves(descs.drop_last());
        lemma_position_of(earlier, d.name);
        let p = position_of(earlier, d.name);
        if p < earlier.len() {
            lemma_sums_update(earlier, p, joined(earlier[p], d));
        } else {
            assert(earlier.push(single(d)).drop_last() == earlier);
        }
    }
}

/// Grouping by adjacency loses nothing either.
pub proof fn lemma_adjacent_conserves(descs: Seq<Descriptor>)
    ensures
        sum_totals(adjacent_groups(descs)) == total_size(descs),
        sum_counts(adjacent_groups(descs)) == descs.len(),
    decreases descs.len(),
{
    if descs.len() > 0 {
        let earlier = adjacent_groups(descs.drop_last());
        let d = descs.last();
        lemma_adjacent_conserves(descs.drop_last());
        if descs.len() >= 2 && descs[descs.len() - 2].name == d.name {
            lemma_adjacent_last(descs.drop_last());
            let grown = earlier.drop_last().push(joined(earlier.last(), d));
            assert(grown.drop_last() == earlier.drop_last());
        } else {
            assert(earlier.push(single(d)).drop_last() == earlier);
        }
    }
}

/// No group has more members or bytes than all groups together.
proof fn lemma_group_within_sums(gs: Seq<Group>, i: int)
    requires
        0 <= i < gs.len(),
    ensures
        gs[i].total <= sum_totals(gs),
        gs[i].count <= sum_counts(gs),
    decreases gs.len(),
{
    if i < gs.len() - 1 {
        lemma_group_within_sums(gs.drop_last(), i);
    }
}

/// Descriptors that are few and small enough give groups that fit in
/// records, whichever way they are grouped.
pub proof fn lemma_fit_descriptors_give_fit_groups(descs: Seq<Descriptor>)
    requires
        descriptors_fit(descs),
    ensures
        groups_fit(groups_by_name(descs)),
        groups_fit(adjacent_groups(descs)),
{
    lemma_by_name_conserves(descs);
    lemma_adjacent_conserves(descs);
    let by_name = groups_by_name(descs);
    assert forall|i: int| 0 <= i < by_name.len() implies (#[trigger] by_name[i]).count
        <= u32::MAX && by_name[i].total <= u64::MAX by {
        lemma_group_within_sums(by_name, i);
    }
    let adjacent = adjacent_groups(descs);
    assert forall|i: int| 0 <= i < adjacent.len() implies (#[trigger] adjacent[i]).count
        <= u32::MAX && adjacent[i].total <= u64::MAX by {
        lemma_group_within_sums(adjacent, i);
    }
}

/// Grouping by name gives each name one group only.
pub proof fn lemma_by_name_distinct(descs: Seq<Descriptor>)
    ensures
        distinct_names(groups_by_name(descs)),
    decreases descs.len(),
{
    if descs.len() > 0 {
        let earlier = groups_by_name(descs.drop_last());
        let d = descs.last();
        lemma_by_name_distinct(descs.drop_last());
        lemma_position_of(earlier, d.name);
    }
}

/// A name that no descriptor carries takes no bytes.
proof fn lemma_absent_name_has_no_size(descs: Seq<Descriptor>, name: Seq<char>)
    requires
        count_of_name(descs, name) == 0,
    ensures
        size_of_name(descs, name) == 0,
    decreases descs.len(),
{
    if descs.len() > 0 {
        lemma_absent_name_has_no_size(descs.drop_last(), name);
    }
}

/// The group that grouping by name gives a name holds exactly the descriptors
/// of that name: so many members, and so many bytes. A name that no
/// descriptor carries has no group.
pub proof fn lemma_by_name_group(descs: Seq<Descriptor>, name: Seq<char>)
    ensures
        ({
            let gs = groups_by_name(descs);
            let p = position_of(gs, name);
            &&& count_of_name(descs, name) == 0 <==> p == gs.len()
            &&& p < gs.len() ==> gs[p].count == count_of_name(descs, name) && gs[p].total
                == size_of_name(descs, name)
        }),
    decreases descs.len(),
{
    if descs.len() > 0 {
        let shorter = descs.drop_last();
        let earlier = groups_by_name(shorter);
        let d = descs.last();
        let gs = groups_by_name(descs);
        lemma_by_name_group(shorter, name);
        lemma_position_of(earlier, d.name);
        lemma_position_of(earlier, name);
        let q = position_of(earlier, d.name);
        let p = position_of(earlier, name);
        assert forall|k: int| 0 <= k < earlier.len() implies (#[trigger] gs[k]).name
            == earlier[k].name by {}
        if d.name == name {
            if q == earlier.len() {
                lemma_absent_name_has_no_size(shorter, name);
            }
            lemma_position_of_is(gs, name, q);
        } else if p < earlier.len() {
            lemma_position_of_is(gs, name, p);
        } else {
            assert forall|k: int| 0 <= k < gs.len() implies (#[trigger] gs[k]).name != name by {
                if k < earlier.len() {
                    assert(earlier[k].name != name);
                }
            }
            lemma_position_of_is(gs, name, gs.len() as int);
        }
    }
}

/// Every group that grouping by name gives carries the name of a descriptor.
pub proof fn lemma_by_name_names_occur(descs: Seq<Descriptor>, i: int)
    requires
        0 <= i < groups_by_name(descs).len(),
    ensures
        exists|j: int| 0 <= j < descs.len() && descs[j].name == groups_by_name(descs)[i].name,
    decreases descs.len(),
{
    if descs.len() > 0 {
        let shorter = descs.drop_last();
        let earlier = groups_by_name(shorter);
        let d = descs.last();
        lemma_position_of(earlier, d.name);
        if i < earlier.len() {
            lemma_by_name_names_occur(shorter, i);
            let j = choose|j: int| 0 <= j < shorter.len() && shorter[j].name == earlier[i].name;
            assert(descs[j].name == groups_by_name(descs)[i].name);
        } else {
            assert(descs[descs.len() - 1].name == groups_by_name(descs)[i].name);
        }
    }
}

/// Where the descriptors of each name stand next to each other, as they do
/// after sorting by name, both ways of grouping give the same groups.
pub proof fn lemma_adjacent_is_by_name(descs: Seq<Descriptor>)
    requires
        contiguous_names(descs),
    ensures
        adjacent_groups(descs) == groups_by_name(descs),
    decreases descs.len(),
{
    if descs.len() > 0 {
        let shorter = descs.drop_last();
        let d = descs.last();
        assert(contiguous_names(shorter));
        lemma_adjacent_is_by_name(shorter);
        let earlier = groups_by_name(shorter);
        lemma_by_name_distinct(shorter);
        if descs.len() >= 2 && descs[descs.len() - 2].name == d.name {
            lemma_adjacent_last(shorter);
            let last = earlier.len() - 1;
            lemma_position_of_is(earlier, d.name, last);
        } else {
            assert forall|k: int| 0 <= k < earlier.len() implies (#[trigger] earlier[k]).name
                != d.name by {
                if earlier[k].name == d.name {
                    lemma_by_name_names_occur(shorter, k);
                    let j = choose|j: int|
                        0 <= j < shorter.len() && shorter[j].name == earlier[k].name;
                    assert(descs[j].name == d.name);
                    assert(descs[descs.len() - 2].name == d.name);
                }
            }
            lemma_position_of_is(earlier, d.name, earlier.len() as int);
        }
    }
}

} // verus!
