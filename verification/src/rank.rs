//! Ranking summary records: largest total first, ties in their prior order.

use crate::aggregate::{all_wf, groups, groups_fit, Group, RepoInfo};
use vstd::prelude::*;

verus! {

/// The ranked groups `sorted` with `g` placed behind every group whose total
/// is at least its own.
pub open spec fn placed(sorted: Seq<Group>, g: Group) -> Seq<Group>
    decreases sorted.len(),
{
    if sorted.len() == 0 {
        seq![g]
    } else if sorted.last().total >= g.total {
        sorted.push(g)
    } else {
        placed(sorted.drop_last(), g).push(sorted.last())
    }
}

/// The groups in ranked order: by total, largest first, and groups of equal
/// total in the order in which they stood.
pub open spec fn ranked(gs: Seq<Group>) -> Seq<Group>
    decreases gs.len(),
{
    if gs.len() == 0 {
        Seq::empty()
    } else {
        placed(ranked(gs.drop_last()), gs.last())
    }
}

/// No group stands before one with a larger total.
pub open spec fn descending(gs: Seq<Group>) -> bool {
    forall|i: int, j: int| 0 <= i < j < gs.len() ==> gs[i].total >= gs[j].total
}

/// The groups whose total is `t`, in the order in which they stand.
pub open spec fn with_total(gs: Seq<Group>, t: nat) -> Seq<Group>
    decreases gs.len(),
{
    if gs.len() == 0 {
        Seq::empty()
    } else if gs.last().total == t {
        with_total(gs.drop_last(), t).push(gs.last())
    } else {
        with_total(gs.drop_last(), t)
    }
}

/// Placing a group is inserting it just behind the last group whose total is
/// at least its own.
pub proof fn lemma_placed_at(sorted: Seq<Group>, g: Group, j: int)
    requires
        0 <= j <= sorted.len(),
        forall|k: int| j <= k < sorted.len() ==> (#[trigger] sorted[k]).total < g.total,
        j > 0 ==> sorted[j - 1].total >= g.total,
    ensures
        placed(sorted, g) == sorted.insert(j, g),
    decreases sorted.len(),
{
    if j < sorted.len() {
        lemma_placed_at(sorted.drop_last(), g, j);
    }
}

/// Placing a group into descending groups leaves them descending.
pub proof fn lemma_placed_descending(sorted: Seq<Group>, g: Group)
    requires
        descending(sorted),
    ensures
        descending(placed(sorted, g)),
        placed(sorted, g).len() == sorted.len() + 1,
        placed(sorted, g).to_multiset() == sorted.to_multiset().insert(g),
    decreases sorted.len(),
{
    broadcast use vstd::seq_lib::group_to_multiset_ensures;

    if sorted.len() > 0 && sorted.last().total < g.total {
        let init = sorted.drop_last();
        let last = sorted.last();
        assert(descending(init));
        lemma_placed_descending(init, g);
        let inner = placed(init, g);
        assert forall|i: int| 0 <= i < inner.len() implies (#[trigger] inner[i]).total
            >= last.total by {
            assert(inner.to_multiset().contains(inner[i]));
            if inner[i] != g {
                assert(init.to_multiset().contains(inner[i]));
                let k = choose|k: int| 0 <= k < init.len() && init[k] == inner[i];
                assert(sorted[k].total >= last.total);
            }
        }
        assert(sorted == init.push(last));
    }
}

/// Placing a group leaves the order within every total as it was, with the
/// new group last among those of its own total.
pub proof fn lemma_placed_with_total(sorted: Seq<Group>, g: Group, t: nat)
    ensures
        with_total(placed(sorted, g), t) == if g.total == t {
            with_total(sorted, t).push(g)
        } else {
            with_total(sorted, t)
        },
    decreases sorted.len(),
{
    if sorted.len() == 0 {
        assert(with_total(seq![g].drop_last(), t) == Seq::<Group>::empty());
    } else if sorted.last().total >= g.total {
        assert(sorted.push(g).drop_last() == sorted);
    } else {
        let init = sorted.drop_last();
        let inner = placed(init, g);
        lemma_placed_with_total(init, g, t);
        assert(inner.push(sorted.last()).drop_last() == inner);
    }
}

/// Ranking orders the groups by total, largest first, and neither drops nor
/// adds one.
pub proof fn lemma_ranked_descending(gs: Seq<Group>)
    ensures
        descending(ranked(gs)),
        ranked(gs).len() == gs.len(),
        ranked(gs).to_multiset() == gs.to_multiset(),
    decreases gs.len(),
{
    broadcast use vstd::seq_lib::group_to_multiset_ensures;

    if gs.len() > 0 {
        lemma_ranked_descending(gs.drop_last());
        lemma_placed_descending(ranked(gs.drop_last()), gs.last());
        assert(gs == gs.drop_last().push(gs.last()));
    }
}

/// Ranking groups that fit in records gives groups that fit in records.
pub proof fn lemma_ranked_fit(gs: Seq<Group>)
    requires
        groups_fit(gs),
    ensures
        groups_fit(ranked(gs)),
{
    broadcast use vstd::seq_lib::group_to_multiset_ensures;

    lemma_ranked_descending(gs);
    let r = ranked(gs);
    assert forall|i: int| 0 <= i < r.len() implies (#[trigger] r[i]).count <= u32::MAX
        && r[i].total <= u64::MAX by {
        assert(gs.to_multiset().contains(r[i]));
        let k = choose|k: int| 0 <= k < gs.len() && gs[k] == r[i];
        assert(gs[k].count <= u32::MAX && gs[k].total <= u64::MAX);
    }
}

/// Ranking is stable: the groups of any one total stand in the ranking in
/// the order in which they stood before, so that no tie is settled by name.
pub proof fn lemma_ranked_stable(gs: Seq<Group>, t: nat)
    ensures
        with_total(ranked(gs), t) == with_total(gs, t),
    decreases gs.len(),
{
    if gs.len() > 0 {
        lemma_ranked_stable(gs.drop_last(), t);
        lemma_placed_with_total(ranked(gs.drop_last()), gs.last(), t);
    }
}

/// Every group stands among the groups of its own total.
proof fn lemma_with_total_holds(gs: Seq<Group>, i: int)
    requires
        0 <= i < gs.len(),
    ensures
        with_total(gs, gs[i].total).len() > 0,
    decreases gs.len(),
{
    if i < gs.len() - 1 {
        lemma_with_total_holds(gs.drop_last(), i);
    }
}

/// The groups of one total are groups of the list, and have that total.
proof fn lemma_with_total_members(gs: Seq<Group>, t: nat, k: int)
    requires
        0 <= k < with_total(gs, t).len(),
    ensures
        exists|i: int| 0 <= i < gs.len() && gs[i] == with_total(gs, t)[k] && gs[i].total == t,
    decreases gs.len(),
{
    let init = gs.drop_last();
    if gs.last().total == t && k == with_total(gs, t).len() - 1 {
        assert(gs[gs.len() - 1] == with_total(gs, t)[k]);
    } else {
        lemma_with_total_members(init, t, k);
        let i = choose|i: int|
            0 <= i < init.len() && init[i] == with_total(init, t)[k] && init[i].total == t;
        assert(gs[i] == with_total(gs, t)[k]);
    }
}

/// Two descending lists that hold the same groups of every total, in the
/// same order, are the same list.
proof fn lemma_descending_determined(a: Seq<Group>, b: Seq<Group>)
    requires
        descending(a),
        descending(b),
        forall|t: nat| with_total(a, t) == with_total(b, t),
    ensures
        a == b,
    decreases a.len(),
{
    if a.len() == 0 {
        if b.len() > 0 {
            lemma_with_total_holds(b, 0);
            assert(with_total(a, b[0].total) == with_total(b, b[0].total));
        }
    } else {
        let x = a.last();
        let t = x.total;
        assert(with_total(a, t) == with_total(b, t));
        assert(with_total(a, t).last() == x);
        let y = b.last();
        let u = y.total;
        assert(t >= u) by {
            lemma_with_total_members(b, t, 0);
            let i = choose|i: int| 0 <= i < b.len() && b[i] == with_total(b, t)[0] && b[i].total == t;
            if i < b.len() - 1 {
                assert(b[i].total >= b[b.len() - 1].total);
            }
        }
        assert(u >= t) by {
            lemma_with_total_holds(b, b.len() - 1);
            assert(with_total(a, u) == with_total(b, u));
            lemma_with_total_members(a, u, 0);
            let i = choose|i: int| 0 <= i < a.len() && a[i] == with_total(a, u)[0] && a[i].total == u;
            if i < a.len() - 1 {
                assert(a[i].total >= a[a.len() - 1].total);
            }
        }
        assert(with_total(b, t).last() == y);
        let shorter_a = a.drop_last();
        let shorter_b = b.drop_last();
        assert forall|s: nat| with_total(shorter_a, s) == with_total(shorter_b, s) by {
            assert(with_total(a, s) == with_total(b, s));
            if s == t {
                assert(with_total(shorter_a, s) == with_total(a, s).drop_last());
                assert(with_total(shorter_b, s) == with_total(b, s).drop_last());
            }
        }
        assert(descending(shorter_a));
        assert(descending(shorter_b));
        lemma_descending_determined(shorter_a, shorter_b);
        assert(a == shorter_a.push(x));
        assert(b == shorter_b.push(y));
    }
}

/// The ranking is the only arrangement of the groups that is descending by
/// total and keeps the groups of every total in the order in which they
/// stood.
pub proof fn lemma_ranking_is_unique(gs: Seq<Group>, arranged: Seq<Group>)
    requires
        descending(arranged),
        forall|t: nat| with_total(arranged, t) == with_total(gs, t),
    ensures
        arranged == ranked(gs),
{
    lemma_ranked_descending(gs);
    assert forall|t: nat| with_total(arranged, t) == with_total(ranked(gs), t) by {
        lemma_ranked_stable(gs, t);
        assert(with_total(arranged, t) == with_total(gs, t));
    }
    lemma_descending_determined(arranged, ranked(gs));
}

/// Ranks the records: largest total first, records of equal total in the
/// order in which they came.
pub fn rank_by_total(records: Vec<RepoInfo>) -> (out: Vec<RepoInfo>)
    ensures
        groups(out@) == ranked(groups(records@)),
        all_wf(records@) ==> all_wf(out@),
{
    let ghost input = records@;
    let n: usize = records.len();
    let mut out: Vec<RepoInfo> = Vec::new();
    let mut i: usize = 0;
    for record in it: records
        invariant
            it.seq() == input,
            input.len() == n,
            i == it.index(),
            groups(out@) == ranked(groups(input).take(i as int)),
            all_wf(input) ==> all_wf(out@),
    {
        let ghost before = groups(out@);
        let ghost upto = groups(input).take(i + 1);
        let mut j: usize = out.len();
        while j > 0 && out[j - 1].total_size < record.total_size
            invariant
                j <= out.len(),
                before == groups(out@),
                forall|k: int| j <= k < before.len() ==> (#[trigger] before[k]).total < record@.total,
            decreases j,
        {
            j = j - 1;
        }
        proof {
            assert(upto.drop_last() == groups(input).take(i as int));
            lemma_placed_at(before, record@, j as int);
        }
        out.insert(j, record);
        i = i + 1;
    }
    proof {
        assert(groups(input).take(i as int) == groups(input));
    }
    out
}

} // verus!
