//! Grouping descriptors by logical name into summary records.

use crate::descriptor::{descriptors, Descriptor, FileDesc};
use vstd::prelude::*;

verus! {

/// What a summary record stands for: a logical name, the number of
/// descriptors folded into it and the sum of their sizes.
pub struct Group {
    pub name: Seq<char>,
    pub count: nat,
    pub total: nat,
}

/// One row of a report: a logical name with its member count and total size.
#[derive(Clone, Debug, Eq)]
pub struct RepoInfo {
    pub name: String,
    pub counter: u32,
    pub total_size: u64,
}

impl View for RepoInfo {
    type V = Group;

    open spec fn view(&self) -> Group {
        Group { name: self.name@, count: self.counter as nat, total: self.total_size as nat }
    }
}

impl RepoInfo {
    /// A record is well formed when it counts at least one member.
    pub open spec fn wf(&self) -> bool {
        self.counter >= 1
    }

    /// A record of `counter` members named `name` that take `total_size`
    /// bytes together; it is well formed where it counts a member.
    pub fn new(name: String, counter: u32, total_size: u64) -> (record: RepoInfo)
        ensures
            record.name == name,
            record.counter == counter,
            record.total_size == total_size,
            record.wf() <==> counter >= 1,
    {
        RepoInfo { name, counter, total_size }
    }
}

/// The groups that a list of records stands for, in order.
pub open spec fn groups(records: Seq<RepoInfo>) -> Seq<Group> {
    Seq::new(records.len(), |i: int| records[i]@)
}

/// Every record of the list counts at least one member.
pub open spec fn all_wf(records: Seq<RepoInfo>) -> bool {
    forall|i: int| 0 <= i < records.len() ==> (#[trigger] records[i]).wf()
}

/// Every group can be held in a record: its count fits in 32 bits and its
/// total in 64.
pub open spec fn groups_fit(gs: Seq<Group>) -> bool {
    forall|i: int|
        0 <= i < gs.len() ==> (#[trigger] gs[i]).count <= u32::MAX && gs[i].total <= u64::MAX
}

/// The group of a single descriptor.
pub open spec fn single(d: Descriptor) -> Group {
    Group { name: d.name, count: 1, total: d.size }
}

/// The group `g` with the descriptor `d` folded into it.
pub open spec fn joined(g: Group, d: Descriptor) -> Group {
    Group { name: g.name, count: g.count + 1, total: g.total + d.size }
}

/// Grouping by adjacency: every maximal run of neighbouring descriptors with
/// one name becomes one group, in the order of the runs. Where the descriptors
/// of one name are not contiguous, that name gets one group per run.
pub open spec fn adjacent_groups(descs: Seq<Descriptor>) -> Seq<Group>
    decreases descs.len(),
{
    if descs.len() == 0 {
        Seq::empty()
    } else {
        let earlier = adjacent_groups(descs.drop_last());
        let d = descs.last();
        if descs.len() >= 2 && descs[descs.len() - 2].name == d.name {
            earlier.drop_last().push(joined(earlier.last(), d))
        } else {
            earlier.push(single(d))
        }
    }
}

/// The last group of a non-empty adjacency grouping is the open run: it
/// carries the name of the last descriptor and counts at least one member.
pub proof fn lemma_adjacent_last(descs: Seq<Descriptor>)
    requires
        descs.len() > 0,
    ensures
        adjacent_groups(descs).len() > 0,
        adjacent_groups(descs).last().name == descs.last().name,
        adjacent_groups(descs).last().count >= 1,
    decreases descs.len(),
{
    if descs.len() >= 2 {
        lemma_adjacent_last(descs.drop_last());
    }
}

/// `a` is a grouping in progress of which `b` is a later stage: all groups of
/// `a` but the last stand unchanged in `b`, and the last has only grown.
pub open spec fn grows_into(a: Seq<Group>, b: Seq<Group>) -> bool {
    &&& 0 < a.len() <= b.len()
    &&& forall|i: int| 0 <= i < a.len() - 1 ==> a[i] == b[i]
    &&& a.last().name == b[a.len() - 1].name
    &&& a.last().count <= b[a.len() - 1].count
    &&& a.last().total <= b[a.len() - 1].total
}

/// The adjacency grouping of a non-empty prefix grows into that of the whole.
pub proof fn lemma_adjacent_prefix(descs: Seq<Descriptor>, n: int)
    requires
        0 < n <= descs.len(),
    ensures
        grows_into(adjacent_groups(descs.take(n)), adjacent_groups(descs)),
    decreases descs.len(),
{
    if n == descs.len() {
        assert(descs.take(n) == descs);
        lemma_adjacent_last(descs);
    } else {
        let shorter = descs.drop_last();
        assert(shorter.take(n) == descs.take(n));
        lemma_adjacent_prefix(shorter, n);
        lemma_adjacent_last(shorter);
    }
}

/// Groups the descriptors by adjacency: each run of neighbouring descriptors
/// with one name gives one record, in the order of the runs. Callers that want
/// one record per name sort the descriptors by name first.
pub fn stats_from_file_desc_list(file_descs: Vec<FileDesc>) -> (out: Vec<RepoInfo>)
    requires
        groups_fit(adjacent_groups(descriptors(file_descs@))),
    ensures
        groups(out@) == adjacent_groups(descriptors(file_descs@)),
        all_wf(out@),
{
    let ghost descs = descriptors(file_descs@);
    let mut out: Vec<RepoInfo> = Vec::new();
    let mut open: Option<RepoInfo> = None;
    let mut i: usize = 0;
    while i < file_descs.len()
        invariant
            i <= file_descs.len(),
            descs == descriptors(file_descs@),
            groups_fit(adjacent_groups(descs)),
            all_wf(out@),
            match open {
                None => i == 0 && out@.len() == 0,
                Some(acc) => {
                    &&& i > 0
                    &&& acc.wf()
                    &&& groups(out@).push(acc@) == adjacent_groups(descs.take(i as int))
                },
            },
        decreases file_descs.len() - i,
    {
        let current = &file_descs[i];
        let ghost upto = descs.take(i + 1);
        proof {
            assert(upto.drop_last() == descs.take(i as int));
            lemma_adjacent_prefix(descs, i + 1);
            lemma_adjacent_last(upto);
        }
        let next = match open {
            None => {
                proof {
                    assert(adjacent_groups(upto.drop_last()) == Seq::<Group>::empty());
                }
                RepoInfo::new(current.name.clone(), 1, current.size)
            },
            Some(acc) => {
                proof {
                    lemma_adjacent_last(descs.take(i as int));
                }
                if acc.name == current.name {
                    RepoInfo::new(acc.name, acc.counter + 1, acc.total_size + current.size)
                } else {
                    out.push(acc);
                    RepoInfo::new(current.name.clone(), 1, current.size)
                }
            },
        };
        open = Some(next);
        i = i + 1;
    }
    proof {
        assert(descs.take(i as int) == descs);
    }
    match open {
        None => {},
        Some(acc) => {
            out.push(acc);
        },
    }
    out
}

/// The index of the first group named `name`, or the number of groups where
/// none carries that name.
pub open spec fn position_of(gs: Seq<Group>, name: Seq<char>) -> int
    decreases gs.len(),
{
    if gs.len() == 0 {
        0
    } else {
        let p = position_of(gs.drop_last(), name);
        if p < gs.len() - 1 {
            p
        } else if gs.last().name == name {
            gs.len() - 1
        } else {
            gs.len() as int
        }
    }
}

/// The groups `gs` after one more descriptor: it joins the group of its name,
/// or opens a new group at the end where no group has its name yet.
pub open spec fn absorb(gs: Seq<Group>, d: Descriptor) -> Seq<Group> {
    let p = position_of(gs, d.name);
    if p < gs.len() {
        gs.update(p, joined(gs[p], d))
    } else {
        gs.push(single(d))
    }
}

/// Grouping by name, whatever the order of the descriptors: one group per
/// distinct name, in the order in which the names first occur.
pub open spec fn groups_by_name(descs: Seq<Descriptor>) -> Seq<Group>
    decreases descs.len(),
{
    if descs.len() == 0 {
        Seq::empty()
    } else {
        absorb(groups_by_name(descs.drop_last()), descs.last())
    }
}

/// `position_of` is the least index of a group with the name, or the length.
pub proof fn lemma_position_of(gs: Seq<Group>, name: Seq<char>)
    ensures
        0 <= position_of(gs, name) <= gs.len(),
        position_of(gs, name) < gs.len() ==> gs[position_of(gs, name)].name == name,
        forall|k: int| 0 <= k < position_of(gs, name) ==> (#[trigger] gs[k]).name != name,
    decreases gs.len(),
{
    if gs.len() > 0 {
        lemma_position_of(gs.drop_last(), name);
        assert forall|k: int| 0 <= k < position_of(gs, name) implies (#[trigger] gs[k]).name
            != name by {
            if k < gs.len() - 1 {
                assert(gs[k] == gs.drop_last()[k]);
            }
        }
    }
}

/// An index that carries the name and has no earlier one that does is the
/// position of the name.
pub proof fn lemma_position_of_is(gs: Seq<Group>, name: Seq<char>, p: int)
    requires
        0 <= p <= gs.len(),
        p < gs.len() ==> gs[p].name == name,
        forall|k: int| 0 <= k < p ==> (#[trigger] gs[k]).name != name,
    ensures
        position_of(gs, name) == p,
{
    lemma_position_of(gs, name);
    let q = position_of(gs, name);
    if q < p {
        assert(gs[q].name != name);
    }
}

/// `a` is an earlier stage of the grouping `b`: `b` has every group of `a`
/// at the same place under the same name, with at least as many members and
/// bytes.
pub open spec fn dominated(a: Seq<Group>, b: Seq<Group>) -> bool {
    &&& a.len() <= b.len()
    &&& forall|i: int|
        0 <= i < a.len() ==> (#[trigger] a[i]).name == b[i].name && a[i].count <= b[i].count
            && a[i].total <= b[i].total
}

/// Grouping a prefix by name gives an earlier stage of grouping the whole.
pub proof fn lemma_by_name_prefix(descs: Seq<Descriptor>, n: int)
    requires
        0 <= n <= descs.len(),
    ensures
        dominated(groups_by_name(descs.take(n)), groups_by_name(descs)),
    decreases descs.len(),
{
    if n == descs.len() {
        assert(descs.take(n) == descs);
    } else {
        let shorter = descs.drop_last();
        assert(shorter.take(n) == descs.take(n));
        lemma_by_name_prefix(shorter, n);
        lemma_position_of(groups_by_name(shorter), descs.last().name);
    }
}

/// The index in `records` of the first record named `name`, or the number of
/// records where none carries that name.
pub fn find_record(records: &Vec<RepoInfo>, name: &String) -> (p: usize)
    ensures
        p == position_of(groups(records@), name@),
{
    let mut p: usize = 0;
    while p < records.len()
        invariant
            p <= records.len(),
            forall|k: int| 0 <= k < p ==> (#[trigger] groups(records@)[k]).name != name@,
        decreases records.len() - p,
    {
        if records[p].name == *name {
            proof {
                lemma_position_of_is(groups(records@), name@, p as int);
            }
            return p;
        }
        p = p + 1;
    }
    proof {
        lemma_position_of_is(groups(records@), name@, p as int);
    }
    p
}

/// Groups the descriptors by name, whatever their order: one record per
/// distinct name, in the order in which the names first occur.
pub fn stats_by_name(file_descs: Vec<FileDesc>) -> (out: Vec<RepoInfo>)
    requires
        groups_fit(groups_by_name(descriptors(file_descs@))),
    ensures
        groups(out@) == groups_by_name(descriptors(file_descs@)),
        all_wf(out@),
{
    let ghost descs = descriptors(file_descs@);
    let mut out: Vec<RepoInfo> = Vec::new();
    let mut i: usize = 0;
    while i < file_descs.len()
        invariant
            i <= file_descs.len(),
            descs == descriptors(file_descs@),
            groups_fit(groups_by_name(descs)),
            all_wf(out@),
            groups(out@) == groups_by_name(descs.take(i as int)),
        decreases file_descs.len() - i,
    {
        let current = &file_descs[i];
        let ghost upto = descs.take(i + 1);
        let ghost before = groups(out@);
        proof {
            assert(upto.drop_last() == descs.take(i as int));
            lemma_by_name_prefix(descs, i + 1);
            lemma_position_of(before, current@.name);
        }
        let p = find_record(&out, &current.name);
        if p < out.len() {
            let found = &out[p];
            proof {
                assert(groups_by_name(upto)[p as int] == joined(found@, current@));
            }
            let merged = RepoInfo::new(
                found.name.clone(),
                found.counter + 1,
                found.total_size + current.size,
            );
            out.set(p, merged);
        } else {
            out.push(RepoInfo::new(current.name.clone(), 1, current.size));
        }
        i = i + 1;
    }
    proof {
        assert(descs.take(i as int) == descs);
    }
    out
}

} // verus!
