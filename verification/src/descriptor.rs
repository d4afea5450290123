//! Descriptors: one cache entry reduced to its logical name and its size.

use crate::name::{decoded_name, get_cache_name, last_segment, path_last_segment};
use vstd::prelude::*;

verus! {

/// What a descriptor stands for: a logical name and a number of bytes.
pub struct Descriptor {
    pub name: Seq<char>,
    pub size: nat,
}

/// One cache entry: its decoded logical name and the bytes below it.
#[derive(Clone, Debug)]
pub struct FileDesc {
    pub name: String,
    pub size: u64,
}

impl View for FileDesc {
    type V = Descriptor;

    open spec fn view(&self) -> Descriptor {
        Descriptor { name: self.name@, size: self.size as nat }
    }
}

/// The descriptors that a list of entries stands for, in order.
pub open spec fn descriptors(entries: Seq<FileDesc>) -> Seq<Descriptor> {
    Seq::new(entries.len(), |i: int| entries[i]@)
}

/// The sum of the sizes of all descriptors.
pub open spec fn total_size(descs: Seq<Descriptor>) -> nat
    decreases descs.len(),
{
    if descs.len() == 0 {
        0
    } else {
        total_size(descs.drop_last()) + descs.last().size
    }
}

/// The descriptors are few and small enough for any grouping of them to be
/// held in records: their number fits in 32 bits, and the sum of their sizes
/// in 64.
pub open spec fn descriptors_fit(descs: Seq<Descriptor>) -> bool {
    descs.len() <= u32::MAX && total_size(descs) <= u64::MAX
}

/// The sizes of a prefix of the descriptors sum to no more than those of all.
pub proof fn lemma_total_size_prefix(descs: Seq<Descriptor>, n: int)
    requires
        0 <= n <= descs.len(),
    ensures
        total_size(descs.take(n)) <= total_size(descs),
    decreases descs.len(),
{
    if n == descs.len() {
        assert(descs.take(n) == descs);
    } else {
        assert(descs.drop_last().take(n) == descs.take(n));
        lemma_total_size_prefix(descs.drop_last(), n);
    }
}

/// Tests whether the descriptors are few and small enough for any grouping
/// of them to be held in records.
pub fn fits_in_records(file_descs: &Vec<FileDesc>) -> (fit: bool)
    ensures
        fit == descriptors_fit(descriptors(file_descs@)),
{
    let ghost descs = descriptors(file_descs@);
    if file_descs.len() > u32::MAX as usize {
        return false;
    }
    let mut sum: u64 = 0;
    let mut i: usize = 0;
    while i < file_descs.len()
        invariant
            i <= file_descs.len(),
            descs == descriptors(file_descs@),
            sum == total_size(descs.take(i as int)),
        decreases file_descs.len() - i,
    {
        proof {
            assert(descs.take(i + 1).drop_last() == descs.take(i as int));
        }
        match sum.checked_add(file_descs[i].size) {
            Some(next) => {
                sum = next;
            },
            None => {
                proof {
                    lemma_total_size_prefix(descs, i + 1);
                }
                return false;
            },
        }
        i = i + 1;
    }
    proof {
        assert(descs.take(i as int) == descs);
    }
    true
}

/// The sum of a sequence of byte lengths.
pub open spec fn sum_of(lengths: Seq<u64>) -> nat
    decreases lengths.len(),
{
    if lengths.len() == 0 {
        0
    } else {
        sum_of(lengths.drop_last()) + lengths.last() as nat
    }
}

/// The sum of the byte lengths of the files of one entry, or `None` where the
/// sum does not fit in 64 bits.
pub fn summed_size(lengths: &Vec<u64>) -> (total: Option<u64>)
    ensures
        sum_of(lengths@) <= u64::MAX ==> total == Some(sum_of(lengths@) as u64),
        sum_of(lengths@) > u64::MAX ==> total is None,
{
    let mut sum: u64 = 0;
    let mut i: usize = 0;
    while i < lengths.len()
        invariant
            i <= lengths.len(),
            sum == sum_of(lengths@.take(i as int)),
        decreases lengths.len() - i,
    {
        proof {
            assert(lengths@.take(i + 1).drop_last() == lengths@.take(i as int));
        }
        match sum.checked_add(lengths[i]) {
            Some(next) => {
                sum = next;
            },
            None => {
                proof {
                    lemma_sum_of_prefix(lengths@, i + 1);
                }
                return None;
            },
        }
        i = i + 1;
    }
    proof {
        assert(lengths@.take(i as int) == lengths@);
    }
    Some(sum)
}

/// A prefix of a sequence of lengths sums to no more than the whole.
pub proof fn lemma_sum_of_prefix(lengths: Seq<u64>, n: int)
    requires
        0 <= n <= lengths.len(),
    ensures
        sum_of(lengths.take(n)) <= sum_of(lengths),
    decreases lengths.len(),
{
    if n == lengths.len() {
        assert(lengths.take(n) == lengths);
    } else {
        assert(lengths.drop_last().take(n) == lengths.take(n));
        lemma_sum_of_prefix(lengths.drop_last(), n);
    }
}

impl FileDesc {
    /// The descriptor of a bare repository, from the basename of its
    /// directory and the bytes found below it.
    pub fn new_from_git_bare(basename: &str, size: u64) -> (desc: FileDesc)
        ensures
            desc@ == (Descriptor { name: decoded_name(basename@), size: size as nat }),
    {
        FileDesc { name: get_cache_name(basename), size }
    }

    /// The descriptor of a registry source checkout, from its path written
    /// with `/` between segments and the bytes found below it.
    pub fn new_from_reg_src(path: &str, size: u64) -> (desc: FileDesc)
        ensures
            desc@ == (Descriptor {
                name: decoded_name(last_segment(path@)),
                size: size as nat,
            }),
    {
        let segment = path_last_segment(path);
        FileDesc { name: get_cache_name(segment.as_str()), size }
    }
}

} // verus!
