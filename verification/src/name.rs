//! Decoding the logical package name from the basename of a cache entry.

use vstd::prelude::*;

verus! {

/// The logical name encoded in `basename`: everything before its last `-`.
/// A basename without any `-` has no disambiguator to strip and decodes to the
/// empty name.
pub open spec fn decoded_name(basename: Seq<char>) -> Seq<char>
    decreases basename.len(),
{
    if basename.len() == 0 {
        Seq::empty()
    } else if basename.last() == '-' {
        basename.drop_last()
    } else {
        decoded_name(basename.drop_last())
    }
}

/// The part of `path` after its last `/`, or all of `path` if it has none.
pub open spec fn last_segment(path: Seq<char>) -> Seq<char>
    decreases path.len(),
{
    if path.len() == 0 {
        Seq::empty()
    } else if path.last() == '/' {
        Seq::empty()
    } else {
        last_segment(path.drop_last()).push(path.last())
    }
}

/// Decodes the logical name of a cache entry from its basename, so that
/// `github.com-1ecc6299db9ec823` gives `github.com`.
pub fn get_cache_name(basename: &str) -> (name: String)
    ensures
        name@ == decoded_name(basename@),
{
    let n: usize = basename.unicode_len();
    let mut cut: usize = 0;
    let mut i: usize = 0;
    for c in it: basename.chars()
        invariant
            it.seq() == basename@,
            n == basename@.len(),
            i == it.index(),
            cut <= i,
            decoded_name(basename@.take(i as int)) == basename@.take(cut as int),
    {
        proof {
            assert(basename@.take(i + 1).drop_last() == basename@.take(i as int));
        }
        if c == '-' {
            cut = i;
        }
        i = i + 1;
    }
    proof {
        assert(basename@.take(i as int) == basename@);
    }
    let head: &str = basename.substring_char(0, cut);
    head.to_owned()
}

/// The last `/`-separated segment of a path written as text.
pub fn path_last_segment(path: &str) -> (segment: String)
    ensures
        segment@ == last_segment(path@),
{
    let n: usize = path.unicode_len();
    let mut start: usize = 0;
    let mut i: usize = 0;
    for c in it: path.chars()
        invariant
            it.seq() == path@,
            n == path@.len(),
            i == it.index(),
            start <= i,
            last_segment(path@.take(i as int)) == path@.subrange(start as int, i as int),
    {
        proof {
            assert(path@.take(i + 1).drop_last() == path@.take(i as int));
        }
        if c == '/' {
            start = i + 1;
        }
        i = i + 1;
    }
    proof {
        assert(path@.take(i as int) == path@);
    }
    let tail: &str = path.substring_char(start, n);
    tail.to_owned()
}

/// Where a basename holds a `-`, its decoded name is the prefix that ends just
/// before the last one; where it holds none, the decoded name is empty.
pub proof fn lemma_decoded_name_is_prefix(basename: Seq<char>)
    ensures
        !basename.contains('-') ==> decoded_name(basename) == Seq::<char>::empty(),
        basename.contains('-') ==> ({
            let k = decoded_name(basename).len() as int;
            &&& k < basename.len()
            &&& basename[k] == '-'
            &&& decoded_name(basename) == basename.take(k)
            &&& forall|j: int| k < j < basename.len() ==> basename[j] != '-'
        }),
    decreases basename.len(),
{
    if basename.len() > 0 && basename.last() != '-' {
        let shorter = basename.drop_last();
        lemma_decoded_name_is_prefix(shorter);
        if basename.contains('-') {
            let w = choose|w: int| 0 <= w < basename.len() && basename[w] == '-';
            assert(shorter[w] == '-');
            let k = decoded_name(shorter).len() as int;
            assert forall|j: int| k < j < basename.len() implies basename[j] != '-' by {
                if j < shorter.len() {
                    assert(basename[j] == shorter[j]);
                }
            }
        } else if shorter.contains('-') {
            let w = choose|w: int| 0 <= w < shorter.len() && shorter[w] == '-';
            assert(basename[w] == '-');
        }
    }
}

/// Decoding undoes the naming scheme: a name followed by `-` and a
/// disambiguator that holds no `-` decodes back to that name.
pub proof fn lemma_decode_recovers_name(name: Seq<char>, disambiguator: Seq<char>)
    requires
        !disambiguator.contains('-'),
    ensures
        decoded_name(name + seq!['-'] + disambiguator) == name,
    decreases disambiguator.len(),
{
    let full = name + seq!['-'] + disambiguator;
    if disambiguator.len() > 0 {
        let shorter = disambiguator.drop_last();
        assert(full.drop_last() == name + seq!['-'] + shorter);
        assert(!shorter.contains('-')) by {
            if shorter.contains('-') {
                let w = choose|w: int| 0 <= w < shorter.len() && shorter[w] == '-';
                assert(disambiguator[w] == '-');
            }
        }
        lemma_decode_recovers_name(name, shorter);
    }
}

/// Decoding is idempotent under the naming scheme: giving a decoded name a
/// disambiguator again and decoding once more yields the same decoded name.
pub proof fn lemma_decode_is_idempotent(basename: Seq<char>, disambiguator: Seq<char>)
    requires
        !disambiguator.contains('-'),
    ensures
        decoded_name(decoded_name(basename) + seq!['-'] + disambiguator) == decoded_name(
            basename,
        ),
{
    lemma_decode_recovers_name(decoded_name(basename), disambiguator);
}

} // verus!
