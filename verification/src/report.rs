//! Rendering ranked summary records as a fixed-width report.

use crate::aggregate::{
    all_wf, groups, groups_by_name, groups_fit, stats_by_name, Group, RepoInfo,
};
use crate::descriptor::{descriptors, FileDesc};
use crate::rank::{descending, lemma_ranked_descending, lemma_ranked_fit, rank_by_total, ranked};
use crate::text::{
    byte_len, decimal, decimal_size_text, decimal_text, lemma_byte_len_covers_chars,
    lemma_decimal_len, pad_left, pad_right, pad_zeros, push_padded_left, push_padded_right,
    push_spaces, push_zero_padded, readable_size, text_byte_len,
};
use vstd::prelude::*;

verus! {

/// The number of blanks between the widest name of a report and the next
/// column.
pub const TOP_CRATES_SPACING: usize = 3;

/// The readable text for `n` bytes.
pub open spec fn size_text(n: nat) -> Seq<char> {
    decimal_size_text(n as u64)
}

/// The columns of a report line behind the name, from their texts: the
/// count in at least 3 characters, the average flush right in at least 9
/// behind its label, both in a column of at least 20, and after `gap` the
/// total; then the end of the line.
pub open spec fn columns(
    count: Seq<char>,
    average: Seq<char>,
    total: Seq<char>,
    gap: Seq<char>,
) -> Seq<char> {
    " src ckt: "@ + pad_right(count, 3) + " "@ + pad_right(
        "src avg: "@ + pad_left(average, 9),
        20,
    ) + gap + "total: "@ + total + "\n"@
}

/// The blanks before the total: two where `wide_gap` is set, else one.
pub open spec fn gap_text(wide_gap: bool) -> Seq<char> {
    if wide_gap {
        "  "@
    } else {
        " "@
    }
}

/// The columns of the line of a group: its member count in decimal, the
/// average size of a member (the total divided by the count, rounded down)
/// and its total, both sizes made readable.
pub open spec fn line_tail(g: Group, gap: Seq<char>) -> Seq<char> {
    columns(decimal(g.count), size_text(g.total / g.count), size_text(g.total), gap)
}

/// One line of a report: the name padded to `width`, then the columns.
pub open spec fn report_line(g: Group, width: nat) -> Seq<char> {
    pad_right(g.name, width) + line_tail(g, " "@)
}

/// The lines of the groups, one after the other.
pub open spec fn report_lines(gs: Seq<Group>, width: nat) -> Seq<char>
    decreases gs.len(),
{
    if gs.len() == 0 {
        Seq::empty()
    } else {
        report_lines(gs.drop_last(), width) + report_line(gs.last(), width)
    }
}

/// The largest number of bytes that the name of one of the groups takes; 0
/// where there is no group.
pub open spec fn widest_name(gs: Seq<Group>) -> nat
    decreases gs.len(),
{
    if gs.len() == 0 {
        0
    } else {
        let rest = widest_name(gs.drop_last());
        let last = byte_len(gs.last().name);
        if rest >= last {
            rest
        } else {
            last
        }
    }
}

/// The groups that a report of at most `limit` lines shows: the first
/// `limit` of the ranking, or all of it where it has no more.
pub open spec fn shown_groups(gs: Seq<Group>, limit: nat) -> Seq<Group> {
    let r = ranked(gs);
    if limit < r.len() {
        r.take(limit as int)
    } else {
        r
    }
}

/// The report on the groups, cut to `limit` lines: the groups that are shown,
/// one line each, with the name column as wide as the widest name shown and
/// the spacing behind it.
pub open spec fn report_text(gs: Seq<Group>, limit: nat) -> Seq<char> {
    let shown = shown_groups(gs, limit);
    report_lines(shown, widest_name(shown) + TOP_CRATES_SPACING as nat)
}

/// A report shows the largest groups and nothing else: the groups shown are
/// the head of the ranking, as many as the limit allows; they stand in
/// descending order of total; and no group that is left out has a larger
/// total than one that is shown.
pub proof fn lemma_shown_groups_are_largest(gs: Seq<Group>, limit: nat)
    ensures
        shown_groups(gs, limit).len() == if limit < gs.len() {
            limit
        } else {
            gs.len()
        },
        shown_groups(gs, limit) == ranked(gs).take(shown_groups(gs, limit).len() as int),
        descending(shown_groups(gs, limit)),
        forall|i: int, j: int|
            0 <= i < shown_groups(gs, limit).len() <= j < gs.len() ==> (#[trigger] shown_groups(
                gs,
                limit,
            )[i]).total >= (#[trigger] ranked(gs)[j]).total,
{
    lemma_ranked_descending(gs);
}

/// No name among the groups takes more bytes than the widest.
pub proof fn lemma_widest_name_bounds(gs: Seq<Group>, i: int)
    requires
        0 <= i < gs.len(),
    ensures
        byte_len(gs[i].name) <= widest_name(gs),
    decreases gs.len(),
{
    if i < gs.len() - 1 {
        lemma_widest_name_bounds(gs.drop_last(), i);
    }
}

/// Appends the columns of a report line to `out`, from the texts of the
/// count, the average and the total.
pub fn push_columns(out: &mut String, count: &str, average: &str, total: &str, wide_gap: bool)
    ensures
        final(out)@ == old(out)@ + columns(count@, average@, total@, gap_text(wide_gap)),
{
    let mut column = String::new();
    column.append("src avg: ");
    push_padded_left(&mut column, average, 9);
    out.append(" src ckt: ");
    push_padded_right(out, count, 3);
    out.append(" ");
    push_padded_right(out, column.as_str(), 20);
    if wide_gap {
        out.append("  ");
    } else {
        out.append(" ");
    }
    out.append("total: ");
    out.append(total);
    out.append("\n");
}

/// Appends the columns behind the name of the line of `record` to `out`,
/// with one blank before the total, or two where `wide_gap` is set.
pub fn push_line_tail(out: &mut String, record: &RepoInfo, wide_gap: bool)
    requires
        record.wf(),
    ensures
        final(out)@ == old(out)@ + line_tail(record@, gap_text(wide_gap)),
{
    let count = decimal_text(record.counter as u64);
    let average = readable_size(record.total_size / (record.counter as u64));
    let total = readable_size(record.total_size);
    push_columns(out, count.as_str(), average.as_str(), total.as_str(), wide_gap);
}

/// The report on the records, cut to `limit` lines. The records are ranked
/// by total, largest first, with ties in the order given; each of the first
/// `limit` gets one line, and the name column is as wide as the widest name
/// shown plus the spacing. No record gives the empty text.
pub fn chkout_list_to_string(limit: u32, collections_vec: Vec<RepoInfo>) -> (output: String)
    requires
        all_wf(collections_vec@),
    ensures
        output@ == report_text(groups(collections_vec@), limit as nat),
        collections_vec@.len() == 0 ==> output@ == Seq::<char>::empty(),
{
    let ghost gs = groups(collections_vec@);
    let ranking = rank_by_total(collections_vec);
    let shown: usize = if (limit as usize) < ranking.len() {
        limit as usize
    } else {
        ranking.len()
    };
    let ghost rows = shown_groups(gs, limit as nat);
    let mut widest: usize = 0;
    let mut k: usize = 0;
    while k < shown
        invariant
            k <= shown <= ranking.len(),
            rows == groups(ranking@).take(shown as int),
            widest == widest_name(rows.take(k as int)),
        decreases shown - k,
    {
        proof {
            assert(rows.take(k + 1).drop_last() == rows.take(k as int));
        }
        let len = text_byte_len(ranking[k].name.as_str());
        if len > widest {
            widest = len;
        }
        k = k + 1;
    }
    proof {
        assert(rows.take(k as int) == rows);
    }
    let ghost width = widest as nat + TOP_CRATES_SPACING as nat;
    let mut output = String::new();
    let mut k: usize = 0;
    while k < shown
        invariant
            k <= shown <= ranking.len(),
            all_wf(ranking@),
            rows == groups(ranking@).take(shown as int),
            widest == widest_name(rows),
            width == widest as nat + TOP_CRATES_SPACING as nat,
            output@ == report_lines(rows.take(k as int), width),
        decreases shown - k,
    {
        let record = &ranking[k];
        proof {
            assert(rows.take(k + 1).drop_last() == rows.take(k as int));
            lemma_widest_name_bounds(rows, k as int);
            lemma_byte_len_covers_chars(record@.name);
        }
        push_padded_right(&mut output, record.name.as_str(), widest);
        push_spaces(&mut output, TOP_CRATES_SPACING);
        push_line_tail(&mut output, record, false);
        k = k + 1;
    }
    output
}

/// What a scan found under the root of the bare repositories: the size of
/// everything below the root, and one descriptor for each repository.
pub struct BareRepoScan {
    pub total_size: u64,
    pub file_descs: Vec<FileDesc>,
}

/// The line that opens the report on the bare repositories under `path`.
pub open spec fn bare_header(path: Seq<char>, total_size: u64) -> Seq<char> {
    "\nSummary of: "@ + path + " ("@ + decimal_size_text(total_size) + " total)\n"@
}

/// The line that opens the report on the registry sources under `path`.
pub open spec fn registry_header(path: Seq<char>) -> Seq<char> {
    "\nSummary of: "@ + path + "\n"@
}

/// One line of the registry report: the name padded to `width`, then the
/// columns, with two blanks before the total.
pub open spec fn registry_line(g: Group, width: nat) -> Seq<char> {
    pad_right(g.name, width) + line_tail(g, "  "@)
}

/// A registry line behind its sort key: the total in 20 digits, and a blank.
pub open spec fn keyed_line(g: Group, width: nat) -> Seq<char> {
    pad_zeros(decimal(g.total), 20) + " "@ + registry_line(g, width)
}

/// The keyed lines of the groups, in order.
pub open spec fn keyed_lines(gs: Seq<Group>, width: nat) -> Seq<Seq<char>> {
    Seq::new(gs.len(), |i: int| keyed_line(gs[i], width))
}

/// The registry lines of the groups, one after the other.
pub open spec fn registry_lines(gs: Seq<Group>, width: nat) -> Seq<char>
    decreases gs.len(),
{
    if gs.len() == 0 {
        Seq::empty()
    } else {
        registry_lines(gs.drop_last(), width) + registry_line(gs.last(), width)
    }
}

/// The texts that a list of strings holds, in order.
pub open spec fn texts(lines: Seq<String>) -> Seq<Seq<char>> {
    Seq::new(lines.len(), |i: int| lines[i]@)
}

/// The report on the registry sources under `path`: the header, then the
/// lines of the groups shown, the name column as wide as the widest name of
/// all groups.
pub open spec fn registry_text(path: Seq<char>, gs: Seq<Group>, limit: nat) -> Seq<char> {
    registry_header(path) + registry_lines(shown_groups(gs, limit), widest_name(gs))
}

/// The sort key of a keyed line takes 21 characters, and the registry line
/// is what follows it.
pub proof fn lemma_keyed_line_splits(g: Group, width: nat)
    requires
        g.total <= u64::MAX,
    ensures
        keyed_line(g, width).len() >= 21,
        keyed_line(g, width).subrange(21, keyed_line(g, width).len() as int) == registry_line(
            g,
            width,
        ),
{
    reveal_strlit(" ");
    lemma_decimal_len(g.total);
    let key = pad_zeros(decimal(g.total), 20) + " "@;
    assert(key.len() == 21);
    assert(keyed_line(g, width) == key + registry_line(g, width));
}

/// The report on the bare repositories under `path`, cut to `limit` lines.
/// Where the root does not exist there is no scan, and the report is empty;
/// it is empty too where the root holds no repository. Otherwise it is the
/// header with the size of the root, then the report on the repositories
/// grouped by name.
pub fn git_repos_bare_stats(path: &str, limit: u32, scan: Option<BareRepoScan>) -> (output: String)
    requires
        scan matches Some(found) ==> groups_fit(groups_by_name(descriptors(found.file_descs@))),
    ensures
        scan is None ==> output@ == Seq::<char>::empty(),
        scan matches Some(found) ==> output@ == (if found.file_descs@.len() == 0 {
            Seq::<char>::empty()
        } else {
            bare_header(path@, found.total_size) + report_text(
                groups_by_name(descriptors(found.file_descs@)),
                limit as nat,
            )
        }),
{
    let mut output = String::new();
    match scan {
        None => {},
        Some(found) => {
            if found.file_descs.len() > 0 {
                let total = readable_size(found.total_size);
                output.append("\nSummary of: ");
                output.append(path);
                output.append(" (");
                output.append(total.as_str());
                output.append(" total)\n");
                let summary = stats_by_name(found.file_descs);
                let body = chkout_list_to_string(limit, summary);
                output.append(body.as_str());
            }
        },
    }
    output
}

/// The lines of the registry report, each behind its sort key, in ranked
/// order: the descriptors are grouped by name and the groups ranked by total,
/// largest first. The name column is as wide as the widest name.
pub fn states_from_file_desc_list(file_descs: Vec<FileDesc>) -> (summary: Vec<String>)
    requires
        groups_fit(groups_by_name(descriptors(file_descs@))),
    ensures
        texts(summary@) == keyed_lines(
            ranked(groups_by_name(descriptors(file_descs@))),
            widest_name(groups_by_name(descriptors(file_descs@))),
        ),
{
    let ghost gs = groups_by_name(descriptors(file_descs@));
    let records = stats_by_name(file_descs);
    let mut widest: usize = 0;
    let mut k: usize = 0;
    while k < records.len()
        invariant
            k <= records.len(),
            gs == groups(records@),
            widest == widest_name(gs.take(k as int)),
        decreases records.len() - k,
    {
        proof {
            assert(gs.take(k + 1).drop_last() == gs.take(k as int));
        }
        let len = text_byte_len(records[k].name.as_str());
        if len > widest {
            widest = len;
        }
        k = k + 1;
    }
    proof {
        assert(gs.take(k as int) == gs);
    }
    let ranking = rank_by_total(records);
    let ghost rows = ranked(gs);
    let mut summary: Vec<String> = Vec::new();
    let mut k: usize = 0;
    while k < ranking.len()
        invariant
            k <= ranking.len(),
            all_wf(ranking@),
            rows == groups(ranking@),
            widest == widest_name(gs),
            texts(summary@) == keyed_lines(rows.take(k as int), widest as nat),
        decreases ranking.len() - k,
    {
        let record = &ranking[k];
        let ghost before = texts(summary@);
        let key = decimal_text(record.total_size);
        let mut line = String::new();
        push_zero_padded(&mut line, key.as_str(), 20);
        line.append(" ");
        push_padded_right(&mut line, record.name.as_str(), widest);
        push_line_tail(&mut line, record, true);
        proof {
            assert(line@ == keyed_line(record@, widest as nat));
        }
        summary.push(line);
        proof {
            assert(before.push(keyed_line(record@, widest as nat)) == keyed_lines(
                rows.take(k + 1),
                widest as nat,
            ));
        }
        k = k + 1;
    }
    summary
}

/// The report on the registry sources under `path`, cut to `limit` lines.
/// Where the root does not exist there are no descriptors, and the report is
/// empty; it is empty too where the root holds no source. Otherwise it is
/// the header, then the ranked lines without their sort keys.
pub fn registry_source_stats(path: &str, limit: u32, file_descs: Option<Vec<FileDesc>>) -> (stdout:
    String)
    requires
        file_descs matches Some(found) ==> groups_fit(groups_by_name(descriptors(found@))),
    ensures
        file_descs is None ==> stdout@ == Seq::<char>::empty(),
        file_descs matches Some(found) ==> stdout@ == (if found@.len() == 0 {
            Seq::<char>::empty()
        } else {
            registry_text(path@, groups_by_name(descriptors(found@)), limit as nat)
        }),
{
    let mut stdout = String::new();
    match file_descs {
        None => {},
        Some(found) => {
            if found.len() == 0 {
                return stdout;
            }
            let ghost gs = groups_by_name(descriptors(found@));
            let ghost width = widest_name(gs);
            stdout.append("\nSummary of: ");
            stdout.append(path);
            stdout.append("\n");
            let summary = states_from_file_desc_list(found);
            let shown: usize = if (limit as usize) < summary.len() {
                limit as usize
            } else {
                summary.len()
            };
            let ghost rows = shown_groups(gs, limit as nat);
            proof {
                assert(keyed_lines(ranked(gs), width).len() == ranked(gs).len());
                lemma_ranked_fit(gs);
            }
            let mut count: usize = 0;
            while count < shown
                invariant
                    count <= shown <= summary.len(),
                    groups_fit(ranked(gs)),
                    summary.len() == ranked(gs).len(),
                    rows == ranked(gs).take(shown as int),
                    texts(summary@) == keyed_lines(ranked(gs), width),
                    stdout@ == registry_header(path@) + registry_lines(
                        rows.take(count as int),
                        width,
                    ),
                decreases shown - count,
            {
                let data = summary[count].as_str();
                let ghost g = ranked(gs)[count as int];
                proof {
                    assert(keyed_lines(ranked(gs), width)[count as int] == keyed_line(g, width));
                    lemma_keyed_line_splits(g, width);
                    assert(rows.take(count + 1).drop_last() == rows.take(count as int));
                }
                let len = data.unicode_len();
                let line = data.substring_char(21, len);
                stdout.append(line);
                count = count + 1;
            }
            proof {
                assert(rows.take(count as int) == rows);
            }
        },
    }
    stdout
}

} // verus!
