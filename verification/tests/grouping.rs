use cache_summary::aggregate::{find_record, stats_by_name, stats_from_file_desc_list, RepoInfo};
use cache_summary::descriptor::FileDesc;
use cache_summary::rank::rank_by_total;
use cache_summary::report::{
    chkout_list_to_string, git_repos_bare_stats, push_columns, BareRepoScan,
};
use cache_summary::text::readable_size;
use std::cmp::Ordering;

fn desc(name: &str, size: u64) -> FileDesc {
    FileDesc {
        name: name.to_string(),
        size,
    }
}

fn triples(records: &[RepoInfo]) -> Vec<(String, u32, u64)> {
    records
        .iter()
        .map(|r| (r.name.clone(), r.counter, r.total_size))
        .collect()
}

fn triple(name: &str, counter: u32, total: u64) -> (String, u32, u64) {
    (name.to_string(), counter, total)
}

#[test]
fn grouping_nothing_gives_nothing() {
    assert!(stats_by_name(Vec::new()).is_empty());
    assert!(stats_from_file_desc_list(Vec::new()).is_empty());
}

#[test]
fn single_descriptor_gives_one_record_of_one_member() {
    let by_name = stats_by_name(vec![desc("only", 42)]);
    assert_eq!(triples(&by_name), vec![triple("only", 1, 42)]);
    let adjacent = stats_from_file_desc_list(vec![desc("only", 42)]);
    assert_eq!(triples(&adjacent), vec![triple("only", 1, 42)]);
}

#[test]
fn grouping_by_name_does_not_need_sorted_input() {
    let list = vec![desc("a", 1), desc("b", 2), desc("a", 3), desc("c", 5), desc("b", 7)];
    let records = stats_by_name(list);
    assert_eq!(
        triples(&records),
        vec![triple("a", 2, 4), triple("b", 2, 9), triple("c", 1, 5)]
    );
}

#[test]
fn grouping_by_adjacency_gives_one_record_per_run() {
    let list = vec![desc("a", 1), desc("b", 2), desc("a", 3)];
    let records = stats_from_file_desc_list(list);
    assert_eq!(
        triples(&records),
        vec![triple("a", 1, 1), triple("b", 1, 2), triple("a", 1, 3)]
    );
}

#[test]
fn both_groupings_agree_on_sorted_input() {
    let list = || {
        vec![
            desc("a", 1),
            desc("a", 3),
            desc("b", 2),
            desc("c", 5),
            desc("c", 5),
            desc("c", 0),
        ]
    };
    let by_name = stats_by_name(list());
    let adjacent = stats_from_file_desc_list(list());
    assert_eq!(triples(&by_name), triples(&adjacent));
    assert_eq!(
        triples(&by_name),
        vec![triple("a", 2, 4), triple("b", 1, 2), triple("c", 3, 10)]
    );
}

#[test]
fn grouping_conserves_sizes_and_counts() {
    let list = || {
        vec![
            desc("x", 10),
            desc("y", 20),
            desc("x", 30),
            desc("", 4),
            desc("z", 0),
            desc("", 6),
        ]
    };
    for records in [stats_by_name(list()), stats_from_file_desc_list(list())] {
        let total: u64 = records.iter().map(|r| r.total_size).sum();
        let members: u32 = records.iter().map(|r| r.counter).sum();
        assert_eq!(total, 70);
        assert_eq!(members, 6);
        assert!(records.iter().all(|r| r.counter >= 1));
    }
}

#[test]
fn empty_names_are_grouped_like_any_other() {
    let records = stats_by_name(vec![desc("", 1), desc("a", 2), desc("", 3)]);
    assert_eq!(triples(&records), vec![triple("", 2, 4), triple("a", 1, 2)]);
}

#[test]
fn record_is_found_by_its_name() {
    let records = vec![
        RepoInfo::new("a".to_string(), 1, 1),
        RepoInfo::new("b".to_string(), 1, 1),
    ];
    assert_eq!(find_record(&records, &"a".to_string()), 0);
    assert_eq!(find_record(&records, &"b".to_string()), 1);
    assert_eq!(find_record(&records, &"c".to_string()), 2);
}

#[test]
fn ranking_puts_the_largest_first() {
    let records = vec![
        RepoInfo::new("small".to_string(), 1, 1),
        RepoInfo::new("large".to_string(), 1, 100),
        RepoInfo::new("middle".to_string(), 2, 10),
    ];
    let ranking = rank_by_total(records);
    assert_eq!(
        triples(&ranking),
        vec![triple("large", 1, 100), triple("middle", 2, 10), triple("small", 1, 1)]
    );
}

#[test]
fn ranking_keeps_ties_in_their_order() {
    let records = vec![
        RepoInfo::new("zeta".to_string(), 1, 5),
        RepoInfo::new("alpha".to_string(), 1, 5),
        RepoInfo::new("top".to_string(), 1, 9),
        RepoInfo::new("mid".to_string(), 1, 5),
    ];
    let ranking = rank_by_total(records);
    assert_eq!(
        triples(&ranking),
        vec![
            triple("top", 1, 9),
            triple("zeta", 1, 5),
            triple("alpha", 1, 5),
            triple("mid", 1, 5)
        ]
    );
}

#[test]
fn records_compare_by_total_alone() {
    let a = RepoInfo::new("a".to_string(), 1, 5);
    let b = RepoInfo::new("b".to_string(), 7, 5);
    let c = RepoInfo::new("a".to_string(), 1, 6);
    assert!(a == b);
    assert!(a != c);
    assert!(a < c);
    assert!(c > b);
    assert_eq!(a.partial_cmp(&b), Some(Ordering::Equal));
    assert_eq!(a.partial_cmp(&c), Some(Ordering::Less));
    assert_eq!(c.partial_cmp(&a), Some(Ordering::Greater));
}

#[test]
fn report_of_no_records_is_empty_whatever_the_limit() {
    for limit in [0, 1, 4, u32::MAX] {
        assert_eq!(chkout_list_to_string(limit, Vec::new()), "");
    }
}

#[test]
fn report_shows_only_the_largest_up_to_the_limit() {
    let list = vec![
        desc("aaa", 1),
        desc("bbb", 50),
        desc("ccc", 7),
        desc("ddd", 300),
        desc("eee", 20),
    ];
    let is = chkout_list_to_string(3, stats_from_file_desc_list(list));
    let wanted = "ddd    src ckt: 1   src avg:     300 B   total: 300 B\n\
                  bbb    src ckt: 1   src avg:      50 B   total: 50 B\n\
                  eee    src ckt: 1   src avg:      20 B   total: 20 B\n";
    assert_eq!(is, wanted);
}

#[test]
fn report_with_limit_zero_is_empty() {
    let is = chkout_list_to_string(0, stats_by_name(vec![desc("a", 1)]));
    assert_eq!(is, "");
}

#[test]
fn name_column_is_as_wide_as_the_widest_name_shown() {
    let list = vec![desc("a-very-long-name", 1), desc("b", 9), desc("cc", 5)];
    let two = chkout_list_to_string(2, stats_by_name(list.clone()));
    assert_eq!(
        two,
        "b     src ckt: 1   src avg:       9 B   total: 9 B\n\
         cc    src ckt: 1   src avg:       5 B   total: 5 B\n"
    );
    let all = chkout_list_to_string(3, stats_by_name(list));
    assert_eq!(
        all,
        "b                   src ckt: 1   src avg:       9 B   total: 9 B\n\
         cc                  src ckt: 1   src avg:       5 B   total: 5 B\n\
         a-very-long-name    src ckt: 1   src avg:       1 B   total: 1 B\n"
    );
}

#[test]
fn name_column_counts_the_bytes_of_the_widest_name() {
    let list = vec![desc("äö", 2), desc("ab", 1)];
    let is = chkout_list_to_string(2, stats_by_name(list));
    assert_eq!(
        is,
        "äö      src ckt: 1   src avg:       2 B   total: 2 B\n\
         ab      src ckt: 1   src avg:       1 B   total: 1 B\n"
    );
}

#[test]
fn average_is_rounded_down_and_sizes_are_scaled_by_thousands() {
    let list = vec![desc("pkg", 1000), desc("pkg", 1000), desc("pkg", 1001)];
    let is = chkout_list_to_string(1, stats_by_name(list));
    assert_eq!(is, "pkg    src ckt: 3   src avg:      1 KB   total: 3.00 KB\n");
    let big = vec![desc("big", 1_500_000), desc("big", 1_023)];
    let is = chkout_list_to_string(1, stats_by_name(big));
    assert_eq!(
        is,
        "big    src ckt: 2   src avg: 750.51 KB   total: 1.50 MB\n"
    );
}

#[test]
fn wide_columns_are_not_cut() {
    let mut list = Vec::new();
    for _ in 0..1234 {
        list.push(desc("many", 123_456_789_012));
    }
    let is = chkout_list_to_string(1, stats_by_name(list));
    assert_eq!(
        is,
        "many    src ckt: 1234 src avg: 123.46 GB   total: 152.35 TB\n"
    );
}

#[test]
fn bare_report_of_a_missing_root_is_empty() {
    assert_eq!(git_repos_bare_stats("/no/such/root", 5, None), "");
}

#[test]
fn bare_report_has_header_with_total_and_lines() {
    let scan = BareRepoScan {
        total_size: 5500,
        file_descs: vec![desc("crate-B", 2), desc("crate-A", 1), desc("crate-B", 4)],
    };
    let is = git_repos_bare_stats("/home/u/.cargo/git/db", 10, Some(scan));
    let wanted = "\nSummary of: /home/u/.cargo/git/db (5.50 KB total)\n\
                  crate-B    src ckt: 2   src avg:       3 B   total: 6 B\n\
                  crate-A    src ckt: 1   src avg:       1 B   total: 1 B\n";
    assert_eq!(is, wanted);
}

#[test]
fn bare_report_of_a_root_without_repositories_is_empty() {
    for total_size in [0, 4096] {
        let scan = BareRepoScan {
            total_size,
            file_descs: Vec::new(),
        };
        assert_eq!(git_repos_bare_stats("root", 3, Some(scan)), "");
    }
}

#[test]
fn bare_report_with_limit_zero_is_the_header_alone() {
    let scan = BareRepoScan {
        total_size: 12,
        file_descs: vec![desc("a-b", 12)],
    };
    let is = git_repos_bare_stats("root", 0, Some(scan));
    assert_eq!(is, "\nSummary of: root (12 B total)\n");
}

#[test]
fn sizes_below_a_thousand_are_the_number_and_the_unit() {
    for n in 0..1000u64 {
        let scan = BareRepoScan {
            total_size: n,
            file_descs: vec![desc("p", n)],
        };
        let is = git_repos_bare_stats("r", 1, Some(scan));
        let size = format!("{} B", n);
        let wanted = format!(
            "\nSummary of: r ({} total)\np    src ckt: 1   src avg: {: >9}   total: {}\n",
            size, size, size
        );
        assert_eq!(is, wanted);
        assert_eq!(readable_size(n), size);
    }
    assert_eq!(readable_size(1000), "1 KB");
    assert_eq!(readable_size(999_999), "1000.00 KB");
    assert_eq!(readable_size(u64::MAX), "18.45 EB");
}

#[test]
fn columns_are_built_from_the_texts_given() {
    let mut line = String::from("name");
    push_columns(&mut line, "12", "1.50 KB", "18 KB", false);
    assert_eq!(line, "name src ckt: 12  src avg:   1.50 KB   total: 18 KB\n");

    let mut wide = String::new();
    push_columns(&mut wide, "7", "3 B", "21 B", true);
    assert_eq!(wide, " src ckt: 7   src avg:       3 B    total: 21 B\n");
}

#[test]
fn columns_wider_than_their_width_are_not_cut() {
    let mut line = String::new();
    push_columns(&mut line, "12345", "123456789.12 KB", "x", false);
    assert_eq!(line, " src ckt: 12345 src avg: 123456789.12 KB total: x\n");

    let mut empty = String::new();
    push_columns(&mut empty, "", "", "", false);
    assert_eq!(empty, " src ckt:     src avg:             total: \n");
}
