use cache_summary::aggregate::{stats_from_file_desc_list, RepoInfo};
use cache_summary::descriptor::FileDesc;
use cache_summary::report::chkout_list_to_string;

fn desc(name: &str, size: u64) -> FileDesc {
    FileDesc {
        name: name.to_string(),
        size,
    }
}

#[test]
fn git_repos_bare_stats_from_file_desc_none() {
    // empty list
    let list: Vec<FileDesc> = Vec::new();
    let stats = stats_from_file_desc_list(list);
    let is = chkout_list_to_string(4, stats);
    let empty = String::new();
    assert_eq!(is, empty);
}

#[test]
fn git_repos_bare_stats_from_file_desc_one() {
    let fd = desc("crateA", 1);
    let list_fd: Vec<FileDesc> = vec![fd];
    let list_cb: Vec<RepoInfo> = stats_from_file_desc_list(list_fd);
    let is: String = chkout_list_to_string(1, list_cb);
    let wanted = String::from("crateA    src ckt: 1   src avg:       1 B   total: 1 B\n");
    assert_eq!(is, wanted);
}

#[test]
fn stats_from_file_desc_two() {
    let fd1 = desc("crate-A", 1);
    let fd2 = desc("crate-B", 2);
    let list_fd: Vec<FileDesc> = vec![fd1, fd2];
    let list_cb: Vec<RepoInfo> = stats_from_file_desc_list(list_fd);
    let is: String = chkout_list_to_string(3, list_cb);

    let mut wanted = String::new();
    for i in &[
        "crate-B    src ckt: 1   src avg:       2 B   total: 2 B\n",
        "crate-A    src ckt: 1   src avg:       1 B   total: 1 B\n",
    ] {
        wanted.push_str(i);
    }
    assert_eq!(is, wanted);
}

#[test]
fn stats_from_file_desc_multiple() {
    let fd1 = desc("crate-A", 1);
    let fd2 = desc("crate-B", 2);
    let fd3 = desc("crate-C", 10);
    let fd4 = desc("crate-D", 6);
    let fd5 = desc("crate-E", 4);
    let list_fd: Vec<FileDesc> = vec![fd1, fd2, fd3, fd4, fd5];
    let list_cb: Vec<RepoInfo> = stats_from_file_desc_list(list_fd);

    let is: String = chkout_list_to_string(6, list_cb);

    let mut wanted = String::new();
    for i in &[
        "crate-C    src ckt: 1   src avg:      10 B   total: 10 B\n",
        "crate-D    src ckt: 1   src avg:       6 B   total: 6 B\n",
        "crate-E    src ckt: 1   src avg:       4 B   total: 4 B\n",
        "crate-B    src ckt: 1   src avg:       2 B   total: 2 B\n",
        "crate-A    src ckt: 1   src avg:       1 B   total: 1 B\n",
    ] {
        wanted.push_str(i);
    }
    assert_eq!(is, wanted);
}

#[test]
fn stats_from_file_desc_same_name_2_one() {
    let fd1 = desc("crate-A", 3);
    let fd2 = desc("crate-A", 3);

    let list_fd: Vec<FileDesc> = vec![fd1, fd2];
    let list_cb: Vec<RepoInfo> = stats_from_file_desc_list(list_fd);
    let is: String = chkout_list_to_string(2, list_cb);
    let wanted = String::from("crate-A    src ckt: 2   src avg:       3 B   total: 6 B\n");
    assert_eq!(is, wanted);
}

#[test]
fn stats_from_file_desc_same_name_3_one() {
    let fd1 = desc("crate-A", 3);
    let fd2 = desc("crate-A", 3);
    let fd3 = desc("crate-A", 3);

    let list_fd: Vec<FileDesc> = vec![fd1, fd2, fd3];

    let list_cb: Vec<RepoInfo> = stats_from_file_desc_list(list_fd);
    let is: String = chkout_list_to_string(3, list_cb);
    let wanted = String::from("crate-A    src ckt: 3   src avg:       3 B   total: 9 B\n");
    assert_eq!(is, wanted);
}

#[test]
fn stats_from_file_desc_same_name_3_one_2() {
    let fd1 = desc("crate-A", 2);
    let fd2 = desc("crate-A", 4);
    let fd3 = desc("crate-A", 12);

    let list_fd: Vec<FileDesc> = vec![fd1, fd2, fd3];
    let list_cb: Vec<RepoInfo> = stats_from_file_desc_list(list_fd);
    let is: String = chkout_list_to_string(3, list_cb);
    let wanted = String::from("crate-A    src ckt: 3   src avg:       6 B   total: 18 B\n");
    assert_eq!(is, wanted);
}

#[test]
fn stats_from_file_desc_multi() {
    let fd1 = desc("crate-A", 2);
    let fd2 = desc("crate-A", 4);
    let fd3 = desc("crate-A", 12);

    let fd4 = desc("crate-B", 2);
    let fd5 = desc("crate-B", 8);

    let fd6 = desc("crate-C", 0);
    let fd7 = desc("crate-C", 100);

    let fd8 = desc("crate-D", 1);

    let list_fd: Vec<FileDesc> = vec![fd1, fd2, fd3, fd4, fd5, fd6, fd7, fd8];
    let list_cb: Vec<RepoInfo> = stats_from_file_desc_list(list_fd);
    let is: String = chkout_list_to_string(5, list_cb);

    let mut wanted = String::new();

    for i in &[
        "crate-C    src ckt: 2   src avg:      50 B   total: 100 B\n",
        "crate-A    src ckt: 3   src avg:       6 B   total: 18 B\n",
        "crate-B    src ckt: 2   src avg:       5 B   total: 10 B\n",
        "crate-D    src ckt: 1   src avg:       1 B   total: 1 B\n",
    ] {
        wanted.push_str(i);
    }
    assert_eq!(is, wanted);
}
