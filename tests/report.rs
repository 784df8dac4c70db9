use git_hours::{branch_prefix, build_reports, sort_by_hours, Args, AuthorReport, AuthorTimes};

fn report(email: &str, hours: u32) -> AuthorReport {
    AuthorReport { email: email.as_bytes().to_vec(), commits: 1, hours }
}

#[test]
fn sort_orders_by_hours_and_keeps_ties_in_order() {
    let v = vec![report("a", 5), report("b", 1), report("c", 5), report("d", 0), report("e", 1)];
    let r = sort_by_hours(v);
    let names: Vec<&[u8]> = r.iter().map(|x| x.email.as_slice()).collect();
    assert_eq!(names, vec![b"d".as_slice(), b"b", b"e", b"a", b"c"]);
    let hours: Vec<u32> = r.iter().map(|x| x.hours).collect();
    assert_eq!(hours, vec![0, 1, 1, 5, 5]);
}

#[test]
fn sort_of_nothing_is_nothing() {
    assert!(sort_by_hours(Vec::new()).is_empty());
}

#[test]
fn reports_count_commits_and_estimate() {
    let args = Args { max_commit_diff: 120, first_commit_add: 120, merge_commits: true, branch: None };
    let authors = vec![
        AuthorTimes { email: b"x@y".to_vec(), times: vec![0, 1800, 30000] },
        AuthorTimes { email: b"z@y".to_vec(), times: vec![100] },
    ];
    let r = build_reports(&args, authors);
    assert_eq!(r.len(), 2);
    assert_eq!(r[0].email, b"x@y".to_vec());
    assert_eq!(r[0].commits, 3);
    assert_eq!(r[0].hours, 13);
    assert_eq!(r[1].commits, 1);
    assert_eq!(r[1].hours, 0);
}

#[test]
fn prefix_selects_all_branches_or_one() {
    assert_eq!(branch_prefix(&None), "refs/heads/");
    assert_eq!(branch_prefix(&Some("main".to_string())), "refs/heads/main");
}
