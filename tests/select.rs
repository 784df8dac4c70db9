use git_hours::{select_tips, ListedRef};

fn listed(name: &str, target: Option<&[u8]>) -> Option<ListedRef> {
    Some(ListedRef { name: name.as_bytes().to_vec(), target: target.map(|t| t.to_vec()) })
}

fn sample() -> Vec<Option<ListedRef>> {
    vec![
        listed("refs/heads/main", Some(&[1, 1])),
        listed("refs/heads/main-x", Some(&[2, 2])),
        None,
        listed("refs/heads/main/sub", Some(&[3, 3])),
        listed("refs/heads/sym", None),
        listed("refs/tags/v1", Some(&[4, 4])),
    ]
}

#[test]
fn requested_branch_selects_exactly_that_ref() {
    let tips = select_tips(sample(), &Some("main".to_string()));
    assert_eq!(tips, vec![vec![1, 1]]);
}

#[test]
fn no_branch_selects_every_readable_branch() {
    let tips = select_tips(sample(), &None);
    assert_eq!(tips, vec![vec![1, 1], vec![2, 2], vec![3, 3]]);
}

#[test]
fn unknown_branch_selects_nothing() {
    assert!(select_tips(sample(), &Some("nope".to_string())).is_empty());
}

#[test]
fn nested_branch_name_is_matched_whole() {
    let tips = select_tips(sample(), &Some("main/sub".to_string()));
    assert_eq!(tips, vec![vec![3, 3]]);
}

#[test]
fn nothing_listed_gives_no_tips() {
    assert!(select_tips(Vec::new(), &None).is_empty());
}
