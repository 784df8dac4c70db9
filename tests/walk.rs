use git_hours::{AuthorTimes, CommitRecord, CommitWalk, Signature};

/// A commit of a made-up graph: id, parent ids, author email and time.
type Node = (&'static str, &'static [&'static str], Option<(&'static str, i64)>);

fn record(node: &Node) -> CommitRecord {
    CommitRecord {
        parents: node.1.iter().map(|p| p.as_bytes().to_vec()).collect(),
        author: node.2.map(|(email, seconds)| Signature { email: email.as_bytes().to_vec(), seconds }),
    }
}

/// Runs a walk over `graph` from `heads`, one head after the other; returns the
/// authors' times, the ids in the order they were expanded, and the lookups made.
fn run(graph: &[Node], heads: &[&str], merge_commits: bool) -> (Vec<AuthorTimes>, Vec<String>, usize) {
    let mut walk = CommitWalk::new(merge_commits);
    let mut order = Vec::new();
    let mut lookups = 0;
    for head in heads {
        walk.push_head(head.as_bytes().to_vec());
        while let Some(id) = walk.pop_unvisited() {
            lookups += 1;
            let found = graph.iter().find(|n| n.0.as_bytes() == id.as_slice());
            if found.is_some() {
                order.push(String::from_utf8(id.clone()).unwrap());
            }
            walk.visit(id, found.map(record));
        }
    }
    assert_eq!(walk.visited_count(), order.len());
    (walk.finish(), order, lookups)
}

fn times_of<'a>(authors: &'a [AuthorTimes], email: &str) -> Option<&'a Vec<i64>> {
    authors.iter().find(|a| a.email == email.as_bytes()).map(|a| &a.times)
}

/// a <- b <- d, a <- c <- d (d merges b and c); branches at d and c.
const DIAMOND: [Node; 4] = [
    ("d", &["b", "c"], Some(("x@y", 40))),
    ("b", &["a"], Some(("x@y", 20))),
    ("c", &["a"], Some(("z@y", 30))),
    ("a", &[], Some(("x@y", 10))),
];

#[test]
fn diamond_commits_are_visited_once() {
    let (authors, order, _) = run(&DIAMOND, &["d", "c"], true);
    let mut sorted = order.clone();
    sorted.sort();
    assert_eq!(sorted, vec!["a", "b", "c", "d"]);
    assert_eq!(times_of(&authors, "x@y"), Some(&vec![10, 20, 40]));
    assert_eq!(times_of(&authors, "z@y"), Some(&vec![30]));
    assert_eq!(authors.len(), 2);
}

#[test]
fn parents_are_taken_last_pushed_first() {
    let (_, order, _) = run(&DIAMOND, &["d"], true);
    assert_eq!(order, vec!["d", "c", "a", "b"]);
}

#[test]
fn excluded_merge_still_walks_its_ancestors() {
    let (with, order_with, _) = run(&DIAMOND, &["d"], true);
    let (without, order_without, _) = run(&DIAMOND, &["d"], false);
    assert_eq!(order_with, order_without);
    assert_eq!(times_of(&with, "x@y"), Some(&vec![10, 20, 40]));
    assert_eq!(times_of(&without, "x@y"), Some(&vec![10, 20]));
    assert_eq!(times_of(&without, "z@y"), Some(&vec![30]));
}

#[test]
fn times_come_out_sorted() {
    let graph: [Node; 3] = [
        ("c", &["b"], Some(("x@y", 5))),
        ("b", &["a"], Some(("x@y", 50))),
        ("a", &[], Some(("x@y", 7))),
    ];
    let (authors, _, _) = run(&graph, &["c"], true);
    assert_eq!(times_of(&authors, "x@y"), Some(&vec![5, 7, 50]));
}

#[test]
fn missing_commit_is_skipped_and_its_parents_unknown() {
    let graph: [Node; 2] = [("c", &["gone"], Some(("x@y", 5))), ("a", &[], Some(("x@y", 1)))];
    let (authors, order, lookups) = run(&graph, &["c", "a"], true);
    assert_eq!(order, vec!["c", "a"]);
    assert_eq!(lookups, 3);
    assert_eq!(times_of(&authors, "x@y"), Some(&vec![1, 5]));
}

#[test]
fn unreadable_author_is_walked_but_not_attributed() {
    let graph: [Node; 2] = [("b", &["a"], None), ("a", &[], Some(("x@y", 1)))];
    let (authors, order, _) = run(&graph, &["b"], true);
    assert_eq!(order, vec!["b", "a"]);
    assert_eq!(authors.len(), 1);
    assert_eq!(times_of(&authors, "x@y"), Some(&vec![1]));
}

#[test]
fn no_heads_give_no_authors() {
    let (authors, order, _) = run(&DIAMOND, &[], true);
    assert!(authors.is_empty());
    assert!(order.is_empty());
}

#[test]
fn same_head_twice_is_walked_once() {
    let (authors, order, _) = run(&DIAMOND, &["d", "d"], true);
    assert_eq!(order.len(), 4);
    assert_eq!(times_of(&authors, "x@y"), Some(&vec![10, 20, 40]));
}

#[test]
fn emails_are_compared_byte_for_byte() {
    let graph: [Node; 2] = [("b", &["a"], Some(("X@y", 2))), ("a", &[], Some(("x@y", 1)))];
    let (authors, _, _) = run(&graph, &["b"], true);
    assert_eq!(authors.len(), 2);
}
