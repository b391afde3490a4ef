use git_global::scan::{DirEntry, EntryKind, Listing, Scanner};

fn dir(name: &str, canonical: &str) -> DirEntry {
    DirEntry { name: name.to_string(), kind: EntryKind::Dir, canonical: canonical.to_string() }
}

fn file(name: &str, canonical: &str) -> DirEntry {
    DirEntry { name: name.to_string(), kind: EntryKind::File, canonical: canonical.to_string() }
}

/// Runs a walk over a tree given as (directory, listing) pairs.
fn walk(roots: &[&str], tree: &[(&str, Vec<DirEntry>)], skip_hidden: bool) -> (Scanner, Vec<String>) {
    let mut s = Scanner::new(roots.iter().map(|r| r.to_string()).collect(), vec![], skip_hidden);
    let mut reads = vec![];
    while let Some(d) = s.next_dir() {
        reads.push(d.clone());
        let listing = match tree.iter().find(|(p, _)| *p == d) {
            Some((_, es)) => Listing::Entries(es.clone()),
            None => Listing::Unreadable,
        };
        s.visit(d, &listing);
    }
    (s, reads)
}

fn sorted(mut v: Vec<String>) -> Vec<String> {
    v.sort();
    v
}

fn nested_tree() -> Vec<(&'static str, Vec<DirEntry>)> {
    vec![
        ("/a", vec![dir(".git", "/a/.git"), dir("b", "/a/b"), file("README", "/a/README")]),
        ("/a/.git", vec![dir("objects", "/a/.git/objects")]),
        ("/a/b", vec![file(".git", "/a/b/.git"), dir("src", "/a/b/src")]),
        ("/a/b/src", vec![]),
    ]
}

#[test]
fn discovers_nested_repositories() {
    let (s, reads) = walk(&["/a"], &nested_tree(), false);
    assert_eq!(sorted(s.found.clone()), vec!["/a", "/a/b"]);
    assert!(!reads.iter().any(|r| r.starts_with("/a/.git")));
    assert!(s.warnings.is_empty());
}

#[test]
fn symlink_cycle_terminates_without_duplicates() {
    let tree = vec![
        ("/a", vec![dir(".git", "/a/.git"), dir("sub", "/a/sub")]),
        ("/a/sub", vec![dir("loop", "/a"), dir("self", "/a/sub")]),
    ];
    let (s, reads) = walk(&["/a"], &tree, false);
    assert_eq!(s.found, vec!["/a"]);
    assert_eq!(reads, vec!["/a", "/a/sub"]);
}

#[test]
fn scanning_twice_gives_same_set() {
    let (s1, _) = walk(&["/a"], &nested_tree(), false);
    let (s2, _) = walk(&["/a", "/a"], &nested_tree(), false);
    assert_eq!(sorted(s1.found), sorted(s2.found));
}

#[test]
fn unreadable_directory_is_a_warning() {
    let tree = vec![("/r", vec![dir("locked", "/r/locked"), dir("ok", "/r/ok")]), ("/r/ok", vec![file(".git", "/r/ok/.git")])];
    let (s, _) = walk(&["/r"], &tree, false);
    assert_eq!(s.warnings, vec!["/r/locked"]);
    assert_eq!(s.found, vec!["/r/ok"]);
}

#[test]
fn hidden_and_excluded_directories_are_skipped() {
    let tree = vec![
        ("/h", vec![dir(".cache", "/h/.cache"), dir("skip", "/h/skip"), dir("w", "/h/w")]),
        ("/h/.cache", vec![dir(".git", "/h/.cache/.git")]),
        ("/h/skip", vec![dir(".git", "/h/skip/.git")]),
        ("/h/w", vec![dir(".git", "/h/w/.git")]),
    ];
    let mut s = Scanner::new(vec!["/h".to_string()], vec!["/h/skip".to_string()], true);
    while let Some(d) = s.next_dir() {
        let es = tree.iter().find(|(p, _)| *p == d).map(|(_, es)| es.clone()).unwrap();
        s.visit(d, &Listing::Entries(es));
    }
    assert_eq!(s.found, vec!["/h/w"]);
}

#[test]
fn newly_visited_directories_are_queued() {
    let mut s = Scanner::new(vec!["/t".to_string()], vec![], false);
    let d = s.next_dir().unwrap();
    s.visit(d, &Listing::Entries(vec![dir("x", "/t/x"), dir("y", "/t/y"), file("f", "/t/f")]));
    let mut pending = s.pending.clone();
    pending.sort();
    assert_eq!(pending, vec!["/t/x", "/t/y"]);
}
