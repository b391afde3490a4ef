use git_global::repo::{Repo, RepoError};
use git_global::report::{
    is_before, sort_entries, summary_of, BasicColumn, Report, ReportEntry, ReportOrder, Row, Summary,
};
use std::cmp::Ordering;

fn accessible(path: &str, age: i64, status: &str) -> ReportEntry {
    ReportEntry {
        path: path.to_string(),
        summary: Summary::Accessible { age_hours: age, status: status.to_string() },
    }
}

fn inaccessible(path: &str) -> ReportEntry {
    ReportEntry { path: path.to_string(), summary: Summary::Inaccessible }
}

fn paths(r: &Report) -> Vec<String> {
    r.entries.iter().map(|e| e.path.clone()).collect()
}

fn sample() -> Vec<ReportEntry> {
    vec![
        accessible("/r2", 9000, "M "),
        inaccessible("/r3"),
        accessible("/r1", 2, "  "),
    ]
}

#[test]
fn end_to_end_report_of_three_repositories() {
    let report = Report::from_entries(sample(), ReportOrder::Path);
    assert_eq!(report.entries.len(), 3);
    assert_eq!(paths(&report), vec!["/r1", "/r2", "/r3"]);
    assert_eq!(report.entries[2].summary, Summary::Inaccessible);
    assert_eq!(report.entries[0], accessible("/r1", 2, "  "));
    assert_eq!(report.entries[1], accessible("/r2", 9000, "M "));
}

#[test]
fn report_is_deterministic() {
    let a = Report::from_entries(sample(), ReportOrder::Path);
    let mut reversed = sample();
    reversed.reverse();
    let b = Report::from_entries(reversed, ReportOrder::Path);
    assert_eq!(a.entries, b.entries);
}

#[test]
fn order_by_age_puts_inaccessible_last() {
    let mut es = sample();
    es.push(accessible("/r0", 9000, "??"));
    let report = Report::from_entries(es, ReportOrder::Age);
    assert_eq!(paths(&report), vec!["/r1", "/r0", "/r2", "/r3"]);
}

#[test]
fn order_by_status_breaks_ties_by_path() {
    let es = vec![
        accessible("/b", 1, "M "),
        inaccessible("/a"),
        accessible("/a", 5, "M "),
        accessible("/c", 3, "  "),
    ];
    let sorted = sort_entries(es, ReportOrder::Status);
    let ps: Vec<&str> = sorted.iter().map(|e| e.path.as_str()).collect();
    assert_eq!(ps, vec!["/c", "/a", "/b", "/a"]);
    assert_eq!(sorted[3].summary, Summary::Inaccessible);
}

#[test]
fn path_order_is_lexicographic() {
    assert!(is_before(&inaccessible("/a"), &inaccessible("/a/b"), ReportOrder::Path));
    assert!(is_before(&inaccessible("/a/b"), &inaccessible("/b"), ReportOrder::Path));
    assert!(!is_before(&inaccessible("/b"), &inaccessible("/b"), ReportOrder::Path));
}

#[test]
fn build_marks_missing_repository_inaccessible() {
    let handles = vec![
        Repo::new("/nonexistent/git/global/two".to_string()),
        Repo::new("/nonexistent/git/global/one".to_string()),
    ];
    let report = Report::build(&handles, ReportOrder::Path);
    assert_eq!(paths(&report), vec!["/nonexistent/git/global/one", "/nonexistent/git/global/two"]);
    assert!(report.entries.iter().all(|e| e.summary == Summary::Inaccessible));
}

#[test]
fn column_titles() {
    assert_eq!(BasicColumn::Path.as_str(), "Directory");
    assert_eq!(BasicColumn::State.as_str(), "State");
    assert_eq!(BasicColumn::LastCommit.as_str(), "Last commit");
}

#[test]
fn rows_compare_by_column() {
    let a = Row {
        repo: Repo::new("/a".to_string()),
        name: "/a".to_string(),
        state: "M ".to_string(),
        last_commit: 10,
    };
    let b = Row {
        repo: Repo::new("/b".to_string()),
        name: "/b".to_string(),
        state: "M ".to_string(),
        last_commit: 9,
    };
    assert_eq!(a.cmp(&b, BasicColumn::Path), Ordering::Less);
    assert_eq!(a.cmp(&b, BasicColumn::State), Ordering::Less);
    assert_eq!(a.cmp(&b, BasicColumn::LastCommit), Ordering::Greater);
    assert_eq!(b.cmp(&a, BasicColumn::LastCommit), Ordering::Less);
    assert_eq!(a.to_column(BasicColumn::LastCommit), "10");
    let c = Row { last_commit: 10, name: "/c".to_string(), ..a.clone() };
    assert_eq!(a.cmp(&c, BasicColumn::LastCommit), Ordering::Less);
    let d = Row { last_commit: -3, ..a.clone() };
    assert_eq!(d.to_column(BasicColumn::LastCommit), "-3");
}

#[test]
fn summary_tags_failed_query_inaccessible() {
    assert_eq!(summary_of(Err(RepoError::CannotOpen), 5), Summary::Inaccessible);
    assert_eq!(
        summary_of(Ok("M ".to_string()), 9000),
        Summary::Accessible { age_hours: 9000, status: "M ".to_string() }
    );
}

#[test]
fn rows_with_equal_state_order_by_path() {
    let a = Row { repo: Repo::new("/a".to_string()), name: "/a".to_string(), state: "M ".to_string(), last_commit: 1 };
    let b = Row { repo: Repo::new("/b".to_string()), name: "/b".to_string(), state: "M ".to_string(), last_commit: 1 };
    let c = Row { repo: Repo::new("/c".to_string()), name: "/c".to_string(), state: "??".to_string(), last_commit: 1 };
    assert_eq!(a.cmp(&b, BasicColumn::State), Ordering::Less);
    assert_eq!(b.cmp(&a, BasicColumn::State), Ordering::Greater);
    assert_eq!(a.cmp(&a, BasicColumn::State), Ordering::Equal);
    assert_eq!(c.cmp(&a, BasicColumn::State), Ordering::Less);
}
