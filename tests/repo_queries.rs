use git_global::repo::{
    age_hours, commit_age, full_status_query, short_status, short_status_query, stash_lines, status_lines, Repo,
    RepoError, StatusQuery, StatusShow,
};

#[test]
fn repo_keeps_its_path() {
    let r = Repo::new("/home/me/src/project".to_string());
    assert_eq!(r.path(), "/home/me/src/project");
}

#[test]
fn status_lines_format_code_space_path() {
    let entries = vec![("src/main.rs".to_string(), 256u32), ("new.txt".to_string(), 128u32), ("a.rs".to_string(), 1u32)];
    assert_eq!(status_lines(&entries), vec![" M src/main.rs".to_string(), "?? new.txt".to_string(), "A  a.rs".to_string()]);
}

#[test]
fn short_status_uses_first_entry() {
    let entries = vec![("x".to_string(), 2u32), ("y".to_string(), 128u32)];
    assert_eq!(short_status(&entries), "M ");
}

#[test]
fn short_status_of_no_entries() {
    assert_eq!(short_status(&vec![]), "  ");
}

#[test]
fn stash_lines_format() {
    let mut messages = vec!["WIP on main: 1a2b3c fix".to_string(), "On dev: try".to_string()];
    for k in 2..12 {
        messages.push(format!("m{}", k));
    }
    let lines = stash_lines(&messages);
    assert_eq!(lines.len(), 12);
    assert_eq!(lines[0], "stash@{0}: WIP on main: 1a2b3c fix");
    assert_eq!(lines[1], "stash@{1}: On dev: try");
    assert_eq!(lines[11], "stash@{11}: m11");
}

#[test]
fn age_in_whole_hours() {
    assert_eq!(age_hours(0, 7200), 2);
    assert_eq!(age_hours(0, 7199), 1);
    assert_eq!(age_hours(1_000_000, 1_000_000 + 9000 * 3600 + 59), 9000);
    assert_eq!(age_hours(7200, 0), -2);
    assert_eq!(age_hours(0, -1), 0);
    assert_eq!(age_hours(i64::MIN, i64::MAX), (u64::MAX / 3600) as i64);
}

#[test]
fn missing_repository_is_an_error_not_a_panic() {
    let r = Repo::new("/nonexistent/path/for/git/global/tests".to_string());
    assert_eq!(r.get_status().unwrap_err(), RepoError::CannotOpen);
    assert_eq!(r.get_short_status().unwrap_err(), RepoError::CannotOpen);
    assert_eq!(r.get_stash_list().unwrap_err(), RepoError::CannotOpen);
    assert!(r.as_git2_repo().is_err());
}

#[test]
fn missing_repository_has_unknown_age() {
    let r = Repo::new("/nonexistent/path/for/git/global/tests".to_string());
    assert_eq!(r.num_hours_since_last_commit(), i64::MAX);
}

#[test]
fn queries_handed_to_the_backend() {
    assert_eq!(
        full_status_query(),
        StatusQuery { show: StatusShow::IndexAndWorkdir, include_untracked: true, include_ignored: false }
    );
    assert_eq!(
        short_status_query(),
        StatusQuery { show: StatusShow::Workdir, include_untracked: false, include_ignored: false }
    );
}

#[test]
fn unknown_commit_age_is_max() {
    assert_eq!(commit_age(None, 100), i64::MAX);
    assert_eq!(commit_age(Some(0), 7200), 2);
}

#[test]
fn handles_equal_by_path() {
    assert!(Repo::new("/x".to_string()) == Repo::new("/x".to_string()));
    assert!(Repo::new("/x".to_string()) != Repo::new("/y".to_string()));
}
