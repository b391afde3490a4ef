//! A git repository handle and its read-only queries.

use vstd::prelude::*;
use crate::status::{StatusFlags, flags_of, get_short_format_status, short_code};
use crate::text::{append_decimal, decimal};

verus! {

#[verifier::external_type_specification]
#[verifier::external_body]
pub struct ExRepository(git2::Repository);

#[verifier::external_type_specification]
#[verifier::external_body]
pub struct ExGitError(git2::Error);

#[verifier::external_type_specification]
#[verifier::external_body]
pub struct ExReference<'a>(git2::Reference<'a>);

#[verifier::external_type_specification]
#[verifier::external_body]
pub struct ExCommit<'a>(git2::Commit<'a>);

#[verifier::external_type_specification]
#[verifier::external_body]
pub struct ExOid(git2::Oid);

/// Relies on git2::Repository::open: opens the repository at `path`.
#[verifier::external_body]
fn open_repository(path: &str) -> (r: Result<git2::Repository, git2::Error>) {
    git2::Repository::open(path)
}

/// Relies on git2::Repository::head: resolves HEAD.
#[verifier::external_body]
fn repository_head(repo: &git2::Repository) -> (r: Result<git2::Reference<'_>, git2::Error>) {
    repo.head()
}

/// Relies on git2::Reference::target: the object id a direct reference points at.
#[verifier::external_body]
fn reference_target(reference: &git2::Reference<'_>) -> (r: Option<git2::Oid>) {
    reference.target()
}

/// Relies on git2::Repository::find_commit: looks up a commit by id.
#[verifier::external_body]
fn find_commit(repo: &git2::Repository, oid: git2::Oid) -> (r: Result<
    git2::Commit<'_>,
    git2::Error,
>) {
    repo.find_commit(oid)
}

/// Relies on git2::Commit::time: the commit's time, in seconds since the epoch.
#[verifier::external_body]
fn commit_seconds(commit: &git2::Commit<'_>) -> (r: i64) {
    commit.time().seconds()
}

/// Relies on chrono::Utc::now: the current time, in whole seconds since the epoch.
#[verifier::external_body]
fn now_seconds() -> (r: i64) {
    chrono::Utc::now().timestamp()
}

/// Relies on git2::Repository::statuses: the (path, status bits) of each entry that
/// the backend reports for `query`, in the backend's order.
#[verifier::external_body]
fn repository_statuses(repo: &git2::Repository, query: &StatusQuery) -> (r: Result<
    Vec<(String, u32)>,
    git2::Error,
>) {
    let mut opts = git2::StatusOptions::new();
    let show = match query.show {
        StatusShow::IndexAndWorkdir => git2::StatusShow::IndexAndWorkdir,
        StatusShow::Workdir => git2::StatusShow::Workdir,
    };
    opts.show(show).include_untracked(query.include_untracked).include_ignored(query.include_ignored);
    let statuses = repo.statuses(Some(&mut opts))?;
    Ok(statuses.iter().map(|e| (String::from_utf8_lossy(e.path_bytes()).into_owned(), e.status().bits())).collect())
}

/// Relies on git2::Repository::reflog and git2::ReflogEntry::message_bytes: the
/// stash stack is the reflog of `refs/stash`, read in index order (most recent
/// first); each message is read from its bytes, lossily, so no message fails.
/// Unlike git2::Repository::stash_foreach, which reports nothing when the
/// `refs/stash` reference itself is missing, this still lists a reflog left
/// behind without its reference.
#[verifier::external_body]
fn stash_messages(repo: &git2::Repository) -> (r: Result<Vec<String>, git2::Error>) {
    let log = repo.reflog("refs/stash")?;
    Ok(log.iter().map(|e| String::from_utf8_lossy(e.message_bytes().unwrap_or(&[])).into_owned()).collect())
}

/// Which states a status query compares.
#[derive(Clone, Copy, Debug, PartialEq, Eq, Structural)]
pub enum StatusShow {
    IndexAndWorkdir,
    Workdir,
}

/// The options of a status query.
#[derive(Clone, Copy, Debug, PartialEq, Eq, Structural)]
pub struct StatusQuery {
    pub show: StatusShow,
    pub include_untracked: bool,
    pub include_ignored: bool,
}

/// Why a query against a repository failed.
#[derive(Clone, Copy, Debug, PartialEq, Eq, Structural)]
pub enum RepoError {
    /// The path no longer opens as a repository.
    CannotOpen,
    /// The repository opened, but the backend could not answer the query.
    Backend,
}

/// A git repository, represented by the full path to its base directory.
#[derive(Clone, Debug, Eq, Hash)]
pub struct Repo {
    path: String,
}

impl View for Repo {
    type V = Seq<char>;

    closed spec fn view(&self) -> Seq<char> {
        self.path@
    }
}

impl PartialEq for Repo {
    /// Two handles are equal when their paths are.
    fn eq(&self, other: &Repo) -> (r: bool) {
        self.path == other.path
    }
}

impl vstd::std_specs::cmp::PartialEqSpecImpl for Repo {
    open spec fn obeys_eq_spec() -> bool {
        true
    }

    open spec fn eq_spec(&self, other: &Repo) -> bool {
        self@ == other@
    }
}

/// Hours elapsed from `from` to `to` (seconds), truncated toward zero.
pub open spec fn hours_between(from: int, to: int) -> int {
    if to - from >= 0 {
        (to - from) / 3600
    } else {
        -((from - to) / 3600)
    }
}

/// Age in hours of a commit made at `commit_secs`, seen at `now_secs`.
pub fn age_hours(commit_secs: i64, now_secs: i64) -> (r: i64)
    ensures
        r as int == hours_between(commit_secs as int, now_secs as int),
{
    let d: i128 = now_secs as i128 - commit_secs as i128;
    if d >= 0 {
        assert(d / 3600 <= d) by (nonlinear_arith) requires d >= 0;
        (d / 3600) as i64
    } else {
        let m: i128 = -d;
        assert(m / 3600 <= m) by (nonlinear_arith) requires m >= 0;
        assert(m / 3600 <= 0x8000_0000_0000_0000) by (nonlinear_arith)
            requires m <= 0x1_0000_0000_0000_0000, m >= 0;
        (-(m / 3600)) as i64
    }
}

/// The age of a repository's last commit: `i64::MAX` where no commit time was
/// found, else the whole hours from it to `now_secs`.
pub open spec fn last_commit_age(commit_secs: Option<i64>, now_secs: i64) -> int {
    match commit_secs {
        Some(c) => hours_between(c as int, now_secs as int),
        None => i64::MAX as int,
    }
}

/// The age in hours of a repository whose HEAD commit was made at
/// `commit_secs`, or `i64::MAX` where no commit time was found.
pub fn commit_age(commit_secs: Option<i64>, now_secs: i64) -> (r: i64)
    ensures
        r as int == last_commit_age(commit_secs, now_secs),
{
    match commit_secs {
        Some(c) => age_hours(c, now_secs),
        None => i64::MAX,
    }
}

/// One status line: the short code, a space, then the path.
pub open spec fn status_line(bits: u32, path: Seq<char>) -> Seq<char> {
    short_code(flags_of(bits)) + seq![' '] + path
}

/// The short summary of a status listing: the code of its first entry, or two
/// spaces (clean) when there is none.
pub open spec fn short_status_of(entries: Seq<(String, u32)>) -> Seq<char> {
    if entries.len() == 0 {
        seq![' ', ' ']
    } else {
        short_code(flags_of(entries[0].1))
    }
}

/// One stash line: `stash@{<index>}: <message>`.
pub open spec fn stash_line(index: nat, message: Seq<char>) -> Seq<char> {
    seq!['s', 't', 'a', 's', 'h', '@', '{'] + decimal(index) + seq!['}', ':', ' '] + message
}

/// The text of each string, in order.
pub open spec fn texts(v: Seq<String>) -> Seq<Seq<char>> {
    v.map_values(|s: String| s@)
}

/// The status lines of a status listing, one per entry, in order.
pub open spec fn status_lines_of(entries: Seq<(String, u32)>) -> Seq<Seq<char>> {
    entries.map_values(|e: (String, u32)| status_line(e.1, e.0@))
}

/// The stash lines of the stash stack whose messages are `messages`, in stack
/// order: the entry at position `i` is `stash@{i}`.
pub open spec fn stash_lines_of(messages: Seq<String>) -> Seq<Seq<char>> {
    messages.map(|i: int, m: String| stash_line(i as nat, m@))
}

/// The status lines of a status listing, one per entry, in order.
pub fn status_lines(entries: &Vec<(String, u32)>) -> (r: Vec<String>)
    ensures
        texts(r@) == status_lines_of(entries@),
{
    let mut r: Vec<String> = Vec::new();
    let mut i: usize = 0;
    while i < entries.len()
        invariant
            i <= entries@.len(),
            r@.len() == i,
            forall|k: int|
                0 <= k < i ==> #[trigger] r@[k]@ == status_line(entries@[k].1, entries@[k].0@),
        decreases entries@.len() - i,
    {
        let flags = StatusFlags::from_bits(entries[i].1);
        let mut line = get_short_format_status(flags);
        line.append(" ");
        line.append(entries[i].0.as_str());
        proof {
            reveal_strlit(" ");
        }
        assert(line@ =~= status_line(entries@[i as int].1, entries@[i as int].0@));
        r.push(line);
        i = i + 1;
    }
    assert(texts(r@) =~= status_lines_of(entries@));
    r
}

/// The short summary of a status listing: the code of its first entry, or two
/// spaces when it is empty.
pub fn short_status(entries: &Vec<(String, u32)>) -> (r: String)
    ensures
        r@ == short_status_of(entries@),
{
    if entries.len() == 0 {
        proof {
            reveal_strlit("  ");
        }
        let r = String::from_str("  ");
        assert(r@ =~= seq![' ', ' ']);
        r
    } else {
        get_short_format_status(StatusFlags::from_bits(entries[0].1))
    }
}

/// The stash lines of the stash stack whose messages are `messages`.
pub fn stash_lines(messages: &Vec<String>) -> (r: Vec<String>)
    ensures
        texts(r@) == stash_lines_of(messages@),
{
    let mut r: Vec<String> = Vec::new();
    let mut i: usize = 0;
    while i < messages.len()
        invariant
            i <= messages@.len(),
            r@.len() == i,
            forall|k: int|
                0 <= k < i ==> #[trigger] r@[k]@ == stash_line(k as nat, messages@[k]@),
        decreases messages@.len() - i,
    {
        proof {
            reveal_strlit("stash@{");
            reveal_strlit("}: ");
        }
        let mut line = String::from_str("stash@{");
        append_decimal(&mut line, i as u64);
        line.append("}: ");
        line.append(messages[i].as_str());
        assert(line@ =~= stash_line(i as nat, messages@[i as int]@));
        r.push(line);
        i = i + 1;
    }
    assert(texts(r@) =~= stash_lines_of(messages@));
    r
}

/// The query behind the full status listing: index and working directory,
/// untracked files included, ignored files left out.
pub fn full_status_query() -> (q: StatusQuery)
    ensures
        q == (StatusQuery {
            show: StatusShow::IndexAndWorkdir,
            include_untracked: true,
            include_ignored: false,
        }),
{
    StatusQuery { show: StatusShow::IndexAndWorkdir, include_untracked: true, include_ignored: false }
}

/// The query behind the short status code: the working directory only.
pub fn short_status_query() -> (q: StatusQuery)
    ensures
        q == (StatusQuery { show: StatusShow::Workdir, include_untracked: false, include_ignored: false }),
{
    StatusQuery { show: StatusShow::Workdir, include_untracked: false, include_ignored: false }
}

impl Repo {
    pub fn new(path: String) -> (r: Repo)
        ensures
            r@ == path@,
    {
        Repo { path }
    }

    /// Opens the repository through the backend.
    pub fn as_git2_repo(&self) -> (r: Result<git2::Repository, RepoError>)
        ensures
            r is Err ==> r->Err_0 == RepoError::CannotOpen,
    {
        match open_repository(self.path.as_str()) {
            Ok(repo) => Ok(repo),
            Err(_) => Err(RepoError::CannotOpen),
        }
    }

    /// Returns the full path to the repo as a `String`.
    pub fn path(&self) -> (r: String)
        ensures
            r@ == self@,
    {
        self.path.clone()
    }

    /// The time of the commit at HEAD, where the repository opens and HEAD
    /// resolves to a commit.
    fn head_commit_seconds(&self) -> (r: Option<i64>) {
        let repo = match self.as_git2_repo() {
            Ok(repo) => repo,
            Err(_) => return None,
        };
        let head = match repository_head(&repo) {
            Ok(head) => head,
            Err(_) => return None,
        };
        let oid = match reference_target(&head) {
            Some(oid) => oid,
            None => return None,
        };
        let seconds = match find_commit(&repo, oid) {
            Ok(commit) => Some(commit_seconds(&commit)),
            Err(_) => None,
        };
        seconds
    }

    /// Returns the age of the last commit in hours, or `i64::MAX` where it is
    /// unknown.
    pub fn num_hours_since_last_commit(&self) -> (r: i64)
        ensures
            exists|c: Option<i64>, now: i64| r as int == #[trigger] last_commit_age(c, now),
    {
        let commit = self.head_commit_seconds();
        let now = now_seconds();
        let r = commit_age(commit, now);
        assert(r as int == last_commit_age(commit, now));
        r
    }

    /// Every changed or untracked file in index and working directory, as
    /// status lines.
    pub fn get_status(&self) -> (r: Result<Vec<String>, RepoError>)
        ensures
            r is Ok ==> exists|entries: Seq<(String, u32)>|
                texts(r->Ok_0@) == #[trigger] status_lines_of(entries),
    {
        self.get_status_lines(full_status_query())
    }

    /// The short status code of the first entry against the working directory,
    /// or two spaces where there is none.
    pub fn get_short_status(&self) -> (r: Result<String, RepoError>)
        ensures
            r is Ok ==> exists|entries: Seq<(String, u32)>| r->Ok_0@ == #[trigger] short_status_of(entries),
    {
        let repo = self.as_git2_repo()?;
        match repository_statuses(&repo, &short_status_query()) {
            Ok(entries) => Ok(short_status(&entries)),
            Err(_) => Err(RepoError::Backend),
        }
    }

    /// The status lines of a query with the given options.
    pub fn get_status_lines(&self, query: StatusQuery) -> (r: Result<Vec<String>, RepoError>)
        ensures
            r is Ok ==> exists|entries: Seq<(String, u32)>|
                texts(r->Ok_0@) == #[trigger] status_lines_of(entries),
    {
        let repo = self.as_git2_repo()?;
        match repository_statuses(&repo, &query) {
            Ok(entries) => Ok(status_lines(&entries)),
            Err(_) => Err(RepoError::Backend),
        }
    }

    /// Returns the list of stash entries for the repo.
    pub fn get_stash_list(&self) -> (r: Result<Vec<String>, RepoError>)
        ensures
            r is Ok ==> exists|messages: Seq<String>|
                texts(r->Ok_0@) == #[trigger] stash_lines_of(messages),
    {
        let repo = self.as_git2_repo()?;
        match stash_messages(&repo) {
            Ok(entries) => Ok(stash_lines(&entries)),
            Err(_) => Err(RepoError::Backend),
        }
    }
}

} // verus!
