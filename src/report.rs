//! Consolidated reports over many repositories.

use vstd::prelude::*;
use vstd::multiset::Multiset;
use crate::text::{i64_to_decimal, signed_decimal};
use crate::order::{seq_lt, text_lt, lemma_seq_lt_transitive, lemma_seq_lt_asymmetric};
use crate::repo::{Repo, RepoError, short_status_of, last_commit_age};

verus! {

broadcast use vstd::seq_lib::group_to_multiset_ensures;

/// What a report says of one repository.
#[derive(Clone, Debug, PartialEq, Eq)]
pub enum Summary {
    /// The repository answered: the age of its last commit in hours and its
    /// short status code.
    Accessible { age_hours: i64, status: String },
    /// The repository no longer opens, or could not answer.
    Inaccessible,
}

/// One line of a report.
#[derive(Clone, Debug, PartialEq, Eq)]
pub struct ReportEntry {
    pub path: String,
    pub summary: Summary,
}

/// The order in which a report lists its entries.
#[derive(Clone, Copy, Debug, PartialEq, Eq, Structural)]
pub enum ReportOrder {
    /// By path.
    Path,
    /// By last-commit age, then by path; inaccessible entries last.
    Age,
    /// By short status code, then by path; inaccessible entries last.
    Status,
}

/// 0 for an accessible entry, 1 for an inaccessible one.
pub open spec fn rank(e: ReportEntry) -> int {
    match e.summary {
        Summary::Accessible { .. } => 0,
        Summary::Inaccessible => 1,
    }
}

pub open spec fn age_of(e: ReportEntry) -> int {
    match e.summary {
        Summary::Accessible { age_hours, .. } => age_hours as int,
        Summary::Inaccessible => 0,
    }
}

pub open spec fn status_of(e: ReportEntry) -> Seq<char> {
    match e.summary {
        Summary::Accessible { status, .. } => status@,
        Summary::Inaccessible => Seq::empty(),
    }
}

/// `a` is listed strictly before `b` under `order`.
pub open spec fn entry_before(a: ReportEntry, b: ReportEntry, order: ReportOrder) -> bool {
    let by_path = seq_lt(a.path@, b.path@);
    match order {
        ReportOrder::Path => by_path,
        ReportOrder::Age => rank(a) < rank(b) || (rank(a) == rank(b) && (age_of(a) < age_of(b)
            || (age_of(a) == age_of(b) && by_path))),
        ReportOrder::Status => rank(a) < rank(b) || (rank(a) == rank(b) && (seq_lt(
            status_of(a),
            status_of(b),
        ) || (status_of(a) == status_of(b) && by_path))),
    }
}

/// No entry of `s` is listed strictly before an entry that precedes it.
pub open spec fn sorted_by(s: Seq<ReportEntry>, order: ReportOrder) -> bool {
    forall|i: int, j: int|
        0 <= i < j < s.len() ==> !entry_before(#[trigger] s[j], #[trigger] s[i], order)
}

pub proof fn lemma_before_transitive(
    a: ReportEntry,
    b: ReportEntry,
    c: ReportEntry,
    order: ReportOrder,
)
    requires
        entry_before(a, b, order),
        entry_before(b, c, order),
    ensures
        entry_before(a, c, order),
{
    if seq_lt(a.path@, b.path@) && seq_lt(b.path@, c.path@) {
        lemma_seq_lt_transitive(a.path@, b.path@, c.path@);
    }
    if seq_lt(status_of(a), status_of(b)) && seq_lt(status_of(b), status_of(c)) {
        lemma_seq_lt_transitive(status_of(a), status_of(b), status_of(c));
    }
}

pub proof fn lemma_before_asymmetric(a: ReportEntry, b: ReportEntry, order: ReportOrder)
    requires
        entry_before(a, b, order),
    ensures
        !entry_before(b, a, order),
{
    if seq_lt(a.path@, b.path@) {
        lemma_seq_lt_asymmetric(a.path@, b.path@);
    }
    if seq_lt(status_of(a), status_of(b)) {
        lemma_seq_lt_asymmetric(status_of(a), status_of(b));
    }
}

/// Whether `a` is listed strictly before `b` under `order`.
pub fn is_before(a: &ReportEntry, b: &ReportEntry, order: ReportOrder) -> (r: bool)
    ensures
        r == entry_before(*a, *b, order),
{
    let by_path = text_lt(a.path.as_str(), b.path.as_str());
    match order {
        ReportOrder::Path => by_path,
        ReportOrder::Age => match (&a.summary, &b.summary) {
            (Summary::Accessible { age_hours: x, .. }, Summary::Accessible { age_hours: y, .. }) => {
                *x < *y || (*x == *y && by_path)
            },
            (Summary::Accessible { .. }, Summary::Inaccessible) => true,
            (Summary::Inaccessible, Summary::Accessible { .. }) => false,
            (Summary::Inaccessible, Summary::Inaccessible) => by_path,
        },
        ReportOrder::Status => match (&a.summary, &b.summary) {
            (Summary::Accessible { status: x, .. }, Summary::Accessible { status: y, .. }) => {
                let lt = text_lt(x.as_str(), y.as_str());
                let gt = text_lt(y.as_str(), x.as_str());
                proof {
                    if !lt && !gt && x@ != y@ {
                        crate::order::lemma_seq_lt_total(x@, y@);
                    }
                    if lt {
                        crate::order::lemma_seq_lt_irreflexive(x@);
                    }
                }
                lt || (!gt && by_path)
            },
            (Summary::Accessible { .. }, Summary::Inaccessible) => true,
            (Summary::Inaccessible, Summary::Accessible { .. }) => false,
            (Summary::Inaccessible, Summary::Inaccessible) => by_path,
        },
    }
}

/// The entries in the order `order` asks for. An entry goes after every
/// earlier entry that it is not listed strictly before.
pub fn sort_entries(entries: Vec<ReportEntry>, order: ReportOrder) -> (r: Vec<ReportEntry>)
    ensures
        sorted_by(r@, order),
        r@.to_multiset() == entries@.to_multiset(),
{
    let ghost all = entries@;
    let mut rest = entries;
    let mut r: Vec<ReportEntry> = Vec::new();
    while rest.len() > 0
        invariant
            sorted_by(r@, order),
            r@.to_multiset().add(rest@.to_multiset()) == all.to_multiset(),
        decreases rest@.len(),
    {
        let ghost old_rest = rest@;
        let x = rest.remove(0);
        let mut p: usize = 0;
        while p < r.len() && !is_before(&x, &r[p], order)
            invariant
                p <= r@.len(),
                forall|k: int| 0 <= k < p ==> !entry_before(x, #[trigger] r@[k], order),
            decreases r@.len() - p,
        {
            p = p + 1;
        }
        let ghost old_r = r@;
        r.insert(p, x);
        proof {
            assert forall|a: int, b: int| 0 <= a < b < r@.len() implies !entry_before(
                #[trigger] r@[b],
                #[trigger] r@[a],
                order,
            ) by {
                if a == p as int {
                    if entry_before(r@[b], x, order) {
                        lemma_before_transitive(r@[b], x, old_r[p as int], order);
                        assert(r@[b] == old_r[b - 1]);
                        if b - 1 == p as int {
                            lemma_before_asymmetric(r@[b], x, order);
                        }
                    }
                } else if a < p && b > p {
                    assert(r@[a] == old_r[a]);
                    assert(r@[b] == old_r[b - 1]);
                } else if b > p {
                    assert(r@[a] == old_r[a - 1]);
                    assert(r@[b] == old_r[b - 1]);
                } else if b < p {
                    assert(r@[a] == old_r[a]);
                    assert(r@[b] == old_r[b]);
                }
            }
            assert(old_rest.to_multiset().count(x) > 0) by {
                assert(old_rest[0] == x);
            }
            assert(r@.to_multiset().add(rest@.to_multiset()) =~= old_r.to_multiset().add(
                old_rest.to_multiset(),
            ));
        }
    }
    assert(rest@.to_multiset() =~= Multiset::empty());
    assert(r@.to_multiset().add(rest@.to_multiset()) =~= r@.to_multiset());
    r
}

/// Entries `a` and `b` with different paths: one is listed strictly before
/// the other.
pub proof fn lemma_before_total(a: ReportEntry, b: ReportEntry, order: ReportOrder)
    requires
        a.path@ != b.path@,
    ensures
        entry_before(a, b, order) || entry_before(b, a, order),
{
    crate::order::lemma_seq_lt_total(a.path@, b.path@);
    if status_of(a) != status_of(b) {
        crate::order::lemma_seq_lt_total(status_of(a), status_of(b));
    }
}

/// No two entries share a path.
pub open spec fn distinct_paths(s: Seq<ReportEntry>) -> bool {
    forall|i: int, j: int|
        0 <= i < s.len() && 0 <= j < s.len() && i != j ==> #[trigger] s[i].path@ != #[trigger] s[j].path@
}

/// Report determinism: two orderings of the same entries, with distinct paths,
/// that are both sorted under `order` are the same sequence.
pub proof fn lemma_sorted_unique(s1: Seq<ReportEntry>, s2: Seq<ReportEntry>, order: ReportOrder)
    requires
        sorted_by(s1, order),
        sorted_by(s2, order),
        s1.to_multiset() == s2.to_multiset(),
        distinct_paths(s1),
    ensures
        s1 == s2,
    decreases s1.len(),
{
    broadcast use vstd::multiset::group_multiset_axioms;

    s1.to_multiset_ensures();
    s2.to_multiset_ensures();
    if s1.len() == 0 {
        assert(s2.len() == 0);
        assert(s1 =~= s2);
        return;
    }
    let e = s1[0];
    assert(s1.to_multiset().count(e) > 0);
    assert(s2.contains(e));
    let k = choose|k: int| 0 <= k < s2.len() && s2[k] == e;
    let f = s2[0];
    assert(s2.to_multiset().count(f) > 0);
    assert(s1.contains(f));
    let m = choose|m: int| 0 <= m < s1.len() && s1[m] == f;
    if e != f {
        assert(m != 0);
        assert(k != 0);
        assert(!entry_before(s1[m], s1[0], order));
        assert(!entry_before(s2[k], s2[0], order));
        lemma_before_total(e, f, order);
    }
    assert(s1[0] == s2[0]);
    let t1 = s1.drop_first();
    let t2 = s2.drop_first();
    vstd::seq_lib::to_multiset_remove(s1, 0);
    vstd::seq_lib::to_multiset_remove(s2, 0);
    assert(s1.remove(0) =~= t1);
    assert(s2.remove(0) =~= t2);
    assert forall|i: int, j: int| 0 <= i < j < t1.len() implies !entry_before(
        #[trigger] t1[j],
        #[trigger] t1[i],
        order,
    ) by {
        assert(t1[j] == s1[j + 1] && t1[i] == s1[i + 1]);
    }
    assert forall|i: int, j: int| 0 <= i < j < t2.len() implies !entry_before(
        #[trigger] t2[j],
        #[trigger] t2[i],
        order,
    ) by {
        assert(t2[j] == s2[j + 1] && t2[i] == s2[i + 1]);
    }
    assert forall|i: int, j: int|
        0 <= i < t1.len() && 0 <= j < t1.len() && i != j implies #[trigger] t1[i].path@
        != #[trigger] t1[j].path@ by {
        assert(t1[j] == s1[j + 1] && t1[i] == s1[i + 1]);
    }
    lemma_sorted_unique(t1, t2, order);
    assert(s1 =~= seq![e] + t1);
    assert(s2 =~= seq![e] + t2);
}

/// The paths that `s` lists.
pub open spec fn path_set(s: Seq<ReportEntry>) -> Set<Seq<char>> {
    Set::new(|p: Seq<char>| exists|i: int| 0 <= i < s.len() && (#[trigger] s[i]).path@ == p)
}

/// The paths of `handles`.
pub open spec fn handle_paths(handles: Seq<Repo>) -> Set<Seq<char>> {
    Set::new(|p: Seq<char>| exists|i: int| 0 <= i < handles.len() && (#[trigger] handles[i])@ == p)
}

/// No two handles share a path.
pub open spec fn distinct_handles(handles: Seq<Repo>) -> bool {
    forall|i: int, j: int|
        0 <= i < handles.len() && 0 <= j < handles.len() && i != j ==> #[trigger] handles[i]@
            != #[trigger] handles[j]@
}

proof fn lemma_path_order_unique(s1: Seq<ReportEntry>, s2: Seq<ReportEntry>)
    requires
        sorted_by(s1, ReportOrder::Path),
        sorted_by(s2, ReportOrder::Path),
        distinct_paths(s1),
        distinct_paths(s2),
        path_set(s1) == path_set(s2),
        s1.len() == s2.len(),
    ensures
        forall|i: int| 0 <= i < s1.len() ==> (#[trigger] s1[i]).path@ == s2[i].path@,
    decreases s1.len(),
{
    if s1.len() == 0 {
        return;
    }
    let a = s1[0].path@;
    let b = s2[0].path@;
    assert(path_set(s2).contains(b));
    assert(path_set(s1).contains(a));
    let m = choose|m: int| 0 <= m < s1.len() && (#[trigger] s1[m]).path@ == b;
    let k = choose|k: int| 0 <= k < s2.len() && (#[trigger] s2[k]).path@ == a;
    if a != b {
        assert(m != 0);
        assert(k != 0);
        assert(!entry_before(s1[m], s1[0], ReportOrder::Path));
        assert(!entry_before(s2[k], s2[0], ReportOrder::Path));
        crate::order::lemma_seq_lt_total(a, b);
    }
    let t1 = s1.drop_first();
    let t2 = s2.drop_first();
    assert forall|i: int, j: int| 0 <= i < j < t1.len() implies !entry_before(
        #[trigger] t1[j],
        #[trigger] t1[i],
        ReportOrder::Path,
    ) by {
        assert(t1[j] == s1[j + 1] && t1[i] == s1[i + 1]);
    }
    assert forall|i: int, j: int| 0 <= i < j < t2.len() implies !entry_before(
        #[trigger] t2[j],
        #[trigger] t2[i],
        ReportOrder::Path,
    ) by {
        assert(t2[j] == s2[j + 1] && t2[i] == s2[i + 1]);
    }
    assert forall|i: int, j: int|
        0 <= i < t1.len() && 0 <= j < t1.len() && i != j implies #[trigger] t1[i].path@
        != #[trigger] t1[j].path@ by {
        assert(t1[j] == s1[j + 1] && t1[i] == s1[i + 1]);
    }
    assert forall|i: int, j: int|
        0 <= i < t2.len() && 0 <= j < t2.len() && i != j implies #[trigger] t2[i].path@
        != #[trigger] t2[j].path@ by {
        assert(t2[j] == s2[j + 1] && t2[i] == s2[i + 1]);
    }
    assert forall|p: Seq<char>| #[trigger] path_set(t1).contains(p) <==> path_set(t2).contains(p) by {
        if path_set(t1).contains(p) {
            let i = choose|i: int| 0 <= i < t1.len() && (#[trigger] t1[i]).path@ == p;
            assert(s1[i + 1].path@ == p);
            assert(path_set(s1).contains(p));
            assert(path_set(s2).contains(p));
            let j = choose|j: int| 0 <= j < s2.len() && (#[trigger] s2[j]).path@ == p;
            assert(p != a);
            assert(j != 0);
            assert(t2[j - 1].path@ == p);
        }
        if path_set(t2).contains(p) {
            let i = choose|i: int| 0 <= i < t2.len() && (#[trigger] t2[i]).path@ == p;
            assert(s2[i + 1].path@ == p);
            assert(path_set(s2).contains(p));
            assert(path_set(s1).contains(p));
            let j = choose|j: int| 0 <= j < s1.len() && (#[trigger] s1[j]).path@ == p;
            assert(p != b);
            assert(j != 0);
            assert(t1[j - 1].path@ == p);
        }
    }
    assert(path_set(t1) =~= path_set(t2));
    lemma_path_order_unique(t1, t2);
    assert forall|i: int| 0 <= i < s1.len() implies (#[trigger] s1[i]).path@ == s2[i].path@ by {
        if i > 0 {
            assert(t1[i - 1] == s1[i] && t2[i - 1] == s2[i]);
        }
    }
}

/// Report determinism: two path-ordered reports over the same handles, no two
/// of which share a path, each listing every handle's path once, list the same
/// paths in the same order, whatever their summaries say.
pub proof fn lemma_builds_same_path_order(
    handles: Seq<Repo>,
    s1: Seq<ReportEntry>,
    s2: Seq<ReportEntry>,
)
    requires
        distinct_handles(handles),
        sorted_by(s1, ReportOrder::Path),
        sorted_by(s2, ReportOrder::Path),
        s1.len() == handles.len(),
        s2.len() == handles.len(),
        path_set(s1) == handle_paths(handles),
        path_set(s2) == handle_paths(handles),
        distinct_paths(s1),
        distinct_paths(s2),
    ensures
        forall|i: int| 0 <= i < s1.len() ==> (#[trigger] s1[i]).path@ == s2[i].path@,
{
    lemma_path_order_unique(s1, s2);
}

/// A report: one entry per repository, in the order it was built with.
pub struct Report {
    pub entries: Vec<ReportEntry>,
    pub order: ReportOrder,
}

/// What a summary can hold when it comes from the backend: a short status
/// code that some status listing gives, and an age that some commit time and
/// clock reading give.
pub open spec fn backend_summary(s: Summary) -> bool {
    match s {
        Summary::Accessible { age_hours, status } => (exists|es: Seq<(String, u32)>|
            status@ == #[trigger] short_status_of(es)) && (exists|c: Option<i64>, now: i64|
            age_hours as int == #[trigger] last_commit_age(c, now)),
        Summary::Inaccessible => true,
    }
}

/// The summary of a repository whose short status query gave `status` and
/// whose last commit is `age_hours` old: inaccessible exactly when the query
/// failed.
pub fn summary_of(status: Result<String, RepoError>, age_hours: i64) -> (r: Summary)
    ensures
        r == (match status {
            Ok(s) => Summary::Accessible { age_hours, status: s },
            Err(_) => Summary::Inaccessible,
        }),
{
    match status {
        Ok(s) => Summary::Accessible { age_hours, status: s },
        Err(_) => Summary::Inaccessible,
    }
}

/// The report's summary of one repository: its age and short status where it
/// answers, else inaccessible.
pub fn summarize(repo: &Repo) -> (r: ReportEntry)
    ensures
        r.path@ == repo@,
        backend_summary(r.summary),
{
    let status = repo.get_short_status();
    let age = match &status {
        Ok(_) => repo.num_hours_since_last_commit(),
        Err(_) => i64::MAX,
    };
    let summary = summary_of(status, age);
    ReportEntry { path: repo.path(), summary }
}

impl Report {
    /// A report of the given entries, listed in `order`.
    pub fn from_entries(entries: Vec<ReportEntry>, order: ReportOrder) -> (r: Report)
        ensures
            r.order == order,
            sorted_by(r.entries@, order),
            r.entries@.to_multiset() == entries@.to_multiset(),
    {
        Report { entries: sort_entries(entries, order), order }
    }

    /// A report with one entry for each handle, listed in `order`; a handle that
    /// cannot be queried is included as inaccessible.
    pub fn build(handles: &Vec<Repo>, order: ReportOrder) -> (r: Report)
        ensures
            r.order == order,
            sorted_by(r.entries@, order),
            r.entries@.len() == handles@.len(),
            path_set(r.entries@) == handle_paths(handles@),
            distinct_handles(handles@) ==> distinct_paths(r.entries@),
            exists|es: Seq<ReportEntry>|
                #![trigger es.to_multiset()]
                es.len() == handles@.len() && (forall|i: int|
                    0 <= i < es.len() ==> (#[trigger] es[i]).path@ == handles@[i]@
                        && backend_summary(es[i].summary))
                    && r.entries@.to_multiset() == es.to_multiset(),
    {
        let mut es: Vec<ReportEntry> = Vec::new();
        let mut i: usize = 0;
        while i < handles.len()
            invariant
                i <= handles@.len(),
                es@.len() == i,
                forall|k: int|
                    0 <= k < i ==> (#[trigger] es@[k]).path@ == handles@[k]@ && backend_summary(
                        es@[k].summary,
                    ),
            decreases handles@.len() - i,
        {
            es.push(summarize(&handles[i]));
            i = i + 1;
        }
        let ghost all = es@;
        let r = Report::from_entries(es, order);
        assert(r.entries@.to_multiset() == all.to_multiset());
        proof {
            let rs = r.entries@;
            vstd::seq_lib::to_multiset_len(rs);
            vstd::seq_lib::to_multiset_len(all);
            assert forall|p: Seq<char>| #[trigger] path_set(rs).contains(p) <==> handle_paths(handles@).contains(p) by {
                if path_set(rs).contains(p) {
                    let i = choose|i: int| 0 <= i < rs.len() && (#[trigger] rs[i]).path@ == p;
                    assert(rs.to_multiset().count(rs[i]) > 0);
                    assert(all.contains(rs[i]));
                    let k = choose|k: int| 0 <= k < all.len() && all[k] == rs[i];
                    assert(handles@[k]@ == p);
                }
                if handle_paths(handles@).contains(p) {
                    let k = choose|k: int| 0 <= k < handles@.len() && (#[trigger] handles@[k])@ == p;
                    assert(all.to_multiset().count(all[k]) > 0);
                    assert(rs.contains(all[k]));
                    let i = choose|i: int| 0 <= i < rs.len() && rs[i] == all[k];
                    assert(rs[i].path@ == p);
                }
            }
            assert(path_set(rs) =~= handle_paths(handles@));
            if distinct_handles(handles@) {
                assert(all.no_duplicates()) by {
                    assert forall|i: int, j: int| 0 <= i < all.len() && 0 <= j < all.len() && i != j
                        implies all[i] != all[j] by {
                        assert(handles@[i]@ != handles@[j]@);
                    }
                }
                all.lemma_multiset_has_no_duplicates();
                rs.lemma_multiset_has_no_duplicates_conv();
                assert forall|i: int, j: int|
                    0 <= i < rs.len() && 0 <= j < rs.len() && i != j implies #[trigger] rs[i].path@
                    != #[trigger] rs[j].path@ by {
                    assert(rs[i] != rs[j]);
                    assert(rs.to_multiset().count(rs[i]) > 0);
                    assert(rs.to_multiset().count(rs[j]) > 0);
                    let a = choose|a: int| 0 <= a < all.len() && all[a] == rs[i];
                    let b = choose|b: int| 0 <= b < all.len() && all[b] == rs[j];
                    assert(a != b);
                    assert(handles@[a]@ != handles@[b]@);
                }
            }
        }
        r
    }
}

/// A column of the repository table.
#[derive(Clone, Copy, Debug, PartialEq, Eq, Structural, Hash)]
pub enum BasicColumn {
    Path,
    State,
    LastCommit,
}

/// The title of a column.
pub open spec fn column_title(c: BasicColumn) -> Seq<char> {
    match c {
        BasicColumn::Path => seq!['D', 'i', 'r', 'e', 'c', 't', 'o', 'r', 'y'],
        BasicColumn::State => seq!['S', 't', 'a', 't', 'e'],
        BasicColumn::LastCommit => seq!['L', 'a', 's', 't', ' ', 'c', 'o', 'm', 'm', 'i', 't'],
    }
}

impl BasicColumn {
    pub fn as_str(&self) -> (r: &'static str)
        ensures
            r@ == column_title(*self),
    {
        proof {
            reveal_strlit("Directory");
            reveal_strlit("State");
            reveal_strlit("Last commit");
        }
        let r = match *self {
            BasicColumn::Path => "Directory",
            BasicColumn::State => "State",
            BasicColumn::LastCommit => "Last commit",
        };
        assert(r@ =~= column_title(*self));
        r
    }
}

/// One row of the repository table.
#[derive(Clone, Debug)]
pub struct Row {
    pub repo: Repo,
    pub name: String,
    pub state: String,
    /// Hours since the last commit.
    pub last_commit: i64,
}

/// The text that `row` shows in `column`.
pub open spec fn cell(row: Row, column: BasicColumn) -> Seq<char> {
    match column {
        BasicColumn::Path => row.name@,
        BasicColumn::State => row.state@,
        BasicColumn::LastCommit => signed_decimal(row.last_commit as int),
    }
}

/// How two rows order under `column`: by path, by state text, or by age; equal
/// states and equal ages are ordered by path.
pub open spec fn compare_rows(a: Row, b: Row, column: BasicColumn) -> std::cmp::Ordering {
    match column {
        BasicColumn::LastCommit => if a.last_commit < b.last_commit {
            std::cmp::Ordering::Less
        } else if a.last_commit > b.last_commit {
            std::cmp::Ordering::Greater
        } else {
            compare_text(a.name@, b.name@)
        },
        BasicColumn::State => if a.state@ == b.state@ {
            compare_text(a.name@, b.name@)
        } else {
            compare_text(a.state@, b.state@)
        },
        BasicColumn::Path => compare_text(a.name@, b.name@),
    }
}

/// Lexicographic comparison of two texts.
pub open spec fn compare_text(a: Seq<char>, b: Seq<char>) -> std::cmp::Ordering {
    if seq_lt(a, b) {
        std::cmp::Ordering::Less
    } else if a == b {
        std::cmp::Ordering::Equal
    } else {
        std::cmp::Ordering::Greater
    }
}

impl Row {
    /// The text this row shows in `column`.
    pub fn to_column(&self, column: BasicColumn) -> (r: String)
        ensures
            r@ == cell(*self, column),
    {
        match column {
            BasicColumn::Path => self.name.clone(),
            BasicColumn::State => self.state.clone(),
            BasicColumn::LastCommit => i64_to_decimal(self.last_commit),
        }
    }

    /// Orders two rows under `column`.
    pub fn cmp(&self, other: &Row, column: BasicColumn) -> (r: std::cmp::Ordering)
        ensures
            r == compare_rows(*self, *other, column),
    {
        let (a, b) = match column {
            BasicColumn::LastCommit => {
                if self.last_commit < other.last_commit {
                    return std::cmp::Ordering::Less;
                } else if self.last_commit > other.last_commit {
                    return std::cmp::Ordering::Greater;
                }
                (self.name.clone(), other.name.clone())
            },
            BasicColumn::State => {
                if self.state.eq(&other.state) {
                    (self.name.clone(), other.name.clone())
                } else {
                    (self.state.clone(), other.state.clone())
                }
            },
            BasicColumn::Path => (self.name.clone(), other.name.clone()),
        };
        if text_lt(a.as_str(), b.as_str()) {
            std::cmp::Ordering::Less
        } else if a.eq(&b) {
            std::cmp::Ordering::Equal
        } else {
            std::cmp::Ordering::Greater
        }
    }
}

} // verus!
