//! Discovery of repository roots: the decisions of a filesystem walk, fed one
//! directory listing at a time by the caller that reads the disk.

use vstd::prelude::*;
use crate::cache::{contains_text, no_duplicates};
use crate::repo::texts;

verus! {

/// What a directory entry is, after following symlinks.
#[derive(Clone, Copy, Debug, PartialEq, Eq, Structural)]
pub enum EntryKind {
    Dir,
    File,
    Other,
}

/// One entry of a directory listing.
#[derive(Clone, Debug, PartialEq, Eq)]
pub struct DirEntry {
    /// The entry's file name.
    pub name: String,
    /// What the entry is; a symlink reports its target's kind.
    pub kind: EntryKind,
    /// The entry's canonical path (symlinks resolved).
    pub canonical: String,
}

/// What reading a directory gave.
#[derive(Clone, Debug, PartialEq, Eq)]
pub enum Listing {
    Entries(Vec<DirEntry>),
    /// The directory could not be read (permission denied, vanished, ...).
    Unreadable,
}

/// The state of a walk.
pub struct Scanner {
    /// Directories still to be read (canonical paths); the last is read next.
    pub pending: Vec<String>,
    /// Every directory ever queued (canonical paths).
    pub visited: Vec<String>,
    /// Repository roots found so far.
    pub found: Vec<String>,
    /// Directories that could not be read.
    pub warnings: Vec<String>,
    /// Canonical paths that are never entered.
    pub exclude: Vec<String>,
    /// Whether directories whose names start with `.` are skipped.
    pub skip_hidden: bool,
}

pub open spec fn git_marker() -> Seq<char> {
    seq!['.', 'g', 'i', 't']
}

/// A listing that holds a repository marker: a `.git` entry of any kind.
pub open spec fn has_marker(entries: Seq<DirEntry>) -> bool {
    exists|k: int| 0 <= k < entries.len() && (#[trigger] entries[k]).name@ == git_marker()
}

/// Whether the walk enters the directory entry `e`.
pub open spec fn descends(e: DirEntry, exclude: Seq<Seq<char>>, skip_hidden: bool) -> bool {
    &&& e.kind == EntryKind::Dir
    &&& e.name@ != git_marker()
    &&& !(skip_hidden && e.name@.len() > 0 && e.name@[0] == '.')
    &&& !exclude.contains(e.canonical@)
}

/// The canonical paths of the entries that the walk enters.
pub open spec fn children(
    entries: Seq<DirEntry>,
    exclude: Seq<Seq<char>>,
    skip_hidden: bool,
) -> Set<Seq<char>> {
    Set::new(
        |p: Seq<char>|
            exists|k: int|
                0 <= k < entries.len() && descends(entries[k], exclude, skip_hidden)
                    && (#[trigger] entries[k]).canonical@ == p,
    )
}

/// Whether `name` is the repository marker `.git`.
pub fn is_marker(name: &String) -> (r: bool)
    ensures
        r == (name@ == git_marker()),
{
    proof {
        reveal_strlit(".git");
    }
    let marker = String::from_str(".git");
    assert(marker@ =~= git_marker());
    name.eq(&marker)
}

/// Whether `name` is hidden: it starts with `.`.
pub fn is_hidden(name: &String) -> (r: bool)
    ensures
        r == (name@.len() > 0 && name@[0] == '.'),
{
    let s = name.as_str();
    s.unicode_len() > 0 && s.get_char(0) == '.'
}

/// Whether the walk enters the directory entry `e`.
pub fn should_descend(e: &DirEntry, exclude: &Vec<String>, skip_hidden: bool) -> (r: bool)
    ensures
        r == descends(*e, texts(exclude@), skip_hidden),
{
    match e.kind {
        EntryKind::Dir => {},
        _ => return false,
    }
    if is_marker(&e.name) {
        return false;
    }
    if skip_hidden && is_hidden(&e.name) {
        return false;
    }
    !contains_text(exclude, &e.canonical)
}

impl Scanner {
    /// The walk's invariant: nothing is queued twice, each root is found once,
    /// and every pending directory has been recorded as queued.
    pub open spec fn wf(&self) -> bool {
        &&& no_duplicates(texts(self.visited@))
        &&& no_duplicates(texts(self.found@))
        &&& no_duplicates(texts(self.pending@))
        &&& forall|k: int|
            0 <= k < self.pending@.len() ==> texts(self.visited@).contains(
                #[trigger] self.pending@[k]@,
            )
    }

    /// A walk that starts at `roots`.
    pub fn new(roots: Vec<String>, exclude: Vec<String>, skip_hidden: bool) -> (r: Scanner)
        ensures
            r.wf(),
            texts(r.visited@).to_set() == texts(roots@).to_set(),
            texts(r.pending@).to_set() == texts(roots@).to_set(),
            r.found@.len() == 0,
            r.warnings@.len() == 0,
            r.exclude@ == exclude@,
            r.skip_hidden == skip_hidden,
    {
        let mut visited: Vec<String> = Vec::new();
        let mut i: usize = 0;
        while i < roots.len()
            invariant
                i <= roots@.len(),
                no_duplicates(texts(visited@)),
                texts(visited@).to_set() == texts(roots@).take(i as int).to_set(),
            decreases roots@.len() - i,
        {
            let ghost before = texts(visited@);
            if !contains_text(&visited, &roots[i]) {
                visited.push(roots[i].clone());
                assert(texts(visited@) =~= before.push(roots@[i as int]@));
                proof {
                    before.lemma_push_to_set_commute(roots@[i as int]@);
                }
            }
            proof {
                let rs = texts(roots@);
                assert(rs.take(i + 1) =~= rs.take(i as int).push(rs[i as int]));
                rs.take(i as int).lemma_push_to_set_commute(rs[i as int]);
                assert(texts(visited@).to_set() =~= rs.take(i + 1).to_set());
            }
            i = i + 1;
        }
        assert(texts(roots@).take(roots@.len() as int) =~= texts(roots@));
        let pending = visited.clone();
        assert(pending@ == visited@);
        let r = Scanner {
            pending,
            visited,
            found: Vec::new(),
            warnings: Vec::new(),
            exclude,
            skip_hidden,
        };
        assert(texts(r.found@) =~= Seq::<Seq<char>>::empty());
        assert forall|k: int| 0 <= k < r.pending@.len() implies texts(r.visited@).contains(
            #[trigger] r.pending@[k]@,
        ) by {
            assert(texts(r.visited@)[k] == r.pending@[k]@);
        }
        r
    }

    /// Takes the next directory to read, if any.
    pub fn next_dir(&mut self) -> (r: Option<String>)
        requires
            old(self).wf(),
        ensures
            final(self).wf(),
            final(self).visited@ == old(self).visited@,
            final(self).found@ == old(self).found@,
            final(self).warnings@ == old(self).warnings@,
            final(self).exclude@ == old(self).exclude@,
            final(self).skip_hidden == old(self).skip_hidden,
            old(self).pending@.len() == 0 ==> r is None && final(self).pending@.len() == 0,
            old(self).pending@.len() > 0 ==> r is Some && r->Some_0 == old(self).pending@.last()
                && final(self).pending@ == old(self).pending@.drop_last(),
    {
        let r = self.pending.pop();
        proof {
            let p = self.pending@;
            if old(self).pending@.len() > 0 {
                assert(texts(p) =~= texts(old(self).pending@).drop_last());
            }
            assert forall|k: int| 0 <= k < p.len() implies texts(self.visited@).contains(
                #[trigger] p[k]@,
            ) by {
                assert(p[k] == old(self).pending@[k]);
            }
        }
        r
    }

    /// Takes in the listing of `dir`, a directory that `next_dir` gave. An
    /// unreadable directory is recorded as a warning. Otherwise `dir` is found as
    /// a repository root when the listing holds a `.git` entry, and each entry
    /// that the walk enters is queued unless it was queued before; `.git` itself
    /// is never entered.
    pub fn visit(&mut self, dir: String, listing: &Listing)
        requires
            old(self).wf(),
        ensures
            final(self).wf(),
            final(self).exclude@ == old(self).exclude@,
            final(self).skip_hidden == old(self).skip_hidden,
            match listing {
                Listing::Unreadable => {
                    &&& final(self).warnings@ == old(self).warnings@.push(dir)
                    &&& final(self).found@ == old(self).found@
                    &&& final(self).visited@ == old(self).visited@
                    &&& final(self).pending@ == old(self).pending@
                },
                Listing::Entries(es) => {
                    &&& final(self).warnings@ == old(self).warnings@
                    &&& texts(final(self).found@).to_set() == found_after(
                        texts(old(self).found@).to_set(),
                        dir@,
                        has_marker(es@),
                    )
                    &&& texts(final(self).visited@).to_set() == texts(old(self).visited@).to_set().union(
                        children(es@, texts(old(self).exclude@), old(self).skip_hidden),
                    )
                    &&& old(self).pending@.len() <= final(self).pending@.len()
                    &&& final(self).pending@.subrange(0, old(self).pending@.len() as int)
                        == old(self).pending@
                    &&& queued_fresh(old(self).pending@, final(self).pending@, texts(old(self).visited@))
                    &&& forall|p: Seq<char>|
                        #[trigger] texts(final(self).visited@).contains(p) && !texts(
                            old(self).visited@,
                        ).contains(p) ==> texts(final(self).pending@).contains(p)
                },
            },
    {
        let es = match listing {
            Listing::Unreadable => {
                self.warnings.push(dir);
                return;
            },
            Listing::Entries(es) => es,
        };
        let ghost ex = texts(self.exclude@);
        let ghost v0 = texts(self.visited@);
        let ghost p0 = self.pending@;
        let mut marker = false;
        let mut j: usize = 0;
        proof {
            assert(children(es@.take(0), ex, self.skip_hidden) =~= Set::empty());
            assert(v0.to_set().union(Set::empty()) =~= v0.to_set());
            assert(self.pending@.subrange(0, p0.len() as int) =~= p0);
        }
        while j < es.len()
            invariant
                self.wf(),
                ex == texts(self.exclude@),
                self.exclude@ == old(self).exclude@,
                self.skip_hidden == old(self).skip_hidden,
                self.found@ == old(self).found@,
                self.warnings@ == old(self).warnings@,
                v0 == texts(old(self).visited@),
                p0 == old(self).pending@,
                j <= es@.len(),
                marker == exists|k: int| 0 <= k < j && (#[trigger] es@[k]).name@ == git_marker(),
                texts(self.visited@).to_set() == v0.to_set().union(
                    children(es@.take(j as int), ex, self.skip_hidden),
                ),
                p0.len() <= self.pending@.len(),
                self.pending@.subrange(0, p0.len() as int) == p0,
                forall|k: int|
                    p0.len() <= k < self.pending@.len() ==> !v0.contains(#[trigger] self.pending@[k]@),
                forall|p: Seq<char>|
                    #[trigger] texts(self.visited@).contains(p) && !v0.contains(p) ==> texts(
                        self.pending@,
                    ).contains(p),
            decreases es@.len() - j,
        {
            let e = &es[j];
            if is_marker(&e.name) {
                marker = true;
            }
            let ghost vis = texts(self.visited@);
            let ghost pen = self.pending@;
            if should_descend(e, &self.exclude, self.skip_hidden) {
                if !contains_text(&self.visited, &e.canonical) {
                    self.visited.push(e.canonical.clone());
                    self.pending.push(e.canonical.clone());
                    proof {
                        assert(texts(self.visited@) =~= vis.push(e.canonical@));
                        vis.lemma_push_to_set_commute(e.canonical@);
                        assert(texts(self.pending@) =~= texts(pen).push(e.canonical@));
                        assert forall|k: int| 0 <= k < self.pending@.len() implies texts(
                            self.visited@,
                        ).contains(#[trigger] self.pending@[k]@) by {
                            if k < pen.len() {
                                assert(self.pending@[k] == pen[k]);
                                let m = choose|m: int| 0 <= m < vis.len() && vis[m] == pen[k]@;
                                assert(texts(self.visited@)[m] == vis[m]);
                            } else {
                                assert(texts(self.visited@)[vis.len() as int] == e.canonical@);
                            }
                        }
                        assert(!v0.contains(e.canonical@)) by {
                            if v0.contains(e.canonical@) {
                                assert(v0.to_set().contains(e.canonical@));
                                assert(vis.to_set().contains(e.canonical@));
                            }
                        }
                        assert(self.pending@.subrange(0, p0.len() as int) =~= pen.subrange(0, p0.len() as int));
                        assert forall|q: Seq<char>|
                            #[trigger] texts(self.visited@).contains(q) && !v0.contains(q) implies texts(
                                self.pending@,
                            ).contains(q) by {
                            if q == e.canonical@ {
                                assert(texts(self.pending@)[pen.len() as int] == q);
                            } else {
                                let m = choose|m: int|
                                    0 <= m < texts(self.visited@).len() && texts(self.visited@)[m] == q;
                                assert(m < vis.len());
                                assert(vis[m] == q);
                                assert(vis.contains(q));
                                let n = choose|n: int| 0 <= n < texts(pen).len() && texts(pen)[n] == q;
                                assert(texts(self.pending@)[n] == q);
                            }
                        }
                        assert forall|k: int| p0.len() <= k < self.pending@.len() implies !v0.contains(
                            #[trigger] self.pending@[k]@,
                        ) by {
                            if k < pen.len() {
                                assert(self.pending@[k] == pen[k]);
                            }
                        }
                    }
                }
            }
            proof {
                let s = es@.take(j as int);
                let s1 = es@.take(j + 1);
                assert(s1 =~= s.push(es@[j as int]));
                assert forall|p: Seq<char>| #[trigger] texts(self.visited@).to_set().contains(p) <==> v0.to_set().union(children(s1, ex, self.skip_hidden)).contains(p) by {
                    if children(s1, ex, self.skip_hidden).contains(p) {
                        let k = choose|k: int|
                            0 <= k < s1.len() && descends(s1[k], ex, self.skip_hidden)
                                && (#[trigger] s1[k]).canonical@ == p;
                        if k < j {
                            assert(s[k] == s1[k]);
                            assert(children(s, ex, self.skip_hidden).contains(p));
                        }
                    }
                    if children(s, ex, self.skip_hidden).contains(p) {
                        let k = choose|k: int|
                            0 <= k < s.len() && descends(s[k], ex, self.skip_hidden)
                                && (#[trigger] s[k]).canonical@ == p;
                        assert(s1[k] == s[k]);
                    }
                    if descends(es@[j as int], ex, self.skip_hidden) && p == es@[j as int].canonical@ {
                        assert(s1[j as int] == es@[j as int]);
                        assert(children(s1, ex, self.skip_hidden).contains(p));
                    }
                    assert(vis.to_set().contains(p) == vis.contains(p));
                }
                assert(texts(self.visited@).to_set() =~= v0.to_set().union(children(s1, ex, self.skip_hidden)));
                if es@[j as int].name@ == git_marker() {
                    assert(s1[j as int] == es@[j as int]);
                }
            }
            j = j + 1;
        }
        assert(es@.take(es@.len() as int) =~= es@);
        let ghost f0 = texts(self.found@);
        if marker && !contains_text(&self.found, &dir) {
            self.found.push(dir);
            proof {
                assert(texts(self.found@) =~= f0.push(dir@));
                f0.lemma_push_to_set_commute(dir@);
            }
        } else if marker {
            assert(texts(self.found@).to_set() =~= f0.to_set().insert(dir@));
        }
    }
}

/// `after` is `before` with directories appended, none of which was in `seen`.
pub open spec fn queued_fresh(before: Seq<String>, after: Seq<String>, seen: Seq<Seq<char>>) -> bool {
    &&& before.len() <= after.len()
    &&& after.subrange(0, before.len() as int) == before
    &&& forall|k: int| before.len() <= k < after.len() ==> !seen.contains(#[trigger] after[k]@)
}

/// A directory that was queued before, such as an ancestor reached again
/// through a symlink, is not queued again by taking in a listing. With the
/// walk's invariant that nothing is queued twice, each directory is read at
/// most once, so the walk over a finite tree ends whatever cycles its symlinks
/// make.
pub proof fn lemma_no_requeue(
    before: Seq<String>,
    after: Seq<String>,
    seen: Seq<Seq<char>>,
    p: Seq<char>,
    k: int,
)
    requires
        queued_fresh(before, after, seen),
        seen.contains(p),
        before.len() <= k < after.len(),
    ensures
        after[k]@ != p,
{
}

/// How one listing changes the set of roots found: `dir` joins it when the
/// listing held a marker.
pub open spec fn found_after(found: Set<Seq<char>>, dir: Seq<char>, marked: bool) -> Set<Seq<char>> {
    if marked {
        found.insert(dir)
    } else {
        found
    }
}

/// The set of roots found does not depend on the order in which two listings
/// are taken in.
pub proof fn lemma_found_order_independent(
    found: Set<Seq<char>>,
    d1: Seq<char>,
    m1: bool,
    d2: Seq<char>,
    m2: bool,
)
    ensures
        found_after(found_after(found, d1, m1), d2, m2) == found_after(
            found_after(found, d2, m2),
            d1,
            m1,
        ),
{
    assert(found_after(found_after(found, d1, m1), d2, m2) =~= found_after(
        found_after(found, d2, m2),
        d1,
        m1,
    ));
}

} // verus!
