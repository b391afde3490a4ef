//! The persisted registry of repository paths: its text format and merging.

use vstd::prelude::*;
use crate::repo::texts;

verus! {

/// The lines of `t` after the partial line `cur`, split at each `\n`; the last
/// line is whatever follows the last `\n`.
pub open spec fn split_from(t: Seq<char>, cur: Seq<char>) -> Seq<Seq<char>>
    decreases t.len(),
{
    if t.len() == 0 {
        seq![cur]
    } else if t[0] == '\n' {
        seq![cur] + split_from(t.drop_first(), Seq::empty())
    } else {
        split_from(t.drop_first(), cur.push(t[0]))
    }
}

/// The lines of `t`.
pub open spec fn split_lines(t: Seq<char>) -> Seq<Seq<char>> {
    split_from(t, Seq::empty())
}

/// The set of paths that a cache file's text records: its non-blank lines.
pub open spec fn cache_paths(t: Seq<char>) -> Set<Seq<char>> {
    Set::new(|p: Seq<char>| p.len() > 0 && split_lines(t).contains(p))
}

/// The text of a cache file that records `ps`: each path followed by `\n`.
pub open spec fn cache_text(ps: Seq<Seq<char>>) -> Seq<char>
    decreases ps.len(),
{
    if ps.len() == 0 {
        Seq::empty()
    } else {
        cache_text(ps.drop_last()) + ps.last() + seq!['\n']
    }
}

/// The non-blank lines among `lines`.
pub open spec fn nonblank(lines: Seq<Seq<char>>) -> Set<Seq<char>> {
    Set::new(|p: Seq<char>| p.len() > 0 && lines.contains(p))
}

/// No text occurs twice.
pub open spec fn no_duplicates(v: Seq<Seq<char>>) -> bool {
    forall|i: int, j: int| 0 <= i < j < v.len() ==> v[i] != v[j]
}

/// A path that the cache can hold: not empty, with no line break in it.
pub open spec fn storable(p: Seq<char>) -> bool {
    p.len() > 0 && !p.contains('\n')
}

/// Whether `v` holds the text `s`.
pub fn contains_text(v: &Vec<String>, s: &String) -> (r: bool)
    ensures
        r == texts(v@).contains(s@),
{
    let mut i: usize = 0;
    while i < v.len()
        invariant
            i <= v@.len(),
            forall|k: int| 0 <= k < i ==> (#[trigger] v@[k])@ != s@,
        decreases v@.len() - i,
    {
        if v[i].eq(s) {
            assert(texts(v@)[i as int] == s@);
            return true;
        }
        i = i + 1;
    }
    assert forall|k: int| 0 <= k < texts(v@).len() implies texts(v@)[k] != s@ by {
        assert(texts(v@)[k] == v@[k]@);
    }
    false
}

/// Appends `s` to `v` unless `v` holds it already.
fn insert_text(v: &mut Vec<String>, s: String)
    requires
        no_duplicates(texts(old(v)@)),
    ensures
        no_duplicates(texts(final(v)@)),
        texts(final(v)@).to_set() == texts(old(v)@).to_set().insert(s@),
{
    let ghost before = texts(v@);
    if !contains_text(v, &s) {
        v.push(s);
        assert(texts(v@) =~= before.push(s@));
        proof { before.lemma_push_to_set_commute(s@); }
    } else {
        assert(texts(v@).to_set() =~= before.to_set().insert(s@));
    }
    assert(texts(v@).to_set() =~= before.to_set().insert(s@));
}

/// The paths that a cache file's text records, each once.
pub fn parse_cache(text: &str) -> (r: Vec<String>)
    ensures
        no_duplicates(texts(r@)),
        texts(r@).to_set() == cache_paths(text@),
{
    let ghost t = text@;
    let n = text.unicode_len();
    let mut r: Vec<String> = Vec::new();
    let mut cur = String::new();
    let mut i: usize = 0;
    let ghost mut done: Seq<Seq<char>> = Seq::empty();
    proof {
        assert(t.skip(0) =~= t);
        assert(texts(r@).to_set() =~= nonblank(done));
    }
    while i < n
        invariant
            n == t.len(),
            t == text@,
            i <= n,
            done + split_from(t.skip(i as int), cur@) == split_lines(t),
            no_duplicates(texts(r@)),
            texts(r@).to_set() == nonblank(done),
        decreases n - i,
    {
        let c = text.get_char(i);
        assert(t.skip(i as int)[0] == c);
        assert(t.skip(i as int).drop_first() =~= t.skip(i + 1));
        if c == '\n' {
            let ghost line = cur@;
            assert(done.push(line) + split_from(t.skip(i + 1), Seq::empty()) =~= done + split_from(
                t.skip(i as int),
                line,
            ));
            let ghost old_r = texts(r@);
            if cur.unicode_len() > 0 {
                insert_text(&mut r, cur);
            }
            proof {
                assert forall|p: Seq<char>|
                    texts(r@).to_set().contains(p) <==> #[trigger] nonblank(done.push(line)).contains(p) by {
                    assert(old_r.to_set().contains(p) == nonblank(done).contains(p));
                    assert(texts(r@).to_set().contains(p) == texts(r@).contains(p));
                    assert(old_r.to_set().contains(p) == old_r.contains(p));
                    if done.push(line).contains(p) && p != line {
                        let k = choose|k: int| 0 <= k < done.push(line).len() && done.push(line)[k] == p;
                        assert(done[k] == p);
                    }
                    if done.contains(p) {
                        let k = choose|k: int| 0 <= k < done.len() && done[k] == p;
                        assert(done.push(line)[k] == p);
                    }
                    assert(done.push(line)[done.len() as int] == line);
                }
                assert(texts(r@).to_set() =~= nonblank(done.push(line)));
                done = done.push(line);
            }
            cur = String::new();
        } else {
            let ghost before = cur@;
            let one = text.substring_char(i, i + 1);
            assert(one@ =~= seq![c]);
            cur.append(one);
            assert(cur@ =~= before.push(c));
        }
        i = i + 1;
    }
    let ghost line = cur@;
    assert(t.skip(n as int) =~= Seq::<char>::empty());
    assert(done.push(line) =~= split_lines(t));
    let ghost old_r = texts(r@);
    if cur.unicode_len() > 0 {
        insert_text(&mut r, cur);
    }
    proof {
        assert forall|p: Seq<char>| texts(r@).to_set().contains(p) <==> #[trigger] cache_paths(t).contains(p) by {
            assert(old_r.to_set().contains(p) == nonblank(done).contains(p));
            if done.push(line).contains(p) && p != line {
                let k = choose|k: int| 0 <= k < done.push(line).len() && done.push(line)[k] == p;
                assert(done[k] == p);
            }
            if done.contains(p) {
                let k = choose|k: int| 0 <= k < done.len() && done[k] == p;
                assert(done.push(line)[k] == p);
            }
            assert(done.push(line)[done.len() as int] == line);
        }
        assert(texts(r@).to_set() =~= cache_paths(t));
    }
    r
}

/// The cache file text that records `paths`, one per line.
pub fn serialize_cache(paths: &Vec<String>) -> (r: String)
    ensures
        r@ == cache_text(texts(paths@)),
{
    let ghost ps = texts(paths@);
    let mut r = String::new();
    let mut i: usize = 0;
    proof {
        assert(ps.take(0) =~= Seq::<Seq<char>>::empty());
        reveal_strlit("\n");
    }
    while i < paths.len()
        invariant
            ps == texts(paths@),
            i <= paths@.len(),
            r@ == cache_text(ps.take(i as int)),
        decreases paths@.len() - i,
    {
        let ghost before = r@;
        r.append(paths[i].as_str());
        proof {
            reveal_strlit("\n");
        }
        r.append("\n");
        assert(r@ =~= before + paths@[i as int]@ + seq!['\n']);
        assert(ps.take(i + 1).drop_last() =~= ps.take(i as int));
        assert(ps.take(i + 1).last() == paths@[i as int]@);
        i = i + 1;
    }
    assert(ps.take(paths@.len() as int) =~= ps);
    r
}

proof fn lemma_split_line(p: Seq<char>, rest: Seq<char>, cur: Seq<char>)
    requires
        !p.contains('\n'),
    ensures
        split_from(p + seq!['\n'] + rest, cur) == seq![cur + p] + split_from(rest, Seq::empty()),
    decreases p.len(),
{
    if p.len() == 0 {
        assert(p + seq!['\n'] + rest =~= seq!['\n'] + rest);
        assert((seq!['\n'] + rest).drop_first() =~= rest);
        assert(cur + p =~= cur);
    } else {
        let q = p.drop_first();
        assert(!q.contains('\n')) by {
            if q.contains('\n') {
                let k = choose|k: int| 0 <= k < q.len() && q[k] == '\n';
                assert(p[k + 1] == '\n');
            }
        }
        assert(p[0] != '\n');
        assert((p + seq!['\n'] + rest).drop_first() =~= q + seq!['\n'] + rest);
        lemma_split_line(q, rest, cur.push(p[0]));
        assert(cur.push(p[0]) + q =~= cur + p);
    }
}

proof fn lemma_cache_text_front(ps: Seq<Seq<char>>)
    requires
        ps.len() > 0,
    ensures
        cache_text(ps) == ps[0] + seq!['\n'] + cache_text(ps.drop_first()),
    decreases ps.len(),
{
    if ps.len() == 1 {
        assert(ps.drop_last() =~= Seq::<Seq<char>>::empty());
        assert(ps.drop_first() =~= Seq::<Seq<char>>::empty());
        assert(cache_text(ps) =~= ps[0] + seq!['\n'] + cache_text(ps.drop_first()));
    } else {
        lemma_cache_text_front(ps.drop_last());
        assert(ps.drop_last().drop_first() =~= ps.drop_first().drop_last());
        assert(ps.drop_first().last() == ps.last());
        assert(cache_text(ps) =~= ps[0] + seq!['\n'] + cache_text(ps.drop_first()));
    }
}

proof fn lemma_split_cache_text(ps: Seq<Seq<char>>)
    requires
        forall|i: int| 0 <= i < ps.len() ==> storable(#[trigger] ps[i]),
    ensures
        split_lines(cache_text(ps)) == ps.push(Seq::empty()),
    decreases ps.len(),
{
    if ps.len() == 0 {
        assert(split_lines(cache_text(ps)) =~= ps.push(Seq::empty()));
    } else {
        lemma_cache_text_front(ps);
        let tail = ps.drop_first();
        assert forall|i: int| 0 <= i < tail.len() implies storable(#[trigger] tail[i]) by {
            assert(tail[i] == ps[i + 1]);
        }
        lemma_split_cache_text(tail);
        assert(storable(ps[0]));
        lemma_split_line(ps[0], cache_text(tail), Seq::empty());
        assert(Seq::<char>::empty() + ps[0] =~= ps[0]);
        assert(ps.push(Seq::empty()) =~= seq![ps[0]] + tail.push(Seq::empty()));
    }
}

/// Saving a set of paths and loading it back gives the same set: the paths that
/// `cache_text` records are exactly those it was given.
pub proof fn lemma_cache_round_trip(ps: Seq<Seq<char>>)
    requires
        forall|i: int| 0 <= i < ps.len() ==> storable(#[trigger] ps[i]),
    ensures
        cache_paths(cache_text(ps)) == ps.to_set(),
{
    lemma_split_cache_text(ps);
    assert forall|p: Seq<char>| #[trigger] cache_paths(cache_text(ps)).contains(p) <==> ps.to_set().contains(p) by {
        if ps.contains(p) {
            let k = choose|k: int| 0 <= k < ps.len() && ps[k] == p;
            assert(storable(ps[k]));
            assert(ps.push(Seq::empty())[k] == p);
        }
        if ps.push(Seq::empty()).contains(p) && p.len() > 0 {
            let k = choose|k: int| 0 <= k < ps.len() + 1 && ps.push(Seq::empty())[k] == p;
            assert(k < ps.len());
            assert(ps[k] == p);
        }
    }
    assert(cache_paths(cache_text(ps)) =~= ps.to_set());
}

/// The cached paths, among the first `n`, that still hold a repository.
pub open spec fn kept_upto(cached: Seq<Seq<char>>, alive: Seq<bool>, n: int) -> Set<Seq<char>> {
    Set::new(|p: Seq<char>| exists|k: int| 0 <= k < n && alive[k] && #[trigger] cached[k] == p)
}

/// The set that a merge yields: the cached paths that still hold a repository,
/// and every discovered path.
pub open spec fn merged(
    cached: Seq<Seq<char>>,
    alive: Seq<bool>,
    discovered: Seq<Seq<char>>,
) -> Set<Seq<char>> {
    kept_upto(cached, alive, cached.len() as int).union(discovered.to_set())
}

/// Unions the cached paths with the discovered ones, dropping each cached path
/// whose `alive` flag says it no longer holds a repository.
pub fn merge(cached: &Vec<String>, alive: &Vec<bool>, discovered: &Vec<String>) -> (r: Vec<String>)
    requires
        cached@.len() == alive@.len(),
    ensures
        no_duplicates(texts(r@)),
        texts(r@).to_set() == merged(texts(cached@), alive@, texts(discovered@)),
{
    let ghost cs = texts(cached@);
    let ghost ds = texts(discovered@);
    let mut r: Vec<String> = Vec::new();
    let mut i: usize = 0;
    proof {
        assert(texts(r@).to_set() =~= kept_upto(cs, alive@, 0));
    }
    while i < cached.len()
        invariant
            cs == texts(cached@),
            cached@.len() == alive@.len(),
            i <= cached@.len(),
            no_duplicates(texts(r@)),
            texts(r@).to_set() == kept_upto(cs, alive@, i as int),
        decreases cached@.len() - i,
    {
        if alive[i] {
            insert_text(&mut r, cached[i].clone());
            assert(texts(r@).to_set() =~= kept_upto(cs, alive@, i + 1)) by {
                assert(cs[i as int] == cached@[i as int]@);
            }
        } else {
            assert(texts(r@).to_set() =~= kept_upto(cs, alive@, i + 1));
        }
        i = i + 1;
    }
    let mut j: usize = 0;
    proof {
        assert(texts(r@).to_set() =~= kept_upto(cs, alive@, cs.len() as int).union(ds.take(0).to_set()));
    }
    while j < discovered.len()
        invariant
            cs == texts(cached@),
            ds == texts(discovered@),
            j <= discovered@.len(),
            no_duplicates(texts(r@)),
            texts(r@).to_set() == kept_upto(cs, alive@, cs.len() as int).union(ds.take(j as int).to_set()),
        decreases discovered@.len() - j,
    {
        insert_text(&mut r, discovered[j].clone());
        proof {
            assert(ds.take(j + 1) =~= ds.take(j as int).push(ds[j as int]));
            ds.take(j as int).lemma_push_to_set_commute(ds[j as int]);
            assert(texts(r@).to_set() =~= kept_upto(cs, alive@, cs.len() as int).union(ds.take(j + 1).to_set()));
        }
        j = j + 1;
    }
    assert(ds.take(ds.len() as int) =~= ds);
    r
}

/// Stale pruning: a cached path whose every cached occurrence is flagged as no
/// longer holding a repository, and that the scan did not discover, is absent
/// from the merged set.
pub proof fn lemma_stale_pruned(
    cached: Seq<Seq<char>>,
    alive: Seq<bool>,
    discovered: Seq<Seq<char>>,
    p: Seq<char>,
)
    requires
        cached.len() == alive.len(),
        forall|k: int| 0 <= k < cached.len() && #[trigger] cached[k] == p ==> !alive[k],
        !discovered.contains(p),
    ensures
        !merged(cached, alive, discovered).contains(p),
{
}

} // verus!
