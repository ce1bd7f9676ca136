//! Bringing the catalog in line with the directories on disk.

use vstd::prelude::*;
use crate::catalog::{Catalog, entries_map, has_name, lemma_entries_map_at, names_ascending, pair_views};
use crate::config::Config;
use crate::text::{contains_text, lex_lt, same_text, texts, lemma_texts_push};

verus! {

/// An entry of the project root as the file system lists it.
pub struct DirEntry {
    /// The entry's file name.
    pub name: String,
    /// Whether it is a directory.
    pub is_dir: bool,
}

/// A directory entry that stands for a project: a directory whose name does
/// not start with a dot.
pub open spec fn is_project_dir(name: Seq<char>, is_dir: bool) -> bool {
    is_dir && !(name.len() > 0 && name[0] == '.')
}

/// The names of the entries that stand for projects, in listing order.
pub open spec fn project_dir_names(es: Seq<DirEntry>) -> Seq<Seq<char>>
    decreases es.len(),
{
    if es.len() == 0 {
        Seq::empty()
    } else {
        let prev = project_dir_names(es.drop_last());
        if is_project_dir(es.last().name@, es.last().is_dir) {
            prev.push(es.last().name@)
        } else {
            prev
        }
    }
}

/// The directories that count as projects are exactly the directories
/// whose name does not begin with a dot, whatever else the name holds; no
/// file and no hidden directory counts.
pub proof fn lemma_project_dirs_are_unhidden_dirs(es: Seq<DirEntry>)
    ensures
        forall|i: int|
            0 <= i < es.len() && es[i].is_dir && !(es[i].name@.len() > 0 && es[i].name@[0] == '.') ==> #[trigger] project_dir_names(
                es,
            ).contains(es[i].name@),
        forall|x: Seq<char>|
            #[trigger] project_dir_names(es).contains(x) ==> !(x.len() > 0 && x[0] == '.') && exists|i: int|
                0 <= i < es.len() && es[i].is_dir && es[i].name@ == x,
    decreases es.len(),
{
    if es.len() > 0 {
        let p = es.drop_last();
        lemma_project_dirs_are_unhidden_dirs(p);
        let pn = project_dir_names(p);
        let e = es.last();
        assert forall|i: int|
            0 <= i < es.len() && es[i].is_dir && !(es[i].name@.len() > 0 && es[i].name@[0] == '.') implies #[trigger] project_dir_names(
                es,
            ).contains(es[i].name@) by {
            if i < p.len() {
                assert(p[i] == es[i]);
                assert(pn.contains(p[i].name@));
                let k = choose|k: int| 0 <= k < pn.len() && pn[k] == p[i].name@;
                if is_project_dir(e.name@, e.is_dir) {
                    assert(project_dir_names(es)[k] == pn[k]);
                }
            } else {
                assert(project_dir_names(es) == pn.push(e.name@));
                assert(project_dir_names(es)[pn.len() as int] == e.name@);
            }
        }
        assert forall|x: Seq<char>|
            #[trigger] project_dir_names(es).contains(x) implies !(x.len() > 0 && x[0] == '.') && exists|i: int|
                0 <= i < es.len() && es[i].is_dir && es[i].name@ == x by {
            let k = choose|k: int| 0 <= k < project_dir_names(es).len() && project_dir_names(es)[k] == x;
            if k < pn.len() {
                assert(pn[k] == x);
                assert(pn.contains(x));
                let i = choose|i: int| 0 <= i < p.len() && p[i].is_dir && p[i].name@ == x;
                assert(es[i] == p[i]);
            } else {
                assert(x == e.name@);
                assert(es[es.len() - 1] == e);
            }
        }
    }
}

/// The names of the entries that stand for projects, in listing order.
pub fn project_dirs(entries: &Vec<DirEntry>) -> (r: Vec<String>)
    ensures
        texts(r@) == project_dir_names(entries@),
{
    let mut r: Vec<String> = Vec::new();
    let mut i: usize = 0;
    while i < entries.len()
        invariant
            i <= entries@.len(),
            texts(r@) == project_dir_names(entries@.take(i as int)),
        decreases entries.len() - i,
    {
        let e = &entries[i];
        let ghost before = texts(r@);
        assert(entries@.take(i + 1).drop_last() =~= entries@.take(i as int));
        let n = e.name.as_str();
        let dot = n.unicode_len() > 0 && n.get_char(0) == '.';
        if e.is_dir && !dot {
            r.push(e.name.clone());
            assert(texts(r@) =~= before.push(e.name@));
        }
        i = i + 1;
    }
    assert(entries@.take(entries@.len() as int) =~= entries@);
    r
}

/// The directory names of `dirs` that are not in `known`, each once, in the
/// order in which they first occur.
pub open spec fn fresh_names(dirs: Seq<Seq<char>>, known: Map<Seq<char>, Seq<char>>) -> Seq<Seq<char>>
    decreases dirs.len(),
{
    if dirs.len() == 0 {
        Seq::empty()
    } else {
        let prev = fresh_names(dirs.drop_last(), known);
        let d = dirs.last();
        if known.contains_key(d) || dirs.drop_last().contains(d) {
            prev
        } else {
            prev.push(d)
        }
    }
}

/// The catalog after a sync: directories not yet registered are added with
/// category `new_to`; registered projects whose directory is gone move to
/// `missing_to`, unless they are in `rm_to`; every other entry stays.
pub open spec fn synced(
    old: Map<Seq<char>, Seq<char>>,
    dirs: Seq<Seq<char>>,
    rm_to: Seq<char>,
    new_to: Seq<char>,
    missing_to: Seq<char>,
) -> Map<Seq<char>, Seq<char>> {
    Map::new(
        |q: Seq<char>| old.contains_key(q) || dirs.contains(q),
        |q: Seq<char>|
            if old.contains_key(q) {
                if old[q] == rm_to || dirs.contains(q) {
                    old[q]
                } else {
                    missing_to
                }
            } else {
                new_to
            },
    )
}

/// The registered projects that a sync finds missing.
pub open spec fn missing_names(
    old: Map<Seq<char>, Seq<char>>,
    dirs: Seq<Seq<char>>,
    rm_to: Seq<char>,
) -> Set<Seq<char>> {
    Set::new(|q: Seq<char>| old.contains_key(q) && old[q] != rm_to && !dirs.contains(q))
}

/// What a sync did: the names it added, and the names it found missing.
pub struct SyncReport {
    /// Newly registered directories, in listing order.
    pub added: Vec<String>,
    /// Projects moved to the missing category, in ascending order.
    pub missing: Vec<String>,
}

/// The catalog with directories added in the order of `dirs[..i]`.
spec fn with_fresh(old: Map<Seq<char>, Seq<char>>, dirs: Seq<Seq<char>>, new_to: Seq<char>) -> Map<Seq<char>, Seq<char>> {
    Map::new(
        |q: Seq<char>| old.contains_key(q) || dirs.contains(q),
        |q: Seq<char>| if old.contains_key(q) { old[q] } else { new_to },
    )
}

/// Registers the project directories `dirs` that are new, and moves the
/// projects whose directory is gone to `sync_missing_to`, except those in
/// `rm_to`.
pub fn sync_catalog(c: &mut Catalog, dirs: &Vec<String>, cfg: &Config) -> (report: SyncReport)
    ensures
        final(c).wf(),
        final(c)@ == synced(
            old(c)@,
            texts(dirs@),
            cfg.rm_to@,
            cfg.sync_new_to@,
            cfg.sync_missing_to@,
        ),
        texts(report.added@) == fresh_names(texts(dirs@), old(c)@),
        names_ascending_list(texts(report.missing@)),
        texts(report.missing@).to_set() == missing_names(old(c)@, texts(dirs@), cfg.rm_to@),
{
    proof {
        use_type_invariant(&*c);
    }
    let ghost old_map = c@;
    let ghost ds = texts(dirs@);
    let mut added: Vec<String> = Vec::new();
    let mut i: usize = 0;
    assert(with_fresh(old_map, ds.take(0), cfg.sync_new_to@) =~= old_map);
    while i < dirs.len()
        invariant
            c.wf(),
            i <= dirs@.len(),
            ds == texts(dirs@),
            c@ == with_fresh(old_map, ds.take(i as int), cfg.sync_new_to@),
            texts(added@) == fresh_names(ds.take(i as int), old_map),
        decreases dirs.len() - i,
    {
        let d = &dirs[i];
        let ghost prefix = ds.take(i as int);
        let ghost next = ds.take(i + 1);
        assert(next.drop_last() =~= prefix);
        assert(next.last() == d@);
        let ghost before = texts(added@);
        if !c.contains_key(d.as_str()) {
            c.insert(d.clone(), cfg.sync_new_to.clone());
            added.push(d.clone());
            assert(texts(added@) =~= before.push(d@));
        }
        proof {
            assert forall|q: Seq<char>| #[trigger] next.contains(q) <==> prefix.contains(q) || q == d@ by {
                if next.contains(q) {
                    let k = choose|k: int| 0 <= k < next.len() && next[k] == q;
                    if k < prefix.len() {
                        assert(prefix[k] == q);
                    }
                }
                if prefix.contains(q) {
                    let k = choose|k: int| 0 <= k < prefix.len() && prefix[k] == q;
                    assert(next[k] == q);
                }
                if q == d@ {
                    assert(next[i as int] == q);
                }
            }
            assert(c@ =~= with_fresh(old_map, next, cfg.sync_new_to@));
        }
        i = i + 1;
    }
    assert(ds.take(dirs@.len() as int) =~= ds);
    let ghost mid = c@;
    let snap = c.to_pairs();
    let ghost s = c.entries();
    let mut missing: Vec<String> = Vec::new();
    let mut j: usize = 0;
    proof {
        assert forall|k: int| 0 <= k < s.len() implies #[trigger] s[k] == (snap@[k].0@, snap@[k].1@) by {
            assert(pair_views(snap@)[k] == (snap@[k].0@, snap@[k].1@));
        }
        assert(c@ =~= Map::new(
            |q: Seq<char>| mid.contains_key(q),
            |q: Seq<char>|
                if listed_before(s, 0, q) && mid[q] != cfg.rm_to@
                    && !ds.contains(q) {
                    cfg.sync_missing_to@
                } else {
                    mid[q]
                },
        ));
        assert(texts(missing@).to_set() =~= Set::new(
            |q: Seq<char>|
                listed_before(s, 0, q) && mid[q] != cfg.rm_to@
                    && !ds.contains(q),
        ));
    }
    while j < snap.len()
        invariant
            c.wf(),
            j <= snap@.len(),
            snap@.len() == s.len(),
            forall|k: int| 0 <= k < s.len() ==> #[trigger] s[k] == (snap@[k].0@, snap@[k].1@),
            names_ascending(s),
            mid == entries_map(s),
            ds == texts(dirs@),
            c@ == Map::new(
                |q: Seq<char>| mid.contains_key(q),
                |q: Seq<char>|
                    if listed_before(s, j as int, q) && mid[q] != cfg.rm_to@
                        && !ds.contains(q) {
                        cfg.sync_missing_to@
                    } else {
                        mid[q]
                    },
            ),
            names_ascending_list(texts(missing@)),
            forall|a: int|
                0 <= a < missing@.len() ==> exists|k: int|
                    0 <= k < j && s[k].0 == #[trigger] texts(missing@)[a],
            texts(missing@).to_set() == Set::new(
                |q: Seq<char>|
                    listed_before(s, j as int, q) && mid[q] != cfg.rm_to@
                        && !ds.contains(q),
            ),
        decreases snap.len() - j,
    {
        let name = &snap[j].0;
        let cat = &snap[j].1;
        let ghost q0 = name@;
        assert(s[j as int] == (name@, cat@));
        proof {
            lemma_entries_map_at(s, j as int);
        }
        let ghost c_before = c@;
        let ghost m_before = texts(missing@);
        let is_rm = same_text(cat.as_str(), cfg.rm_to.as_str());
        let on_disk = contains_text(dirs, name.as_str());
        proof {
            if on_disk {
                let k = choose|k: int| 0 <= k < dirs@.len() && #[trigger] dirs@[k]@ == name@;
                assert(ds[k] == name@);
            }
            if ds.contains(name@) {
                let k = choose|k: int| 0 <= k < ds.len() && ds[k] == name@;
                assert(dirs@[k]@ == name@);
            }
            assert(on_disk == ds.contains(name@));
            assert forall|q: Seq<char>|
                #[trigger] listed_before(s, j + 1, q) <==> listed_before(s, j as int, q) || q == q0 by {
                if q == q0 {
                    assert(s[j as int].0 == q);
                }
                if listed_before(s, j + 1, q) && q != q0 {
                    let k = choose|k: int| 0 <= k < j + 1 && s[k].0 == q;
                    assert(k < j);
                }
            }
            assert(!listed_before(s, j as int, q0)) by {
                if listed_before(s, j as int, q0) {
                    let k = choose|k: int| 0 <= k < j && s[k].0 == q0;
                    crate::catalog::lemma_names_unique(s, k, j as int);
                }
            }
        }
        let ghost vb = missing@;
        if !is_rm && !on_disk {
            c.insert(name.clone(), cfg.sync_missing_to.clone());
            missing.push(name.clone());
            proof {
                lemma_texts_push(vb, missing@.last());
                assert(missing@ == vb.push(missing@.last()));
            }
            assert(texts(missing@) =~= m_before.push(q0));
        }
        proof {
            let cond = |q: Seq<char>|
                listed_before(s, j + 1, q) && mid[q] != cfg.rm_to@
                    && !ds.contains(q);
            assert(c@ =~= Map::new(
                |q: Seq<char>| mid.contains_key(q),
                |q: Seq<char>|
                    if listed_before(s, j + 1, q) && mid[q] != cfg.rm_to@
                        && !ds.contains(q) {
                        cfg.sync_missing_to@
                    } else {
                        mid[q]
                    },
            ));
            assert(names_ascending_list(texts(missing@))) by {
                assert forall|a: int, b: int| 0 <= a < b < texts(missing@).len() implies lex_lt(
                    texts(missing@)[a],
                    texts(missing@)[b],
                ) by {
                    if b == m_before.len() {
                        assert(texts(missing@)[a] == m_before[a]);
                        let k = choose|k: int| 0 <= k < j && s[k].0 == #[trigger] m_before[a];
                    }
                }
            }
            assert forall|a: int|
                0 <= a < missing@.len() implies exists|k: int|
                    0 <= k < j + 1 && s[k].0 == #[trigger] texts(missing@)[a] by {
                if a < m_before.len() {
                    assert(texts(missing@)[a] == m_before[a]);
                    let k = choose|k: int| 0 <= k < j && s[k].0 == #[trigger] m_before[a];
                } else {
                    assert(s[j as int].0 == texts(missing@)[a]);
                }
            }
            assert(texts(missing@).to_set() =~= Set::new(
                |q: Seq<char>|
                    listed_before(s, j + 1, q) && mid[q] != cfg.rm_to@
                        && !ds.contains(q),
            ));
        }
        j = j + 1;
    }
    proof {
        assert forall|q: Seq<char>| #[trigger] mid.contains_key(q) <==> listed_before(s, snap@.len() as int, q) by {
            if mid.contains_key(q) {
                assert(has_name(s, q));
            }
        }
        assert(c@ =~= synced(old_map, ds, cfg.rm_to@, cfg.sync_new_to@, cfg.sync_missing_to@));
        assert(mid == with_fresh(old_map, ds, cfg.sync_new_to@));
        assert forall|q: Seq<char>| #[trigger] texts(missing@).to_set().contains(q) <==> missing_names(
            old_map,
            ds,
            cfg.rm_to@,
        ).contains(q) by {
            if missing_names(old_map, ds, cfg.rm_to@).contains(q) {
                assert(mid.contains_key(q));
                assert(listed_before(s, snap@.len() as int, q));
            }
        }
        assert(texts(missing@).to_set() =~= missing_names(old_map, ds, cfg.rm_to@));
    }
    SyncReport { added, missing }
}

/// After a sync every project directory is registered, no project is
/// unregistered, projects whose directory is there keep their category, and
/// projects in the removal category keep it.
pub proof fn lemma_sync_keeps_and_registers(
    old: Map<Seq<char>, Seq<char>>,
    dirs: Seq<Seq<char>>,
    rm_to: Seq<char>,
    new_to: Seq<char>,
    missing_to: Seq<char>,
)
    ensures
        forall|d: Seq<char>| #[trigger] dirs.contains(d) ==> synced(old, dirs, rm_to, new_to, missing_to).contains_key(d),
        forall|q: Seq<char>| #[trigger] old.contains_key(q) ==> synced(old, dirs, rm_to, new_to, missing_to).contains_key(q),
        forall|q: Seq<char>| #[trigger] old.contains_key(q) && (dirs.contains(q) || old[q] == rm_to) ==> synced(
            old,
            dirs,
            rm_to,
            new_to,
            missing_to,
        )[q] == old[q],
        forall|q: Seq<char>| #[trigger] synced(old, dirs, rm_to, new_to, missing_to).contains_key(q) ==> old.contains_key(q) || dirs.contains(q),
{
}

/// Syncing twice against the same directories changes nothing the second
/// time.
pub proof fn lemma_sync_idempotent(
    old: Map<Seq<char>, Seq<char>>,
    dirs: Seq<Seq<char>>,
    rm_to: Seq<char>,
    new_to: Seq<char>,
    missing_to: Seq<char>,
)
    ensures
        synced(synced(old, dirs, rm_to, new_to, missing_to), dirs, rm_to, new_to, missing_to)
            == synced(old, dirs, rm_to, new_to, missing_to),
{
    let once = synced(old, dirs, rm_to, new_to, missing_to);
    let twice = synced(once, dirs, rm_to, new_to, missing_to);
    assert(twice =~= once);
}

/// `q` is the name of one of the first `j` entries of `s`.
pub open spec fn listed_before(s: Seq<(Seq<char>, Seq<char>)>, j: int, q: Seq<char>) -> bool {
    exists|k: int| 0 <= k < j && s[k].0 == q
}

/// Strictly ascending texts.
pub open spec fn names_ascending_list(s: Seq<Seq<char>>) -> bool {
    forall|i: int, j: int| 0 <= i < j < s.len() ==> lex_lt(s[i], s[j])
}

} // verus!
