//! The catalog edits behind the commands: moving, renaming, removing and
//! pruning projects. The disk is consulted by the caller only where the
//! decision needs it; such functions say so by asking first.

use vstd::prelude::*;
use crate::catalog::{Catalog, entries_map, has_name, lemma_entries_map_at, names_ascending, pair_views};
use crate::text::{contains_text, same_text, texts, lemma_texts_push};

verus! {

/// Why a move was refused.
#[derive(PartialEq, Eq, Structural, Debug, Clone, Copy)]
pub enum MoveError {
    /// The project is not in the catalog.
    NotFound,
    /// The category is not registered.
    Unregistered,
    /// The project's directory is gone, and the target is not the removal
    /// category.
    MissingDirectory,
}

/// Where a two-step command stands.
#[derive(PartialEq, Eq, Structural, Debug, Clone, Copy)]
pub enum Step {
    /// Done: the catalog holds the change.
    Done,
    /// Call again with what the disk says.
    CheckDisk,
}

/// What moving `name` to `category` comes to, given the catalog `m`, the
/// registered categories, the removal category and, once asked, whether
/// the project's directory exists.
pub open spec fn move_outcome(
    m: Map<Seq<char>, Seq<char>>,
    name: Seq<char>,
    category: Seq<char>,
    registered: Seq<Seq<char>>,
    rm_to: Seq<char>,
    dir_exists: Option<bool>,
) -> Result<Step, MoveError> {
    if !m.contains_key(name) {
        Err(MoveError::NotFound)
    } else if !registered.contains(category) {
        Err(MoveError::Unregistered)
    } else if category != rm_to && dir_exists is None {
        Ok(Step::CheckDisk)
    } else if category != rm_to && dir_exists == Some(false) {
        Err(MoveError::MissingDirectory)
    } else {
        Ok(Step::Done)
    }
}

/// Moves project `name` to `category`. A move to any category but the
/// removal one needs the project's directory on disk: without
/// `dir_exists` the function asks for it and changes nothing.
pub fn move_project(
    c: &mut Catalog,
    name: &str,
    category: &str,
    registered: &Vec<String>,
    rm_to: &str,
    dir_exists: Option<bool>,
) -> (r: Result<Step, MoveError>)
    ensures
        final(c).wf(),
        r == move_outcome(old(c)@, name@, category@, texts(registered@), rm_to@, dir_exists),
        r == Ok::<Step, MoveError>(Step::Done) ==> final(c)@ == old(c)@.insert(name@, category@),
        r != Ok::<Step, MoveError>(Step::Done) ==> final(c)@ == old(c)@,
{
    proof {
        use_type_invariant(&*c);
    }
    if !c.contains_key(name) {
        return Err(MoveError::NotFound);
    }
    let reg = contains_text(registered, category);
    proof {
        lemma_contains_texts(registered@, category@);
    }
    if !reg {
        return Err(MoveError::Unregistered);
    }
    let to_removed = same_text(category, rm_to);
    if !to_removed {
        match dir_exists {
            None => {
                return Ok(Step::CheckDisk);
            },
            Some(false) => {
                return Err(MoveError::MissingDirectory);
            },
            Some(true) => {},
        }
    }
    c.insert(name.to_owned(), category.to_owned());
    Ok(Step::Done)
}

/// Why a rename was refused.
#[derive(PartialEq, Eq, Structural, Debug, Clone, Copy)]
pub enum RenameError {
    /// The project is not in the catalog.
    NotFound,
    /// The new name is already in the catalog.
    AlreadyRegistered,
    /// Both the old and the new directory exist on disk.
    ExistsOnDisk,
}

/// Where a rename stands.
#[derive(PartialEq, Eq, Structural, Debug, Clone, Copy)]
pub enum RenameStep {
    /// Call again with what the disk says: whether the old directory
    /// exists, and whether the new one does.
    CheckDisk,
    /// The catalog holds the new name; the directory is to be renamed too
    /// when `move_directory` holds.
    Renamed { move_directory: bool },
}

/// What renaming `name` to `new_name` comes to.
pub open spec fn rename_outcome(
    m: Map<Seq<char>, Seq<char>>,
    name: Seq<char>,
    new_name: Seq<char>,
    disk: Option<(bool, bool)>,
) -> Result<RenameStep, RenameError> {
    if !m.contains_key(name) {
        Err(RenameError::NotFound)
    } else if m.contains_key(new_name) {
        Err(RenameError::AlreadyRegistered)
    } else {
        match disk {
            None => Ok(RenameStep::CheckDisk),
            Some((old_exists, new_exists)) => if old_exists && new_exists {
                Err(RenameError::ExistsOnDisk)
            } else {
                Ok(RenameStep::Renamed { move_directory: old_exists })
            },
        }
    }
}

/// Renaming a registered project to a name not yet registered is refused
/// for the disk only when both its directory and the new one exist.
/// Otherwise it renames, and moves the directory exactly when the old one
/// exists: with the old directory gone, nothing on disk moves.
pub proof fn lemma_rename_disk_rule(
    m: Map<Seq<char>, Seq<char>>,
    name: Seq<char>,
    new_name: Seq<char>,
    old_exists: bool,
    new_exists: bool,
)
    requires
        m.contains_key(name),
        !m.contains_key(new_name),
    ensures
        rename_outcome(m, name, new_name, Some((old_exists, new_exists))) is Err <==> old_exists
            && new_exists,
        old_exists && new_exists ==> rename_outcome(m, name, new_name, Some((old_exists, new_exists)))
            == Err::<RenameStep, RenameError>(RenameError::ExistsOnDisk),
        !(old_exists && new_exists) ==> rename_outcome(m, name, new_name, Some((old_exists, new_exists)))
            == Ok::<RenameStep, RenameError>((RenameStep::Renamed { move_directory: old_exists })),
        !old_exists ==> rename_outcome(m, name, new_name, Some((old_exists, new_exists)))
            == Ok::<RenameStep, RenameError>((RenameStep::Renamed { move_directory: false })),
{
}

/// Renames project `name` to `new_name`, keeping its category.
pub fn rename_project(c: &mut Catalog, name: &str, new_name: &str, disk: Option<(bool, bool)>) -> (r:
    Result<RenameStep, RenameError>)
    ensures
        final(c).wf(),
        r == rename_outcome(old(c)@, name@, new_name@, disk),
        r matches Ok(RenameStep::Renamed { .. }) ==> final(c)@ == old(c)@.remove(name@).insert(
            new_name@,
            old(c)@[name@],
        ),
        !(r matches Ok(RenameStep::Renamed { .. })) ==> final(c)@ == old(c)@,
{
    proof {
        use_type_invariant(&*c);
    }
    if !c.contains_key(name) {
        return Err(RenameError::NotFound);
    }
    if c.contains_key(new_name) {
        return Err(RenameError::AlreadyRegistered);
    }
    match disk {
        None => Ok(RenameStep::CheckDisk),
        Some((old_exists, new_exists)) => {
            if old_exists && new_exists {
                return Err(RenameError::ExistsOnDisk);
            }
            let removed = c.remove(name);
            match removed {
                Some(category) => {
                    c.insert(new_name.to_owned(), category);
                },
                None => {},
            }
            Ok(RenameStep::Renamed { move_directory: old_exists })
        },
    }
}

/// What moving the `i`-th of `names` comes to in a batch move.
pub open spec fn batch_outcome(
    m: Map<Seq<char>, Seq<char>>,
    names: Seq<Seq<char>>,
    category: Seq<char>,
    rm_to: Seq<char>,
    dir_exists: Option<Seq<bool>>,
    i: int,
) -> Result<(), MoveError> {
    if !m.contains_key(names[i]) {
        Err(MoveError::NotFound)
    } else if category != rm_to && (dir_exists matches Some(v) && !v[i]) {
        Err(MoveError::MissingDirectory)
    } else {
        Ok(())
    }
}

/// Some project of `names` is registered and the target is not the removal
/// category, so the batch needs to know which directories exist.
pub open spec fn batch_needs_disk(
    m: Map<Seq<char>, Seq<char>>,
    names: Seq<Seq<char>>,
    category: Seq<char>,
    rm_to: Seq<char>,
) -> bool {
    category != rm_to && exists|i: int| 0 <= i < names.len() && m.contains_key(#[trigger] names[i])
}

/// `q` is one of `names` whose move goes through.
pub open spec fn moved_in(
    m: Map<Seq<char>, Seq<char>>,
    names: Seq<Seq<char>>,
    category: Seq<char>,
    rm_to: Seq<char>,
    dir_exists: Option<Seq<bool>>,
    q: Seq<char>,
) -> bool {
    exists|i: int|
        0 <= i < names.len() && names[i] == q && #[trigger] batch_outcome(
            m,
            names,
            category,
            rm_to,
            dir_exists,
            i,
        ) is Ok
}

/// The catalog after a batch move: each name with an `Ok` outcome is in
/// `category`; every other entry stays.
pub open spec fn batch_moved(
    m: Map<Seq<char>, Seq<char>>,
    names: Seq<Seq<char>>,
    category: Seq<char>,
    rm_to: Seq<char>,
    dir_exists: Option<Seq<bool>>,
) -> Map<Seq<char>, Seq<char>> {
    Map::new(
        |q: Seq<char>| m.contains_key(q),
        |q: Seq<char>|
            if moved_in(m, names, category, rm_to, dir_exists, q) {
                category
            } else {
                m[q]
            },
    )
}

/// Moves each of `names` to `category`; a name that is not registered, or
/// whose directory is gone (unless the target is the removal category), is
/// skipped and reported. An unregistered category stops the batch. When the
/// batch needs the disk and `dir_exists` is missing, nothing changes and
/// `Ok(None)` asks for it: `dir_exists[i]` tells whether the directory of
/// `names[i]` exists.
pub fn move_many(
    c: &mut Catalog,
    category: &str,
    names: &Vec<String>,
    registered: &Vec<String>,
    rm_to: &str,
    dir_exists: Option<&Vec<bool>>,
) -> (r: Result<Option<Vec<Result<(), MoveError>>>, MoveError>)
    requires
        dir_exists matches Some(v) ==> v@.len() == names@.len(),
    ensures
        final(c).wf(),
        r is Err <==> !texts(registered@).contains(category@),
        r is Err ==> r == Err::<Option<Vec<Result<(), MoveError>>>, MoveError>(MoveError::Unregistered),
        r == Ok::<Option<Vec<Result<(), MoveError>>>, MoveError>(None) <==> (texts(registered@).contains(
            category@,
        ) && dir_exists is None && batch_needs_disk(old(c)@, texts(names@), category@, rm_to@)),
        r matches Ok(Some(res)) ==> res@.len() == names@.len() && (forall|i: int|
            0 <= i < names@.len() ==> #[trigger] res@[i] == batch_outcome(
                old(c)@,
                texts(names@),
                category@,
                rm_to@,
                flags_view(dir_exists),
                i,
            )) && final(c)@ == batch_moved(
            old(c)@,
            texts(names@),
            category@,
            rm_to@,
            flags_view(dir_exists),
        ),
        !(r matches Ok(Some(_))) ==> final(c)@ == old(c)@,
{
    proof {
        use_type_invariant(&*c);
    }
    let reg = contains_text(registered, category);
    proof {
        lemma_contains_texts(registered@, category@);
    }
    if !reg {
        return Err(MoveError::Unregistered);
    }
    let ghost m = c@;
    let ghost ns = texts(names@);
    let ghost de = flags_view(dir_exists);
    let to_removed = same_text(category, rm_to);
    if dir_exists.is_none() && !to_removed {
        let mut k: usize = 0;
        while k < names.len()
            invariant
                c.wf(),
                c@ == m,
                ns == texts(names@),
                texts(registered@).contains(category@),
                dir_exists is None,
                category@ != rm_to@,
                k <= names@.len(),
                forall|q: int| 0 <= q < k ==> !m.contains_key(#[trigger] ns[q]),
            decreases names.len() - k,
        {
            if c.contains_key(names[k].as_str()) {
                assert(m.contains_key(ns[k as int]));
                return Ok(None);
            }
            k = k + 1;
        }
    }
    assert(!batch_needs_disk(m, ns, category@, rm_to@) || dir_exists is Some);
    let res = apply_batch(c, category, names, rm_to, dir_exists, to_removed);
    Ok(Some(res))
}

/// Moves each registered name of `names` whose move goes through to
/// `category`, reporting each outcome.
fn apply_batch(
    c: &mut Catalog,
    category: &str,
    names: &Vec<String>,
    rm_to: &str,
    dir_exists: Option<&Vec<bool>>,
    to_removed: bool,
) -> (res: Vec<Result<(), MoveError>>)
    requires
        dir_exists matches Some(v) ==> v@.len() == names@.len(),
        to_removed == (category@ == rm_to@),
        dir_exists is None && !to_removed ==> forall|q: int|
            0 <= q < names@.len() ==> !old(c)@.contains_key(#[trigger] texts(names@)[q]),
    ensures
        final(c).wf(),
        res@.len() == names@.len(),
        forall|i: int|
            0 <= i < names@.len() ==> #[trigger] res@[i] == batch_outcome(
                old(c)@,
                texts(names@),
                category@,
                rm_to@,
                flags_view(dir_exists),
                i,
            ),
        final(c)@ == batch_moved(old(c)@, texts(names@), category@, rm_to@, flags_view(dir_exists)),
{
    proof {
        use_type_invariant(&*c);
    }
    let ghost m = c@;
    let ghost ns = texts(names@);
    let ghost de = flags_view(dir_exists);
    let mut res: Vec<Result<(), MoveError>> = Vec::new();
    let mut i: usize = 0;
    assert(batch_moved(m, ns.take(0), category@, rm_to@, de) =~= m);
    while i < names.len()
        invariant
            c.wf(),
            ns == texts(names@),
            de == flags_view(dir_exists),
            dir_exists matches Some(v) ==> v@.len() == names@.len(),
            to_removed == (category@ == rm_to@),
            dir_exists is None && !to_removed ==> forall|q: int|
                0 <= q < names@.len() ==> !m.contains_key(#[trigger] ns[q]),
            i <= names@.len(),
            res@.len() == i,
            forall|q: int| 0 <= q < i ==> #[trigger] res@[q] == batch_outcome(m, ns, category@, rm_to@, de, q),
            c@ == batch_moved(m, ns.take(i as int), category@, rm_to@, de),
        decreases names.len() - i,
    {
        let n = &names[i];
        let ghost q0 = n@;
        assert(ns[i as int] == q0);
        let ghost before = c@;
        let ghost pre = ns.take(i as int);
        let ghost nxt = ns.take(i + 1);
        let found = c.contains_key(n.as_str());
        let gone = match dir_exists {
            Some(v) => !v[i],
            None => false,
        };
        let outcome = if !found {
            Err(MoveError::NotFound)
        } else if !to_removed && gone {
            Err(MoveError::MissingDirectory)
        } else {
            c.insert(n.clone(), category.to_owned());
            Ok(())
        };
        assert(outcome == batch_outcome(m, ns, category@, rm_to@, de, i as int));
        res.push(outcome);
        proof {
            assert forall|q: Seq<char>|
                #[trigger] moved_in(m, nxt, category@, rm_to@, de, q) == (moved_in(
                    m,
                    pre,
                    category@,
                    rm_to@,
                    de,
                    q,
                ) || (q == q0 && outcome is Ok)) by {
                if moved_in(m, nxt, category@, rm_to@, de, q) {
                    let k = choose|k: int|
                        0 <= k < nxt.len() && nxt[k] == q && #[trigger] batch_outcome(
                            m,
                            nxt,
                            category@,
                            rm_to@,
                            de,
                            k,
                        ) is Ok;
                    if k < i {
                        assert(pre[k] == q);
                        assert(batch_outcome(m, pre, category@, rm_to@, de, k) is Ok);
                    } else {
                        assert(batch_outcome(m, ns, category@, rm_to@, de, i as int) is Ok);
                    }
                }
                if moved_in(m, pre, category@, rm_to@, de, q) {
                    let k = choose|k: int|
                        0 <= k < pre.len() && pre[k] == q && #[trigger] batch_outcome(
                            m,
                            pre,
                            category@,
                            rm_to@,
                            de,
                            k,
                        ) is Ok;
                    assert(nxt[k] == q);
                    assert(batch_outcome(m, nxt, category@, rm_to@, de, k) is Ok);
                }
                if q == q0 && outcome is Ok {
                    assert(nxt[i as int] == q);
                    assert(batch_outcome(m, nxt, category@, rm_to@, de, i as int) is Ok);
                }
            }
            assert(c@ =~= batch_moved(m, nxt, category@, rm_to@, de));
        }
        i = i + 1;
    }
    assert(ns.take(names@.len() as int) =~= ns);
    res
}

/// Moves each registered name of `names` to the removal category `rm_to`;
/// `found[i]` tells whether `names[i]` was registered.
pub fn mark_removed(c: &mut Catalog, names: &Vec<String>, rm_to: &str) -> (found: Vec<bool>)
    ensures
        final(c).wf(),
        found@.len() == names@.len(),
        forall|i: int|
            0 <= i < names@.len() ==> #[trigger] found@[i] == old(c)@.contains_key(names@[i]@),
        final(c)@ == batch_moved(old(c)@, texts(names@), rm_to@, rm_to@, None),
{
    proof {
        use_type_invariant(&*c);
    }
    let res = apply_batch(c, rm_to, names, rm_to, None, true);
    let mut found: Vec<bool> = Vec::new();
    let mut i: usize = 0;
    while i < res.len()
        invariant
            i <= res@.len(),
            res@.len() == names@.len(),
            found@.len() == i,
            forall|q: int| 0 <= q < i ==> #[trigger] found@[q] == (res@[q] is Ok),
        decreases res.len() - i,
    {
        found.push(res[i].is_ok());
        i = i + 1;
    }
    proof {
        assert forall|q: int| 0 <= q < names@.len() implies #[trigger] found@[q] == old(c)@.contains_key(names@[q]@) by {
            assert(texts(names@)[q] == names@[q]@);
            assert(res@[q] == batch_outcome(old(c)@, texts(names@), rm_to@, rm_to@, None, q));
        }
    }
    found
}

/// The entries that a prune drops: those in the removal category whose
/// directory is no longer on disk.
pub open spec fn prunable(m: Map<Seq<char>, Seq<char>>, rm_to: Seq<char>, on_disk: Seq<Seq<char>>) -> Set<Seq<char>> {
    Set::new(|q: Seq<char>| m.contains_key(q) && m[q] == rm_to && !on_disk.contains(q))
}

/// Drops the entries in the removal category `rm_to` whose directory is not
/// among `on_disk`, and gives their names in ascending order. No other entry
/// changes.
pub fn prune(c: &mut Catalog, rm_to: &str, on_disk: &Vec<String>) -> (pruned: Vec<String>)
    ensures
        final(c).wf(),
        final(c)@ == old(c)@.remove_keys(prunable(old(c)@, rm_to@, texts(on_disk@))),
        crate::sync::names_ascending_list(texts(pruned@)),
        texts(pruned@).to_set() == prunable(old(c)@, rm_to@, texts(on_disk@)),
{
    proof {
        use_type_invariant(&*c);
    }
    let ghost m = c@;
    let ghost disk = texts(on_disk@);
    let ghost gone = prunable(m, rm_to@, disk);
    let pairs = c.to_pairs();
    let ghost s = c.entries();
    let mut kept: Vec<(String, String)> = Vec::new();
    let mut pruned: Vec<String> = Vec::new();
    let mut j: usize = 0;
    proof {
        assert forall|k: int| 0 <= k < s.len() implies #[trigger] s[k] == (pairs@[k].0@, pairs@[k].1@) by {
            assert(pair_views(pairs@)[k] == (pairs@[k].0@, pairs@[k].1@));
        }
    }
    while j < pairs.len()
        invariant
            j <= pairs@.len(),
            pairs@.len() == s.len(),
            forall|k: int| 0 <= k < s.len() ==> #[trigger] s[k] == (pairs@[k].0@, pairs@[k].1@),
            names_ascending(s),
            m == entries_map(s),
            disk == texts(on_disk@),
            gone == prunable(m, rm_to@, disk),
            names_ascending(pair_views(kept@)),
            forall|a: int|
                0 <= a < kept@.len() ==> exists|k: int|
                    0 <= k < j && s[k] == #[trigger] pair_views(kept@)[a],
            forall|k: int|
                0 <= k < j && !gone.contains(s[k].0) ==> #[trigger] pair_views(kept@).contains(s[k]),
            forall|a: int| 0 <= a < kept@.len() ==> !gone.contains(#[trigger] pair_views(kept@)[a].0),
            crate::sync::names_ascending_list(texts(pruned@)),
            forall|a: int|
                0 <= a < pruned@.len() ==> exists|k: int|
                    0 <= k < j && s[k].0 == #[trigger] texts(pruned@)[a],
            texts(pruned@).to_set() == Set::new(
                |q: Seq<char>| crate::sync::listed_before(s, j as int, q) && gone.contains(q),
            ),
        decreases pairs.len() - j,
    {
        let name = &pairs[j].0;
        let cat = &pairs[j].1;
        let ghost q0 = name@;
        assert(s[j as int] == (name@, cat@));
        proof {
            lemma_entries_map_at(s, j as int);
        }
        let is_rm = same_text(cat.as_str(), rm_to);
        let on = contains_text(on_disk, name.as_str());
        proof {
            lemma_contains_texts(on_disk@, name@);
            assert(gone.contains(q0) == (is_rm && !on));
            assert forall|q: Seq<char>|
                #[trigger] crate::sync::listed_before(s, j + 1, q) <==> crate::sync::listed_before(
                    s,
                    j as int,
                    q,
                ) || q == q0 by {
                if q == q0 {
                    assert(s[j as int].0 == q);
                }
                if crate::sync::listed_before(s, j + 1, q) && q != q0 {
                    let k = choose|k: int| 0 <= k < j + 1 && s[k].0 == q;
                    assert(k < j);
                }
            }
        }
        let ghost kb = pair_views(kept@);
        let ghost pb = texts(pruned@);
        if is_rm && !on {
            let ghost vb = pruned@;
            pruned.push(name.clone());
            proof {
                lemma_texts_push(vb, pruned@.last());
                assert(pruned@ == vb.push(pruned@.last()));
            }
            assert(texts(pruned@) =~= pb.push(q0));
            proof {
                assert forall|a: int, b: int| 0 <= a < b < texts(pruned@).len() implies crate::text::lex_lt(
                    texts(pruned@)[a],
                    texts(pruned@)[b],
                ) by {
                    if b == pb.len() {
                        assert(texts(pruned@)[a] == pb[a]);
                        let k = choose|k: int| 0 <= k < j && s[k].0 == #[trigger] pb[a];
                    }
                }
                assert forall|a: int|
                    0 <= a < pruned@.len() implies exists|k: int|
                        0 <= k < j + 1 && s[k].0 == #[trigger] texts(pruned@)[a] by {
                    if a < pb.len() {
                        assert(texts(pruned@)[a] == pb[a]);
                        let k = choose|k: int| 0 <= k < j && s[k].0 == #[trigger] pb[a];
                    } else {
                        assert(s[j as int].0 == texts(pruned@)[a]);
                    }
                }
                assert(texts(pruned@).to_set() =~= Set::new(
                    |q: Seq<char>| crate::sync::listed_before(s, j + 1, q) && gone.contains(q),
                ));
                assert forall|k: int|
                    0 <= k < j + 1 && !gone.contains(s[k].0) implies #[trigger] pair_views(kept@).contains(s[k]) by {
                    if k < j {
                    }
                }
            }
        } else {
            kept.push((name.clone(), cat.clone()));
            assert(pair_views(kept@) =~= kb.push(s[j as int]));
            proof {
                assert forall|a: int, b: int| 0 <= a < b < pair_views(kept@).len() implies crate::text::lex_lt(
                    pair_views(kept@)[a].0,
                    pair_views(kept@)[b].0,
                ) by {
                    if b == kb.len() {
                        assert(pair_views(kept@)[a] == kb[a]);
                        let k = choose|k: int| 0 <= k < j && s[k] == #[trigger] kb[a];
                    } else {
                        assert(pair_views(kept@)[a] == kb[a]);
                        assert(pair_views(kept@)[b] == kb[b]);
                    }
                }
                assert forall|a: int|
                    0 <= a < kept@.len() implies exists|k: int|
                        0 <= k < j + 1 && s[k] == #[trigger] pair_views(kept@)[a] by {
                    if a < kb.len() {
                        assert(pair_views(kept@)[a] == kb[a]);
                        let k = choose|k: int| 0 <= k < j && s[k] == #[trigger] kb[a];
                    } else {
                        assert(s[j as int] == pair_views(kept@)[a]);
                    }
                }
                assert forall|k: int|
                    0 <= k < j + 1 && !gone.contains(s[k].0) implies #[trigger] pair_views(kept@).contains(s[k]) by {
                    if k < j {
                        assert(kb.contains(s[k]));
                        let a = choose|a: int| 0 <= a < kb.len() && kb[a] == s[k];
                        assert(pair_views(kept@)[a] == s[k]);
                    } else {
                        assert(pair_views(kept@)[kb.len() as int] == s[k]);
                    }
                }
                assert forall|a: int| 0 <= a < kept@.len() implies !gone.contains(#[trigger] pair_views(kept@)[a].0) by {
                    if a < kb.len() {
                        assert(pair_views(kept@)[a] == kb[a]);
                    }
                }
                assert(texts(pruned@).to_set() =~= Set::new(
                    |q: Seq<char>| crate::sync::listed_before(s, j + 1, q) && gone.contains(q),
                ));
                assert forall|a: int|
                    0 <= a < pruned@.len() implies exists|k: int|
                        0 <= k < j + 1 && s[k].0 == #[trigger] texts(pruned@)[a] by {
                    let k = choose|k: int| 0 <= k < j && s[k].0 == #[trigger] texts(pruned@)[a];
                }
            }
        }
        j = j + 1;
    }
    let ghost kv = pair_views(kept@);
    proof {
        assert forall|q: Seq<char>|
            #![trigger entries_map(kv).contains_key(q)]
            #![trigger m.contains_key(q)]
            entries_map(kv).contains_key(q) == m.remove_keys(gone).contains_key(q) && (
            entries_map(kv).contains_key(q) ==> entries_map(kv)[q] == m[q]) by {
            if has_name(kv, q) {
                let a = choose|a: int| 0 <= a < kv.len() && kv[a].0 == q;
                let k = choose|k: int| 0 <= k < j && s[k] == #[trigger] kv[a];
                lemma_entries_map_at(s, k);
                lemma_entries_map_at(kv, a);
            }
            if m.contains_key(q) && !gone.contains(q) {
                let k = choose|k: int| 0 <= k < s.len() && s[k].0 == q;
                assert(kv.contains(s[k]));
                let a = choose|a: int| 0 <= a < kv.len() && kv[a] == s[k];
                assert(has_name(kv, q));
            }
        }
        assert(entries_map(kv) =~= m.remove_keys(gone));
        assert forall|q: Seq<char>| #[trigger] gone.contains(q) implies crate::sync::listed_before(s, j as int, q) by {
            assert(has_name(s, q));
        }
        assert(texts(pruned@).to_set() =~= gone);
    }
    *c = Catalog::from_ascending(kept);
    pruned
}

/// The category a new project goes to: the one asked for, else the
/// default; `Err` carries it when it is not registered.
pub fn target_category(requested: Option<&str>, default_to: &str, registered: &Vec<String>) -> (r: Result<String, String>)
    ensures
        ({
            let chosen = match requested {
                Some(t) => t@,
                None => default_to@,
            };
            match r {
                Ok(t) => t@ == chosen && texts(registered@).contains(chosen),
                Err(t) => t@ == chosen && !texts(registered@).contains(chosen),
            }
        }),
{
    let chosen = match requested {
        Some(t) => t,
        None => default_to,
    };
    let ok = contains_text(registered, chosen);
    proof {
        lemma_contains_texts(registered@, chosen@);
    }
    if ok {
        Ok(chosen.to_owned())
    } else {
        Err(chosen.to_owned())
    }
}

/// Every category in the catalog is registered; otherwise `Err` gives the
/// first entry, in order of name, whose category is not.
pub fn check_categories(c: &Catalog, registered: &Vec<String>) -> (r: Result<(), (String, String)>)
    ensures
        r is Ok <==> forall|q: Seq<char>| #[trigger] c@.contains_key(q) ==> texts(registered@).contains(c@[q]),
        r matches Err(e) ==> c@.contains_key(e.0@) && c@[e.0@] == e.1@ && !texts(registered@).contains(e.1@)
            && forall|q: Seq<char>|
            #[trigger] c@.contains_key(q) && crate::text::lex_lt(q, e.0@) ==> texts(registered@).contains(c@[q]),
{
    proof {
        use_type_invariant(c);
    }
    let n = c.len();
    let mut i: usize = 0;
    let ghost s = c.entries();
    while i < n
        invariant
            c.wf(),
            s == c.entries(),
            n == s.len(),
            i <= n,
            forall|k: int| 0 <= k < i ==> texts(registered@).contains(#[trigger] s[k].1),
        decreases n - i,
    {
        let cat = c.category_at(i);
        let ok = contains_text(registered, cat.as_str());
        proof {
            lemma_contains_texts(registered@, cat@);
        }
        if !ok {
            let name = c.name_at(i);
            proof {
                lemma_entries_map_at(s, i as int);
                assert forall|q: Seq<char>|
                    #[trigger] c@.contains_key(q) && crate::text::lex_lt(q, name@) implies texts(
                    registered@,
                ).contains(c@[q]) by {
                    let k = choose|k: int| 0 <= k < s.len() && s[k].0 == q;
                    lemma_entries_map_at(s, k);
                    if k >= i {
                        if k > i {
                            crate::text::lemma_lex_asymmetric(s[i as int].0, q);
                        } else {
                            crate::text::lemma_lex_irreflexive(q);
                        }
                    }
                }
            }
            assert(c@.contains_key(name@) && !texts(registered@).contains(c@[name@]));
            return Err((name.clone(), cat.clone()));
        }
        i = i + 1;
    }
    proof {
        assert forall|q: Seq<char>| #[trigger] c@.contains_key(q) implies texts(registered@).contains(c@[q]) by {
            let k = choose|k: int| 0 <= k < s.len() && s[k].0 == q;
            lemma_entries_map_at(s, k);
        }
    }
    Ok(())
}

/// What `clone` and `init` do next with a new project's directory.
#[derive(PartialEq, Eq, Structural, Debug, Clone, Copy)]
pub enum NewProjectStep {
    /// Stop: the directory already exists.
    AlreadyExists,
    /// Call again with whether git is available.
    CheckGit,
    /// Go on without git; `warn` tells whether to warn that git is missing
    /// (it was wanted but not found).
    WithoutGit { warn: bool },
    /// Go on with git.
    WithGit,
}

/// The next step for a new project: an existing directory stops it; with
/// `no_git` it goes on without git, unasked; otherwise it goes on with git
/// if git is available, and asks first.
pub open spec fn new_project_outcome(dest_exists: bool, no_git: bool, git_available: Option<bool>) -> NewProjectStep {
    if dest_exists {
        NewProjectStep::AlreadyExists
    } else if no_git {
        NewProjectStep::WithoutGit { warn: false }
    } else {
        match git_available {
            None => NewProjectStep::CheckGit,
            Some(true) => NewProjectStep::WithGit,
            Some(false) => NewProjectStep::WithoutGit { warn: true },
        }
    }
}

/// The next step for a new project's directory, given whether it exists,
/// the `no_git` setting and, once asked, whether git is available.
pub fn new_project_step(dest_exists: bool, no_git: bool, git_available: Option<bool>) -> (r: NewProjectStep)
    ensures
        r == new_project_outcome(dest_exists, no_git, git_available),
{
    if dest_exists {
        NewProjectStep::AlreadyExists
    } else if no_git {
        NewProjectStep::WithoutGit { warn: false }
    } else {
        match git_available {
            None => NewProjectStep::CheckGit,
            Some(true) => NewProjectStep::WithGit,
            Some(false) => NewProjectStep::WithoutGit { warn: true },
        }
    }
}

/// Why `go` found no directory to print.
#[derive(PartialEq, Eq, Structural, Debug, Clone, Copy)]
pub enum GoError {
    /// The project is not in the catalog.
    NotFound,
    /// Its directory is not on disk.
    MissingDirectory,
}

/// Whether project `name` can be jumped to: it must be registered, and then
/// its directory must exist; without `dir_exists` the function asks for it.
pub fn locate_project(c: &Catalog, name: &str, dir_exists: Option<bool>) -> (r: Result<Step, GoError>)
    ensures
        !c@.contains_key(name@) ==> r == Err::<Step, GoError>(GoError::NotFound),
        c@.contains_key(name@) ==> r == match dir_exists {
            None => Ok::<Step, GoError>(Step::CheckDisk),
            Some(true) => Ok::<Step, GoError>(Step::Done),
            Some(false) => Err::<Step, GoError>(GoError::MissingDirectory),
        },
{
    proof {
        use_type_invariant(c);
    }
    if !c.contains_key(name) {
        return Err(GoError::NotFound);
    }
    match dir_exists {
        None => Ok(Step::CheckDisk),
        Some(true) => Ok(Step::Done),
        Some(false) => Err(GoError::MissingDirectory),
    }
}

/// A move changes only the category of the moved project: the same
/// projects stay registered and every other keeps its category.
pub proof fn lemma_move_changes_only_target(
    m: Map<Seq<char>, Seq<char>>,
    name: Seq<char>,
    category: Seq<char>,
)
    requires
        m.contains_key(name),
    ensures
        m.insert(name, category).dom() == m.dom(),
        m.insert(name, category)[name] == category,
        forall|q: Seq<char>| #[trigger] m.contains_key(q) && q != name ==> m.insert(name, category)[q] == m[q],
{
    assert(m.insert(name, category).dom() =~= m.dom());
}

/// Removing projects re-categorizes each registered one to the removal
/// category and touches nothing else: no project is unregistered.
pub proof fn lemma_remove_recategorizes(m: Map<Seq<char>, Seq<char>>, names: Seq<Seq<char>>, rm_to: Seq<char>)
    ensures
        batch_moved(m, names, rm_to, rm_to, None).dom() == m.dom(),
        forall|i: int|
            0 <= i < names.len() && m.contains_key(#[trigger] names[i]) ==> batch_moved(
                m,
                names,
                rm_to,
                rm_to,
                None,
            )[names[i]] == rm_to,
        forall|q: Seq<char>| #[trigger] m.contains_key(q) && !names.contains(q) ==> batch_moved(m, names, rm_to, rm_to, None)[q] == m[q],
{
    assert(batch_moved(m, names, rm_to, rm_to, None).dom() =~= m.dom());
    assert forall|i: int|
        0 <= i < names.len() && m.contains_key(#[trigger] names[i]) implies batch_moved(
            m,
            names,
            rm_to,
            rm_to,
            None,
        )[names[i]] == rm_to by {
        assert(batch_outcome(m, names, rm_to, rm_to, None, i) is Ok);
        assert(moved_in(m, names, rm_to, rm_to, None, names[i]));
    }
    assert forall|q: Seq<char>| #[trigger] m.contains_key(q) && !names.contains(q) implies batch_moved(m, names, rm_to, rm_to, None)[q] == m[q] by {
        if moved_in(m, names, rm_to, rm_to, None, q) {
            let i = choose|i: int| 0 <= i < names.len() && names[i] == q && #[trigger] batch_outcome(m, names, rm_to, rm_to, None, i) is Ok;
            assert(names.contains(q));
        }
    }
}

/// A batch move leaves every project registered, puts each project whose
/// move goes through in the target category, and leaves the others alone.
pub proof fn lemma_batch_move_effect(
    m: Map<Seq<char>, Seq<char>>,
    names: Seq<Seq<char>>,
    category: Seq<char>,
    rm_to: Seq<char>,
    dir_exists: Option<Seq<bool>>,
)
    ensures
        batch_moved(m, names, category, rm_to, dir_exists).dom() == m.dom(),
        forall|i: int|
            0 <= i < names.len() && #[trigger] batch_outcome(m, names, category, rm_to, dir_exists, i) is Ok
                ==> batch_moved(m, names, category, rm_to, dir_exists)[names[i]] == category,
        forall|q: Seq<char>| #[trigger] m.contains_key(q) && !names.contains(q) ==> batch_moved(m, names, category, rm_to, dir_exists)[q] == m[q],
{
    assert(batch_moved(m, names, category, rm_to, dir_exists).dom() =~= m.dom());
    assert forall|i: int|
        0 <= i < names.len() && #[trigger] batch_outcome(m, names, category, rm_to, dir_exists, i) is Ok
        implies batch_moved(m, names, category, rm_to, dir_exists)[names[i]] == category by {
        assert(moved_in(m, names, category, rm_to, dir_exists, names[i]));
    }
    assert forall|q: Seq<char>| #[trigger] m.contains_key(q) && !names.contains(q) implies batch_moved(m, names, category, rm_to, dir_exists)[q] == m[q] by {
        if moved_in(m, names, category, rm_to, dir_exists, q) {
            let i = choose|i: int| 0 <= i < names.len() && names[i] == q && #[trigger] batch_outcome(m, names, category, rm_to, dir_exists, i) is Ok;
            assert(names.contains(q));
        }
    }
}

/// A prune drops exactly the entries in the removal category whose
/// directory is gone; every other entry keeps its category.
pub proof fn lemma_prune_effect(m: Map<Seq<char>, Seq<char>>, rm_to: Seq<char>, on_disk: Seq<Seq<char>>)
    ensures
        forall|q: Seq<char>|
            #[trigger] m.remove_keys(prunable(m, rm_to, on_disk)).contains_key(q) <==> m.contains_key(q)
                && (m[q] != rm_to || on_disk.contains(q)),
        forall|q: Seq<char>|
            #[trigger] m.remove_keys(prunable(m, rm_to, on_disk)).contains_key(q) ==> m.remove_keys(
                prunable(m, rm_to, on_disk),
            )[q] == m[q],
{
}

/// Deleting a project as the documentation says, by removing it, deleting
/// its directory and pruning, takes it out of the catalog.
pub proof fn lemma_remove_then_prune_forgets(
    m: Map<Seq<char>, Seq<char>>,
    name: Seq<char>,
    rm_to: Seq<char>,
    on_disk: Seq<Seq<char>>,
)
    requires
        m.contains_key(name),
        !on_disk.contains(name),
    ensures
        ({
            let removed = batch_moved(m, seq![name], rm_to, rm_to, None);
            !removed.remove_keys(prunable(removed, rm_to, on_disk)).contains_key(name)
        }),
{
    let removed = batch_moved(m, seq![name], rm_to, rm_to, None);
    lemma_remove_recategorizes(m, seq![name], rm_to);
    assert(seq![name][0] == name);
    assert(removed[name] == rm_to);
}

/// A rename keeps the project's category under its new name, forgets the
/// old name, and leaves every other project alone.
pub proof fn lemma_rename_effect(m: Map<Seq<char>, Seq<char>>, name: Seq<char>, new_name: Seq<char>)
    requires
        m.contains_key(name),
        !m.contains_key(new_name),
    ensures
        ({
            let r = m.remove(name).insert(new_name, m[name]);
            &&& r.contains_key(new_name) && r[new_name] == m[name]
            &&& !r.contains_key(name)
            &&& forall|q: Seq<char>| q != name && q != new_name ==> (#[trigger] r.contains_key(q) <==> m.contains_key(q))
            &&& forall|q: Seq<char>| q != name && q != new_name && #[trigger] m.contains_key(q) ==> r[q] == m[q]
        }),
{
}

/// The view of optional flags.
pub open spec fn flags_view(d: Option<&Vec<bool>>) -> Option<Seq<bool>> {
    match d {
        Some(v) => Some(v@),
        None => None,
    }
}

/// Membership in a list of strings is membership in its texts.
pub proof fn lemma_contains_texts(list: Seq<String>, t: Seq<char>)
    ensures
        (exists|i: int| 0 <= i < list.len() && #[trigger] list[i]@ == t) <==> texts(list).contains(t),
{
    if exists|i: int| 0 <= i < list.len() && #[trigger] list[i]@ == t {
        let i = choose|i: int| 0 <= i < list.len() && #[trigger] list[i]@ == t;
        assert(texts(list)[i] == t);
    }
    if texts(list).contains(t) {
        let i = choose|i: int| 0 <= i < texts(list).len() && texts(list)[i] == t;
        assert(list[i]@ == t);
    }
}

} // verus!
