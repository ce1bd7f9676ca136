//! Listings of the catalog: the editable text, the project list, the tree
//! of categories, and search.

use vstd::prelude::*;
use vstd::seq_lib::seq_to_set_distributes_over_add;
use crate::catalog::{Catalog, pair_views, lemma_entries_map_at};
use crate::config::{Config, visible_in};
use crate::order::{by_category, category_order, is_category_order, lemma_category_order_is, lemma_category_order_exists, sorted_unique, ascending_by, text_lt};
use crate::render::{Line, Style, line_view, lines_view, plain, block_lines, tree_lines, groups_view, tree, single_block, is_category_line, marked_missing, line_project, block_line_project, lemma_block_marks, lemma_tree_blocks_marks, tree_blocks};
use crate::text::{same_text, texts, lemma_texts_push};

verus! {

/// The editable text of entries: one `name: category` line each.
pub open spec fn entry_lines(es: Seq<(Seq<char>, Seq<char>)>) -> Seq<char>
    decreases es.len(),
{
    if es.len() == 0 {
        Seq::empty()
    } else {
        entry_lines(es.drop_last()) + es.last().0 + ": "@ + es.last().1 + "\n"@
    }
}

/// The catalog as editable text: `name: category` lines, by category and
/// then by name.
pub fn format_sorted(c: &Catalog) -> (r: String)
    ensures
        is_category_order(c.entries(), category_order(c.entries())),
        r@ == entry_lines(category_order(c.entries())),
{
    proof {
        use_type_invariant(c);
    }
    let es = by_category(c);
    let ghost ev = pair_views(es@);
    proof {
        lemma_category_order_is(c.entries(), ev);
    }
    let mut r = String::new();
    let mut i: usize = 0;
    while i < es.len()
        invariant
            ev == pair_views(es@),
            i <= es@.len(),
            r@ == entry_lines(ev.take(i as int)),
        decreases es.len() - i,
    {
        assert(ev.take(i + 1).drop_last() =~= ev.take(i as int));
        assert(ev[i as int] == (es@[i as int].0@, es@[i as int].1@));
        r.append(es[i].0.as_str());
        r.append(": ");
        r.append(es[i].1.as_str());
        r.append("\n");
        i = i + 1;
    }
    assert(ev.take(es@.len() as int) =~= ev);
    r
}

/// The names of the entries of `s`, in order, whose category satisfies `p`.
pub open spec fn names_in(s: Seq<(Seq<char>, Seq<char>)>, p: spec_fn(Seq<char>) -> bool) -> Seq<Seq<char>>
    decreases s.len(),
{
    if s.len() == 0 {
        Seq::empty()
    } else if p(s.last().1) {
        names_in(s.drop_last(), p).push(s.last().0)
    } else {
        names_in(s.drop_last(), p)
    }
}

/// The names of the projects in category `cat`, in order of name.
pub fn names_in_category(c: &Catalog, cat: &str) -> (r: Vec<String>)
    ensures
        texts(r@) == names_in(c.entries(), |x: Seq<char>| x == cat@),
{
    proof {
        use_type_invariant(c);
    }
    let ghost p = |x: Seq<char>| x == cat@;
    let mut r: Vec<String> = Vec::new();
    let n = c.len();
    let mut i: usize = 0;
    while i < n
        invariant
            n == c.entries().len(),
            i <= n,
            p == (|x: Seq<char>| x == cat@),
            texts(r@) == names_in(c.entries().take(i as int), p),
        decreases n - i,
    {
        let ghost t = c.entries().take(i + 1);
        assert(t.drop_last() =~= c.entries().take(i as int));
        let ghost before = texts(r@);
        if same_text(c.category_at(i).as_str(), cat) {
            r.push(c.name_at(i).clone());
            assert(texts(r@) =~= before.push(t.last().0));
        }
        i = i + 1;
    }
    assert(c.entries().take(n as int) =~= c.entries());
    r
}

/// Which categories a listing is_listable: all of them with `all`; else only the
/// one asked for, if any; else the visible ones.
pub open spec fn listable(visible: Seq<Seq<char>>, all: bool, filter: Option<Seq<char>>, cat: Seq<char>) -> bool {
    if all {
        true
    } else {
        match filter {
            Some(f) => cat == f,
            None => visible_in(visible, cat),
        }
    }
}

/// Does a listing take category `cat`?
fn is_listable(cfg: &Config, all: bool, filter: Option<&str>, cat: &str) -> (r: bool)
    ensures
        r == listable(texts(cfg.visible_categories@), all, opt_view(filter), cat@),
{
    if all {
        true
    } else {
        match filter {
            Some(f) => same_text(cat, f),
            None => cfg.is_category_visible(cat),
        }
    }
}

/// The view of an optional text.
pub open spec fn opt_view(o: Option<&str>) -> Option<Seq<char>> {
    match o {
        Some(t) => Some(t@),
        None => None,
    }
}

/// The categories the routes of the settings name.
pub open spec fn routes(cfg: Config) -> Seq<Seq<char>> {
    seq![cfg.rm_to@, cfg.init_to@, cfg.clone_to@, cfg.sync_new_to@, cfg.sync_missing_to@]
}

/// The categories the tree shows. With `all`: every category in use, and
/// the routed ones (only the one asked for, if any). Otherwise, of the
/// categories in use and the visible ones: the one asked for, visible or
/// not, if one is; else those that are visible.
pub open spec fn shown_categories(
    cfg: Config,
    m: Map<Seq<char>, Seq<char>>,
    all: bool,
    filter: Option<Seq<char>>,
) -> Set<Seq<char>> {
    let vis = texts(cfg.visible_categories@);
    if all {
        Set::new(
            |c: Seq<char>|
                m.values().contains(c) || (routes(cfg).contains(c) && (filter matches Some(f) ==> c
                    == f)),
        )
    } else {
        Set::new(
            |c: Seq<char>|
                (m.values().contains(c) || vis.contains(c)) && match filter {
                    Some(f) => c == f,
                    None => visible_in(vis, c),
                },
        )
    }
}

/// `g` groups the projects of the entries `s` under the categories `cats`:
/// categories ascending, each with its projects in order of name.
pub open spec fn is_grouping(
    s: Seq<(Seq<char>, Seq<char>)>,
    cats: Set<Seq<char>>,
    g: Seq<(Seq<char>, Seq<Seq<char>>)>,
) -> bool {
    &&& ascending_by(g.map_values(|e: (Seq<char>, Seq<Seq<char>>)| e.0), text_lt())
    &&& g.map_values(|e: (Seq<char>, Seq<Seq<char>>)| e.0).to_set() == cats
    &&& forall|i: int| 0 <= i < g.len() ==> #[trigger] g[i].1 == names_in(s, |x: Seq<char>| x == g[i].0)
}

/// With `all`, the tree shows every category in use, whatever the
/// visibility settings. Without it and without a category argument, it shows
/// only visible categories. A category argument overrides the visibility
/// settings: the tree shows that category, and only it, whenever a project
/// is in it or it is listed as visible.
pub proof fn lemma_all_shows_every_category(
    cfg: Config,
    m: Map<Seq<char>, Seq<char>>,
    filter: Option<Seq<char>>,
)
    ensures
        forall|q: Seq<char>| #[trigger] m.contains_key(q) ==> shown_categories(cfg, m, true, filter).contains(m[q]),
        forall|c: Seq<char>| #[trigger] shown_categories(cfg, m, false, None).contains(c) ==> visible_in(
            texts(cfg.visible_categories@),
            c,
        ),
        filter matches Some(f) ==> (forall|q: Seq<char>| #[trigger] m.contains_key(q) && m[q] == f ==> shown_categories(cfg, m, false, filter).contains(f)),
        filter matches Some(f) ==> (forall|c: Seq<char>| #[trigger] shown_categories(cfg, m, false, filter).contains(c) ==> c == f),
{
    assert forall|q: Seq<char>| #[trigger] m.contains_key(q) implies shown_categories(cfg, m, true, filter).contains(m[q]) by {
        assert(m.values().contains(m[q]));
    }
    if let Some(f) = filter {
        assert forall|q: Seq<char>| #[trigger] m.contains_key(q) && m[q] == f implies shown_categories(cfg, m, false, filter).contains(f) by {
            assert(m.values().contains(m[q]));
        }
    }
}

/// Some entry of `s` among the first `n` is in category `c` and listable.
pub open spec fn used_before(s: Seq<(Seq<char>, Seq<char>)>, n: int, c: Seq<char>, adm: spec_fn(Seq<char>) -> bool) -> bool {
    exists|i: int| 0 <= i < n && s[i].1 == c && adm(c)
}

/// One more entry adds its category, if listable, to those used before.
pub proof fn lemma_used_step(s: Seq<(Seq<char>, Seq<char>)>, i: int, adm: spec_fn(Seq<char>) -> bool)
    requires
        0 <= i < s.len(),
    ensures
        Set::new(|x: Seq<char>| used_before(s, i + 1, x, adm)) == if adm(s[i].1) {
            Set::new(|x: Seq<char>| used_before(s, i, x, adm)).insert(s[i].1)
        } else {
            Set::new(|x: Seq<char>| used_before(s, i, x, adm))
        },
{
    let next = Set::new(|x: Seq<char>| used_before(s, i + 1, x, adm));
    let prev = Set::new(|x: Seq<char>| used_before(s, i, x, adm));
    assert forall|x: Seq<char>| next.contains(x) <==> prev.contains(x) || (x == s[i].1 && adm(x)) by {
        if used_before(s, i + 1, x, adm) {
            let k = choose|k: int| 0 <= k < i + 1 && s[k].1 == x && adm(x);
            if k < i {
                assert(used_before(s, i, x, adm));
            }
        }
        if used_before(s, i, x, adm) {
            let k = choose|k: int| 0 <= k < i && s[k].1 == x && adm(x);
            assert(0 <= k < i + 1 && s[k].1 == x && adm(x));
        }
        if x == s[i].1 && adm(x) {
            assert(0 <= i < i + 1 && s[i].1 == x && adm(x));
        }
    }
    if adm(s[i].1) {
        assert(next =~= prev.insert(s[i].1));
    } else {
        assert(next =~= prev);
    }
}

/// `x` is among the first `k` items of `r` and kept by `keep`.
pub open spec fn kept_among(r: Seq<Seq<char>>, k: int, keep: spec_fn(Seq<char>) -> bool, x: Seq<char>) -> bool {
    (exists|q: int| 0 <= q < k && r[q] == x) && keep(x)
}

/// One more item adds it, if kept, to the kept items before it.
pub proof fn lemma_kept_step(r: Seq<Seq<char>>, k: int, keep: spec_fn(Seq<char>) -> bool)
    requires
        0 <= k < r.len(),
    ensures
        Set::new(|x: Seq<char>| kept_among(r, k + 1, keep, x)) == if keep(r[k]) {
            Set::new(|x: Seq<char>| kept_among(r, k, keep, x)).insert(r[k])
        } else {
            Set::new(|x: Seq<char>| kept_among(r, k, keep, x))
        },
{
    let next = Set::new(|x: Seq<char>| kept_among(r, k + 1, keep, x));
    let prev = Set::new(|x: Seq<char>| kept_among(r, k, keep, x));
    assert forall|x: Seq<char>| next.contains(x) <==> prev.contains(x) || (x == r[k] && keep(x)) by {
        if kept_among(r, k + 1, keep, x) {
            let q = choose|q: int| 0 <= q < k + 1 && r[q] == x;
            if q < k {
                assert(kept_among(r, k, keep, x));
            }
        }
        if kept_among(r, k, keep, x) {
            let q = choose|q: int| 0 <= q < k && r[q] == x;
            assert(0 <= q < k + 1 && r[q] == x);
        }
        if x == r[k] {
            assert(0 <= k < k + 1 && r[k] == x);
        }
    }
    if keep(r[k]) {
        assert(next =~= prev.insert(r[k]));
    } else {
        assert(next =~= prev);
    }
}

/// The categories in use are the categories of the entries.
pub proof fn lemma_values_are_categories(c: &Catalog)
    requires
        c.wf(),
    ensures
        forall|x: Seq<char>|
            #[trigger] c@.values().contains(x) <==> exists|i: int|
                0 <= i < c.entries().len() && c.entries()[i].1 == x,
{
    let s = c.entries();
    assert forall|x: Seq<char>|
        #[trigger] c@.values().contains(x) <==> exists|i: int| 0 <= i < s.len() && s[i].1 == x by {
        if c@.values().contains(x) {
            let k = choose|k: Seq<char>| c@.contains_key(k) && c@[k] == x;
            let i = choose|i: int| 0 <= i < s.len() && s[i].0 == k;
            lemma_entries_map_at(s, i);
        }
        if exists|i: int| 0 <= i < s.len() && s[i].1 == x {
            let i = choose|i: int| 0 <= i < s.len() && s[i].1 == x;
            lemma_entries_map_at(s, i);
            assert(c@.contains_key(s[i].0) && c@[s[i].0] == x);
        }
    }
}

/// The categories a tree shows, each with its projects in order of name,
/// the categories ascending.
pub fn group_projects(cfg: &Config, c: &Catalog, all: bool, filter: Option<&str>) -> (g: Vec<(String, Vec<String>)>)
    ensures
        is_grouping(c.entries(), shown_categories(*cfg, c@, all, opt_view(filter)), groups_view(g@)),
{
    proof {
        use_type_invariant(c);
    }
    let ghost s = c.entries();
    let ghost vis = texts(cfg.visible_categories@);
    let ghost f = opt_view(filter);
    let ghost adm = |x: Seq<char>| listable(vis, all, f, x);
    let mut cands: Vec<String> = Vec::new();
    let n = c.len();
    let mut i: usize = 0;
    while i < n
        invariant
            n == s.len(),
            s == c.entries(),
            vis == texts(cfg.visible_categories@),
            f == opt_view(filter),
            adm == (|x: Seq<char>| listable(vis, all, f, x)),
            i <= n,
            texts(cands@).to_set() == Set::new(|x: Seq<char>| used_before(s, i as int, x, adm)),
        decreases n - i,
    {
        let cat = c.category_at(i);
        let ghost vb = cands@;
        proof {
            lemma_used_step(s, i as int, adm);
        }
        if is_listable(cfg, all, filter, cat.as_str()) {
            cands.push(cat.clone());
            proof {
                lemma_texts_push(vb, cands@.last());
                assert(cands@ == vb.push(cands@.last()));
            }
        }
        i = i + 1;
    }
    let ghost base = texts(cands@).to_set();
    let mut extra: Vec<String> = Vec::new();
    if all {
        let r = vec![
            cfg.rm_to.clone(),
            cfg.init_to.clone(),
            cfg.clone_to.clone(),
            cfg.sync_new_to.clone(),
            cfg.sync_missing_to.clone(),
        ];
        assert(texts(r@) =~= routes(*cfg));
        let ghost fkeep = |x: Seq<char>| f matches Some(y) ==> x == y;
        let mut k: usize = 0;
        while k < r.len()
            invariant
                k <= r@.len(),
                texts(r@) == routes(*cfg),
                f == opt_view(filter),
                fkeep == (|x: Seq<char>| f matches Some(y) ==> x == y),
                texts(extra@).to_set() == Set::new(|x: Seq<char>| kept_among(texts(r@), k as int, fkeep, x)),
            decreases r.len() - k,
        {
            let ok = match filter {
                Some(y) => same_text(r[k].as_str(), y),
                None => true,
            };
            let ghost vb = extra@;
            proof {
                lemma_kept_step(texts(r@), k as int, fkeep);
                assert(texts(r@)[k as int] == r@[k as int]@);
            }
            if ok {
                extra.push(r[k].clone());
                proof {
                    lemma_texts_push(vb, extra@.last());
                    assert(extra@ == vb.push(extra@.last()));
                }
            }
            k = k + 1;
        }
        proof {
            assert(Set::new(|x: Seq<char>| kept_among(texts(r@), 5, fkeep, x)) =~= Set::new(
                |x: Seq<char>| routes(*cfg).contains(x) && (f matches Some(y) ==> x == y),
            ));
        }
    } else {
        let mut k: usize = 0;
        while k < cfg.visible_categories.len()
            invariant
                k <= cfg.visible_categories@.len(),
                texts(extra@) == texts(cfg.visible_categories@).take(k as int),
            decreases cfg.visible_categories.len() - k,
        {
            let ghost before = texts(extra@);
            extra.push(cfg.visible_categories[k].clone());
            assert(texts(extra@) =~= before.push(cfg.visible_categories@[k as int]@));
            assert(texts(extra@) =~= texts(cfg.visible_categories@).take(k + 1));
            k = k + 1;
        }
        assert(texts(cfg.visible_categories@).take(k as int) =~= texts(cfg.visible_categories@));
    }
    let ghost extra_set = texts(extra@).to_set();
    let ghost before_cands = texts(cands@);
    let mut k: usize = 0;
    while k < extra.len()
        invariant
            k <= extra@.len(),
            texts(cands@) == before_cands + texts(extra@).take(k as int),
        decreases extra.len() - k,
    {
        let ghost before = texts(cands@);
        cands.push(extra[k].clone());
        assert(texts(cands@) =~= before.push(extra@[k as int]@));
        assert(texts(cands@) =~= before_cands + texts(extra@).take(k + 1));
        k = k + 1;
    }
    proof {
        assert(texts(extra@).take(k as int) =~= texts(extra@));
        seq_to_set_distributes_over_add(before_cands, texts(extra@));
    }
    let sorted = sorted_unique(&cands);
    let ghost ss = texts(sorted@);
    let mut g: Vec<(String, Vec<String>)> = Vec::new();
    let mut j: usize = 0;
    while j < sorted.len()
        invariant
            j <= sorted@.len(),
            ss == texts(sorted@),
            ascending_by(ss, text_lt()),
            c.wf(),
            s == c.entries(),
            vis == texts(cfg.visible_categories@),
            f == opt_view(filter),
            ascending_by(groups_view(g@).map_values(|e: (Seq<char>, Seq<Seq<char>>)| e.0), text_lt()),
            forall|a: int|
                0 <= a < g@.len() ==> exists|k: int|
                    0 <= k < j && ss[k] == #[trigger] groups_view(g@)[a].0,
            adm == (|x: Seq<char>| listable(vis, all, f, x)),
            groups_view(g@).map_values(|e: (Seq<char>, Seq<Seq<char>>)| e.0).to_set() == Set::new(
                |x: Seq<char>| kept_among(ss, j as int, adm, x),
            ),
            forall|a: int|
                0 <= a < g@.len() ==> #[trigger] groups_view(g@)[a].1 == names_in(
                    s,
                    |x: Seq<char>| x == groups_view(g@)[a].0,
                ),
        decreases sorted.len() - j,
    {
        let x = &sorted[j];
        assert(ss[j as int] == x@);
        let keep = is_listable(cfg, all, filter, x.as_str());
        let ghost gb = groups_view(g@);
        let ghost cb = gb.map_values(|e: (Seq<char>, Seq<Seq<char>>)| e.0);
        assert(keep == listable(vis, all, f, x@));
        proof {
            lemma_kept_step(ss, j as int, adm);
        }
        if keep {
            let names = names_in_category(c, x.as_str());
            g.push((x.clone(), names));
            assert(groups_view(g@) =~= gb.push((x@, texts(names@))));
            let ghost ca = groups_view(g@).map_values(|e: (Seq<char>, Seq<Seq<char>>)| e.0);
            assert(ca =~= cb.push(x@));
            proof {
                assert forall|a: int, b: int| 0 <= a < b < ca.len() implies text_lt()(#[trigger] ca[a], #[trigger] ca[b]) by {
                    if b == cb.len() {
                        assert(ca[a] == gb[a].0);
                        let k = choose|k: int| 0 <= k < j && ss[k] == #[trigger] gb[a].0;
                        assert(text_lt()(ss[k], ss[j as int]));
                    } else {
                        assert(ca[a] == cb[a]);
                        assert(ca[b] == cb[b]);
                    }
                }
                assert forall|a: int|
                    0 <= a < g@.len() implies exists|k: int|
                        0 <= k < j + 1 && ss[k] == #[trigger] groups_view(g@)[a].0 by {
                    if a < gb.len() {
                        assert(groups_view(g@)[a] == gb[a]);
                        let k = choose|k: int| 0 <= k < j && ss[k] == #[trigger] gb[a].0;
                        assert(0 <= k < j + 1 && ss[k] == groups_view(g@)[a].0);
                    } else {
                        assert(0 <= j < j + 1 && ss[j as int] == groups_view(g@)[a].0);
                    }
                }
                assert forall|a: int|
                    0 <= a < g@.len() implies #[trigger] groups_view(g@)[a].1 == names_in(
                        s,
                        |y: Seq<char>| y == groups_view(g@)[a].0,
                    ) by {
                    if a < gb.len() {
                        assert(groups_view(g@)[a] == gb[a]);
                    }
                }
                cb.lemma_push_to_set_commute(x@);
            }
        } else {
            proof {
                assert forall|a: int|
                    0 <= a < g@.len() implies exists|k: int|
                        0 <= k < j + 1 && ss[k] == #[trigger] groups_view(g@)[a].0 by {
                    let k = choose|k: int| 0 <= k < j && ss[k] == #[trigger] gb[a].0;
                    assert(0 <= k < j + 1 && ss[k] == groups_view(g@)[a].0);
                }
            }
        }
        j = j + 1;
    }
    proof {
        lemma_values_are_categories(c);
        let gv = groups_view(g@);
        let cs = gv.map_values(|e: (Seq<char>, Seq<Seq<char>>)| e.0);
        let shown = shown_categories(*cfg, c@, all, f);
        assert forall|y: Seq<char>| #[trigger] cs.to_set().contains(y) <==> shown.contains(y) by {
            let in_ss = exists|k: int| 0 <= k < ss.len() && ss[k] == y;
            assert(in_ss <==> ss.to_set().contains(y));
            assert(ss.to_set().contains(y) <==> texts(cands@).to_set().contains(y));
            if used_before(s, n as int, y, adm) {
                let i = choose|i: int| 0 <= i < n && s[i].1 == y && adm(y);
                assert(exists|i: int| 0 <= i < s.len() && s[i].1 == y);
            }
            if c@.values().contains(y) {
                let i = choose|i: int| 0 <= i < s.len() && s[i].1 == y;
                if all || listable(vis, all, f, y) {
                    assert(used_before(s, n as int, y, adm));
                }
            }
        }
        assert(cs.to_set() =~= shown);
    }
    g
}

/// The groups of the given ascending categories, each with its projects in
/// order of name.
pub fn groups_for(c: &Catalog, cats: &Vec<String>) -> (g: Vec<(String, Vec<String>)>)
    requires
        ascending_by(texts(cats@), text_lt()),
    ensures
        is_grouping(c.entries(), texts(cats@).to_set(), groups_view(g@)),
{
    proof {
        use_type_invariant(c);
    }
    let ghost s = c.entries();
    let ghost cs = texts(cats@);
    let mut g: Vec<(String, Vec<String>)> = Vec::new();
    let mut j: usize = 0;
    while j < cats.len()
        invariant
            c.wf(),
            s == c.entries(),
            cs == texts(cats@),
            j <= cats@.len(),
            g@.len() == j,
            groups_view(g@).map_values(|e: (Seq<char>, Seq<Seq<char>>)| e.0) == cs.take(j as int),
            forall|a: int|
                0 <= a < g@.len() ==> #[trigger] groups_view(g@)[a].1 == names_in(
                    s,
                    |y: Seq<char>| y == groups_view(g@)[a].0,
                ),
        decreases cats.len() - j,
    {
        let x = &cats[j];
        let ghost gb = groups_view(g@);
        let names = names_in_category(c, x.as_str());
        g.push((x.clone(), names));
        assert(groups_view(g@) =~= gb.push((x@, texts(names@))));
        assert(cs[j as int] == x@);
        let ghost mb = gb.map_values(|e: (Seq<char>, Seq<Seq<char>>)| e.0);
        assert forall|a: int| 0 <= a < j implies #[trigger] gb[a].0 == cs[a] by {
            assert(mb[a] == gb[a].0);
            assert(cs.take(j as int)[a] == cs[a]);
        }
        assert(groups_view(g@).map_values(|e: (Seq<char>, Seq<Seq<char>>)| e.0) =~= cs.take(j + 1));
        assert forall|a: int|
            0 <= a < g@.len() implies #[trigger] groups_view(g@)[a].1 == names_in(
                s,
                |y: Seq<char>| y == groups_view(g@)[a].0,
            ) by {
            if a < gb.len() {
                assert(groups_view(g@)[a] == gb[a]);
            }
        }
        j = j + 1;
    }
    assert(cs.take(j as int) =~= cs);
    g
}

/// The grouping of the entries `s` under the categories `cats`.
pub open spec fn grouped(s: Seq<(Seq<char>, Seq<char>)>, cats: Set<Seq<char>>) -> Seq<(Seq<char>, Seq<Seq<char>>)> {
    choose|g: Seq<(Seq<char>, Seq<Seq<char>>)>| is_grouping(s, cats, g)
}

/// A grouping is the grouping.
pub proof fn lemma_grouping_unique(
    s: Seq<(Seq<char>, Seq<char>)>,
    cats: Set<Seq<char>>,
    g: Seq<(Seq<char>, Seq<Seq<char>>)>,
)
    requires
        is_grouping(s, cats, g),
    ensures
        grouped(s, cats) == g,
{
    let h = grouped(s, cats);
    assert(is_grouping(s, cats, h));
    let gc = g.map_values(|e: (Seq<char>, Seq<Seq<char>>)| e.0);
    let hc = h.map_values(|e: (Seq<char>, Seq<Seq<char>>)| e.0);
    crate::order::lemma_text_order();
    crate::order::lemma_ascending_unique(gc, hc, text_lt());
    assert(gc.len() == g.len() && hc.len() == h.len());
    assert(g.len() == h.len());
    assert forall|i: int| 0 <= i < g.len() implies g[i] == h[i] by {
        assert(gc[i] == g[i].0);
        assert(hc[i] == h[i].0);
    }
    assert(g =~= h);
}

/// One line of plain text per item.
pub open spec fn text_lines(items: Seq<Seq<char>>) -> Seq<Seq<(Seq<char>, Style)>> {
    items.map_values(|t: Seq<char>| seq![(t, Style::Plain)])
}

/// `category/name` for each entry of `es` whose category satisfies `p`.
pub open spec fn flat_items(es: Seq<(Seq<char>, Seq<char>)>, p: spec_fn(Seq<char>) -> bool) -> Seq<Seq<char>>
    decreases es.len(),
{
    if es.len() == 0 {
        Seq::empty()
    } else if p(es.last().1) {
        flat_items(es.drop_last(), p).push(es.last().1 + "/"@ + es.last().0)
    } else {
        flat_items(es.drop_last(), p)
    }
}

/// The output of the tree view for grouping `g`.
pub open spec fn tree_output(
    g: Seq<(Seq<char>, Seq<Seq<char>>)>,
    counts: bool,
    filter: Option<Seq<char>>,
    on_disk: Seq<Seq<char>>,
) -> Seq<Seq<(Seq<char>, Style)>> {
    if g.len() == 0 {
        match filter {
            Some(f) => seq![seq![("No projects in category '"@ + f + "'"@, Style::Plain)]],
            None => Seq::empty(),
        }
    } else if g.len() == 1 && (counts || filter is Some) {
        block_lines(Seq::empty(), Seq::empty(), g[0].0, g[0].1, counts, on_disk)
    } else {
        tree_lines(
            match filter {
                Some(f) => f,
                None => "proj"@,
            },
            g,
            counts,
            on_disk,
        )
    }
}

/// How `list` shows the catalog.
pub struct ListOptions {
    /// Only project names, one per line.
    pub names: bool,
    /// `category/name`, one per line.
    pub flat: bool,
    /// Categories with their counts only.
    pub cats: bool,
    /// Every category, regardless of visibility.
    pub all: bool,
}

/// What `list` prints.
pub enum Listing {
    /// The catalog is empty.
    NoProjects,
    /// These lines.
    Lines(Vec<Line>),
}

/// The items of a flat listing are `category/name` for the entries whose
/// category satisfies `p`, and for no others.
pub proof fn lemma_flat_items(es: Seq<(Seq<char>, Seq<char>)>, p: spec_fn(Seq<char>) -> bool)
    ensures
        forall|x: Seq<char>|
            #[trigger] flat_items(es, p).contains(x) <==> exists|k: int|
                0 <= k < es.len() && p(es[k].1) && x == es[k].1 + "/"@ + es[k].0,
    decreases es.len(),
{
    if es.len() > 0 {
        let q = es.drop_last();
        lemma_flat_items(q, p);
        let fq = flat_items(q, p);
        let e = es.last();
        assert forall|x: Seq<char>|
            #[trigger] flat_items(es, p).contains(x) <==> exists|k: int|
                0 <= k < es.len() && p(es[k].1) && x == es[k].1 + "/"@ + es[k].0 by {
            if p(e.1) {
                fq.lemma_push_to_set_commute(e.1 + "/"@ + e.0);
                assert(flat_items(es, p).to_set().contains(x) <==> fq.to_set().insert(e.1 + "/"@ + e.0).contains(x));
            }
            if exists|k: int| 0 <= k < es.len() && p(es[k].1) && x == es[k].1 + "/"@ + es[k].0 {
                let k = choose|k: int| 0 <= k < es.len() && p(es[k].1) && x == es[k].1 + "/"@ + es[k].0;
                if k < q.len() {
                    assert(q[k] == es[k]);
                }
            }
            if fq.contains(x) {
                let k = choose|k: int| 0 <= k < q.len() && p(q[k].1) && x == q[k].1 + "/"@ + q[k].0;
                assert(es[k] == q[k]);
            }
        }
    }
}

/// Whether a project of category `c` belongs in a listing: every one with
/// `all`; with a category asked for, those in it; otherwise those whose
/// category is visible, where an empty `visible_categories` makes every
/// category visible.
pub open spec fn shown_flat(cfg: Config, all: bool, filter: Option<Seq<char>>, c: Seq<char>) -> bool {
    if all {
        true
    } else {
        match filter {
            Some(f) => c == f,
            None => cfg.visible_categories@.len() == 0 || texts(cfg.visible_categories@).contains(c),
        }
    }
}

/// `l` is the flat line (`category/name`, plain) of an entry of `s` that a
/// listing takes.
pub open spec fn is_flat_line_of(
    cfg: Config,
    all: bool,
    filter: Option<Seq<char>>,
    s: Seq<(Seq<char>, Seq<char>)>,
    l: Seq<(Seq<char>, Style)>,
) -> bool {
    exists|k: int|
        0 <= k < s.len() && shown_flat(cfg, all, filter, s[k].1) && l == seq![
            (s[k].1 + "/"@ + s[k].0, Style::Plain),
        ]
}

/// The flat listing (one `category/name` line per project) shows exactly
/// the projects whose category the listing takes: all of them with `all`;
/// with a category asked for, those in it; otherwise those whose category
/// is visible, where an empty `visible_categories` makes every category
/// visible.
pub proof fn lemma_flat_listing_entries(
    cfg: Config,
    s: Seq<(Seq<char>, Seq<char>)>,
    m: Map<Seq<char>, Seq<char>>,
    opts: ListOptions,
    filter: Option<Seq<char>>,
    on_disk: Seq<Seq<char>>,
)
    requires
        opts.flat,
        !opts.names,
    ensures
        forall|i: int|
            0 <= i < list_lines(cfg, s, m, opts, filter, on_disk).len() ==> #[trigger] is_flat_line_of(
                cfg,
                opts.all,
                filter,
                s,
                list_lines(cfg, s, m, opts, filter, on_disk)[i],
            ),
        forall|k: int|
            0 <= k < s.len() && #[trigger] shown_flat(cfg, opts.all, filter, s[k].1) ==> list_lines(
                cfg,
                s,
                m,
                opts,
                filter,
                on_disk,
            ).contains(seq![(s[k].1 + "/"@ + s[k].0, Style::Plain)]),
{
    let vis = texts(cfg.visible_categories@);
    let adm = |x: Seq<char>| listable(vis, opts.all, filter, x);
    let o = category_order(s);
    lemma_category_order_exists(s);
    lemma_flat_items(o, adm);
    let items = flat_items(o, adm);
    let lines = list_lines(cfg, s, m, opts, filter, on_disk);
    assert(lines == text_lines(items));
    assert forall|c: Seq<char>| #[trigger] shown_flat(cfg, opts.all, filter, c) == adm(c) by {}
    assert forall|i: int|
        0 <= i < list_lines(cfg, s, m, opts, filter, on_disk).len() implies #[trigger] is_flat_line_of(
            cfg,
            opts.all,
            filter,
            s,
            list_lines(cfg, s, m, opts, filter, on_disk)[i],
        ) by {
        assert(items.contains(items[i]));
        let k = choose|k: int| 0 <= k < o.len() && adm(o[k].1) && items[i] == o[k].1 + "/"@ + o[k].0;
        assert(o.to_set().contains(o[k]));
        assert(s.to_set().contains(o[k]));
        let j = choose|j: int| 0 <= j < s.len() && s[j] == o[k];
        assert(shown_flat(cfg, opts.all, filter, s[j].1));
        assert(lines[i] == seq![(s[j].1 + "/"@ + s[j].0, Style::Plain)]);
    }
    assert forall|k: int|
        0 <= k < s.len() && #[trigger] shown_flat(cfg, opts.all, filter, s[k].1) implies lines.contains(
            seq![(s[k].1 + "/"@ + s[k].0, Style::Plain)],
        ) by {
        assert(s.to_set().contains(s[k]));
        assert(o.to_set().contains(s[k]));
        let j = choose|j: int| 0 <= j < o.len() && o[j] == s[k];
        assert(adm(o[j].1));
        let x = s[k].1 + "/"@ + s[k].0;
        assert(items.contains(x));
        let i = choose|i: int| 0 <= i < items.len() && items[i] == x;
        assert(lines[i] == seq![(x, Style::Plain)]);
    }
}

/// The lines `list` prints for a non-empty catalog.
pub open spec fn list_lines(
    cfg: Config,
    s: Seq<(Seq<char>, Seq<char>)>,
    m: Map<Seq<char>, Seq<char>>,
    opts: ListOptions,
    filter: Option<Seq<char>>,
    on_disk: Seq<Seq<char>>,
) -> Seq<Seq<(Seq<char>, Style)>> {
    let vis = texts(cfg.visible_categories@);
    let adm = |x: Seq<char>| listable(vis, opts.all, filter, x);
    if opts.names {
        text_lines(names_in(s, adm))
    } else if opts.flat {
        text_lines(flat_items(category_order(s), adm))
    } else {
        tree_output(grouped(s, shown_categories(cfg, m, opts.all, filter)), opts.cats, filter, on_disk)
    }
}

/// In the tree that `list` draws (without counts), each project line
/// carries the dimmed `(missing)` mark exactly when its project is not among
/// `on_disk`. Below a root, a project's name follows eight characters of
/// drawing; under a lone category, which then heads the output, four.
pub proof fn lemma_list_marks_missing(
    cfg: Config,
    s: Seq<(Seq<char>, Seq<char>)>,
    m: Map<Seq<char>, Seq<char>>,
    opts: ListOptions,
    filter: Option<Seq<char>>,
    on_disk: Seq<Seq<char>>,
)
    requires
        !opts.names,
        !opts.flat,
        !opts.cats,
    ensures
        forall|i: int|
            1 <= i < list_lines(cfg, s, m, opts, filter, on_disk).len() && !is_category_line(
                #[trigger] list_lines(cfg, s, m, opts, filter, on_disk)[i],
            ) ==> (marked_missing(list_lines(cfg, s, m, opts, filter, on_disk)[i]) <==> !on_disk.contains(
                if is_category_line(list_lines(cfg, s, m, opts, filter, on_disk)[0]) {
                    block_line_project(list_lines(cfg, s, m, opts, filter, on_disk)[i])
                } else {
                    line_project(list_lines(cfg, s, m, opts, filter, on_disk)[i])
                },
            )),
{
    let g = grouped(s, shown_categories(cfg, m, opts.all, filter));
    let lines = list_lines(cfg, s, m, opts, filter, on_disk);
    assert(lines == tree_output(g, false, filter, on_disk));
    if g.len() == 0 {
    } else if g.len() == 1 && filter is Some {
        lemma_block_marks(g[0].0, g[0].1, on_disk);
        assert(lines == block_lines(Seq::empty(), Seq::empty(), g[0].0, g[0].1, false, on_disk));
    } else {
        let root = match filter {
            Some(f) => f,
            None => "proj"@,
        };
        assert(lines == tree_lines(root, g, false, on_disk));
        lemma_tree_blocks_marks(g, g.len() as int, on_disk);
        let tb = tree_blocks(g, g.len() as int, false, on_disk);
        assert(!is_category_line(lines[0]));
        assert forall|i: int|
            1 <= i < lines.len() && !is_category_line(#[trigger] lines[i]) implies (marked_missing(lines[i])
                <==> !on_disk.contains(line_project(lines[i]))) by {
            assert(lines[i] == tb[i - 1]);
        }
    }
}

/// The names of the entries of `s` whose category satisfies `p` are exactly
/// those names.
pub proof fn lemma_names_in(s: Seq<(Seq<char>, Seq<char>)>, p: spec_fn(Seq<char>) -> bool)
    ensures
        forall|x: Seq<char>|
            #[trigger] names_in(s, p).contains(x) <==> exists|k: int| 0 <= k < s.len() && p(s[k].1) && x == s[k].0,
    decreases s.len(),
{
    if s.len() > 0 {
        let q = s.drop_last();
        lemma_names_in(q, p);
        let nq = names_in(q, p);
        let e = s.last();
        assert forall|x: Seq<char>|
            #[trigger] names_in(s, p).contains(x) <==> exists|k: int| 0 <= k < s.len() && p(s[k].1) && x == s[k].0 by {
            if p(e.1) {
                nq.lemma_push_to_set_commute(e.0);
                assert(names_in(s, p).to_set().contains(x) <==> nq.to_set().insert(e.0).contains(x));
            }
            if exists|k: int| 0 <= k < s.len() && p(s[k].1) && x == s[k].0 {
                let k = choose|k: int| 0 <= k < s.len() && p(s[k].1) && x == s[k].0;
                if k < q.len() {
                    assert(q[k] == s[k]);
                }
            }
            if nq.contains(x) {
                let k = choose|k: int| 0 <= k < q.len() && p(q[k].1) && x == q[k].0;
                assert(s[k] == q[k]);
            }
        }
    }
}

/// `l` is the names-only line (the name, plain) of an entry of `s` that a
/// listing takes.
pub open spec fn is_name_line_of(
    cfg: Config,
    all: bool,
    filter: Option<Seq<char>>,
    s: Seq<(Seq<char>, Seq<char>)>,
    l: Seq<(Seq<char>, Style)>,
) -> bool {
    exists|k: int| 0 <= k < s.len() && shown_flat(cfg, all, filter, s[k].1) && l == seq![(s[k].0, Style::Plain)]
}

/// The names-only listing shows exactly the names of the projects whose
/// category the listing takes, by the same rule as the flat listing:
/// hidden categories stay hidden unless `all` is given or the category is
/// asked for.
pub proof fn lemma_names_listing_entries(
    cfg: Config,
    s: Seq<(Seq<char>, Seq<char>)>,
    m: Map<Seq<char>, Seq<char>>,
    opts: ListOptions,
    filter: Option<Seq<char>>,
    on_disk: Seq<Seq<char>>,
)
    requires
        opts.names,
    ensures
        forall|i: int|
            0 <= i < list_lines(cfg, s, m, opts, filter, on_disk).len() ==> #[trigger] is_name_line_of(
                cfg,
                opts.all,
                filter,
                s,
                list_lines(cfg, s, m, opts, filter, on_disk)[i],
            ),
        forall|k: int|
            0 <= k < s.len() && #[trigger] shown_flat(cfg, opts.all, filter, s[k].1) ==> list_lines(
                cfg,
                s,
                m,
                opts,
                filter,
                on_disk,
            ).contains(seq![(s[k].0, Style::Plain)]),
{
    let vis = texts(cfg.visible_categories@);
    let adm = |x: Seq<char>| listable(vis, opts.all, filter, x);
    lemma_names_in(s, adm);
    let items = names_in(s, adm);
    let lines = list_lines(cfg, s, m, opts, filter, on_disk);
    assert(lines == text_lines(items));
    assert forall|c: Seq<char>| #[trigger] shown_flat(cfg, opts.all, filter, c) == adm(c) by {}
    assert forall|i: int|
        0 <= i < list_lines(cfg, s, m, opts, filter, on_disk).len() implies #[trigger] is_name_line_of(
            cfg,
            opts.all,
            filter,
            s,
            list_lines(cfg, s, m, opts, filter, on_disk)[i],
        ) by {
        assert(items.contains(items[i]));
        let k = choose|k: int| 0 <= k < s.len() && adm(s[k].1) && items[i] == s[k].0;
        assert(shown_flat(cfg, opts.all, filter, s[k].1));
        assert(lines[i] == seq![(s[k].0, Style::Plain)]);
    }
    assert forall|k: int|
        0 <= k < s.len() && #[trigger] shown_flat(cfg, opts.all, filter, s[k].1) implies lines.contains(
            seq![(s[k].0, Style::Plain)],
        ) by {
        assert(items.contains(s[k].0));
        let i = choose|i: int| 0 <= i < items.len() && items[i] == s[k].0;
        assert(lines[i] == seq![(s[k].0, Style::Plain)]);
    }
}

/// Lines of plain text.
fn text_lines_exec(items: &Vec<String>) -> (r: Vec<Line>)
    ensures
        lines_view(r@) == text_lines(texts(items@)),
{
    let mut r: Vec<Line> = Vec::new();
    let mut i: usize = 0;
    while i < items.len()
        invariant
            i <= items@.len(),
            lines_view(r@) == text_lines(texts(items@)).take(i as int),
        decreases items.len() - i,
    {
        let mut l: Line = Vec::new();
        l.push(plain(items[i].clone()));
        assert(line_view(l) =~= seq![(items@[i as int]@, Style::Plain)]);
        let ghost before = lines_view(r@);
        r.push(l);
        assert(lines_view(r@) =~= before.push(line_view(l)));
        i = i + 1;
        assert(lines_view(r@) =~= text_lines(texts(items@)).take(i as int));
    }
    assert(text_lines(texts(items@)).take(i as int) =~= text_lines(texts(items@)));
    r
}

/// The catalog as `list` shows it. `on_disk` names the projects whose
/// directory exists; the others are marked missing.
pub fn list_projects(
    cfg: &Config,
    c: &Catalog,
    opts: &ListOptions,
    filter: Option<&str>,
    on_disk: &Vec<String>,
) -> (r: Listing)
    ensures
        c.entries().len() == 0 ==> r is NoProjects,
        c.entries().len() > 0 ==> (r matches Listing::Lines(ls) && lines_view(ls@) == list_lines(
            *cfg,
            c.entries(),
            c@,
            *opts,
            opt_view(filter),
            texts(on_disk@),
        )),
        c.entries().len() > 0 && !opts.names && opts.flat ==> is_category_order(
            c.entries(),
            category_order(c.entries()),
        ),
        c.entries().len() > 0 && !opts.names && !opts.flat ==> is_grouping(
            c.entries(),
            shown_categories(*cfg, c@, opts.all, opt_view(filter)),
            grouped(c.entries(), shown_categories(*cfg, c@, opts.all, opt_view(filter))),
        ),
{
    proof {
        use_type_invariant(c);
    }
    if c.is_empty() {
        return Listing::NoProjects;
    }
    let ghost s = c.entries();
    let ghost vis = texts(cfg.visible_categories@);
    let ghost f = opt_view(filter);
    let ghost adm = |x: Seq<char>| listable(vis, opts.all, f, x);
    if opts.names {
        let mut items: Vec<String> = Vec::new();
        let n = c.len();
        let mut i: usize = 0;
        while i < n
            invariant
                n == s.len(),
                s == c.entries(),
                vis == texts(cfg.visible_categories@),
                f == opt_view(filter),
                adm == (|x: Seq<char>| listable(vis, opts.all, f, x)),
                i <= n,
                texts(items@) == names_in(s.take(i as int), adm),
            decreases n - i,
        {
            let ghost t = s.take(i + 1);
            assert(t.drop_last() =~= s.take(i as int));
            let ghost before = texts(items@);
            if is_listable(cfg, opts.all, filter, c.category_at(i).as_str()) {
                items.push(c.name_at(i).clone());
                assert(texts(items@) =~= before.push(t.last().0));
            }
            i = i + 1;
        }
        assert(s.take(n as int) =~= s);
        return Listing::Lines(text_lines_exec(&items));
    }
    if opts.flat {
        let es = by_category(c);
        let ghost ev = pair_views(es@);
        proof {
            lemma_category_order_is(s, ev);
        }
        let mut items: Vec<String> = Vec::new();
        let mut i: usize = 0;
        while i < es.len()
            invariant
                ev == pair_views(es@),
                vis == texts(cfg.visible_categories@),
                f == opt_view(filter),
                adm == (|x: Seq<char>| listable(vis, opts.all, f, x)),
                i <= es@.len(),
                texts(items@) == flat_items(ev.take(i as int), adm),
            decreases es.len() - i,
        {
            let ghost t = ev.take(i + 1);
            assert(t.drop_last() =~= ev.take(i as int));
            assert(ev[i as int] == (es@[i as int].0@, es@[i as int].1@));
            let ghost before = texts(items@);
            if is_listable(cfg, opts.all, filter, es[i].1.as_str()) {
                let mut line = String::new();
                line.append(es[i].1.as_str());
                line.append("/");
                line.append(es[i].0.as_str());
                items.push(line);
                assert(texts(items@) =~= before.push(t.last().1 + "/"@ + t.last().0));
            }
            i = i + 1;
        }
        assert(ev.take(es@.len() as int) =~= ev);
        return Listing::Lines(text_lines_exec(&items));
    }
    let g = group_projects(cfg, c, opts.all, filter);
    proof {
        lemma_grouping_unique(s, shown_categories(*cfg, c@, opts.all, f), groups_view(g@));
    }
    let ghost gv = groups_view(g@);
    if g.len() == 0 {
        match filter {
            Some(fl) => {
                let mut t = String::new();
                t.append("No projects in category '");
                t.append(fl);
                t.append("'");
                let mut l: Line = Vec::new();
                l.push(plain(t));
                assert(line_view(l) =~= seq![("No projects in category '"@ + fl@ + "'"@, Style::Plain)]);
                let mut r: Vec<Line> = Vec::new();
                r.push(l);
                assert(lines_view(r@) =~= seq![line_view(l)]);
                assert(lines_view(r@) =~= tree_output(gv, opts.cats, f, texts(on_disk@)));
                return Listing::Lines(r);
            },
            None => {
                let r: Vec<Line> = Vec::new();
                assert(lines_view(r@) =~= tree_output(gv, opts.cats, f, texts(on_disk@)));
                return Listing::Lines(r);
            },
        }
    }
    if g.len() == 1 && (opts.cats || filter.is_some()) {
        assert(gv[0] == (g@[0].0@, texts(g@[0].1@)));
        let r = single_block(g[0].0.as_str(), &g[0].1, opts.cats, on_disk);
        return Listing::Lines(r);
    }
    let root = match filter {
        Some(fl) => fl,
        None => "proj",
    };
    let r = tree(root, &g, opts.cats, on_disk);
    Listing::Lines(r)
}

} // verus!
