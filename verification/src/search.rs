//! Searching the catalog by a fragment of a project's name.

use vstd::prelude::*;
use crate::catalog::{Catalog, names_ascending, pair_views};
use crate::listing::{grouped, groups_for, is_grouping, lemma_grouping_unique};
use crate::order::sorted_unique;
use crate::render::{Line, Style, line_view, lines_view, plain, tree, tree_lines, groups_view, is_category_line, marked_missing, line_project, lemma_tree_blocks_marks};
use crate::text::{chars_of, lex_lt, texts, lemma_texts_push};

verus! {

/// What `str::to_lowercase` makes of a text (Unicode lowercase mapping).
pub uninterp spec fn lowercase(s: Seq<char>) -> Seq<char>;

/// Calls `str::to_lowercase`. Claims: the result is `lowercase` of the
/// text; what the Unicode mapping is, is not stated.
#[verifier::external_body]
fn to_lowercase(s: &str) -> (r: String)
    ensures
        r@ == lowercase(s@),
{
    s.to_lowercase()
}

/// `needle` occurs in `hay` (`str::contains`; the empty text occurs
/// everywhere).
pub open spec fn occurs_in(hay: Seq<char>, needle: Seq<char>) -> bool {
    exists|i: int| 0 <= i <= hay.len() - needle.len() && #[trigger] hay.subrange(i, i + needle.len()) == needle
}

/// Does `needle` occur in `hay`?
pub fn text_contains(hay: &str, needle: &str) -> (r: bool)
    ensures
        r == occurs_in(hay@, needle@),
{
    let h = chars_of(hay);
    let n = chars_of(needle);
    if n.len() > h.len() {
        return false;
    }
    let hl = h.len();
    let last = h.len() - n.len();
    let mut i: usize = 0;
    while i <= last
        invariant
            h@ == hay@,
            n@ == needle@,
            last == h@.len() - n@.len(),
            hl == h@.len(),
            n@.len() <= h@.len(),
            i <= last + 1,
            forall|k: int| 0 <= k < i ==> #[trigger] h@.subrange(k, k + n@.len()) != n@,
        decreases last + 1 - i,
    {
        let mut j: usize = 0;
        let mut same = true;
        while j < n.len()
            invariant
                h@ == hay@,
                n@ == needle@,
                i + n@.len() <= h@.len(),
                hl == h@.len(),
                j <= n@.len(),
                same == forall|q: int| 0 <= q < j ==> h@[i + q] == n@[q],
            decreases n.len() - j,
        {
            if h[i + j] != n[j] {
                same = false;
            }
            j = j + 1;
        }
        if same {
            assert(h@.subrange(i as int, i + n@.len()) =~= n@);
            return true;
        }
        proof {
            let q = choose|q: int| 0 <= q < n@.len() && h@[i + q] != n@[q];
            assert(h@.subrange(i as int, i + n@.len())[q] != n@[q]);
        }
        i = i + 1;
    }
    proof {
        if occurs_in(hay@, needle@) {
            let k = choose|k: int| 0 <= k <= hay@.len() - needle@.len() && #[trigger] hay@.subrange(k, k + needle@.len()) == needle@;
            assert(h@.subrange(k, k + n@.len()) != n@);
        }
    }
    false
}

/// A project name matches a search when the query occurs in it, both
/// lowercased.
pub open spec fn name_matches(name: Seq<char>, query: Seq<char>) -> bool {
    occurs_in(lowercase(name), lowercase(query))
}

/// The names of the entries of `s`, lowercased.
pub open spec fn lower_names(s: Seq<(Seq<char>, Seq<char>)>) -> Seq<Seq<char>> {
    s.map_values(|e: (Seq<char>, Seq<char>)| lowercase(e.0))
}

/// The entries of `s`, in order, whose lowercased name (the item of
/// `lowered` at the same place) contains the lowercased query `lq`.
pub open spec fn matched(s: Seq<(Seq<char>, Seq<char>)>, lowered: Seq<Seq<char>>, lq: Seq<char>) -> Seq<(Seq<char>, Seq<char>)>
    decreases s.len(),
{
    if s.len() == 0 || lowered.len() == 0 {
        Seq::empty()
    } else if occurs_in(lowered.last(), lq) {
        matched(s.drop_last(), lowered.drop_last(), lq).push(s.last())
    } else {
        matched(s.drop_last(), lowered.drop_last(), lq)
    }
}

/// The entries of `s`, in order, whose name matches the query.
pub open spec fn matching(s: Seq<(Seq<char>, Seq<char>)>, query: Seq<char>) -> Seq<(Seq<char>, Seq<char>)> {
    matched(s, lower_names(s), lowercase(query))
}

/// The matching entries come from the entries and keep their order, for
/// any lowercased names.
#[verifier::spinoff_prover]
pub proof fn lemma_matched_ascending(s: Seq<(Seq<char>, Seq<char>)>, lowered: Seq<Seq<char>>, lq: Seq<char>)
    requires
        names_ascending(s),
    ensures
        names_ascending(matched(s, lowered, lq)),
        forall|a: int|
            0 <= a < matched(s, lowered, lq).len() ==> exists|k: int|
                0 <= k < s.len() && s[k] == #[trigger] matched(s, lowered, lq)[a],
    decreases s.len(),
{
    if s.len() > 0 && lowered.len() > 0 {
        let p = s.drop_last();
        assert(names_ascending(p));
        lemma_matched_ascending(p, lowered.drop_last(), lq);
        let mp = matched(p, lowered.drop_last(), lq);
        let m = matched(s, lowered, lq);
        if occurs_in(lowered.last(), lq) {
            assert(m == mp.push(s.last()));
        } else {
            assert(m == mp);
        }
        assert forall|a: int| 0 <= a < m.len() implies exists|k: int|
            0 <= k < s.len() && s[k] == #[trigger] m[a] by {
            if a < mp.len() {
                assert(m[a] == mp[a]);
                let k = choose|k: int| 0 <= k < p.len() && p[k] == #[trigger] mp[a];
                assert(s[k] == m[a]);
            } else {
                assert(s[s.len() - 1] == m[a]);
            }
        }
        assert forall|a: int, b: int| 0 <= a < b < m.len() implies lex_lt(m[a].0, m[b].0) by {
            if b < mp.len() {
                assert(m[a] == mp[a]);
                assert(m[b] == mp[b]);
            } else {
                assert(m[a] == mp[a]);
                let k = choose|k: int| 0 <= k < p.len() && p[k] == #[trigger] mp[a];
                assert(s[k] == m[a]);
                assert(m[b] == s[s.len() - 1]);
            }
        }
    } else {
        assert(matched(s, lowered, lq).len() == 0);
    }
}

/// The matching entries come from the entries and keep their order.
pub proof fn lemma_matching_ascending(s: Seq<(Seq<char>, Seq<char>)>, query: Seq<char>)
    requires
        names_ascending(s),
    ensures
        names_ascending(matching(s, query)),
        forall|a: int|
            0 <= a < matching(s, query).len() ==> exists|k: int|
                0 <= k < s.len() && s[k] == #[trigger] matching(s, query)[a],
{
    lemma_matched_ascending(s, lower_names(s), lowercase(query));
}

/// A search finds exactly the entries whose name matches.
pub proof fn lemma_matching_exact(s: Seq<(Seq<char>, Seq<char>)>, query: Seq<char>)
    ensures
        forall|e: (Seq<char>, Seq<char>)|
            #[trigger] matching(s, query).contains(e) <==> s.contains(e) && name_matches(e.0, query),
    decreases s.len(),
{
    if s.len() > 0 {
        let p = s.drop_last();
        assert(lower_names(s).drop_last() =~= lower_names(p));
        assert(lower_names(s).last() == lowercase(s.last().0));
        lemma_matching_exact(p, query);
        assert forall|e: (Seq<char>, Seq<char>)|
            #[trigger] matching(s, query).contains(e) <==> s.contains(e) && name_matches(e.0, query) by {
            let mp = matching(p, query);
            if s.contains(e) {
                let k = choose|k: int| 0 <= k < s.len() && s[k] == e;
                if k < p.len() {
                    assert(p[k] == e);
                }
            }
            if p.contains(e) {
                let k = choose|k: int| 0 <= k < p.len() && p[k] == e;
                assert(s[k] == e);
            }
            if name_matches(s.last().0, query) {
                let m = mp.push(s.last());
                if mp.contains(e) {
                    let k = choose|k: int| 0 <= k < mp.len() && mp[k] == e;
                    assert(m[k] == e);
                }
                if m.contains(e) {
                    let k = choose|k: int| 0 <= k < m.len() && m[k] == e;
                    if k < mp.len() {
                        assert(mp[k] == e);
                    }
                }
                assert(m[mp.len() as int] == s.last());
            }
        }
    }
}

/// The categories of the entries `s`.
pub open spec fn categories_of(s: Seq<(Seq<char>, Seq<char>)>) -> Set<Seq<char>> {
    Set::new(|c: Seq<char>| exists|i: int| 0 <= i < s.len() && s[i].1 == c)
}

/// One more entry adds its category to the categories of the entries.
pub proof fn lemma_categories_push(s: Seq<(Seq<char>, Seq<char>)>, e: (Seq<char>, Seq<char>))
    ensures
        categories_of(s.push(e)) == categories_of(s).insert(e.1),
{
    let t = s.push(e);
    assert forall|c: Seq<char>| categories_of(t).contains(c) <==> categories_of(s).insert(e.1).contains(c) by {
        if categories_of(t).contains(c) {
            let k = choose|k: int| 0 <= k < t.len() && t[k].1 == c;
            if k < s.len() {
                assert(s[k] == t[k]);
            }
        }
        if categories_of(s).contains(c) {
            let k = choose|k: int| 0 <= k < s.len() && s[k].1 == c;
            assert(t[k] == s[k]);
        }
        if c == e.1 {
            assert(t[s.len() as int] == e);
        }
    }
    assert(categories_of(t) =~= categories_of(s).insert(e.1));
}

/// What `find` prints for `query` once the entries `found` are found: the
/// query, then those projects as a tree of their categories (without a root
/// line), or a note that nothing matched.
pub open spec fn found_lines(
    found: Seq<(Seq<char>, Seq<char>)>,
    query: Seq<char>,
    on_disk: Seq<Seq<char>>,
) -> Seq<Seq<(Seq<char>, Style)>> {
    let g = grouped(found, categories_of(found));
    let head = "Search Terms: "@ + query;
    if g.len() == 0 {
        seq![seq![(head, Style::Plain)], seq![("  No results found."@, Style::Plain)]]
    } else {
        tree_lines(head, g, false, on_disk)
    }
}

/// What `find` prints for `query`: the projects whose name matches it.
pub open spec fn find_lines(
    s: Seq<(Seq<char>, Seq<char>)>,
    query: Seq<char>,
    on_disk: Seq<Seq<char>>,
) -> Seq<Seq<(Seq<char>, Style)>> {
    found_lines(matching(s, query), query, on_disk)
}

/// In what `find` prints, every project line (each line after the first
/// that is neither a category line nor the note that nothing matched)
/// carries the dimmed `(missing)` mark exactly when its project is not among
/// `on_disk`.
pub proof fn lemma_find_marks_missing(s: Seq<(Seq<char>, Seq<char>)>, query: Seq<char>, on_disk: Seq<Seq<char>>)
    ensures
        forall|i: int|
            1 <= i < find_lines(s, query, on_disk).len() && !is_category_line(
                #[trigger] find_lines(s, query, on_disk)[i],
            ) && find_lines(s, query, on_disk)[i] != seq![("  No results found."@, Style::Plain)] ==> (
            marked_missing(find_lines(s, query, on_disk)[i]) <==> !on_disk.contains(
                line_project(find_lines(s, query, on_disk)[i]),
            )),
{
    let found = matching(s, query);
    let g = grouped(found, categories_of(found));
    let lines = find_lines(s, query, on_disk);
    if g.len() > 0 {
        let head = "Search Terms: "@ + query;
        assert(lines == tree_lines(head, g, false, on_disk));
        lemma_tree_blocks_marks(g, g.len() as int, on_disk);
        let tb = crate::render::tree_blocks(g, g.len() as int, false, on_disk);
        assert forall|i: int|
            1 <= i < lines.len() && !is_category_line(#[trigger] lines[i]) && lines[i] != seq![
                ("  No results found."@, Style::Plain),
            ] implies (marked_missing(lines[i]) <==> !on_disk.contains(line_project(lines[i]))) by {
            assert(lines[i] == tb[i - 1]);
        }
    }
}

/// What `find` prints for `query`, given the lowercased query and the
/// lowercased project names (one per entry, in the catalog's order): the
/// projects whose lowercased name contains the lowercased query.
pub fn find_lowered(
    c: &Catalog,
    query: &str,
    lowered_query: &str,
    lowered_names: &Vec<String>,
    on_disk: &Vec<String>,
) -> (r: Vec<Line>)
    requires
        lowered_names@.len() == c.entries().len(),
    ensures
        lines_view(r@) == found_lines(
            matched(c.entries(), texts(lowered_names@), lowered_query@),
            query@,
            texts(on_disk@),
        ),
        ({
            let m = matched(c.entries(), texts(lowered_names@), lowered_query@);
            is_grouping(m, categories_of(m), grouped(m, categories_of(m)))
        }),
{
    proof {
        use_type_invariant(c);
    }
    let ghost s = c.entries();
    let ghost l = texts(lowered_names@);
    let ghost lq = lowered_query@;
    let mut found: Vec<(String, String)> = Vec::new();
    let mut cats: Vec<String> = Vec::new();
    let n = c.len();
    let mut i: usize = 0;
    while i < n
        invariant
            n == s.len(),
            s == c.entries(),
            l == texts(lowered_names@),
            l.len() == n,
            lq == lowered_query@,
            i <= n,
            pair_views(found@) == matched(s.take(i as int), l.take(i as int), lq),
            texts(cats@).to_set() == categories_of(matched(s.take(i as int), l.take(i as int), lq)),
        decreases n - i,
    {
        let ghost t = s.take(i + 1);
        let ghost lt = l.take(i + 1);
        assert(t.drop_last() =~= s.take(i as int));
        assert(lt.drop_last() =~= l.take(i as int));
        assert(lt.last() == lowered_names@[i as int]@);
        let name = c.name_at(i);
        let cat = c.category_at(i);
        assert(t.last() == (name@, cat@));
        let ghost fb = pair_views(found@);
        if text_contains(lowered_names[i].as_str(), lowered_query) {
            found.push((name.clone(), cat.clone()));
            assert(pair_views(found@) =~= fb.push((name@, cat@)));
            let ghost vb = cats@;
            cats.push(cat.clone());
            proof {
                lemma_texts_push(vb, cats@.last());
                assert(cats@ == vb.push(cats@.last()));
                lemma_categories_push(fb, (name@, cat@));
            }
        }
        i = i + 1;
    }
    assert(s.take(n as int) =~= s);
    assert(l.take(n as int) =~= l);
    proof {
        lemma_matched_ascending(s, l, lq);
    }
    let fc = Catalog::from_ascending(found);
    let sorted = sorted_unique(&cats);
    let g = groups_for(&fc, &sorted);
    proof {
        lemma_grouping_unique(fc.entries(), texts(sorted@).to_set(), groups_view(g@));
    }
    let mut head = String::new();
    head.append("Search Terms: ");
    head.append(query);
    if g.len() == 0 {
        let mut a: Line = Vec::new();
        a.push(plain(head));
        let mut b: Line = Vec::new();
        b.push(plain("  No results found.".to_owned()));
        let mut r: Vec<Line> = Vec::new();
        r.push(a);
        r.push(b);
        assert(line_view(a) =~= seq![("Search Terms: "@ + query@, Style::Plain)]);
        assert(line_view(b) =~= seq![("  No results found."@, Style::Plain)]);
        assert(lines_view(r@) =~= seq![line_view(a), line_view(b)]);
        r
    } else {
        tree(head.as_str(), &g, false, on_disk)
    }
}

/// The projects whose name matches `query`, as `find` prints them;
/// `on_disk` names the projects whose directory exists.
pub fn find_projects(c: &Catalog, query: &str, on_disk: &Vec<String>) -> (r: Vec<Line>)
    ensures
        lines_view(r@) == find_lines(c.entries(), query@, texts(on_disk@)),
        ({
            let m = matching(c.entries(), query@);
            is_grouping(m, categories_of(m), grouped(m, categories_of(m)))
        }),
{
    proof {
        use_type_invariant(c);
    }
    let ghost s = c.entries();
    let q = to_lowercase(query);
    let mut lowered: Vec<String> = Vec::new();
    let n = c.len();
    let mut i: usize = 0;
    while i < n
        invariant
            n == s.len(),
            s == c.entries(),
            i <= n,
            texts(lowered@) == lower_names(s).take(i as int),
        decreases n - i,
    {
        let ghost before = texts(lowered@);
        lowered.push(to_lowercase(c.name_at(i).as_str()));
        assert(texts(lowered@) =~= lower_names(s).take(i + 1)) by {
            assert(texts(lowered@) =~= before.push(lowercase(s[i as int].0)));
        }
        i = i + 1;
    }
    assert(lower_names(s).take(n as int) =~= lower_names(s));
    find_lowered(c, query, q.as_str(), &lowered, on_disk)
}

} // verus!
