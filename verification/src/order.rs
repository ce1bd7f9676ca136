//! Strictly ascending sequences: sorting, de-duplication, and the fact that
//! an ascending sequence is fixed by the set of its items.

use vstd::prelude::*;
use crate::catalog::{Catalog, pair_views};
use crate::text::{
    lex_less, lex_lt, lemma_lex_irreflexive, lemma_lex_total,
    lemma_lex_transitive, same_text, texts,
};

verus! {

/// `lt` is a strict total order.
pub open spec fn strict_total_order<T>(lt: spec_fn(T, T) -> bool) -> bool {
    &&& forall|a: T| !#[trigger] lt(a, a)
    &&& forall|a: T, b: T, c: T| #[trigger] lt(a, b) && #[trigger] lt(b, c) ==> lt(a, c)
    &&& forall|a: T, b: T| a != b ==> #[trigger] lt(a, b) || #[trigger] lt(b, a)
}

/// Every item of `s` is before every later item.
pub open spec fn ascending_by<T>(s: Seq<T>, lt: spec_fn(T, T) -> bool) -> bool {
    forall|i: int, j: int| 0 <= i < j < s.len() ==> lt(#[trigger] s[i], #[trigger] s[j])
}

/// Two ascending sequences with the same items are the same sequence.
pub proof fn lemma_ascending_unique<T>(a: Seq<T>, b: Seq<T>, lt: spec_fn(T, T) -> bool)
    requires
        strict_total_order(lt),
        ascending_by(a, lt),
        ascending_by(b, lt),
        a.to_set() == b.to_set(),
    ensures
        a == b,
    decreases a.len(),
{
    if a.len() == 0 {
        if b.len() > 0 {
            assert(b.to_set().contains(b[0]));
        }
        assert(a =~= b);
    } else if b.len() == 0 {
        assert(a.to_set().contains(a[0]));
    } else {
        assert(a.to_set().contains(a[0]));
        assert(b.to_set().contains(b[0]));
        let k = choose|k: int| 0 <= k < b.len() && b[k] == a[0];
        let m = choose|m: int| 0 <= m < a.len() && a[m] == b[0];
        if a[0] != b[0] {
            assert(k > 0);
            assert(m > 0);
            assert(lt(b[0], b[k]));
            assert(lt(a[0], a[m]));
            assert(lt(a[0], a[0]));
        }
        let a1 = a.drop_first();
        let b1 = b.drop_first();
        assert(ascending_by(a1, lt)) by {
            assert forall|i: int, j: int| 0 <= i < j < a1.len() implies lt(
                #[trigger] a1[i],
                #[trigger] a1[j],
            ) by {
                assert(a1[i] == a[i + 1]);
                assert(a1[j] == a[j + 1]);
            }
        }
        assert(ascending_by(b1, lt)) by {
            assert forall|i: int, j: int| 0 <= i < j < b1.len() implies lt(
                #[trigger] b1[i],
                #[trigger] b1[j],
            ) by {
                assert(b1[i] == b[i + 1]);
                assert(b1[j] == b[j + 1]);
            }
        }
        assert(a1.to_set() =~= b1.to_set()) by {
            assert forall|x: T| a1.to_set().contains(x) implies b1.to_set().contains(x) by {
                let i = choose|i: int| 0 <= i < a1.len() && a1[i] == x;
                assert(a[i + 1] == x);
                assert(lt(a[0], a[i + 1]));
                assert(b.to_set().contains(x));
                let j = choose|j: int| 0 <= j < b.len() && b[j] == x;
                if j == 0 {
                    assert(lt(x, x));
                }
                assert(b1[j - 1] == x);
            }
            assert forall|x: T| b1.to_set().contains(x) implies a1.to_set().contains(x) by {
                let i = choose|i: int| 0 <= i < b1.len() && b1[i] == x;
                assert(b[i + 1] == x);
                assert(lt(b[0], b[i + 1]));
                assert(a.to_set().contains(x));
                let j = choose|j: int| 0 <= j < a.len() && a[j] == x;
                if j == 0 {
                    assert(lt(x, x));
                }
                assert(a1[j - 1] == x);
            }
        }
        lemma_ascending_unique(a1, b1, lt);
        assert(a =~= b) by {
            assert forall|i: int| 0 <= i < a.len() implies a[i] == b[i] by {
                if i > 0 {
                    assert(a[i] == a1[i - 1]);
                    assert(b[i] == b1[i - 1]);
                }
            }
        }
    }
}

/// Lexicographic order on texts as a spec closure.
pub open spec fn text_lt() -> spec_fn(Seq<char>, Seq<char>) -> bool {
    |a: Seq<char>, b: Seq<char>| lex_lt(a, b)
}

/// Lexicographic order is a strict total order.
pub proof fn lemma_text_order()
    ensures
        strict_total_order(text_lt()),
{
    assert forall|a: Seq<char>| !#[trigger] text_lt()(a, a) by {
        lemma_lex_irreflexive(a);
    }
    assert forall|a: Seq<char>, b: Seq<char>, c: Seq<char>| #[trigger]
        text_lt()(a, b) && #[trigger] text_lt()(b, c) implies text_lt()(a, c) by {
        lemma_lex_transitive(a, b, c);
    }
    assert forall|a: Seq<char>, b: Seq<char>| a != b implies #[trigger] text_lt()(a, b)
        || #[trigger] text_lt()(b, a) by {
        lemma_lex_total(a, b);
    }
}

/// The distinct texts of `v` in ascending order (what collecting into a
/// `BTreeSet<String>` and walking it gives).
pub fn sorted_unique(v: &Vec<String>) -> (r: Vec<String>)
    ensures
        ascending_by(texts(r@), text_lt()),
        texts(r@).to_set() == texts(v@).to_set(),
{
    let mut r: Vec<String> = Vec::new();
    let mut i: usize = 0;
    while i < v.len()
        invariant
            i <= v@.len(),
            ascending_by(texts(r@), text_lt()),
            texts(r@).to_set() == texts(v@).take(i as int).to_set(),
        decreases v.len() - i,
    {
        let x = &v[i];
        let ghost old_r = texts(r@);
        let mut j: usize = 0;
        let mut dup = false;
        while j < r.len()
            invariant_except_break
                !dup,
            invariant
                old_r == texts(r@),
                ascending_by(old_r, text_lt()),
                j <= r@.len(),
                forall|q: int| 0 <= q < j ==> lex_lt(#[trigger] old_r[q], x@),
            ensures
                dup ==> j < old_r.len() && old_r[j as int] == x@,
                !dup ==> j == old_r.len() || (!lex_lt(old_r[j as int], x@) && old_r[j as int]
                    != x@),
            decreases r.len() - j,
        {
            if lex_less(r[j].as_str(), x.as_str()) {
                j = j + 1;
            } else {
                dup = same_text(r[j].as_str(), x.as_str());
                break;
            }
        }
        let ghost prefix = texts(v@).take(i as int);
        let ghost next = texts(v@).take(i + 1);
        assert(next =~= prefix.push(x@));
        if dup {
            assert(old_r[j as int] == x@);
            assert(texts(r@).to_set() =~= next.to_set()) by {
                prefix.lemma_push_to_set_commute(x@);
                assert(old_r.to_set().contains(x@));
                assert(old_r.to_set().insert(x@) =~= old_r.to_set());
            }
        } else {
            proof {
                lemma_text_order();
                if j < old_r.len() {
                    let y = old_r[j as int];
                    assert(y != x@);
                    lemma_lex_total(y, x@);
                    assert(lex_lt(x@, y));
                }
            }
            r.insert(j, x.clone());
            let ghost t = texts(r@);
            assert(t =~= old_r.insert(j as int, x@));
            proof {
                assert forall|a: int, b: int| 0 <= a < b < t.len() implies text_lt()(
                    #[trigger] t[a],
                    #[trigger] t[b],
                ) by {
                    if b < j {
                        assert(t[a] == old_r[a]);
                        assert(t[b] == old_r[b]);
                    } else if b == j {
                        assert(t[a] == old_r[a]);
                    } else if a < j {
                        assert(t[a] == old_r[a]);
                        assert(t[b] == old_r[b - 1]);
                        if b - 1 > j {
                            assert(text_lt()(old_r[j as int], old_r[b - 1]));
                        }
                        lemma_lex_transitive(t[a], x@, old_r[j as int]);
                        if b - 1 > j {
                            lemma_lex_transitive(t[a], old_r[j as int], t[b]);
                        }
                    } else if a == j {
                        assert(t[b] == old_r[b - 1]);
                        if b - 1 > j {
                            lemma_lex_transitive(x@, old_r[j as int], t[b]);
                        }
                    } else {
                        assert(t[a] == old_r[a - 1]);
                        assert(t[b] == old_r[b - 1]);
                    }
                }
                assert(t.to_set() =~= next.to_set()) by {
                    assert forall|y: Seq<char>| next.to_set().contains(y) implies t.to_set().contains(y) by {
                        let k = choose|k: int| 0 <= k < next.len() && next[k] == y;
                        if k < prefix.len() {
                            assert(prefix[k] == y);
                            assert(prefix.to_set().contains(y));
                            assert(old_r.to_set().contains(y));
                            let m = choose|m: int| 0 <= m < old_r.len() && old_r[m] == y;
                            if m < j {
                                assert(t[m] == y);
                            } else {
                                assert(t[m + 1] == y);
                            }
                        } else {
                            assert(t[j as int] == y);
                        }
                    }
                    assert forall|y: Seq<char>| t.to_set().contains(y) implies next.to_set().contains(y) by {
                        let k = choose|k: int| 0 <= k < t.len() && t[k] == y;
                        if k == j {
                            assert(next[i as int] == y);
                        } else {
                            let m = if k < j { k } else { k - 1 };
                            assert(old_r[m] == y);
                            assert(old_r.to_set().contains(y));
                            assert(prefix.to_set().contains(y));
                            let p = choose|p: int| 0 <= p < prefix.len() && prefix[p] == y;
                            assert(next[p] == y);
                        }
                    }
                }
            }
        }
        i = i + 1;
    }
    assert(texts(v@).take(v@.len() as int) =~= texts(v@));
    r
}

/// Order of catalog entries (name, category): by category, then by name.
pub open spec fn cat_name_lt() -> spec_fn((Seq<char>, Seq<char>), (Seq<char>, Seq<char>)) -> bool {
    |a: (Seq<char>, Seq<char>), b: (Seq<char>, Seq<char>)|
        lex_lt(a.1, b.1) || (a.1 == b.1 && lex_lt(a.0, b.0))
}

/// Ordering by category then name is a strict total order.
pub proof fn lemma_cat_name_order()
    ensures
        strict_total_order(cat_name_lt()),
{
    assert forall|a: (Seq<char>, Seq<char>)| !#[trigger] cat_name_lt()(a, a) by {
        lemma_lex_irreflexive(a.0);
        lemma_lex_irreflexive(a.1);
    }
    assert forall|a: (Seq<char>, Seq<char>), b: (Seq<char>, Seq<char>), c: (Seq<char>, Seq<char>)|
        #[trigger] cat_name_lt()(a, b) && #[trigger] cat_name_lt()(b, c) implies cat_name_lt()(
        a,
        c,
    ) by {
        if lex_lt(a.1, b.1) && lex_lt(b.1, c.1) {
            lemma_lex_transitive(a.1, b.1, c.1);
        } else if lex_lt(a.0, b.0) && lex_lt(b.0, c.0) && a.1 == b.1 && b.1 == c.1 {
            lemma_lex_transitive(a.0, b.0, c.0);
        }
    }
    assert forall|a: (Seq<char>, Seq<char>), b: (Seq<char>, Seq<char>)| a != b implies #[trigger]
        cat_name_lt()(a, b) || #[trigger] cat_name_lt()(b, a) by {
        if a.1 != b.1 {
            lemma_lex_total(a.1, b.1);
        } else {
            assert(a.0 != b.0);
            lemma_lex_total(a.0, b.0);
        }
    }
}

/// `s` lists the entries `e` by category, then by name.
pub open spec fn is_category_order(
    e: Seq<(Seq<char>, Seq<char>)>,
    s: Seq<(Seq<char>, Seq<char>)>,
) -> bool {
    ascending_by(s, cat_name_lt()) && s.to_set() == e.to_set()
}

/// The entries `e` listed by category, then by name.
pub open spec fn category_order(e: Seq<(Seq<char>, Seq<char>)>) -> Seq<(Seq<char>, Seq<char>)> {
    choose|s: Seq<(Seq<char>, Seq<char>)>| is_category_order(e, s)
}

/// `x` put into the ascending sequence `s` before the first item after it.
pub open spec fn insert_ascending<T>(s: Seq<T>, x: T, lt: spec_fn(T, T) -> bool) -> Seq<T>
    decreases s.len(),
{
    if s.len() == 0 {
        seq![x]
    } else if lt(x, s[0]) {
        seq![x] + s
    } else {
        seq![s[0]] + insert_ascending(s.drop_first(), x, lt)
    }
}

/// Putting a new item into an ascending sequence keeps it ascending and
/// adds the item to its set.
pub proof fn lemma_insert_ascending<T>(s: Seq<T>, x: T, lt: spec_fn(T, T) -> bool)
    requires
        strict_total_order(lt),
        ascending_by(s, lt),
        !s.to_set().contains(x),
    ensures
        ascending_by(insert_ascending(s, x, lt), lt),
        insert_ascending(s, x, lt).to_set() == s.to_set().insert(x),
    decreases s.len(),
{
    let r = insert_ascending(s, x, lt);
    if s.len() == 0 {
        assert(r.to_set() =~= s.to_set().insert(x)) by {
            assert(r[0] == x);
        }
    } else if lt(x, s[0]) {
        assert forall|i: int, j: int| 0 <= i < j < r.len() implies lt(#[trigger] r[i], #[trigger] r[j]) by {
            if i == 0 {
                assert(r[j] == s[j - 1]);
                if j - 1 > 0 {
                    assert(lt(s[0], s[j - 1]));
                }
            } else {
                assert(r[i] == s[i - 1]);
                assert(r[j] == s[j - 1]);
            }
        }
        assert forall|y: T| r.to_set().contains(y) <==> s.to_set().insert(x).contains(y) by {
            if r.to_set().contains(y) {
                let k = choose|k: int| 0 <= k < r.len() && r[k] == y;
                if k > 0 {
                    assert(s[k - 1] == y);
                }
            }
            if s.to_set().contains(y) {
                let k = choose|k: int| 0 <= k < s.len() && s[k] == y;
                assert(r[k + 1] == y);
            }
            if y == x {
                assert(r[0] == x);
            }
        }
        assert(r.to_set() =~= s.to_set().insert(x));
    } else {
        let t = s.drop_first();
        assert(ascending_by(t, lt)) by {
            assert forall|i: int, j: int| 0 <= i < j < t.len() implies lt(#[trigger] t[i], #[trigger] t[j]) by {
                assert(t[i] == s[i + 1]);
                assert(t[j] == s[j + 1]);
            }
        }
        assert(!t.to_set().contains(x)) by {
            if t.to_set().contains(x) {
                let k = choose|k: int| 0 <= k < t.len() && t[k] == x;
                assert(s[k + 1] == x);
            }
        }
        lemma_insert_ascending(t, x, lt);
        let rt = insert_ascending(t, x, lt);
        assert(r == seq![s[0]] + rt);
        assert(s[0] != x) by {
            assert(s.to_set().contains(s[0]));
        }
        assert(lt(s[0], x));
        assert forall|y: T| rt.to_set().contains(y) implies lt(s[0], y) by {
            assert(t.to_set().insert(x).contains(y));
            if y != x {
                let k = choose|k: int| 0 <= k < t.len() && t[k] == y;
                assert(s[k + 1] == y);
            }
        }
        assert forall|i: int, j: int| 0 <= i < j < r.len() implies lt(#[trigger] r[i], #[trigger] r[j]) by {
            if i == 0 {
                assert(r[j] == rt[j - 1]);
                assert(rt.to_set().contains(rt[j - 1]));
            } else {
                assert(r[i] == rt[i - 1]);
                assert(r[j] == rt[j - 1]);
            }
        }
        assert forall|y: T| r.to_set().contains(y) <==> s.to_set().insert(x).contains(y) by {
            if r.to_set().contains(y) {
                let k = choose|k: int| 0 <= k < r.len() && r[k] == y;
                if k == 0 {
                    assert(s[0] == y);
                } else {
                    assert(rt[k - 1] == y);
                    assert(rt.to_set().contains(y));
                    if y != x {
                        assert(t.to_set().contains(y));
                        let q = choose|q: int| 0 <= q < t.len() && t[q] == y;
                        assert(s[q + 1] == y);
                    }
                }
            }
            if s.to_set().insert(x).contains(y) {
                if y == x || (y != s[0] && s.to_set().contains(y)) {
                    if y != x {
                        let q = choose|q: int| 0 <= q < s.len() && s[q] == y;
                        assert(q > 0);
                        assert(t[q - 1] == y);
                        assert(t.to_set().contains(y));
                    }
                    assert(rt.to_set().contains(y));
                    let k = choose|k: int| 0 <= k < rt.len() && rt[k] == y;
                    assert(r[k + 1] == y);
                } else {
                    assert(r[0] == y);
                }
            }
        }
        assert(r.to_set() =~= s.to_set().insert(x));
    }
}

/// Any sequence's items can be listed in ascending order, each once.
pub proof fn lemma_ascending_exists<T>(a: Seq<T>, lt: spec_fn(T, T) -> bool)
    requires
        strict_total_order(lt),
    ensures
        exists|s: Seq<T>| ascending_by(s, lt) && s.to_set() == a.to_set(),
    decreases a.len(),
{
    if a.len() == 0 {
        let s = Seq::<T>::empty();
        assert(s.to_set() =~= a.to_set());
        assert(ascending_by(s, lt) && s.to_set() == a.to_set());
    } else {
        let p = a.drop_last();
        lemma_ascending_exists(p, lt);
        let sp = choose|s: Seq<T>| ascending_by(s, lt) && s.to_set() == p.to_set();
        let x = a.last();
        p.lemma_push_to_set_commute(x);
        assert(a == p.push(x));
        if sp.to_set().contains(x) {
            assert(sp.to_set().insert(x) =~= sp.to_set());
            assert(ascending_by(sp, lt) && sp.to_set() == a.to_set());
        } else {
            lemma_insert_ascending(sp, x, lt);
            let s = insert_ascending(sp, x, lt);
            assert(ascending_by(s, lt) && s.to_set() == a.to_set());
        }
    }
}

/// The listing by category, then by name, exists: `category_order` is one.
pub proof fn lemma_category_order_exists(e: Seq<(Seq<char>, Seq<char>)>)
    ensures
        is_category_order(e, category_order(e)),
{
    lemma_cat_name_order();
    lemma_ascending_exists(e, cat_name_lt());
    let s = choose|s: Seq<(Seq<char>, Seq<char>)>| ascending_by(s, cat_name_lt()) && s.to_set() == e.to_set();
    assert(is_category_order(e, s));
}

/// Any listing by category, then by name, is the listing.
pub proof fn lemma_category_order_is(e: Seq<(Seq<char>, Seq<char>)>, s: Seq<(Seq<char>, Seq<char>)>)
    requires
        is_category_order(e, s),
    ensures
        category_order(e) == s,
{
    let t = category_order(e);
    assert(is_category_order(e, t));
    lemma_cat_name_order();
    lemma_ascending_unique(t, s, cat_name_lt());
}

/// Is `a` before `b` by category, then by name?
fn cat_name_less(a: &(String, String), b: &(String, String)) -> (r: bool)
    ensures
        r == cat_name_lt()((a.0@, a.1@), (b.0@, b.1@)),
{
    lex_less(a.1.as_str(), b.1.as_str()) || (same_text(a.1.as_str(), b.1.as_str()) && lex_less(
        a.0.as_str(),
        b.0.as_str(),
    ))
}

/// The entries of the catalog, by category and then by name.
pub fn by_category(c: &Catalog) -> (r: Vec<(String, String)>)
    ensures
        is_category_order(c.entries(), pair_views(r@)),
{
    proof {
        use_type_invariant(c);
    }
    let mut r: Vec<(String, String)> = Vec::new();
    let n = c.len();
    let mut i: usize = 0;
    proof {
        lemma_cat_name_order();
    }
    while i < n
        invariant
            n == c.entries().len(),
            c.wf(),
            i <= n,
            strict_total_order(cat_name_lt()),
            ascending_by(pair_views(r@), cat_name_lt()),
            pair_views(r@).to_set() == c.entries().take(i as int).to_set(),
        decreases n - i,
    {
        let x = (c.name_at(i).clone(), c.category_at(i).clone());
        let ghost xv = (x.0@, x.1@);
        assert(xv == c.entries()[i as int]);
        let ghost old_r = pair_views(r@);
        let ghost prefix = c.entries().take(i as int);
        let ghost next = c.entries().take(i + 1);
        assert(next =~= prefix.push(xv));
        assert(!prefix.to_set().contains(xv)) by {
            if prefix.to_set().contains(xv) {
                let k = choose|k: int| 0 <= k < prefix.len() && prefix[k] == xv;
                lemma_lex_irreflexive(xv.0);
            }
        }
        let mut j: usize = 0;
        while j < r.len()
            invariant
                old_r == pair_views(r@),
                xv == (x.0@, x.1@),
                j <= r@.len(),
                forall|q: int| 0 <= q < j ==> cat_name_lt()(#[trigger] old_r[q], xv),
            ensures
                j == old_r.len() || !cat_name_lt()(old_r[j as int], xv),
            decreases r.len() - j,
        {
            assert(old_r[j as int] == (r@[j as int].0@, r@[j as int].1@));
            if !cat_name_less(&r[j], &x) {
                break;
            }
            j = j + 1;
        }
        proof {
            if j < old_r.len() {
                let y = old_r[j as int];
                assert(old_r.to_set().contains(y));
                assert(y != xv);
                assert(cat_name_lt()(xv, y));
            }
        }
        r.insert(j, x);
        let ghost t = pair_views(r@);
        assert(t =~= old_r.insert(j as int, xv));
        proof {
            assert forall|a: int, b: int| 0 <= a < b < t.len() implies cat_name_lt()(
                #[trigger] t[a],
                #[trigger] t[b],
            ) by {
                if b < j {
                    assert(t[a] == old_r[a]);
                    assert(t[b] == old_r[b]);
                } else if b == j {
                    assert(t[a] == old_r[a]);
                } else if a < j {
                    assert(t[a] == old_r[a]);
                    assert(t[b] == old_r[b - 1]);
                    assert(cat_name_lt()(xv, old_r[j as int]));
                    if b - 1 > j {
                        assert(cat_name_lt()(old_r[j as int], old_r[b - 1]));
                    }
                } else if a == j {
                    assert(t[b] == old_r[b - 1]);
                    if b - 1 > j {
                        assert(cat_name_lt()(old_r[j as int], old_r[b - 1]));
                    }
                } else {
                    assert(t[a] == old_r[a - 1]);
                    assert(t[b] == old_r[b - 1]);
                }
            }
            assert(t.to_set() =~= next.to_set()) by {
                assert forall|y: (Seq<char>, Seq<char>)| next.to_set().contains(y) implies t.to_set().contains(y) by {
                    let k = choose|k: int| 0 <= k < next.len() && next[k] == y;
                    if k < prefix.len() {
                        assert(prefix[k] == y);
                        assert(prefix.to_set().contains(y));
                        assert(old_r.to_set().contains(y));
                        let m = choose|m: int| 0 <= m < old_r.len() && old_r[m] == y;
                        if m < j {
                            assert(t[m] == y);
                        } else {
                            assert(t[m + 1] == y);
                        }
                    } else {
                        assert(t[j as int] == y);
                    }
                }
                assert forall|y: (Seq<char>, Seq<char>)| t.to_set().contains(y) implies next.to_set().contains(y) by {
                    let k = choose|k: int| 0 <= k < t.len() && t[k] == y;
                    if k == j {
                        assert(next[i as int] == y);
                    } else {
                        let m = if k < j { k } else { k - 1 };
                        assert(old_r[m] == y);
                        assert(old_r.to_set().contains(y));
                        assert(prefix.to_set().contains(y));
                        let p = choose|p: int| 0 <= p < prefix.len() && prefix[p] == y;
                        assert(next[p] == y);
                    }
                }
            }
        }
        i = i + 1;
    }
    assert(c.entries().take(n as int) =~= c.entries());
    r
}

} // verus!
