//! Character-sequence utilities: lexicographic order, equality, searching.

use vstd::prelude::*;

verus! {

/// `a` and `b` first differ at position `i`, where `a` is smaller
/// (or `a` ends there while `b` goes on).
pub open spec fn lex_lt_at(a: Seq<char>, b: Seq<char>, i: int) -> bool {
    &&& 0 <= i <= a.len()
    &&& i <= b.len()
    &&& forall|j: int| 0 <= j < i ==> a[j] == b[j]
    &&& ((i == a.len() && i < b.len()) || (i < a.len() && i < b.len() && a[i] < b[i]))
}

/// Lexicographic order on character sequences: the order of `str`'s `Ord`
/// (byte-wise order of UTF-8 agrees with code-point order).
pub open spec fn lex_lt(a: Seq<char>, b: Seq<char>) -> bool {
    exists|i: int| lex_lt_at(a, b, i)
}

pub fn chars_of(s: &str) -> (v: Vec<char>)
    ensures
        v@ == s@,
{
    let n = s.unicode_len();
    let mut v: Vec<char> = Vec::new();
    let mut i: usize = 0;
    while i < n
        invariant
            n == s@.len(),
            i <= n,
            v@ == s@.take(i as int),
        decreases n - i,
    {
        let c = s.get_char(i);
        v.push(c);
        i = i + 1;
        assert(v@ =~= s@.take(i as int));
    }
    assert(v@ =~= s@);
    v
}

/// Is `a` strictly before `b` in lexicographic order?
pub fn lex_less(a: &str, b: &str) -> (r: bool)
    ensures
        r == lex_lt(a@, b@),
{
    let x = chars_of(a);
    let y = chars_of(b);
    let mut i: usize = 0;
    while i < x.len() && i < y.len()
        invariant
            x@ == a@,
            y@ == b@,
            i <= x.len(),
            i <= y.len(),
            forall|j: int| 0 <= j < i ==> x@[j] == y@[j],
        decreases x.len() - i,
    {
        if x[i] != y[i] {
            let r = x[i] < y[i];
            if r {
                assert(lex_lt_at(a@, b@, i as int));
            } else {
                assert forall|k: int| !lex_lt_at(a@, b@, k) by {
                    if lex_lt_at(a@, b@, k) {
                        if k < i {
                        } else if k > i {
                            assert(a@[i as int] == b@[i as int]);
                        }
                    }
                }
            }
            return r;
        }
        i = i + 1;
    }
    if i == x.len() && i < y.len() {
        assert(lex_lt_at(a@, b@, i as int));
        true
    } else {
        assert forall|k: int| !lex_lt_at(a@, b@, k) by {
            if lex_lt_at(a@, b@, k) {
                if k < i {
                    assert(a@[k] == b@[k]);
                }
            }
        }
        false
    }
}

/// Lexicographic order is irreflexive.
pub proof fn lemma_lex_irreflexive(a: Seq<char>)
    ensures
        !lex_lt(a, a),
{
}

/// Strictly ordered sequences differ.
pub proof fn lemma_lex_lt_ne(a: Seq<char>, b: Seq<char>)
    requires
        lex_lt(a, b),
    ensures
        a != b,
{
}

/// Lexicographic order is asymmetric.
pub proof fn lemma_lex_asymmetric(a: Seq<char>, b: Seq<char>)
    requires
        lex_lt(a, b),
    ensures
        !lex_lt(b, a),
{
    let i = choose|i: int| lex_lt_at(a, b, i);
    if lex_lt(b, a) {
        let k = choose|k: int| lex_lt_at(b, a, k);
        if k < i {
            assert(a[k] == b[k]);
        } else if i < k {
            assert(a[i] == b[i]);
        }
    }
}

/// Lexicographic order is transitive.
pub proof fn lemma_lex_transitive(a: Seq<char>, b: Seq<char>, c: Seq<char>)
    requires
        lex_lt(a, b),
        lex_lt(b, c),
    ensures
        lex_lt(a, c),
{
    let i = choose|i: int| lex_lt_at(a, b, i);
    let k = choose|k: int| lex_lt_at(b, c, k);
    if i < k {
        assert(lex_lt_at(a, c, i));
    } else if k < i {
        assert(lex_lt_at(a, c, k));
    } else {
        assert(lex_lt_at(a, c, i));
    }
}

/// Lexicographic order is total on distinct sequences.
pub proof fn lemma_lex_total(a: Seq<char>, b: Seq<char>)
    requires
        a != b,
    ensures
        lex_lt(a, b) || lex_lt(b, a),
{
    if forall|j: int| 0 <= j < a.len() && j < b.len() ==> a[j] == b[j] {
        if a.len() < b.len() {
            assert(lex_lt_at(a, b, a.len() as int));
        } else if b.len() < a.len() {
            assert(lex_lt_at(b, a, b.len() as int));
        } else {
            assert(a =~= b);
        }
    } else {
        let j = choose|j: int| 0 <= j < a.len() && j < b.len() && a[j] != b[j];
        let m = first_difference(a, b, j);
        if a[m] < b[m] {
            assert(lex_lt_at(a, b, m));
        } else {
            assert(lex_lt_at(b, a, m));
        }
    }
}

/// The first position, at or before `j`, where `a` and `b` differ.
proof fn first_difference(a: Seq<char>, b: Seq<char>, j: int) -> (m: int)
    requires
        0 <= j < a.len(),
        j < b.len(),
        a[j] != b[j],
    ensures
        0 <= m <= j,
        a[m] != b[m],
        forall|k: int| 0 <= k < m ==> a[k] == b[k],
    decreases j,
{
    if forall|k: int| 0 <= k < j ==> a[k] == b[k] {
        j
    } else {
        let k = choose|k: int| 0 <= k < j && a[k] != b[k];
        first_difference(a, b, k)
    }
}

/// Do `a` and `b` hold the same text?
pub fn same_text(a: &str, b: &str) -> (r: bool)
    ensures
        r == (a@ == b@),
{
    let x = chars_of(a);
    let y = chars_of(b);
    if x.len() != y.len() {
        return false;
    }
    let mut i: usize = 0;
    while i < x.len()
        invariant
            x@ == a@,
            y@ == b@,
            x.len() == y.len(),
            i <= x.len(),
            forall|j: int| 0 <= j < i ==> x@[j] == y@[j],
        decreases x.len() - i,
    {
        if x[i] != y[i] {
            return false;
        }
        i = i + 1;
    }
    assert(a@ =~= b@);
    true
}

/// Is `t` one of the texts in `list`?
pub fn contains_text(list: &Vec<String>, t: &str) -> (r: bool)
    ensures
        r == exists|i: int| 0 <= i < list@.len() && #[trigger] list@[i]@ == t@,
{
    let mut i: usize = 0;
    while i < list.len()
        invariant
            i <= list@.len(),
            forall|j: int| 0 <= j < i ==> #[trigger] list@[j]@ != t@,
        decreases list.len() - i,
    {
        if same_text(list[i].as_str(), t) {
            return true;
        }
        i = i + 1;
    }
    false
}

/// The texts of a list of strings.
pub open spec fn texts(v: Seq<String>) -> Seq<Seq<char>> {
    v.map_values(|s: String| s@)
}

/// Pushing a string adds its text at the end, and to the set of texts.
pub proof fn lemma_texts_push(before: Seq<String>, x: String)
    ensures
        texts(before.push(x)) == texts(before).push(x@),
        texts(before.push(x)).to_set() == texts(before).to_set().insert(x@),
{
    assert(texts(before.push(x)) =~= texts(before).push(x@));
    texts(before).lemma_push_to_set_commute(x@);
}

/// The items of `list` with `sep` between each two.
pub open spec fn join_seq(list: Seq<Seq<char>>, sep: Seq<char>) -> Seq<char>
    decreases list.len(),
{
    if list.len() == 0 {
        Seq::empty()
    } else if list.len() == 1 {
        list[0]
    } else {
        join_seq(list.drop_last(), sep) + sep + list.last()
    }
}

/// The items of `list` with `sep` between each two (`[String]::join`).
pub fn join_texts(list: &Vec<String>, sep: &str) -> (r: String)
    ensures
        r@ == join_seq(texts(list@), sep@),
{
    let mut r = String::new();
    let mut i: usize = 0;
    while i < list.len()
        invariant
            i <= list@.len(),
            r@ == join_seq(texts(list@).take(i as int), sep@),
        decreases list.len() - i,
    {
        let ghost before = texts(list@).take(i as int);
        let ghost after = texts(list@).take(i + 1);
        assert(after.drop_last() =~= before);
        if i > 0 {
            r.append(sep);
        }
        r.append(list[i].as_str());
        i = i + 1;
        proof {
            if i == 1 {
                assert(r@ =~= after[0]);
            } else {
                assert(r@ =~= join_seq(before, sep@) + sep@ + after.last());
            }
        }
    }
    assert(texts(list@).take(list@.len() as int) =~= texts(list@));
    r
}

} // verus!
