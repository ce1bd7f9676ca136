//! The project catalog: a map from project name to category, kept sorted by
//! name, so that walking it visits the names in ascending order.

use vstd::prelude::*;
use crate::text::{lex_less, lex_lt, lemma_lex_irreflexive, lemma_lex_lt_ne, lemma_lex_total, lemma_lex_transitive};

verus! {

/// The view of a list of string pairs.
pub open spec fn pair_views(v: Seq<(String, String)>) -> Seq<(Seq<char>, Seq<char>)> {
    v.map_values(|p: (String, String)| (p.0@, p.1@))
}

/// Names strictly ascending: no name occurs twice.
pub open spec fn names_ascending(s: Seq<(Seq<char>, Seq<char>)>) -> bool {
    forall|i: int, j: int| 0 <= i < j < s.len() ==> lex_lt(s[i].0, s[j].0)
}

/// `k` is the name of some entry of `s`.
pub open spec fn has_name(s: Seq<(Seq<char>, Seq<char>)>, k: Seq<char>) -> bool {
    exists|i: int| 0 <= i < s.len() && s[i].0 == k
}

/// The map that a list of (name, category) entries stands for.
pub open spec fn entries_map(s: Seq<(Seq<char>, Seq<char>)>) -> Map<Seq<char>, Seq<char>> {
    Map::new(
        |k: Seq<char>| has_name(s, k),
        |k: Seq<char>| s[choose|i: int| 0 <= i < s.len() && s[i].0 == k].1,
    )
}

/// In an ascending list each name sits at one position only.
pub proof fn lemma_names_unique(s: Seq<(Seq<char>, Seq<char>)>, i: int, j: int)
    requires
        names_ascending(s),
        0 <= i < s.len(),
        0 <= j < s.len(),
        s[i].0 == s[j].0,
    ensures
        i == j,
{
    if i < j {
        lemma_lex_irreflexive(s[i].0);
    } else if j < i {
        lemma_lex_irreflexive(s[i].0);
    }
}

/// Looking up the name at position `i` gives the category at position `i`.
pub proof fn lemma_entries_map_at(s: Seq<(Seq<char>, Seq<char>)>, i: int)
    requires
        names_ascending(s),
        0 <= i < s.len(),
    ensures
        entries_map(s).contains_key(s[i].0),
        entries_map(s)[s[i].0] == s[i].1,
{
    assert(has_name(s, s[i].0));
    let j = choose|j: int| 0 <= j < s.len() && s[j].0 == s[i].0;
    lemma_names_unique(s, i, j);
}

/// Reading a name after writing it gives back what was written; the other
/// names read as before.
pub proof fn lemma_write_then_read(m: Map<Seq<char>, Seq<char>>, name: Seq<char>, category: Seq<char>)
    ensures
        m.insert(name, category).contains_key(name),
        m.insert(name, category)[name] == category,
        forall|q: Seq<char>| q != name ==> (#[trigger] m.insert(name, category).contains_key(q) <==> m.contains_key(q)),
        forall|q: Seq<char>| q != name && #[trigger] m.contains_key(q) ==> m.insert(name, category)[q] == m[q],
{
}

/// The catalog of projects: each project name with its category, in
/// ascending order of name.
pub struct Catalog {
    items: Vec<(String, String)>,
}

impl Catalog {
    /// The entries, in ascending order of name.
    pub closed spec fn entries(&self) -> Seq<(Seq<char>, Seq<char>)> {
        pair_views(self.items@)
    }

    /// Well-formed: names strictly ascending. Every catalog is.
    #[verifier::type_invariant]
    pub open spec fn wf(&self) -> bool {
        names_ascending(self.entries())
    }

    /// The empty catalog.
    pub fn new() -> (c: Catalog)
        ensures
            c.wf(),
            c.entries() == Seq::<(Seq<char>, Seq<char>)>::empty(),
            c@ == Map::<Seq<char>, Seq<char>>::empty(),
    {
        let c = Catalog { items: Vec::new() };
        assert(c.entries() =~= Seq::<(Seq<char>, Seq<char>)>::empty());
        assert(c@ =~= Map::<Seq<char>, Seq<char>>::empty());
        c
    }

    /// Number of projects.
    pub fn len(&self) -> (n: usize)
        ensures
            n == self.entries().len(),
            n == self@.dom().len(),
    {
        proof {
            use_type_invariant(self);
            lemma_catalog_size(self);
        }
        self.items.len()
    }

    /// Is the catalog empty?
    pub fn is_empty(&self) -> (b: bool)
        ensures
            b == (self.entries().len() == 0),
            b <==> self@ == Map::<Seq<char>, Seq<char>>::empty(),
    {
        proof {
            use_type_invariant(self);
            lemma_catalog_size(self);
        }
        self.items.len() == 0
    }

    /// The name at position `i`.
    pub fn name_at(&self, i: usize) -> (r: &String)
        requires
            i < self.entries().len(),
        ensures
            r@ == self.entries()[i as int].0,
    {
        &self.items[i].0
    }

    /// The category at position `i`.
    pub fn category_at(&self, i: usize) -> (r: &String)
        requires
            i < self.entries().len(),
        ensures
            r@ == self.entries()[i as int].1,
    {
        &self.items[i].1
    }

    /// Where `name` is, or where it would go.
    fn locate(&self, name: &str) -> (r: (usize, bool))
        ensures
            r.0 <= self.entries().len(),
            r.1 ==> r.0 < self.entries().len() && self.entries()[r.0 as int].0 == name@,
            !r.1 ==> forall|j: int|
                r.0 <= j < self.entries().len() ==> lex_lt(name@, #[trigger] self.entries()[j].0),
            forall|j: int| 0 <= j < r.0 ==> lex_lt(#[trigger] self.entries()[j].0, name@),
    {
        proof {
            use_type_invariant(self);
        }
        let n = self.items.len();
        let mut i: usize = 0;
        while i < n
            invariant
                n == self.entries().len(),
                self.wf(),
                i <= n,
                forall|j: int| 0 <= j < i ==> lex_lt(#[trigger] self.entries()[j].0, name@),
            decreases n - i,
        {
            let k = self.items[i].0.as_str();
            if lex_less(k, name) {
                i = i + 1;
            } else {
                let found = !lex_less(name, k);
                proof {
                    assert(k@ == self.entries()[i as int].0);
                    if found {
                        if k@ != name@ {
                            lemma_lex_total(k@, name@);
                        }
                    } else {
                        assert forall|j: int| i <= j < n implies lex_lt(
                            name@,
                            #[trigger] self.entries()[j].0,
                        ) by {
                            if j > i {
                                lemma_lex_transitive(name@, k@, self.entries()[j].0);
                            }
                        }
                    }
                }
                return (i, found);
            }
        }
        (i, false)
    }

    /// Is `name` registered?
    pub fn contains_key(&self, name: &str) -> (b: bool)
        ensures
            b == self@.contains_key(name@),
    {
        proof {
            use_type_invariant(self);
        }
        let (i, found) = self.locate(name);
        proof {
            if !found {
                assert forall|j: int| 0 <= j < self.entries().len() implies self.entries()[j].0
                    != name@ by {
                    if j < i {
                        lemma_lex_lt_ne(self.entries()[j].0, name@);
                    } else {
                        lemma_lex_lt_ne(name@, self.entries()[j].0);
                    }
                }
            }
        }
        found
    }

    /// The category of `name`, if registered.
    pub fn get(&self, name: &str) -> (r: Option<&String>)
        ensures
            r is Some <==> self@.contains_key(name@),
            r is Some ==> r->0@ == self@[name@],
    {
        proof {
            use_type_invariant(self);
        }
        let (i, found) = self.locate(name);
        if found {
            proof {
                lemma_entries_map_at(self.entries(), i as int);
            }
            Some(&self.items[i].1)
        } else {
            proof {
                assert forall|j: int| 0 <= j < self.entries().len() implies self.entries()[j].0
                    != name@ by {
                    if j < i {
                        lemma_lex_lt_ne(self.entries()[j].0, name@);
                    } else {
                        lemma_lex_lt_ne(name@, self.entries()[j].0);
                    }
                }
            }
            None
        }
    }

    /// Sets the category of `name`, registering it if it is new.
    pub fn insert(&mut self, name: String, category: String)
        ensures
            final(self).wf(),
            final(self)@ == old(self)@.insert(name@, category@),
    {
        proof {
            use_type_invariant(&*self);
        }
        let (i, found) = self.locate(name.as_str());
        let ghost s = self.entries();
        let ghost k = name@;
        let ghost v = category@;
        if found {
            let mut items: Vec<(String, String)> = Vec::new();
            std::mem::swap(&mut items, &mut self.items);
            items.set(i, (name, category));
            let ghost t = pair_views(items@);
            assert(t =~= s.update(i as int, (k, v)));
            proof {
                assert(names_ascending(t)) by {
                    assert forall|a: int, b: int| 0 <= a < b < t.len() implies lex_lt(
                        t[a].0,
                        t[b].0,
                    ) by {
                        assert(t[a].0 == s[a].0);
                        assert(t[b].0 == s[b].0);
                    }
                }
                assert forall|q: Seq<char>|
                    #![trigger entries_map(t).contains_key(q)]
                    #![trigger entries_map(s).contains_key(q)]
                    entries_map(t).contains_key(q) == entries_map(s).insert(k, v).contains_key(q)
                        && (entries_map(t).contains_key(q) ==> entries_map(t)[q] == entries_map(
                        s,
                    ).insert(k, v)[q]) by {
                    if has_name(t, q) {
                        let j = choose|j: int| 0 <= j < t.len() && t[j].0 == q;
                        assert(s[j].0 == q);
                        lemma_entries_map_at(t, j);
                        if j != i {
                            lemma_entries_map_at(s, j);
                            if q == k {
                                lemma_names_unique(t, i as int, j);
                            }
                        }
                    }
                    if has_name(s, q) {
                        let j = choose|j: int| 0 <= j < s.len() && s[j].0 == q;
                        assert(t[j].0 == q);
                    }
                }
                assert(entries_map(t) =~= entries_map(s).insert(k, v));
            }
            self.items = items;
        } else {
            let mut items: Vec<(String, String)> = Vec::new();
            std::mem::swap(&mut items, &mut self.items);
            items.insert(i, (name, category));
            let ghost t = pair_views(items@);
            assert(t =~= s.insert(i as int, (k, v)));
            proof {
                assert(names_ascending(t)) by {
                    assert forall|a: int, b: int| 0 <= a < b < t.len() implies lex_lt(
                        t[a].0,
                        t[b].0,
                    ) by {
                        if b < i {
                        } else if b == i {
                        } else if a < i {
                            assert(t[b].0 == s[b - 1].0);
                            lemma_lex_transitive(t[a].0, k, t[b].0);
                        } else if a == i {
                            assert(t[b].0 == s[b - 1].0);
                        } else {
                            assert(t[a].0 == s[a - 1].0);
                            assert(t[b].0 == s[b - 1].0);
                        }
                    }
                }
                assert forall|q: Seq<char>|
                    #![trigger entries_map(t).contains_key(q)]
                    #![trigger entries_map(s).contains_key(q)]
                    entries_map(t).contains_key(q) == entries_map(s).insert(k, v).contains_key(q)
                        && (entries_map(t).contains_key(q) ==> entries_map(t)[q] == entries_map(
                        s,
                    ).insert(k, v)[q]) by {
                    if has_name(t, q) {
                        let j = choose|j: int| 0 <= j < t.len() && t[j].0 == q;
                        lemma_entries_map_at(t, j);
                        if j < i {
                            assert(s[j].0 == q);
                            lemma_entries_map_at(s, j);
                            lemma_lex_lt_ne(q, k);
                        } else if j > i {
                            assert(s[j - 1].0 == q);
                            lemma_entries_map_at(s, j - 1);
                            lemma_lex_lt_ne(k, q);
                        }
                    }
                    if q == k {
                        assert(t[i as int].0 == k);
                        lemma_entries_map_at(t, i as int);
                    }
                    if has_name(s, q) {
                        let j = choose|j: int| 0 <= j < s.len() && s[j].0 == q;
                        if j < i {
                            assert(t[j].0 == q);
                        } else {
                            assert(t[j + 1].0 == q);
                        }
                    }
                }
                assert(entries_map(t) =~= entries_map(s).insert(k, v));
            }
            self.items = items;
        }
    }

    /// Unregisters `name`, giving back its category if it was registered.
    pub fn remove(&mut self, name: &str) -> (r: Option<String>)
        ensures
            final(self).wf(),
            final(self)@ == old(self)@.remove(name@),
            r is Some <==> old(self)@.contains_key(name@),
            r is Some ==> r->0@ == old(self)@[name@],
    {
        proof {
            use_type_invariant(&*self);
        }
        let (i, found) = self.locate(name);
        let ghost s = self.entries();
        let ghost k = name@;
        if found {
            let mut items: Vec<(String, String)> = Vec::new();
            std::mem::swap(&mut items, &mut self.items);
            let (_, category) = items.remove(i);
            let ghost t = pair_views(items@);
            assert(t =~= s.remove(i as int));
            proof {
                lemma_entries_map_at(s, i as int);
                assert(names_ascending(t)) by {
                    assert forall|a: int, b: int| 0 <= a < b < t.len() implies lex_lt(
                        t[a].0,
                        t[b].0,
                    ) by {
                        if b < i {
                        } else if a < i {
                            assert(t[b].0 == s[b + 1].0);
                        } else {
                            assert(t[a].0 == s[a + 1].0);
                            assert(t[b].0 == s[b + 1].0);
                        }
                    }
                }
                assert forall|q: Seq<char>|
                    #![trigger entries_map(t).contains_key(q)]
                    #![trigger entries_map(s).contains_key(q)]
                    entries_map(t).contains_key(q) == entries_map(s).remove(k).contains_key(q)
                        && (entries_map(t).contains_key(q) ==> entries_map(t)[q] == entries_map(
                        s,
                    ).remove(k)[q]) by {
                    if has_name(t, q) {
                        let j = choose|j: int| 0 <= j < t.len() && t[j].0 == q;
                        lemma_entries_map_at(t, j);
                        if j < i {
                            assert(s[j].0 == q);
                            lemma_entries_map_at(s, j);
                            if q == k {
                                lemma_names_unique(s, i as int, j);
                            }
                        } else {
                            assert(s[j + 1].0 == q);
                            lemma_entries_map_at(s, j + 1);
                            if q == k {
                                lemma_names_unique(s, i as int, j + 1);
                            }
                        }
                    }
                    if has_name(s, q) && q != k {
                        let j = choose|j: int| 0 <= j < s.len() && s[j].0 == q;
                        if j < i {
                            assert(t[j].0 == q);
                        } else {
                            assert(t[j - 1].0 == q);
                        }
                    }
                }
                assert(entries_map(t) =~= entries_map(s).remove(k));
            }
            self.items = items;
            Some(category)
        } else {
            proof {
                assert forall|j: int| 0 <= j < s.len() implies s[j].0 != k by {
                    if j < i {
                        lemma_lex_lt_ne(s[j].0, k);
                    } else {
                        lemma_lex_lt_ne(k, s[j].0);
                    }
                }
                assert(entries_map(s) =~= entries_map(s).remove(k));
            }
            None
        }
    }

    /// A catalog holding `items`, whose names are strictly ascending.
    pub fn from_ascending(items: Vec<(String, String)>) -> (c: Catalog)
        requires
            names_ascending(pair_views(items@)),
        ensures
            c.wf(),
            c.entries() == pair_views(items@),
    {
        Catalog { items }
    }

    /// The entries, in ascending order of name.
    pub fn to_pairs(&self) -> (r: Vec<(String, String)>)
        ensures
            pair_views(r@) == self.entries(),
    {
        let mut r: Vec<(String, String)> = Vec::new();
        let mut i: usize = 0;
        while i < self.items.len()
            invariant
                i <= self.items@.len(),
                pair_views(r@) == self.entries().take(i as int),
            decreases self.items.len() - i,
        {
            let p = (self.items[i].0.clone(), self.items[i].1.clone());
            assert(self.entries()[i as int] == (p.0@, p.1@));
            let ghost before = pair_views(r@);
            r.push(p);
            assert(pair_views(r@) =~= before.push((p.0@, p.1@)));
            i = i + 1;
            assert(pair_views(r@) =~= self.entries().take(i as int));
        }
        assert(self.entries().take(i as int) =~= self.entries());
        r
    }
}

/// A catalog holds as many projects as it has entries.
pub proof fn lemma_catalog_size(c: &Catalog)
    requires
        c.wf(),
    ensures
        c@.dom().finite(),
        c@.dom().len() == c.entries().len(),
        c.entries().len() == 0 <==> c@ == Map::<Seq<char>, Seq<char>>::empty(),
{
    let s = c.entries();
    let names = s.map_values(|e: (Seq<char>, Seq<char>)| e.0);
    assert(names.no_duplicates()) by {
        assert forall|i: int, j: int| 0 <= i < names.len() && 0 <= j < names.len() && i != j implies names[i]
            != names[j] by {
            if names[i] == names[j] {
                lemma_names_unique(s, i, j);
            }
        }
    }
    names.unique_seq_to_set();
    vstd::seq_lib::seq_to_set_is_finite(names);
    assert(c@.dom() =~= names.to_set()) by {
        assert forall|q: Seq<char>| c@.dom().contains(q) implies names.to_set().contains(q) by {
            let i = choose|i: int| 0 <= i < s.len() && s[i].0 == q;
            assert(names[i] == q);
        }
        assert forall|q: Seq<char>| names.to_set().contains(q) implies c@.dom().contains(q) by {
            let i = choose|i: int| 0 <= i < names.len() && names[i] == q;
            assert(has_name(s, q));
        }
    }
    if s.len() > 0 {
        assert(c@.dom().contains(s[0].0));
    } else {
        assert(c@ =~= Map::<Seq<char>, Seq<char>>::empty());
    }
}

impl View for Catalog {
    type V = Map<Seq<char>, Seq<char>>;

    open spec fn view(&self) -> Map<Seq<char>, Seq<char>> {
        entries_map(self.entries())
    }
}

} // verus!
