//! Deriving a project name from a repository URL.

use vstd::prelude::*;
use crate::text::chars_of;

verus! {

/// `s` ends with `p`.
pub open spec fn ends_with(s: Seq<char>, p: Seq<char>) -> bool {
    p.len() <= s.len() && s.skip(s.len() - p.len()) == p
}

/// `s` with every trailing repetition of `p` removed (`str::trim_end_matches`).
pub open spec fn trim_end_all(s: Seq<char>, p: Seq<char>) -> Seq<char>
    decreases s.len(),
{
    if p.len() > 0 && ends_with(s, p) {
        trim_end_all(s.take(s.len() - p.len()), p)
    } else {
        s
    }
}

/// The part of `s` after the last `sep` (all of `s` if there is none):
/// the last item of `s.split(sep)`.
pub open spec fn last_segment(s: Seq<char>, sep: char) -> Seq<char>
    decreases s.len(),
{
    if s.len() == 0 {
        s
    } else if s.last() == sep {
        Seq::empty()
    } else {
        last_segment(s.drop_last(), sep).push(s.last())
    }
}

/// The suffix `.git`.
pub open spec fn git_suffix() -> Seq<char> {
    seq!['.', 'g', 'i', 't']
}

/// The project name for a repository URL: trailing `.git`s and then trailing
/// slashes are dropped, and what follows the last slash is the name.
pub open spec fn repo_name(url: Seq<char>) -> Seq<char> {
    last_segment(trim_end_all(trim_end_all(url, git_suffix()), seq!['/']), '/')
}

/// The last segment never holds the separator.
pub proof fn lemma_last_segment_has_no_sep(s: Seq<char>, sep: char)
    ensures
        !last_segment(s, sep).contains(sep),
    decreases s.len(),
{
    if s.len() > 0 && s.last() != sep {
        lemma_last_segment_has_no_sep(s.drop_last(), sep);
        let p = last_segment(s.drop_last(), sep);
        assert forall|i: int| 0 <= i < p.push(s.last()).len() implies p.push(s.last())[i] != sep by {
            if i < p.len() {
                assert(p.push(s.last())[i] == p[i]);
            }
        }
    }
}

/// A project name taken from a URL holds no slash, so it names a directory
/// directly under the project root.
pub proof fn lemma_repo_name_has_no_slash(url: Seq<char>)
    ensures
        !repo_name(url).contains('/'),
{
    lemma_last_segment_has_no_sep(trim_end_all(trim_end_all(url, git_suffix()), seq!['/']), '/');
}

/// The index at which the trailing repetitions of `p` in `s.take(e)` start.
fn trim_end_index(s: &Vec<char>, e: usize, p: &Vec<char>) -> (r: usize)
    requires
        e <= s@.len(),
        p@.len() > 0,
    ensures
        r <= e,
        s@.take(r as int) == trim_end_all(s@.take(e as int), p@),
{
    let mut k: usize = e;
    let plen = p.len();
    while k >= plen
        invariant
            k <= e <= s@.len(),
            plen == p@.len(),
            plen > 0,
            trim_end_all(s@.take(k as int), p@) == trim_end_all(s@.take(e as int), p@),
        decreases k,
    {
        let mut j: usize = 0;
        let mut same = true;
        while j < plen
            invariant
                k <= s@.len(),
                plen <= k,
                plen == p@.len(),
                j <= plen,
                same == forall|q: int| 0 <= q < j ==> s@[k - plen + q] == p@[q],
            decreases plen - j,
        {
            if s[k - plen + j] != p[j] {
                same = false;
            }
            j = j + 1;
        }
        let ghost t = s@.take(k as int);
        if same {
            assert(t.skip(t.len() - p@.len()) =~= p@);
            assert(t.take(t.len() - p@.len()) =~= s@.take(k - plen));
            k = k - plen;
        } else {
            let ghost q = choose|q: int| 0 <= q < plen && s@[k - plen + q] != p@[q];
            assert(t.skip(t.len() - p@.len())[q] != p@[q]);
            return k;
        }
    }
    let ghost t = s@.take(k as int);
    assert(!ends_with(t, p@));
    k
}

/// The project name for a repository URL, as `git clone` would name the
/// directory.
pub fn repo_name_from_url(url: &str) -> (r: String)
    ensures
        r@ == repo_name(url@),
{
    let s = chars_of(url);
    let git: Vec<char> = vec!['.', 'g', 'i', 't'];
    let slash: Vec<char> = vec!['/'];
    assert(git@ =~= git_suffix());
    let e1 = trim_end_index(&s, s.len(), &git);
    assert(s@.take(s@.len() as int) =~= s@);
    let e2 = trim_end_index(&s, e1, &slash);
    assert(s@.take(e1 as int).take(e2 as int) =~= s@.take(e2 as int));
    assert(slash@ =~= seq!['/']);
    let mut i: usize = e2;
    while i > 0 && s[i - 1] != '/'
        invariant
            i <= e2 <= s@.len(),
            last_segment(s@.take(e2 as int), '/') == last_segment(s@.take(i as int), '/') + s@.subrange(
                i as int,
                e2 as int,
            ),
        decreases i,
    {
        let ghost t = s@.take(i as int);
        assert(t.drop_last() =~= s@.take(i - 1));
        assert(s@.subrange(i - 1, e2 as int) =~= seq![s@[i - 1]] + s@.subrange(i as int, e2 as int));
        assert(last_segment(t, '/') == last_segment(s@.take(i - 1), '/').push(s@[i - 1]));
        assert(last_segment(s@.take(i - 1), '/').push(s@[i - 1]) + s@.subrange(i as int, e2 as int)
            =~= last_segment(s@.take(i - 1), '/') + s@.subrange(i - 1, e2 as int));
        i = i - 1;
    }
    proof {
        if i == 0 {
            assert(s@.take(0) =~= Seq::<char>::empty());
        }
        assert(last_segment(s@.take(i as int), '/') =~= Seq::<char>::empty());
        assert(Seq::<char>::empty() + s@.subrange(i as int, e2 as int) =~= s@.subrange(
            i as int,
            e2 as int,
        ));
    }
    url.substring_char(i, e2).to_owned()
}

} // verus!
