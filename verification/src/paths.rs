//! Relative paths as `/`-separated component lists: splitting, base
//! names, and extension extraction.

use vstd::prelude::*;
use crate::chars::lower;

verus! {

/// The views of a sequence of strings.
pub open spec fn str_views(v: Seq<String>) -> Seq<Seq<char>> {
    v.map_values(|x: String| x@)
}

/// Splitting a character sequence on `/`. Empty components are kept,
/// so the result always has one more component than there are
/// separators; the empty sequence splits into one empty component.
pub open spec fn split_slash(s: Seq<char>) -> Seq<Seq<char>>
    decreases s.len(),
{
    if s.len() == 0 {
        seq![Seq::<char>::empty()]
    } else {
        let rest = split_slash(s.drop_last());
        if s.last() == '/' {
            rest.push(Seq::<char>::empty())
        } else {
            rest.update(rest.len() - 1, rest.last().push(s.last()))
        }
    }
}

/// `split_slash` never yields an empty component list.
pub proof fn lemma_split_slash_len(s: Seq<char>)
    ensures
        split_slash(s).len() >= 1,
    decreases s.len(),
{
    if s.len() > 0 {
        lemma_split_slash_len(s.drop_last());
    }
}

/// Splits a slash-separated relative path into its components.
pub fn split_path(s: &str) -> (r: Vec<String>)
    ensures
        str_views(r@) == split_slash(s@),
{
    let len = s.unicode_len();
    let mut done: Vec<String> = Vec::new();
    let mut cur: String = String::new();
    let mut i: usize = 0;
    proof {
        assert(s@.take(0) =~= Seq::<char>::empty());
        assert(split_slash(s@.take(0)) =~~= str_views(done@).push(cur@));
    }
    while i < len
        invariant
            i <= len,
            len == s@.len(),
            split_slash(s@.take(i as int)) =~~= str_views(done@).push(cur@),
        decreases len - i,
    {
        let c = s.get_char(i);
        proof {
            assert(s@.take(i + 1).drop_last() =~= s@.take(i as int));
            assert(s@.take(i + 1).last() == s@[i as int]);
        }
        if c == '/' {
            let ghost old_done = done@;
            let ghost old_cur = cur@;
            done.push(cur);
            cur = String::new();
            proof {
                assert(str_views(done@) =~~= str_views(old_done).push(old_cur));
                assert(split_slash(s@.take(i + 1)) =~~= str_views(done@).push(cur@));
            }
        } else {
            let ghost old_cur = cur@;
            cur.push(c);
            proof {
                let prev = split_slash(s@.take(i as int));
                assert(prev.last() == old_cur);
                assert(split_slash(s@.take(i + 1)) =~~= prev.update(
                    prev.len() - 1,
                    old_cur.push(c),
                ));
                assert(prev.update(prev.len() - 1, old_cur.push(c)) =~~= str_views(
                    done@,
                ).push(cur@));
            }
        }
        i = i + 1;
    }
    proof {
        assert(s@.take(len as int) =~= s@);
    }
    done.push(cur);
    proof {
        assert(str_views(done@) =~~= split_slash(s@));
    }
    done
}

/// Index of the last occurrence of `c` in `s`, or `-1` when `s` does
/// not contain it.
pub open spec fn last_index_of(s: Seq<char>, c: char) -> int
    decreases s.len(),
{
    if s.len() == 0 {
        -1
    } else if s.last() == c {
        s.len() - 1
    } else {
        last_index_of(s.drop_last(), c)
    }
}

/// Range and characterization of `last_index_of`.
pub proof fn lemma_last_index_of(s: Seq<char>, c: char)
    ensures
        -1 <= last_index_of(s, c) < s.len(),
        last_index_of(s, c) >= 0 ==> s[last_index_of(s, c)] == c,
        forall|k: int| last_index_of(s, c) < k < s.len() ==> s[k] != c,
    decreases s.len(),
{
    if s.len() > 0 && s.last() != c {
        lemma_last_index_of(s.drop_last(), c);
        assert forall|k: int| last_index_of(s, c) < k < s.len() implies s[k] != c by {
            if k < s.len() - 1 {
                assert(s[k] == s.drop_last()[k]);
            }
        }
    }
}

/// The base name of a relative path: everything after the last `/`,
/// or the whole path when there is no `/`.
pub open spec fn base_name(s: Seq<char>) -> Seq<char> {
    s.skip(last_index_of(s, '/') + 1)
}

/// The extension of a file name: everything after the last `.`,
/// except that a `.` at the very start of the name does not begin an
/// extension (a name such as a bare dotfile has none).
pub open spec fn ext_of_name(name: Seq<char>) -> Seq<char> {
    let p = last_index_of(name, '.');
    if p >= 1 {
        name.skip(p + 1)
    } else {
        Seq::<char>::empty()
    }
}

/// The stored extension of a relative path: the base name's
/// extension, ASCII-lowercased.
pub open spec fn path_extension(rel: Seq<char>) -> Seq<char> {
    lower(ext_of_name(base_name(rel)))
}

/// Scans backwards for the last occurrence of `c` at an index below
/// `hi`; returns one past that index, or 0 when there is none.
pub(crate) fn scan_last(s: &str, hi: usize, c: char) -> (r: usize)
    requires
        hi <= s@.len(),
    ensures
        r == last_index_of(s@.take(hi as int), c) + 1,
{
    let mut j: usize = hi;
    while j > 0
        invariant
            j <= hi <= s@.len(),
            forall|k: int| j <= k < hi ==> s@[k] != c,
        decreases j,
    {
        let ch = s.get_char(j - 1);
        if ch == c {
            proof {
                lemma_last_index_of(s@.take(hi as int), c);
                assert(s@.take(hi as int)[j - 1] == c);
                assert forall|k: int| j - 1 < k < hi implies s@.take(hi as int)[k] != c by {
                    assert(s@.take(hi as int)[k] == s@[k]);
                }
            }
            return j;
        }
        j = j - 1;
    }
    proof {
        lemma_last_index_of(s@.take(hi as int), c);
        if last_index_of(s@.take(hi as int), c) >= 0 {
            let p = last_index_of(s@.take(hi as int), c);
            assert(s@[p] == s@.take(hi as int)[p]);
        }
    }
    0
}

/// Extracts the stored (lowercased) extension of a relative path.
pub fn extension_of(rel: &str) -> (r: String)
    ensures
        r@ == path_extension(rel@),
{
    let len = rel.unicode_len();
    proof {
        assert(rel@.take(len as int) =~= rel@);
    }
    let start = scan_last(rel, len, '/');
    proof {
        lemma_last_index_of(rel@, '/');
    }
    let name = rel.substring_char(start, len);
    proof {
        assert(name@ =~= base_name(rel@));
    }
    let name_len = name.unicode_len();
    let dot = scan_last(name, name_len, '.');
    proof {
        assert(name@.take(name_len as int) =~= name@);
        lemma_last_index_of(name@, '.');
    }
    if dot >= 2 {
        let ext = name.substring_char(dot, name_len);
        proof {
            assert(ext@ =~= ext_of_name(name@));
        }
        crate::chars::lower_str(ext)
    } else {
        proof {
            assert(ext_of_name(name@) =~= Seq::<char>::empty());
            assert(lower(Seq::<char>::empty()) =~= Seq::<char>::empty());
        }
        String::new()
    }
}

} // verus!
