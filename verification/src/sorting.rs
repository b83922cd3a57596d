//! Sorting string sequences into strictly increasing (hence
//! duplicate-free) lexicographic order. A strictly sorted sequence is
//! the canonical form of its set of elements: two of them with the
//! same element set are equal, which is what makes every rendering
//! that starts from `sort_dedup` independent of input order.

use vstd::prelude::*;
use crate::chars::{lex_lt, lemma_lex_trichotomy, lemma_lex_transitive, lemma_lex_irreflexive};
use crate::chars::str_lt;
use crate::paths::str_views;

verus! {

/// Strictly increasing in lexicographic order; implies all elements
/// are distinct.
pub open spec fn sorted_strict(s: Seq<Seq<char>>) -> bool {
    forall|i: int, j: int| 0 <= i < j < s.len() ==> lex_lt(s[i], s[j])
}

/// Inserting an element anywhere into a sequence adds exactly that
/// element to its set.
pub proof fn lemma_insert_to_set<A>(s: Seq<A>, i: int, x: A)
    requires
        0 <= i <= s.len(),
    ensures
        s.insert(i, x).to_set() == s.to_set().insert(x),
{
    let t = s.insert(i, x);
    assert forall|y: A| #[trigger] t.to_set().contains(y) implies s.to_set().contains(y) || y
        == x by {
        let k = choose|k: int| 0 <= k < t.len() && t[k] == y;
        if k < i {
            assert(s[k] == y);
        } else if k == i {
        } else {
            assert(s[k - 1] == y);
        }
    }
    assert forall|y: A| s.to_set().contains(y) || y == x implies #[trigger] t.to_set().contains(
        y,
    ) by {
        if s.to_set().contains(y) {
            let k = choose|k: int| 0 <= k < s.len() && s[k] == y;
            if k < i {
                assert(t[k] == y);
            } else {
                assert(t[k + 1] == y);
            }
        } else {
            assert(t[i] == y);
        }
    }
    assert(t.to_set() =~= s.to_set().insert(x));
}

/// Dropping the first element of a strictly sorted sequence removes
/// exactly that element from its set.
pub proof fn lemma_drop_first_to_set(s: Seq<Seq<char>>)
    requires
        sorted_strict(s),
        s.len() > 0,
    ensures
        s.drop_first().to_set() == s.to_set().remove(s[0]),
{
    let t = s.drop_first();
    assert forall|y: Seq<char>| #[trigger] t.to_set().contains(y)
        implies s.to_set().contains(y) && y != s[0] by {
        let k = choose|k: int| 0 <= k < t.len() && t[k] == y;
        assert(s[k + 1] == y);
        assert(lex_lt(s[0], s[k + 1]));
        lemma_lex_trichotomy(s[0], s[k + 1]);
    }
    assert forall|y: Seq<char>| s.to_set().contains(y) && y != s[0] implies #[trigger] t
        .to_set()
        .contains(y) by {
        let k = choose|k: int| 0 <= k < s.len() && s[k] == y;
        assert(k > 0);
        assert(t[k - 1] == y);
    }
    assert(t.to_set() =~= s.to_set().remove(s[0]));
}

/// A strictly sorted sequence is determined by its set of elements.
pub proof fn lemma_sorted_canonical(s1: Seq<Seq<char>>, s2: Seq<Seq<char>>)
    requires
        sorted_strict(s1),
        sorted_strict(s2),
        s1.to_set() == s2.to_set(),
    ensures
        s1 == s2,
    decreases s1.len(),
{
    if s1.len() == 0 {
        if s2.len() > 0 {
            assert(s2.to_set().contains(s2[0]));
            assert(s1.contains(s2[0]));
        }
        assert(s1 =~= s2);
    } else if s2.len() == 0 {
        assert(s1.to_set().contains(s1[0]));
        assert(s2.contains(s1[0]));
    } else {
        assert(s2.to_set().contains(s1[0])) by {
            assert(s1.to_set().contains(s1[0]));
        }
        assert(s1.to_set().contains(s2[0])) by {
            assert(s2.to_set().contains(s2[0]));
        }
        let j = choose|j: int| 0 <= j < s2.len() && s2[j] == s1[0];
        let i = choose|i: int| 0 <= i < s1.len() && s1[i] == s2[0];
        if i > 0 && j > 0 {
            assert(lex_lt(s2[0], s2[j]));
            assert(lex_lt(s1[0], s1[i]));
            lemma_lex_transitive(s2[0], s1[0], s2[0]);
            lemma_lex_irreflexive(s2[0]);
        }
        assert(s1[0] == s2[0]);
        lemma_drop_first_to_set(s1);
        lemma_drop_first_to_set(s2);
        let t1 = s1.drop_first();
        let t2 = s2.drop_first();
        assert(sorted_strict(t1)) by {
            assert forall|a: int, b: int| 0 <= a < b < t1.len() implies lex_lt(t1[a], t1[b]) by {
                assert(t1[a] == s1[a + 1]);
                assert(t1[b] == s1[b + 1]);
            }
        }
        assert(sorted_strict(t2)) by {
            assert forall|a: int, b: int| 0 <= a < b < t2.len() implies lex_lt(t2[a], t2[b]) by {
                assert(t2[a] == s2[a + 1]);
                assert(t2[b] == s2[b + 1]);
            }
        }
        lemma_sorted_canonical(t1, t2);
        assert forall|k: int| 0 <= k < s1.len() implies s1[k] == s2[k] by {
            if k > 0 {
                assert(s1[k] == t1[k - 1]);
                assert(s2[k] == t2[k - 1]);
            }
        }
        assert(s1 =~= s2);
    }
}

/// Inserting at the position found by a lower-bound scan keeps a
/// strictly sorted sequence strictly sorted.
pub proof fn lemma_sorted_insert(s: Seq<Seq<char>>, idx: int, x: Seq<char>)
    requires
        sorted_strict(s),
        0 <= idx <= s.len(),
        forall|k: int| 0 <= k < idx ==> lex_lt(#[trigger] s[k], x),
        idx < s.len() ==> lex_lt(x, s[idx]),
    ensures
        sorted_strict(s.insert(idx, x)),
{
    let t = s.insert(idx, x);
    assert forall|a: int, b: int| 0 <= a < b < t.len() implies lex_lt(t[a], t[b]) by {
        if a < idx && b < idx {
            assert(t[a] == s[a] && t[b] == s[b]);
        } else if a < idx && b == idx {
            assert(t[a] == s[a]);
        } else if a < idx && b > idx {
            assert(t[a] == s[a] && t[b] == s[b - 1]);
            if idx < b - 1 {
                assert(lex_lt(s[idx], s[b - 1]));
                lemma_lex_transitive(x, s[idx], s[b - 1]);
            }
            lemma_lex_transitive(s[a], x, s[b - 1]);
        } else if a == idx {
            assert(t[b] == s[b - 1]);
            if idx < b - 1 {
                assert(lex_lt(s[idx], s[b - 1]));
                lemma_lex_transitive(x, s[idx], s[b - 1]);
            }
        } else {
            assert(t[a] == s[a - 1] && t[b] == s[b - 1]);
        }
    }
}

/// Inserts `x` into a strictly sorted vector, keeping it strictly
/// sorted; a duplicate is dropped.
fn insert_unique(r: &mut Vec<String>, x: String)
    requires
        sorted_strict(str_views(old(r)@)),
    ensures
        sorted_strict(str_views(final(r)@)),
        str_views(final(r)@).to_set() == str_views(old(r)@).to_set().insert(x@),
{
    let ghost old_views = str_views(old(r)@);
    let mut idx: usize = 0;
    loop
        invariant
            idx <= r@.len(),
            r@ == old(r)@,
            sorted_strict(str_views(r@)),
            forall|k: int| 0 <= k < idx ==> lex_lt(str_views(r@)[k], x@),
        ensures
            idx <= old(r)@.len(),
            r@ == old(r)@,
            forall|k: int| 0 <= k < idx ==> lex_lt(str_views(old(r)@)[k], x@),
            idx < old(r)@.len() ==> !lex_lt(str_views(old(r)@)[idx as int], x@),
        decreases r@.len() - idx,
    {
        if idx == r.len() {
            break;
        }
        if !str_lt(r[idx].as_str(), x.as_str()) {
            proof {
                assert(str_views(r@)[idx as int] == r@[idx as int]@);
            }
            break;
        }
        proof {
            assert(str_views(r@)[idx as int] == r@[idx as int]@);
        }
        idx = idx + 1;
    }
    if idx < r.len() && r[idx] == x {
        proof {
            assert(str_views(r@)[idx as int] == x@);
            assert(old_views.to_set().contains(x@));
            assert(old_views.to_set() =~= old_views.to_set().insert(x@));
        }
        return ;
    }
    proof {
        if idx < r@.len() {
            assert(!lex_lt(str_views(r@)[idx as int], x@));
            lemma_lex_trichotomy(str_views(r@)[idx as int], x@);
            assert(str_views(r@)[idx as int] == r@[idx as int]@);
            assert(lex_lt(x@, str_views(r@)[idx as int]));
        }
    }
    r.insert(idx, x);
    proof {
        let new_views = str_views(r@);
        assert(new_views =~~= old_views.insert(idx as int, x@));
        lemma_sorted_insert(old_views, idx as int, x@);
        lemma_insert_to_set(old_views, idx as int, x@);
    }
}

/// Sorts the given strings into strictly increasing lexicographic
/// order, dropping duplicates: the canonical listing of the set of
/// inputs.
pub fn sort_dedup(v: &Vec<String>) -> (r: Vec<String>)
    ensures
        sorted_strict(str_views(r@)),
        str_views(r@).to_set() == str_views(v@).to_set(),
{
    let mut r: Vec<String> = Vec::new();
    let mut i: usize = 0;
    proof {
        assert(str_views(r@) =~~= Seq::<Seq<char>>::empty());
        assert(str_views(v@.take(0)) =~~= Seq::<Seq<char>>::empty());
        assert(str_views(r@).to_set() =~= str_views(v@.take(0)).to_set());
    }
    while i < v.len()
        invariant
            i <= v@.len(),
            sorted_strict(str_views(r@)),
            str_views(r@).to_set() == str_views(v@.take(i as int)).to_set(),
        decreases v@.len() - i,
    {
        let x = v[i].clone();
        insert_unique(&mut r, x);
        proof {
            let prev = str_views(v@.take(i as int));
            let next = str_views(v@.take(i + 1));
            assert(next =~~= prev.push(v@[i as int]@));
            lemma_insert_to_set(prev, prev.len() as int, v@[i as int]@);
            assert(prev.insert(prev.len() as int, v@[i as int]@) =~~= next);
        }
        i = i + 1;
    }
    proof {
        assert(v@.take(i as int) =~= v@);
    }
    r
}

} // verus!
