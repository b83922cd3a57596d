//! Reconstruction of a directory tree from a flat set of relative
//! paths, and its deterministic textual rendering.
//!
//! A forest is a sequence of nodes, each carrying a name and a
//! sub-forest, kept in strictly increasing name order at every level.
//! A forest therefore is canonical: its shape depends only on the
//! *set* of paths it was built from, never on their order.

use vstd::prelude::*;
use crate::chars::{lex_lt, lemma_lex_trichotomy, lemma_lex_transitive, lemma_lex_irreflexive};
use crate::paths::{str_views, split_slash, split_path};
use crate::sorting::{sorted_strict, sort_dedup, lemma_sorted_canonical};

verus! {

/// One directory-tree node: a name and the lexicographically sorted
/// children.
pub struct Node {
    pub name: String,
    pub children: Vec<Node>,
}

/// The names of a forest's root nodes, in order.
pub open spec fn forest_names(f: Seq<Node>) -> Seq<Seq<char>> {
    f.map_values(|n: Node| n.name@)
}

/// Every level of the forest is strictly sorted by name.
pub open spec fn forest_sorted(f: Seq<Node>) -> bool
    decreases f,
{
    sorted_strict(forest_names(f)) && (forall|i: int|
        0 <= i < f.len() ==> forest_sorted(#[trigger] f[i].children@))
}

/// Whether the forest has a node at the given path of names.
pub open spec fn forest_contains(f: Seq<Node>, q: Seq<Seq<char>>) -> bool
    decreases f,
{
    q.len() >= 1 && exists|i: int|
        0 <= i < f.len() && (#[trigger] f[i].name@) == q[0] && (q.len() == 1 || forest_contains(
            f[i].children@,
            q.drop_first(),
        ))
}

/// `q` is a prefix of `w`.
pub open spec fn is_prefix(q: Seq<Seq<char>>, w: Seq<Seq<char>>) -> bool {
    q.len() <= w.len() && q == w.take(q.len() as int)
}

/// The node paths that a set of relative paths calls for: every
/// nonempty prefix of some path's component list, i.e. every listed
/// path and every proper ancestor directory of one, and nothing else.
pub open spec fn path_set_closure(ps: Set<Seq<char>>, q: Seq<Seq<char>>) -> bool {
    q.len() >= 1 && exists|s: Seq<char>| #[trigger] ps.contains(s) && is_prefix(q, split_slash(s))
}

/// The forest that represents exactly the given set of relative
/// paths.
pub open spec fn forest_matches(f: Seq<Node>, ps: Set<Seq<char>>) -> bool {
    forest_sorted(f) && (forall|q: Seq<Seq<char>>|
        #[trigger] forest_contains(f, q) <==> path_set_closure(ps, q))
}

/// Prefix relation unrolled by one component.
pub proof fn lemma_prefix_cons(q: Seq<Seq<char>>, w: Seq<Seq<char>>)
    requires
        q.len() >= 1,
        w.len() >= 1,
    ensures
        is_prefix(q, w) <==> (q[0] == w[0] && (q.len() == 1 || is_prefix(
            q.drop_first(),
            w.drop_first(),
        ))),
{
    if is_prefix(q, w) {
        assert(q[0] == w.take(q.len() as int)[0]);
        if q.len() > 1 {
            assert(q.drop_first() =~= w.drop_first().take(q.len() - 1));
        }
    }
    if q[0] == w[0] && (q.len() == 1 || is_prefix(q.drop_first(), w.drop_first())) {
        assert forall|i: int| 0 <= i < q.len() implies q[i] == w.take(q.len() as int)[i] by {
            if i > 0 {
                assert(q[i] == q.drop_first()[i - 1]);
                assert(q.drop_first()[i - 1] == w.drop_first().take(q.len() - 1)[i - 1]);
            }
        }
        assert(q =~= w.take(q.len() as int));
    }
}

/// In a strictly sorted forest, names at distinct indices differ.
proof fn lemma_names_unique(f: Seq<Node>, i: int, j: int)
    requires
        sorted_strict(forest_names(f)),
        0 <= i < f.len(),
        0 <= j < f.len(),
        i != j,
    ensures
        f[i].name@ != f[j].name@,
{
    if i < j {
        assert(lex_lt(forest_names(f)[i], forest_names(f)[j]));
        lemma_lex_trichotomy(forest_names(f)[i], forest_names(f)[j]);
    } else {
        assert(lex_lt(forest_names(f)[j], forest_names(f)[i]));
        lemma_lex_trichotomy(forest_names(f)[j], forest_names(f)[i]);
    }
}

/// How inserting a root node changes forest membership.
proof fn lemma_contains_insert(f: Seq<Node>, idx: int, n: Node, q: Seq<Seq<char>>)
    requires
        0 <= idx <= f.len(),
    ensures
        forest_contains(f.insert(idx, n), q) <==> (forest_contains(f, q) || forest_contains(
            seq![n],
            q,
        )),
{
    let t = f.insert(idx, n);
    if forest_contains(t, q) {
        let i = choose|i: int|
            0 <= i < t.len() && t[i].name@ == q[0] && (q.len() == 1 || forest_contains(
                t[i].children@,
                q.drop_first(),
            ));
        if i < idx {
            assert(t[i] == f[i]);
            assert(f[i].name@ == q[0] && (q.len() == 1 || forest_contains(
                f[i].children@,
                q.drop_first(),
            )));
        } else if i == idx {
            assert(t[i] == n);
            assert(seq![n][0].name@ == q[0] && (q.len() == 1 || forest_contains(
                seq![n][0].children@,
                q.drop_first(),
            )));
        } else {
            assert(t[i] == f[i - 1]);
            assert(f[i - 1].name@ == q[0] && (q.len() == 1 || forest_contains(
                f[i - 1].children@,
                q.drop_first(),
            )));
        }
    }
    if forest_contains(f, q) {
        let i = choose|i: int|
            0 <= i < f.len() && f[i].name@ == q[0] && (q.len() == 1 || forest_contains(
                f[i].children@,
                q.drop_first(),
            ));
        if i < idx {
            assert(t[i] == f[i]);
            assert(t[i].name@ == q[0] && (q.len() == 1 || forest_contains(
                t[i].children@,
                q.drop_first(),
            )));
        } else {
            assert(t[i + 1] == f[i]);
            assert(t[i + 1].name@ == q[0] && (q.len() == 1 || forest_contains(
                t[i + 1].children@,
                q.drop_first(),
            )));
        }
    }
    if forest_contains(seq![n], q) {
        assert(seq![n][0] == n);
        assert(t[idx] == n);
        assert(t[idx].name@ == q[0] && (q.len() == 1 || forest_contains(
            t[idx].children@,
            q.drop_first(),
        )));
    }
}

/// How replacing one node's children (name kept) changes forest
/// membership.
proof fn lemma_contains_update(f: Seq<Node>, idx: int, n2: Node, q: Seq<Seq<char>>)
    requires
        0 <= idx < f.len(),
        n2.name@ == f[idx].name@,
        sorted_strict(forest_names(f)),
    ensures
        q.len() == 0 ==> !forest_contains(f.update(idx, n2), q) && !forest_contains(f, q),
        q.len() >= 1 && q[0] != n2.name@ ==> (forest_contains(f.update(idx, n2), q)
            <==> forest_contains(f, q)),
        q.len() >= 1 && q[0] == n2.name@ ==> ((forest_contains(f.update(idx, n2), q) <==> (q.len()
            == 1 || forest_contains(n2.children@, q.drop_first()))) && (forest_contains(f, q)
            <==> (q.len() == 1 || forest_contains(f[idx].children@, q.drop_first())))),
{
    let t = f.update(idx, n2);
    if q.len() >= 1 && q[0] != n2.name@ {
        if forest_contains(t, q) {
            let i = choose|i: int|
                0 <= i < t.len() && t[i].name@ == q[0] && (q.len() == 1 || forest_contains(
                    t[i].children@,
                    q.drop_first(),
                ));
            assert(i != idx);
            assert(t[i] == f[i]);
            assert(f[i].name@ == q[0] && (q.len() == 1 || forest_contains(
                f[i].children@,
                q.drop_first(),
            )));
        }
        if forest_contains(f, q) {
            let i = choose|i: int|
                0 <= i < f.len() && f[i].name@ == q[0] && (q.len() == 1 || forest_contains(
                    f[i].children@,
                    q.drop_first(),
                ));
            assert(i != idx);
            assert(t[i] == f[i]);
            assert(t[i].name@ == q[0] && (q.len() == 1 || forest_contains(
                t[i].children@,
                q.drop_first(),
            )));
        }
    }
    if q.len() >= 1 && q[0] == n2.name@ {
        if forest_contains(t, q) {
            let i = choose|i: int|
                0 <= i < t.len() && t[i].name@ == q[0] && (q.len() == 1 || forest_contains(
                    t[i].children@,
                    q.drop_first(),
                ));
            if i != idx {
                assert(t[i] == f[i]);
                lemma_names_unique(f, i, idx);
            }
        }
        if q.len() == 1 || forest_contains(n2.children@, q.drop_first()) {
            assert(t[idx] == n2);
            assert(t[idx].name@ == q[0] && (q.len() == 1 || forest_contains(
                t[idx].children@,
                q.drop_first(),
            )));
        }
        if forest_contains(f, q) {
            let i = choose|i: int|
                0 <= i < f.len() && f[i].name@ == q[0] && (q.len() == 1 || forest_contains(
                    f[i].children@,
                    q.drop_first(),
                ));
            if i != idx {
                lemma_names_unique(f, i, idx);
            }
        }
        if q.len() == 1 || forest_contains(f[idx].children@, q.drop_first()) {
            assert(f[idx].name@ == q[0] && (q.len() == 1 || forest_contains(
                f[idx].children@,
                q.drop_first(),
            )));
        }
    }
}

/// Builds the single-branch forest node for the component suffix
/// `comps[k..]`.
fn make_chain(comps: &Vec<String>, k: usize) -> (n: Node)
    requires
        k < comps@.len(),
    ensures
        n.name@ == comps@[k as int]@,
        forest_sorted(seq![n]),
        forall|q: Seq<Seq<char>>|
            #[trigger] forest_contains(seq![n], q) <==> (q.len() >= 1 && is_prefix(
                q,
                str_views(comps@).skip(k as int),
            )),
    decreases comps@.len() - k,
{
    let ghost tail = str_views(comps@).skip(k as int);
    proof {
        assert(tail.len() == comps@.len() - k);
        assert(tail[0] == comps@[k as int]@);
    }
    let name = comps[k].clone();
    let len = comps.len();
    let mut children: Vec<Node> = Vec::new();
    if k + 1 < len {
        let child = make_chain(comps, k + 1);
        children.push(child);
    }
    let n = Node { name, children };
    proof {
        let one = seq![n];
        assert(forest_names(one) =~~= seq![n.name@]);
        assert(forest_sorted(n.children@)) by {
            if k + 1 < comps@.len() {
                assert(n.children@ =~= seq![n.children@[0]]);
            } else {
                assert(forest_names(n.children@) =~~= Seq::<Seq<char>>::empty());
            }
        }
        assert(forest_sorted(one)) by {
            assert(one[0].children@ == n.children@);
        }
        assert forall|q: Seq<Seq<char>>| #[trigger]
            forest_contains(one, q) <==> (q.len() >= 1 && is_prefix(q, tail)) by {
            if q.len() >= 1 {
                lemma_prefix_cons(q, tail);
                if q.len() > 1 {
                    if k + 1 < comps@.len() {
                        assert(n.children@ == seq![n.children@[0]]);
                        assert(forest_contains(n.children@, q.drop_first()) <==> (
                        q.drop_first().len() >= 1 && is_prefix(
                            q.drop_first(),
                            str_views(comps@).skip(k + 1),
                        )));
                        assert(tail.drop_first() =~~= str_views(comps@).skip(k + 1));
                    } else {
                        assert(tail.len() == 1);
                        assert(!forest_contains(n.children@, q.drop_first()));
                    }
                }
                if forest_contains(one, q) {
                    let i = choose|i: int|
                        0 <= i < one.len() && one[i].name@ == q[0] && (q.len() == 1
                            || forest_contains(one[i].children@, q.drop_first()));
                    assert(i == 0);
                    assert(one[0] == n);
                }
                if q[0] == tail[0] && (q.len() == 1 || is_prefix(q.drop_first(), tail.drop_first())) {
                    assert(one[0].name@ == q[0] && (q.len() == 1 || forest_contains(
                        one[0].children@,
                        q.drop_first(),
                    )));
                }
            }
        }
    }
    n
}

/// First index whose name is not lexicographically below `x`.
fn lower_bound(f: &Vec<Node>, x: &str) -> (idx: usize)
    ensures
        idx <= f@.len(),
        forall|k: int| 0 <= k < idx ==> lex_lt(#[trigger] forest_names(f@)[k], x@),
        idx < f@.len() ==> !lex_lt(forest_names(f@)[idx as int], x@),
{
    let mut idx: usize = 0;
    loop
        invariant
            idx <= f@.len(),
            forall|k: int| 0 <= k < idx ==> lex_lt(#[trigger] forest_names(f@)[k], x@),
        ensures
            idx <= f@.len(),
            forall|k: int| 0 <= k < idx ==> lex_lt(#[trigger] forest_names(f@)[k], x@),
            idx < f@.len() ==> !lex_lt(forest_names(f@)[idx as int], x@),
        decreases f@.len() - idx,
    {
        if idx == f.len() {
            break;
        }
        if !crate::chars::str_lt(f[idx].name.as_str(), x) {
            proof {
                assert(forest_names(f@)[idx as int] == f@[idx as int].name@);
            }
            break;
        }
        proof {
            assert(forest_names(f@)[idx as int] == f@[idx as int].name@);
        }
        idx = idx + 1;
    }
    idx
}

/// Inserts the component suffix `comps[k..]` as a path of nodes,
/// creating exactly the missing nodes and keeping every level
/// sorted.
fn insert_node(f: &mut Vec<Node>, comps: &Vec<String>, k: usize)
    requires
        k < comps@.len(),
        forest_sorted(old(f)@),
    ensures
        forest_sorted(final(f)@),
        forall|q: Seq<Seq<char>>|
            #[trigger] forest_contains(final(f)@, q) <==> (forest_contains(old(f)@, q) || (q.len()
                >= 1 && is_prefix(q, str_views(comps@).skip(k as int)))),
    decreases comps@.len() - k,
{
    let ghost tail = str_views(comps@).skip(k as int);
    let ghost f0 = old(f)@;
    proof {
        assert(tail.len() == comps@.len() - k);
        assert(tail[0] == comps@[k as int]@);
    }
    let idx = lower_bound(f, comps[k].as_str());
    let len = comps.len();
    let mut matched = false;
    if idx < f.len() {
        if f[idx].name == comps[k] {
            matched = true;
        }
    }
    if matched {
        proof {
            assert(f@[idx as int].name@ == tail[0]);
        }
        if k + 1 < len {
            let mut node = f.remove(idx);
            insert_node(&mut node.children, comps, k + 1);
            let ghost node2 = node;
            f.insert(idx, node);
            proof {
                assert(f@ =~= f0.update(idx as int, node2));
                let t = f0.update(idx as int, node2);
                assert(forest_names(t) =~~= forest_names(f0));
                assert(forest_sorted(t)) by {
                    assert forall|i: int| 0 <= i < t.len() implies forest_sorted(
                        #[trigger] t[i].children@,
                    ) by {
                        if i != idx {
                            assert(t[i] == f0[i]);
                            assert(forest_sorted(f0[i].children@));
                        } else {
                            assert(t[i] == node2);
                            assert(forest_sorted(node2.children@));
                        }
                    }
                }
                assert forall|q: Seq<Seq<char>>| #[trigger]
                    forest_contains(f@, q) <==> (forest_contains(f0, q) || (q.len() >= 1
                        && is_prefix(q, tail))) by {
                    lemma_contains_update(f0, idx as int, node2, q);
                    if q.len() >= 1 {
                        lemma_prefix_cons(q, tail);
                        if q[0] == node2.name@ && q.len() > 1 {
                            assert(tail.drop_first() =~~= str_views(comps@).skip(k + 1));
                        }
                    }
                }
            }
        } else {
            proof {
                assert forall|q: Seq<Seq<char>>| #[trigger]
                    forest_contains(f@, q) <==> (forest_contains(f0, q) || (q.len() >= 1
                        && is_prefix(q, tail))) by {
                    if q.len() >= 1 && is_prefix(q, tail) {
                        assert(tail.len() == 1);
                        assert(q.len() == 1);
                        lemma_prefix_cons(q, tail);
                        assert(f@[idx as int].name@ == q[0]);
                        assert(forest_contains(f@, q));
                    }
                }
            }
        }
    } else {
        proof {
            if idx < f0.len() {
                assert(!lex_lt(forest_names(f0)[idx as int], tail[0]));
                assert(forest_names(f0)[idx as int] == f0[idx as int].name@);
                lemma_lex_trichotomy(f0[idx as int].name@, tail[0]);
                assert(lex_lt(tail[0], forest_names(f0)[idx as int]));
            }
        }
        let chain = make_chain(comps, k);
        let ghost chain_g = chain;
        f.insert(idx, chain);
        proof {
            assert(f@ =~= f0.insert(idx as int, chain_g));
            assert(forest_names(f@) =~~= forest_names(f0).insert(idx as int, chain_g.name@));
            crate::sorting::lemma_sorted_insert(forest_names(f0), idx as int, chain_g.name@);
            assert(forest_sorted(f@)) by {
                assert forall|i: int| 0 <= i < f@.len() implies forest_sorted(
                    #[trigger] f@[i].children@,
                ) by {
                    if i < idx {
                        assert(f@[i] == f0[i]);
                        assert(forest_sorted(f0[i].children@));
                    } else if i == idx {
                        assert(f@[i] == chain_g);
                        assert(forest_sorted(seq![chain_g]));
                        assert(forest_sorted(seq![chain_g][0].children@));
                        assert(seq![chain_g][0] == chain_g);
                        assert(forest_sorted(chain_g.children@));
                    } else {
                        assert(f@[i] == f0[i - 1]);
                        assert(forest_sorted(f0[i - 1].children@));
                    }
                }
            }
            assert forall|q: Seq<Seq<char>>| #[trigger]
                forest_contains(f@, q) <==> (forest_contains(f0, q) || (q.len() >= 1 && is_prefix(
                    q,
                    tail,
                ))) by {
                lemma_contains_insert(f0, idx as int, chain_g, q);
            }
        }
    }
}

/// Builds the sorted forest holding exactly the given relative paths
/// and every proper ancestor directory of one, and nothing else —
/// whatever the order and multiplicity of the input.
pub fn build_forest(rel_paths: &Vec<String>) -> (f: Vec<Node>)
    ensures
        forest_matches(f@, str_views(rel_paths@).to_set()),
{
    let sorted = sort_dedup(rel_paths);
    let mut f: Vec<Node> = Vec::new();
    let mut i: usize = 0;
    proof {
        assert(forest_names(f@) =~~= Seq::<Seq<char>>::empty());
    }
    while i < sorted.len()
        invariant
            i <= sorted@.len(),
            forest_sorted(f@),
            forall|q: Seq<Seq<char>>|
                #[trigger] forest_contains(f@, q) <==> path_set_closure(
                    str_views(sorted@.take(i as int)).to_set(),
                    q,
                ),
        decreases sorted@.len() - i,
    {
        let ghost f_prev = f@;
        let ghost prev_set = str_views(sorted@.take(i as int)).to_set();
        let comps = split_path(sorted[i].as_str());
        proof {
            crate::paths::lemma_split_slash_len(sorted@[i as int]@);
            assert(str_views(comps@).skip(0) =~= str_views(comps@));
        }
        insert_node(&mut f, &comps, 0);
        proof {
            let s_new = sorted@[i as int]@;
            let next_set = str_views(sorted@.take(i + 1)).to_set();
            assert(str_views(sorted@.take(i + 1)) =~~= str_views(sorted@.take(i as int)).push(
                s_new,
            ));
            crate::sorting::lemma_insert_to_set(
                str_views(sorted@.take(i as int)),
                str_views(sorted@.take(i as int)).len() as int,
                s_new,
            );
            assert(str_views(sorted@.take(i as int)).insert(
                str_views(sorted@.take(i as int)).len() as int,
                s_new,
            ) =~~= str_views(sorted@.take(i + 1)));
            assert(next_set =~= prev_set.insert(s_new));
            assert forall|q: Seq<Seq<char>>| #[trigger]
                forest_contains(f@, q) <==> path_set_closure(next_set, q) by {
                if forest_contains(f@, q) {
                    if forest_contains(f_prev, q) {
                        let s = choose|s: Seq<char>|
                            #[trigger] prev_set.contains(s) && is_prefix(q, split_slash(s));
                        assert(next_set.contains(s));
                    } else {
                        assert(next_set.contains(s_new));
                    }
                }
                if path_set_closure(next_set, q) {
                    let s = choose|s: Seq<char>|
                        #[trigger] next_set.contains(s) && is_prefix(q, split_slash(s));
                    if s == s_new {
                        assert(q.len() >= 1 && is_prefix(q, split_slash(s_new)));
                    } else {
                        assert(prev_set.contains(s));
                        assert(path_set_closure(prev_set, q));
                    }
                }
            }
        }
        i = i + 1;
    }
    proof {
        assert(sorted@.take(i as int) =~= sorted@);
        assert(str_views(sorted@).to_set() == str_views(rel_paths@).to_set());
    }
    f
}

/// The connector that introduces a child line.
pub open spec fn connector(is_last: bool) -> Seq<char> {
    if is_last {
        "└── "@
    } else {
        "├── "@
    }
}

/// What a child line adds to the indentation of its own children.
pub open spec fn child_indent(is_last: bool) -> Seq<char> {
    if is_last {
        "   "@
    } else {
        "│  "@
    }
}

/// The rendered text of a forest: one line per node, children
/// indented under their parent, the last child of each level drawn
/// with a corner connector and all others with a tee.
pub open spec fn render_forest(f: Seq<Node>, prefix: Seq<char>) -> Seq<char>
    decreases f,
{
    if f.len() == 0 {
        Seq::<char>::empty()
    } else {
        prefix + connector(f.len() == 1) + f[0].name@ + seq!['\n'] + render_forest(
            f[0].children@,
            prefix + child_indent(f.len() == 1),
        ) + render_forest(f.drop_first(), prefix)
    }
}

/// Appends the rendering of the forest's nodes from index `i` on.
fn render_into(f: &Vec<Node>, i: usize, prefix: &String, out: &mut String)
    requires
        i <= f@.len(),
    ensures
        final(out)@ == old(out)@ + render_forest(f@.skip(i as int), prefix@),
    decreases f@, f@.len() - i,
{
    if i == f.len() {
        proof {
            assert(f@.skip(i as int) =~= Seq::<Node>::empty());
            assert(old(out)@ + render_forest(f@.skip(i as int), prefix@) =~= old(out)@);
        }
        return ;
    }
    let ghost start = out@;
    let ghost rest = f@.skip(i as int);
    proof {
        assert(rest[0] == f@[i as int]);
        assert(rest.len() == f@.len() - i);
    }
    let is_last = i + 1 == f.len();
    out.append(prefix.as_str());
    out.append(if is_last {
        "└── "
    } else {
        "├── "
    });
    out.append(f[i].name.as_str());
    out.append("\n");
    proof {
        assert("\n"@ =~= seq!['\n']) by {
            reveal_strlit("\n");
        }
        assert(out@ =~= start + prefix@ + connector(rest.len() == 1) + f@[i as int].name@
            + seq!['\n']);
    }
    let mut child_prefix = prefix.clone();
    child_prefix.append(if is_last {
        "   "
    } else {
        "│  "
    });
    proof {
        assert(child_prefix@ == prefix@ + child_indent(rest.len() == 1));
        assert(decreases_to!(f@ => f@[i as int]));
        assert(decreases_to!(f@[i as int] => f@[i as int].children));
        assert(decreases_to!(f@[i as int].children => f@[i as int].children@));
    }
    render_into(&f[i].children, 0, &child_prefix, out);
    proof {
        assert(f@[i as int].children@.skip(0) =~= f@[i as int].children@);
    }
    render_into(f, i + 1, prefix, out);
    proof {
        assert(f@.skip(i + 1) =~= rest.drop_first());
        assert(out@ =~= start + render_forest(rest, prefix@));
    }
}

/// Membership below a fixed root node goes through that node alone.
proof fn lemma_contains_under(f: Seq<Node>, i: int, q: Seq<Seq<char>>)
    requires
        sorted_strict(forest_names(f)),
        0 <= i < f.len(),
        q.len() >= 1,
    ensures
        forest_contains(f, seq![f[i].name@] + q) <==> forest_contains(f[i].children@, q),
{
    let cons = seq![f[i].name@] + q;
    assert(cons[0] == f[i].name@);
    assert(cons.drop_first() =~= q);
    if forest_contains(f[i].children@, q) {
        assert(f[i].name@ == cons[0] && (cons.len() == 1 || forest_contains(
            f[i].children@,
            cons.drop_first(),
        )));
    }
    if forest_contains(f, cons) {
        let j = choose|j: int|
            0 <= j < f.len() && f[j].name@ == cons[0] && (cons.len() == 1 || forest_contains(
                f[j].children@,
                cons.drop_first(),
            ));
        if j != i {
            lemma_names_unique(f, i, j);
        }
    }
}

/// Membership in a forest's tail, in terms of the whole forest.
proof fn lemma_contains_tail(f: Seq<Node>, q: Seq<Seq<char>>)
    requires
        sorted_strict(forest_names(f)),
        f.len() > 0,
        q.len() >= 1,
    ensures
        forest_contains(f.drop_first(), q) <==> (forest_contains(f, q) && q[0] != f[0].name@),
{
    let t = f.drop_first();
    if forest_contains(t, q) {
        let i = choose|i: int|
            0 <= i < t.len() && t[i].name@ == q[0] && (q.len() == 1 || forest_contains(
                t[i].children@,
                q.drop_first(),
            ));
        assert(t[i] == f[i + 1]);
        assert(f[i + 1].name@ == q[0] && (q.len() == 1 || forest_contains(
            f[i + 1].children@,
            q.drop_first(),
        )));
        lemma_names_unique(f, 0, i + 1);
    }
    if forest_contains(f, q) && q[0] != f[0].name@ {
        let i = choose|i: int|
            0 <= i < f.len() && f[i].name@ == q[0] && (q.len() == 1 || forest_contains(
                f[i].children@,
                q.drop_first(),
            ));
        assert(i != 0);
        assert(t[i - 1] == f[i]);
        assert(t[i - 1].name@ == q[0] && (q.len() == 1 || forest_contains(
            t[i - 1].children@,
            q.drop_first(),
        )));
    }
}

/// A forest's tail is itself a sorted forest.
proof fn lemma_forest_sorted_tail(f: Seq<Node>)
    requires
        forest_sorted(f),
        f.len() > 0,
    ensures
        forest_sorted(f.drop_first()),
{
    let t = f.drop_first();
    assert forall|a: int, b: int|
        0 <= a < b < t.len() implies lex_lt(forest_names(t)[a], forest_names(t)[b]) by {
        assert(t[a] == f[a + 1] && t[b] == f[b + 1]);
        assert(forest_names(f)[a + 1] == f[a + 1].name@);
        assert(forest_names(f)[b + 1] == f[b + 1].name@);
        assert(lex_lt(forest_names(f)[a + 1], forest_names(f)[b + 1]));
    }
    assert forall|i: int| 0 <= i < t.len() implies forest_sorted(#[trigger] t[i].children@) by {
        assert(t[i] == f[i + 1]);
    }
}

/// Two sorted forests with the same node paths render identically:
/// the rendering is canonical in the set of paths.
pub proof fn lemma_render_canonical(f1: Seq<Node>, f2: Seq<Node>, prefix: Seq<char>)
    requires
        forest_sorted(f1),
        forest_sorted(f2),
        forall|q: Seq<Seq<char>>| forest_contains(f1, q) <==> forest_contains(f2, q),
    ensures
        render_forest(f1, prefix) == render_forest(f2, prefix),
    decreases f1,
{
    assert forall|n: Seq<char>|
        forest_names(f1).to_set().contains(n) <==> forest_names(f2).to_set().contains(n) by {
        assert(seq![n].len() == 1);
        if forest_names(f1).to_set().contains(n) {
            let i = choose|i: int| 0 <= i < f1.len() && forest_names(f1)[i] == n;
            assert(f1[i].name@ == seq![n][0]);
            assert(forest_contains(f1, seq![n]));
        }
        if forest_contains(f2, seq![n]) {
            let i = choose|i: int| 0 <= i < f2.len() && f2[i].name@ == seq![n][0];
            assert(forest_names(f2)[i] == n);
        }
        if forest_names(f2).to_set().contains(n) {
            let i = choose|i: int| 0 <= i < f2.len() && forest_names(f2)[i] == n;
            assert(f2[i].name@ == seq![n][0]);
            assert(forest_contains(f2, seq![n]));
        }
        if forest_contains(f1, seq![n]) {
            let i = choose|i: int| 0 <= i < f1.len() && f1[i].name@ == seq![n][0];
            assert(forest_names(f1)[i] == n);
        }
    }
    assert(forest_names(f1).to_set() =~= forest_names(f2).to_set());
    lemma_sorted_canonical(forest_names(f1), forest_names(f2));
    assert(f1.len() == f2.len());
    if f1.len() > 0 {
        let n0 = f1[0].name@;
        assert(forest_names(f1)[0] == n0);
        assert(f2[0].name@ == n0);
        let c1 = f1[0].children@;
        let c2 = f2[0].children@;
        assert forall|q: Seq<Seq<char>>| forest_contains(c1, q) <==> forest_contains(c2, q) by {
            if q.len() >= 1 {
                lemma_contains_under(f1, 0, q);
                lemma_contains_under(f2, 0, q);
                assert(seq![f1[0].name@] + q == seq![f2[0].name@] + q);
            }
        }
        assert(forest_sorted(c1) && forest_sorted(c2));
        lemma_render_canonical(c1, c2, prefix + child_indent(f1.len() == 1));
        let t1 = f1.drop_first();
        let t2 = f2.drop_first();
        lemma_forest_sorted_tail(f1);
        lemma_forest_sorted_tail(f2);
        assert forall|q: Seq<Seq<char>>| forest_contains(t1, q) <==> forest_contains(t2, q) by {
            if q.len() >= 1 {
                lemma_contains_tail(f1, q);
                lemma_contains_tail(f2, q);
            }
        }
        lemma_render_canonical(t1, t2, prefix);
    }
}

/// The canonical forest of a set of relative paths, when the set has
/// one (every finite set does: `build_forest` constructs it).
pub open spec fn the_forest(ps: Set<Seq<char>>) -> Seq<Node> {
    choose|f: Seq<Node>| forest_matches(f, ps)
}

/// The notice rendered for an empty selection.
pub open spec fn empty_tree_text() -> Seq<char> {
    ".\n(No files or directories found to list)\n"@
}

/// The rendered tree of a set of relative paths: the root marker
/// followed by the canonical forest's rendering, or the empty-tree
/// notice.
pub open spec fn tree_text(ps: Set<Seq<char>>) -> Seq<char> {
    if ps.is_empty() {
        empty_tree_text()
    } else {
        ".\n"@ + render_forest(the_forest(ps), Seq::<char>::empty())
    }
}

/// Renders the directory tree of the given relative paths. The
/// output depends only on the set of paths: order and repetition of
/// the input change nothing.
pub fn build_tree(rel_paths: &Vec<String>) -> (out: String)
    ensures
        out@ == tree_text(str_views(rel_paths@).to_set()),
{
    let ghost ps = str_views(rel_paths@).to_set();
    if rel_paths.len() == 0 {
        let out = String::from_str(".\n(No files or directories found to list)\n");
        proof {
            assert(ps =~= Set::<Seq<char>>::empty());
        }
        return out;
    }
    let forest = build_forest(rel_paths);
    let mut out = String::from_str(".\n");
    let empty_prefix = String::new();
    render_into(&forest, 0, &empty_prefix, &mut out);
    proof {
        assert(ps.contains(str_views(rel_paths@)[0]));
        assert(!ps.is_empty());
        assert(forest_matches(forest@, ps));
        let g = the_forest(ps);
        assert(forest_matches(g, ps));
        lemma_render_canonical(g, forest@, Seq::<char>::empty());
        assert(forest@.skip(0) =~= forest@);
        assert(out@ =~= ".\n"@ + render_forest(g, Seq::<char>::empty()));
    }
    out
}

/// The relative paths of a record sequence.
pub open spec fn rel_views(rs: Seq<crate::records::FileRecord>) -> Seq<Seq<char>> {
    rs.map_values(|r: crate::records::FileRecord| r.relative_path@)
}

/// Renders the directory tree of the given records' relative paths.
pub fn build_tree_from_records(records: &Vec<crate::records::FileRecord>) -> (out: String)
    ensures
        out@ == tree_text(rel_views(records@).to_set()),
{
    let mut paths: Vec<String> = Vec::new();
    let mut i: usize = 0;
    proof {
        assert(str_views(paths@) =~~= rel_views(records@.take(0)));
    }
    while i < records.len()
        invariant
            i <= records@.len(),
            str_views(paths@) == rel_views(records@.take(i as int)),
        decreases records@.len() - i,
    {
        let ghost old_paths = paths@;
        paths.push(records[i].relative_path.clone());
        proof {
            assert(records@.take(i + 1) =~= records@.take(i as int).push(records@[i as int]));
            assert(str_views(paths@) =~~= str_views(old_paths).push(
                records@[i as int].relative_path@,
            ));
            assert(rel_views(records@.take(i + 1)) =~~= rel_views(records@.take(i as int)).push(
                records@[i as int].relative_path@,
            ));
        }
        i = i + 1;
    }
    proof {
        assert(records@.take(records@.len() as int) =~= records@);
    }
    build_tree(&paths)
}

/// Law: rendering is order-independent. Two path lists with the same
/// set of elements — permutations or duplicates of one another —
/// yield byte-identical tree text.
pub proof fn lemma_tree_order_independent(p1: Seq<String>, p2: Seq<String>)
    requires
        str_views(p1).to_set() == str_views(p2).to_set(),
    ensures
        tree_text(str_views(p1).to_set()) == tree_text(str_views(p2).to_set()),
{
}

/// Law: a forest built for a path set has a node exactly for every
/// listed path and every proper ancestor directory of one.
pub proof fn lemma_forest_nodes(f: Seq<Node>, ps: Set<Seq<char>>, q: Seq<Seq<char>>)
    requires
        forest_matches(f, ps),
    ensures
        forest_contains(f, q) <==> (q.len() >= 1 && exists|s: Seq<char>|
            #[trigger] ps.contains(s) && is_prefix(q, split_slash(s))),
{
}

/// Law: the empty path set renders to the canonical empty-tree
/// notice.
pub proof fn lemma_tree_empty(ps: Set<Seq<char>>)
    requires
        ps.is_empty(),
    ensures
        tree_text(ps) == empty_tree_text(),
{
}

} // verus!
