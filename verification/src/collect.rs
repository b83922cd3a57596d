//! Selection of candidate files from a directory walk.
//!
//! The walk itself is filesystem work and stays outside the library;
//! it hands over one `WalkEntry` per entry it saw. Everything the
//! collector decides — which entries survive, deduplication by
//! absolute path, extension filtering, ordering — is here. The same
//! decisions serve both modes: the ignore-aware walk simply delivers
//! fewer entries.

use vstd::prelude::*;
use crate::chars::{lex_lt, lex_le, str_lt, str_eq, lemma_lex_trichotomy, lemma_lex_transitive};
use crate::classify::{is_text, classify_sample};
use crate::paths::{str_views, split_slash, split_path};
use crate::records::{FileRecord, record_wf, make_record};

verus! {

/// What the walk reports about one directory entry: where it is,
/// what kind of entry it is, and the sampled head of its content
/// (`None` when the file could not be opened or read).
pub struct WalkEntry {
    pub absolute_path: String,
    pub relative_path: String,
    pub is_file: bool,
    pub is_symlink: bool,
    pub content_prefix: Option<Vec<u8>>,
}

/// Copies a byte vector.
fn clone_bytes(v: &Vec<u8>) -> (r: Vec<u8>)
    ensures
        r@ == v@,
{
    let mut r: Vec<u8> = Vec::new();
    let mut i: usize = 0;
    while i < v.len()
        invariant
            i <= v@.len(),
            r@ == v@.take(i as int),
        decreases v@.len() - i,
    {
        r.push(v[i]);
        proof {
            assert(v@.take(i + 1) =~= v@.take(i as int).push(v@[i as int]));
        }
        i = i + 1;
    }
    proof {
        assert(v@.take(v@.len() as int) =~= v@);
    }
    r
}

impl Clone for WalkEntry {
    fn clone(&self) -> (r: Self)
        ensures
            r.absolute_path@ == self.absolute_path@,
            r.relative_path@ == self.relative_path@,
            r.is_file == self.is_file,
            r.is_symlink == self.is_symlink,
            r.content_prefix is Some <==> self.content_prefix is Some,
            r.content_prefix is Some ==> r.content_prefix->0@ == self.content_prefix->0@,
    {
        let content_prefix = match &self.content_prefix {
            Option::Some(v) => Option::Some(clone_bytes(v)),
            Option::None => Option::None,
        };
        WalkEntry {
            absolute_path: self.absolute_path.clone(),
            relative_path: self.relative_path.clone(),
            is_file: self.is_file,
            is_symlink: self.is_symlink,
            content_prefix,
        }
    }
}

/// Whether an entry survives collection: a regular, non-symlink file,
/// not under any `.git` directory, whose sampled content classifies
/// as text. An unreadable file never survives.
pub open spec fn entry_kept(e: WalkEntry) -> bool {
    &&& e.is_file
    &&& !e.is_symlink
    &&& !split_slash(e.relative_path@).contains(".git"@)
    &&& match e.content_prefix {
        Option::Some(p) => is_text(p@),
        Option::None => false,
    }
}

/// Whether any `/`-separated component of the path is `.git`.
pub fn has_git_component(rel: &str) -> (r: bool)
    ensures
        r == split_slash(rel@).contains(".git"@),
{
    let comps = split_path(rel);
    let mut j: usize = 0;
    while j < comps.len()
        invariant
            j <= comps@.len(),
            str_views(comps@) == split_slash(rel@),
            forall|k: int| 0 <= k < j ==> str_views(comps@)[k] != ".git"@,
        decreases comps@.len() - j,
    {
        if str_eq(comps[j].as_str(), ".git") {
            proof {
                assert(str_views(comps@)[j as int] == ".git"@);
            }
            return true;
        }
        proof {
            assert(str_views(comps@)[j as int] == comps@[j as int]@);
        }
        j = j + 1;
    }
    proof {
        if split_slash(rel@).contains(".git"@) {
            let k = choose|k: int|
                0 <= k < split_slash(rel@).len() && split_slash(rel@)[k] == ".git"@;
            assert(str_views(comps@)[k] == ".git"@);
        }
    }
    false
}

/// Decides whether one walk entry survives collection.
pub fn keep_entry(e: &WalkEntry) -> (r: bool)
    ensures
        r == entry_kept(*e),
{
    if !e.is_file || e.is_symlink {
        return false;
    }
    if has_git_component(e.relative_path.as_str()) {
        return false;
    }
    match &e.content_prefix {
        Option::None => false,
        Option::Some(p) => classify_sample(p),
    }
}

/// Whether some record in the sequence carries this absolute path.
pub open spec fn has_abs(rs: Seq<FileRecord>, abs: Seq<char>) -> bool {
    exists|i: int| 0 <= i < rs.len() && (#[trigger] rs[i].absolute_path@) == abs
}

/// Scans for a record with the given absolute path.
fn contains_abs(out: &Vec<FileRecord>, abs: &str) -> (r: bool)
    ensures
        r == has_abs(out@, abs@),
{
    let mut i: usize = 0;
    while i < out.len()
        invariant
            i <= out@.len(),
            forall|k: int| 0 <= k < i ==> (#[trigger] out@[k].absolute_path@) != abs@,
        decreases out@.len() - i,
    {
        if str_eq(out[i].absolute_path.as_str(), abs) {
            return true;
        }
        i = i + 1;
    }
    false
}

/// Turns the entries a walk delivered into the collected candidate
/// set: only surviving entries, deduplicated by absolute path, each
/// with a well-formed derived extension. No two results share an
/// absolute path, whichever mode produced the entries.
pub fn select_records(entries: &Vec<WalkEntry>) -> (out: Vec<FileRecord>)
    ensures
        forall|i: int, j: int|
            0 <= i < j < out@.len() ==> (#[trigger] out@[i].absolute_path@) != (
            #[trigger] out@[j].absolute_path@),
        forall|i: int|
            0 <= i < out@.len() ==> record_wf(#[trigger] out@[i]) && exists|k: int|
                0 <= k < entries@.len() && entry_kept(#[trigger] entries@[k])
                    && out@[i].absolute_path@ == entries@[k].absolute_path@
                    && out@[i].relative_path@ == entries@[k].relative_path@,
        forall|k: int|
            0 <= k < entries@.len() && entry_kept(#[trigger] entries@[k]) ==> has_abs(
                out@,
                entries@[k].absolute_path@,
            ),
{
    let mut out: Vec<FileRecord> = Vec::new();
    let mut k: usize = 0;
    while k < entries.len()
        invariant
            k <= entries@.len(),
            forall|i: int, j: int|
                0 <= i < j < out@.len() ==> (#[trigger] out@[i].absolute_path@) != (
                #[trigger] out@[j].absolute_path@),
            forall|i: int|
                0 <= i < out@.len() ==> record_wf(#[trigger] out@[i]) && exists|m: int|
                    0 <= m < k && entry_kept(#[trigger] entries@[m]) && out@[i].absolute_path@
                        == entries@[m].absolute_path@ && out@[i].relative_path@
                        == entries@[m].relative_path@,
            forall|m: int|
                0 <= m < k && entry_kept(#[trigger] entries@[m]) ==> has_abs(
                    out@,
                    entries@[m].absolute_path@,
                ),
        decreases entries@.len() - k,
    {
        let e = &entries[k];
        if keep_entry(e) {
            if !contains_abs(&out, e.absolute_path.as_str()) {
                let ghost old_out = out@;
                let rec = make_record(e.absolute_path.clone(), e.relative_path.clone());
                out.push(rec);
                proof {
                    assert forall|m: int|
                        0 <= m < k + 1 && entry_kept(#[trigger] entries@[m]) implies has_abs(
                        out@,
                        entries@[m].absolute_path@,
                    ) by {
                        if m < k {
                            let i = choose|i: int|
                                0 <= i < old_out.len() && (#[trigger] old_out[i].absolute_path@)
                                    == entries@[m].absolute_path@;
                            assert(out@[i].absolute_path@ == entries@[m].absolute_path@);
                        } else {
                            assert(out@[out@.len() - 1].absolute_path@
                                == entries@[m].absolute_path@);
                        }
                    }
                }
            } else {
                proof {
                    assert forall|m: int|
                        0 <= m < k + 1 && entry_kept(#[trigger] entries@[m]) implies has_abs(
                        out@,
                        entries@[m].absolute_path@,
                    ) by {
                    }
                }
            }
        }
        k = k + 1;
    }
    out
}

/// The subsequence of records whose stored extension is in the
/// selection, in their given order.
pub open spec fn selected_only(rs: Seq<FileRecord>, sel: Seq<Seq<char>>) -> Seq<FileRecord>
    decreases rs.len(),
{
    if rs.len() == 0 {
        Seq::<FileRecord>::empty()
    } else {
        let rest = selected_only(rs.drop_last(), sel);
        if sel.to_set().contains(rs.last().extension@) {
            rest.push(rs.last())
        } else {
            rest
        }
    }
}

/// Keeps exactly the records whose stored extension is one of the
/// selected ones.
pub fn filter_by_extension(records: &Vec<FileRecord>, selected: &Vec<String>) -> (out: Vec<
    FileRecord,
>)
    ensures
        out@ == selected_only(records@, str_views(selected@)),
{
    let mut out: Vec<FileRecord> = Vec::new();
    let mut i: usize = 0;
    proof {
        assert(records@.take(0) =~= Seq::<FileRecord>::empty());
    }
    while i < records.len()
        invariant
            i <= records@.len(),
            out@ == selected_only(records@.take(i as int), str_views(selected@)),
        decreases records@.len() - i,
    {
        let mut hit = false;
        let mut j: usize = 0;
        while j < selected.len()
            invariant
                j <= selected@.len(),
                i < records@.len(),
                hit ==> str_views(selected@).to_set().contains(records@[i as int].extension@),
                !hit ==> forall|m: int|
                    0 <= m < j ==> (#[trigger] str_views(selected@)[m])
                        != records@[i as int].extension@,
            decreases selected@.len() - j,
        {
            if str_eq(selected[j].as_str(), records[i].extension.as_str()) {
                proof {
                    assert(str_views(selected@)[j as int] == records@[i as int].extension@);
                }
                hit = true;
            }
            proof {
                assert(str_views(selected@)[j as int] == selected@[j as int]@);
            }
            j = j + 1;
        }
        proof {
            if !hit && str_views(selected@).to_set().contains(records@[i as int].extension@) {
                assert(str_views(selected@).contains(records@[i as int].extension@));
                let m = choose|m: int|
                    0 <= m < str_views(selected@).len() && str_views(selected@)[m]
                        == records@[i as int].extension@;
                assert(false);
            }
        }
        if hit {
            out.push(records[i].clone());
        }
        proof {
            assert(records@.take(i + 1).drop_last() =~= records@.take(i as int));
            assert(records@.take(i + 1).last() == records@[i as int]);
        }
        i = i + 1;
    }
    proof {
        assert(records@.take(records@.len() as int) =~= records@);
    }
    out
}

/// Sorts records by relative path, keeping exactly the given
/// records.
pub fn sort_by_relative_path(records: &Vec<FileRecord>) -> (out: Vec<FileRecord>)
    ensures
        forall|i: int, j: int|
            0 <= i < j < out@.len() ==> lex_le(
                (#[trigger] out@[i]).relative_path@,
                (#[trigger] out@[j]).relative_path@,
            ),
        out@.to_multiset() == records@.to_multiset(),
{
    broadcast use vstd::seq_lib::group_to_multiset_ensures;

    let mut out: Vec<FileRecord> = Vec::new();
    let mut k: usize = 0;
    proof {
        assert(records@.take(0) =~= Seq::<FileRecord>::empty());
        assert(out@.to_multiset() =~= records@.take(0).to_multiset());
    }
    while k < records.len()
        invariant
            k <= records@.len(),
            forall|i: int, j: int|
                0 <= i < j < out@.len() ==> lex_le(
                    (#[trigger] out@[i]).relative_path@,
                    (#[trigger] out@[j]).relative_path@,
                ),
            out@.to_multiset() == records@.take(k as int).to_multiset(),
        decreases records@.len() - k,
    {
        let x = records[k].clone();
        let ghost old_out = out@;
        let mut idx: usize = 0;
        loop
            invariant
                idx <= out@.len(),
                out@ == old_out,
                forall|m: int| 0 <= m < idx ==> !lex_lt(x.relative_path@, (#[trigger] out@[m]).relative_path@),
            ensures
                idx <= out@.len(),
                out@ == old_out,
                forall|m: int| 0 <= m < idx ==> !lex_lt(x.relative_path@, (#[trigger] out@[m]).relative_path@),
                idx < out@.len() ==> lex_lt(x.relative_path@, out@[idx as int].relative_path@),
            decreases out@.len() - idx,
        {
            if idx == out.len() {
                break;
            }
            if str_lt(x.relative_path.as_str(), out[idx].relative_path.as_str()) {
                break;
            }
            idx = idx + 1;
        }
        out.insert(idx, x);
        proof {
            let t = out@;
            assert(t == old_out.insert(idx as int, records@[k as int]));
            assert forall|i: int, j: int|
                0 <= i < j < t.len() implies lex_le(
                (#[trigger] t[i]).relative_path@,
                (#[trigger] t[j]).relative_path@,
            ) by {
                let xi = idx as int;
                let xv = records@[k as int].relative_path@;
                if i < xi && j < xi {
                    assert(t[i] == old_out[i] && t[j] == old_out[j]);
                } else if i < xi && j == xi {
                    assert(t[i] == old_out[i]);
                    lemma_lex_trichotomy(xv, old_out[i].relative_path@);
                } else if i < xi && j > xi {
                    assert(t[i] == old_out[i] && t[j] == old_out[j - 1]);
                } else if i == xi {
                    assert(t[i].relative_path@ == xv);
                    assert(t[j] == old_out[j - 1]);
                    assert(lex_lt(xv, old_out[idx as int].relative_path@));
                    if j - 1 > xi {
                        assert(lex_le(
                            old_out[idx as int].relative_path@,
                            old_out[j - 1].relative_path@,
                        ));
                        if lex_lt(
                            old_out[idx as int].relative_path@,
                            old_out[j - 1].relative_path@,
                        ) {
                            lemma_lex_transitive(
                                xv,
                                old_out[idx as int].relative_path@,
                                old_out[j - 1].relative_path@,
                            );
                        }
                    }
                } else {
                    assert(t[i] == old_out[i - 1] && t[j] == old_out[j - 1]);
                }
            }
            vstd::seq_lib::to_multiset_insert(old_out, idx as int, records@[k as int]);
            vstd::seq_lib::to_multiset_build(records@.take(k as int), records@[k as int]);
            assert(records@.take(k + 1) =~= records@.take(k as int).push(records@[k as int]));
        }
        k = k + 1;
    }
    proof {
        assert(records@.take(records@.len() as int) =~= records@);
    }
    out
}

} // verus!
