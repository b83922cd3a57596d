//! Enumeration of `.gitignore` files found under the root, for the
//! disclosure listing shown before a collection mode is chosen. The
//! listing is informational only: no rule evaluation happens here.

use vstd::prelude::*;
use crate::chars::str_eq;
use crate::collect::WalkEntry;
use crate::paths::{base_name, lemma_last_index_of};

verus! {

/// A discovered ignore-rule file, identified by its root-relative
/// path.
pub struct IgnoreFileRecord {
    pub relative_path: String,
}

/// Whether a walk entry is a reportable ignore-rule file: a regular,
/// non-symlink file whose base name is exactly `.gitignore`.
pub open spec fn ignore_entry(e: WalkEntry) -> bool {
    e.is_file && !e.is_symlink && base_name(e.relative_path@) == ".gitignore"@
}

/// The relative paths of the reportable ignore-rule files among the
/// walked entries, in walk order.
pub open spec fn ignore_listing(es: Seq<WalkEntry>) -> Seq<Seq<char>>
    decreases es.len(),
{
    if es.len() == 0 {
        Seq::<Seq<char>>::empty()
    } else {
        let rest = ignore_listing(es.drop_last());
        if ignore_entry(es.last()) {
            rest.push(es.last().relative_path@)
        } else {
            rest
        }
    }
}

/// The views of the listed records' relative paths.
pub open spec fn listing_views(rs: Seq<IgnoreFileRecord>) -> Seq<Seq<char>> {
    rs.map_values(|r: IgnoreFileRecord| r.relative_path@)
}

/// Checks whether the path's base name is exactly `.gitignore`.
fn is_gitignore_name(rel: &str) -> (r: bool)
    ensures
        r == (base_name(rel@) == ".gitignore"@),
{
    let len = rel.unicode_len();
    proof {
        assert(rel@.take(len as int) =~= rel@);
        lemma_last_index_of(rel@, '/');
    }
    let start = crate::paths::scan_last(rel, len, '/');
    let name = rel.substring_char(start, len);
    proof {
        assert(name@ =~= base_name(rel@));
    }
    str_eq(name, ".gitignore")
}

/// Reports every walked entry that is a `.gitignore` file, in walk
/// order.
pub fn find_ignore_files(entries: &Vec<WalkEntry>) -> (out: Vec<IgnoreFileRecord>)
    ensures
        listing_views(out@) == ignore_listing(entries@),
{
    let mut out: Vec<IgnoreFileRecord> = Vec::new();
    let mut k: usize = 0;
    proof {
        assert(entries@.take(0) =~= Seq::<WalkEntry>::empty());
        assert(listing_views(out@) =~~= ignore_listing(entries@.take(0)));
    }
    while k < entries.len()
        invariant
            k <= entries@.len(),
            listing_views(out@) == ignore_listing(entries@.take(k as int)),
        decreases entries@.len() - k,
    {
        let e = &entries[k];
        proof {
            assert(entries@.take(k + 1).drop_last() =~= entries@.take(k as int));
            assert(entries@.take(k + 1).last() == entries@[k as int]);
        }
        if e.is_file && !e.is_symlink && is_gitignore_name(e.relative_path.as_str()) {
            let ghost old_views = listing_views(out@);
            out.push(IgnoreFileRecord { relative_path: e.relative_path.clone() });
            proof {
                assert(listing_views(out@) =~~= old_views.push(entries@[k as int].relative_path@));
            }
        }
        proof {
            assert(listing_views(out@) =~~= ignore_listing(entries@.take(k + 1)));
        }
        k = k + 1;
    }
    proof {
        assert(entries@.take(entries@.len() as int) =~= entries@);
    }
    out
}

} // verus!
