//! Deterministic assembly of the final report: a fixed preamble, the
//! rendered tree, then each selected file's section in the given
//! (sorted) order — a path header, a language-tagged fence, the
//! content bytes copied verbatim, and a closing fence.
//!
//! A file whose content could not be read contributes no section; it
//! is only counted. When there are files but every read failed, the
//! whole aggregation fails: nothing useful was produced.

use vstd::prelude::*;
use vstd::utf8::encode_utf8;
use crate::language::{language_for, language_from_extension};
use crate::records::FileRecord;

verus! {

/// One selected file ready for aggregation: its record and the bytes
/// its content was read into, or `None` when the read failed (the
/// file vanished or became unreadable between collection and
/// aggregation).
pub struct Section {
    pub record: FileRecord,
    pub content: Option<Vec<u8>>,
}

/// Why aggregation as a whole can fail.
#[derive(PartialEq, Eq, Structural, Debug)]
pub enum AggregateError {
    /// Every selected file failed to read.
    AllReadsFailed,
}

/// A finished report with its bookkeeping.
pub struct RenderOutcome {
    pub report: Vec<u8>,
    pub processed: usize,
    pub failed: usize,
}

/// The value of a section: relative path, stored extension, and
/// content bytes when the read succeeded.
pub open spec fn section_views(ss: Seq<Section>) -> Seq<(Seq<char>, Seq<char>, Option<Seq<u8>>)> {
    ss.map_values(
        |s: Section|
            (
                s.record.relative_path@,
                s.record.extension@,
                match s.content {
                    Option::Some(c) => Option::Some(c@),
                    Option::None => Option::<Seq<u8>>::None,
                },
            ),
    )
}

/// The bytes that open the report: title, tree fence, tree text,
/// contents heading.
pub open spec fn preamble_bytes(tree: Seq<char>) -> Seq<u8> {
    encode_utf8("# Project Analysis Report\n\n## File Structure\n\n```\n"@) + encode_utf8(tree)
        + encode_utf8("```\n\n## File Contents\n\n"@)
}

/// The bytes that open one file's section, before its content.
pub open spec fn section_header_bytes(rel: Seq<char>, ext: Seq<char>) -> Seq<u8> {
    encode_utf8("### `"@) + encode_utf8(rel) + encode_utf8("`\n\n```"@) + encode_utf8(
        language_for(ext),
    ) + encode_utf8("\n"@)
}

/// The bytes that close one file's section.
pub open spec fn section_footer_bytes() -> Seq<u8> {
    encode_utf8("```\n\n"@)
}

/// One file's whole section: header, content verbatim, footer.
pub open spec fn section_bytes(rel: Seq<char>, ext: Seq<char>, content: Seq<u8>) -> Seq<u8> {
    section_header_bytes(rel, ext) + content + section_footer_bytes()
}

/// The concatenated sections, in order; a failed read contributes
/// nothing.
pub open spec fn sections_bytes(sv: Seq<(Seq<char>, Seq<char>, Option<Seq<u8>>)>) -> Seq<u8>
    decreases sv.len(),
{
    if sv.len() == 0 {
        Seq::<u8>::empty()
    } else {
        sections_bytes(sv.drop_last()) + (match sv.last().2 {
            Option::Some(c) => section_bytes(sv.last().0, sv.last().1, c),
            Option::None => Seq::<u8>::empty(),
        })
    }
}

/// The whole report.
pub open spec fn report_bytes(tree: Seq<char>, sv: Seq<(Seq<char>, Seq<char>, Option<Seq<u8>>)>)
    -> Seq<u8> {
    preamble_bytes(tree) + sections_bytes(sv)
}

/// How many sections carry content.
pub open spec fn count_ok(sv: Seq<(Seq<char>, Seq<char>, Option<Seq<u8>>)>) -> nat
    decreases sv.len(),
{
    if sv.len() == 0 {
        0
    } else {
        count_ok(sv.drop_last()) + (if sv.last().2 is Some {
            1nat
        } else {
            0nat
        })
    }
}

/// How many sections failed to read.
pub open spec fn count_failed(sv: Seq<(Seq<char>, Seq<char>, Option<Seq<u8>>)>) -> nat
    decreases sv.len(),
{
    if sv.len() == 0 {
        0
    } else {
        count_failed(sv.drop_last()) + (if sv.last().2 is Some {
            0nat
        } else {
            1nat
        })
    }
}

/// Appends a byte slice.
fn push_bytes(out: &mut Vec<u8>, bytes: &[u8])
    ensures
        final(out)@ == old(out)@ + bytes@,
{
    let n = bytes.len();
    let mut i: usize = 0;
    while i < n
        invariant
            i <= n,
            n == bytes@.len(),
            out@ == old(out)@ + bytes@.take(i as int),
        decreases n - i,
    {
        let b = *vstd::slice::slice_index_get(bytes, i);
        out.push(b);
        proof {
            assert(old(out)@ + bytes@.take(i + 1) =~= (old(out)@ + bytes@.take(i as int)).push(
                bytes@[i as int],
            ));
        }
        i = i + 1;
    }
    proof {
        assert(bytes@.take(n as int) =~= bytes@);
    }
}

/// Appends a string's UTF-8 bytes.
fn push_str_bytes(out: &mut Vec<u8>, s: &str)
    ensures
        final(out)@ == old(out)@ + encode_utf8(s@),
{
    push_bytes(out, s.as_bytes());
}

/// Renders the report's preamble around the given tree text.
pub fn render_preamble(tree_text: &str) -> (out: Vec<u8>)
    ensures
        out@ == preamble_bytes(tree_text@),
{
    let mut out: Vec<u8> = Vec::new();
    proof {
        assert(out@ =~= Seq::<u8>::empty());
    }
    push_str_bytes(&mut out, "# Project Analysis Report\n\n## File Structure\n\n```\n");
    push_str_bytes(&mut out, tree_text);
    push_str_bytes(&mut out, "```\n\n## File Contents\n\n");
    proof {
        assert(out@ =~= preamble_bytes(tree_text@));
    }
    out
}

/// Renders the header that precedes one file's content.
pub fn render_section_header(record: &FileRecord) -> (out: Vec<u8>)
    ensures
        out@ == section_header_bytes(record.relative_path@, record.extension@),
{
    let mut out: Vec<u8> = Vec::new();
    proof {
        assert(out@ =~= Seq::<u8>::empty());
    }
    push_str_bytes(&mut out, "### `");
    push_str_bytes(&mut out, record.relative_path.as_str());
    push_str_bytes(&mut out, "`\n\n```");
    let lang = language_from_extension(record.extension.as_str());
    push_str_bytes(&mut out, lang.as_str());
    push_str_bytes(&mut out, "\n");
    proof {
        assert(out@ =~= section_header_bytes(record.relative_path@, record.extension@));
    }
    out
}

/// Renders the fence that closes one file's section.
pub fn render_section_footer() -> (out: Vec<u8>)
    ensures
        out@ == section_footer_bytes(),
{
    let mut out: Vec<u8> = Vec::new();
    proof {
        assert(out@ =~= Seq::<u8>::empty());
    }
    push_str_bytes(&mut out, "```\n\n");
    proof {
        assert(out@ =~= section_footer_bytes());
    }
    out
}

/// Renders the whole report in memory: preamble, then each section
/// with a read content, in the given order. Reports how many files
/// were written and how many failed; fails only when there were
/// files and every one of them failed to read.
pub fn render_report(tree_text: &str, sections: &Vec<Section>) -> (r: Result<
    RenderOutcome,
    AggregateError,
>)
    ensures
        r is Err <==> (sections@.len() > 0 && count_ok(section_views(sections@)) == 0),
        r is Err ==> r->Err_0 == AggregateError::AllReadsFailed,
        r is Ok ==> r->Ok_0.report@ == report_bytes(tree_text@, section_views(sections@)),
        r is Ok ==> r->Ok_0.processed == count_ok(section_views(sections@)),
        r is Ok ==> r->Ok_0.failed == count_failed(section_views(sections@)),
{
    let ghost sv = section_views(sections@);
    let mut out = render_preamble(tree_text);
    let mut processed: usize = 0;
    let mut failed: usize = 0;
    let mut i: usize = 0;
    proof {
        assert(sv.take(0) =~= Seq::<(Seq<char>, Seq<char>, Option<Seq<u8>>)>::empty());
        assert(out@ =~= preamble_bytes(tree_text@) + sections_bytes(sv.take(0)));
    }
    while i < sections.len()
        invariant
            i <= sections@.len(),
            sv == section_views(sections@),
            sv.len() == sections@.len(),
            out@ == preamble_bytes(tree_text@) + sections_bytes(sv.take(i as int)),
            processed == count_ok(sv.take(i as int)),
            failed == count_failed(sv.take(i as int)),
            processed + failed == i,
        decreases sections@.len() - i,
    {
        proof {
            assert(sv.take(i + 1).drop_last() =~= sv.take(i as int));
            assert(sv.take(i + 1).last() == sv[i as int]);
            assert(sv[i as int] == (
                sections@[i as int].record.relative_path@,
                sections@[i as int].record.extension@,
                match sections@[i as int].content {
                    Option::Some(c) => Option::Some(c@),
                    Option::None => Option::<Seq<u8>>::None,
                },
            ));
        }
        let s = &sections[i];
        match &s.content {
            Option::Some(content) => {
                let header = render_section_header(&s.record);
                push_bytes(&mut out, header.as_slice());
                push_bytes(&mut out, content.as_slice());
                let footer = render_section_footer();
                push_bytes(&mut out, footer.as_slice());
                processed = processed + 1;
                proof {
                    assert(out@ =~= preamble_bytes(tree_text@) + sections_bytes(sv.take(i + 1)));
                }
            },
            Option::None => {
                failed = failed + 1;
                proof {
                    assert(out@ =~= preamble_bytes(tree_text@) + sections_bytes(sv.take(i + 1)));
                }
            },
        }
        i = i + 1;
    }
    proof {
        assert(sv.take(sections@.len() as int) =~= sv);
    }
    if processed == 0 && failed > 0 {
        Result::Err(AggregateError::AllReadsFailed)
    } else {
        Result::Ok(RenderOutcome { report: out, processed, failed })
    }
}

/// Law: the report is a function of the tree text and the sections'
/// values alone. Rendering the same selection twice — same tree,
/// same relative paths, extensions and contents — yields
/// byte-identical reports.
pub proof fn lemma_report_idempotent(
    tree1: Seq<char>,
    tree2: Seq<char>,
    sv1: Seq<(Seq<char>, Seq<char>, Option<Seq<u8>>)>,
    sv2: Seq<(Seq<char>, Seq<char>, Option<Seq<u8>>)>,
)
    requires
        tree1 == tree2,
        sv1 == sv2,
    ensures
        report_bytes(tree1, sv1) == report_bytes(tree2, sv2),
{
}

} // verus!
