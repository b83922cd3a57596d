use rosetree::aggregate::{render_report, AggregateError, Section};
use rosetree::records::make_record;
use rosetree::tree::build_tree;

fn section(rel: &str, content: Option<&[u8]>) -> Section {
    Section {
        record: make_record(format!("/root/{rel}"), String::from(rel)),
        content: content.map(|c| c.to_vec()),
    }
}

#[test]
fn report_layout_for_one_file() {
    let tree = build_tree(&vec![String::from("a.txt")]);
    let sections = vec![section("a.txt", Some(b"hi\n"))];
    let outcome = render_report(tree.as_str(), &sections).unwrap();
    let text = String::from_utf8(outcome.report).unwrap();
    assert_eq!(
        text,
        "# Project Analysis Report\n\n\
         ## File Structure\n\n\
         ```\n.\n└── a.txt\n```\n\n\
         ## File Contents\n\n\
         ### `a.txt`\n\n\
         ```\nhi\n```\n\n"
    );
    assert_eq!(outcome.processed, 1);
    assert_eq!(outcome.failed, 0);
}

#[test]
fn language_tag_appears_on_the_fence() {
    let tree = build_tree(&vec![String::from("m.rs")]);
    let sections = vec![section("m.rs", Some(b"fn f() {}\n"))];
    let outcome = render_report(tree.as_str(), &sections).unwrap();
    let text = String::from_utf8(outcome.report).unwrap();
    assert!(text.contains("### `m.rs`\n\n```rust\nfn f() {}\n```\n\n"));
}

#[test]
fn rendering_twice_is_byte_identical() {
    let tree = build_tree(&vec![String::from("a.txt"), String::from("sub/b.txt")]);
    let sections = vec![
        section("a.txt", Some(b"hi\n")),
        section("sub/b.txt", Some(b"yo\n")),
    ];
    let first = render_report(tree.as_str(), &sections).unwrap();
    let second = render_report(tree.as_str(), &sections).unwrap();
    assert_eq!(first.report, second.report);
}

#[test]
fn one_failed_read_is_counted_and_omitted() {
    let tree = build_tree(&vec![String::from("a.txt"), String::from("gone.txt")]);
    let sections = vec![section("a.txt", Some(b"hi\n")), section("gone.txt", None)];
    let outcome = render_report(tree.as_str(), &sections).unwrap();
    assert_eq!(outcome.processed, 1);
    assert_eq!(outcome.failed, 1);
    let text = String::from_utf8(outcome.report).unwrap();
    assert!(text.contains("### `a.txt`"));
    assert!(!text.contains("### `gone.txt`"));
}

#[test]
fn all_reads_failed_is_an_error() {
    let tree = build_tree(&vec![String::from("a.txt")]);
    let sections = vec![section("a.txt", None), section("b.txt", None)];
    let got = render_report(tree.as_str(), &sections);
    assert!(matches!(got, Err(AggregateError::AllReadsFailed)));
}

#[test]
fn no_sections_is_not_an_error() {
    let tree = build_tree(&Vec::new());
    let outcome = render_report(tree.as_str(), &Vec::new()).unwrap();
    assert_eq!(outcome.processed, 0);
    assert_eq!(outcome.failed, 0);
}

#[test]
fn content_bytes_are_copied_verbatim() {
    // The body is copied byte for byte, including bytes past the
    // classification sample that are not valid UTF-8.
    let tree = build_tree(&vec![String::from("x.txt")]);
    let mut body = vec![b'a'; 1500];
    body[1200] = 0xff;
    let sections = vec![Section {
        record: make_record(String::from("/root/x.txt"), String::from("x.txt")),
        content: Some(body.clone()),
    }];
    let outcome = render_report(tree.as_str(), &sections).unwrap();
    let report = outcome.report;
    let needle = &body[..];
    assert!(report
        .windows(needle.len())
        .any(|w| w == needle));
}
