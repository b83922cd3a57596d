use rosetree::aggregate::{render_report, Section};
use rosetree::collect::{filter_by_extension, select_records, sort_by_relative_path, WalkEntry};
use rosetree::tree::build_tree_from_records;

fn entry(abs: &str, rel: &str, content: &[u8]) -> WalkEntry {
    WalkEntry {
        absolute_path: String::from(abs),
        relative_path: String::from(rel),
        is_file: true,
        is_symlink: false,
        content_prefix: Some(content.to_vec()),
    }
}

#[test]
fn whole_pipeline_from_walk_to_report() {
    let entries = vec![
        entry("/root/sub/b.txt", "sub/b.txt", b"yo\n"),
        entry("/root/a.txt", "a.txt", b"hi\n"),
        entry("/root/.git/HEAD", ".git/HEAD", b"ref\n"),
        entry("/root/notes.md", "notes.md", b"# n\n"),
    ];
    let collected = select_records(&entries);
    let selected = filter_by_extension(&collected, &vec![String::from("txt")]);
    let sorted = sort_by_relative_path(&selected);

    let rels: Vec<&str> = sorted.iter().map(|r| r.relative_path.as_str()).collect();
    assert_eq!(rels, vec!["a.txt", "sub/b.txt"]);

    let tree = build_tree_from_records(&sorted);
    assert_eq!(tree, ".\n├── a.txt\n└── sub\n   └── b.txt\n");

    let sections: Vec<Section> = vec![
        Section { record: sorted[0].clone(), content: Some(b"hi\n".to_vec()) },
        Section { record: sorted[1].clone(), content: Some(b"yo\n".to_vec()) },
    ];
    let outcome = render_report(tree.as_str(), &sections).unwrap();
    let text = String::from_utf8(outcome.report).unwrap();
    assert_eq!(
        text,
        "# Project Analysis Report\n\n\
         ## File Structure\n\n\
         ```\n.\n├── a.txt\n└── sub\n   └── b.txt\n```\n\n\
         ## File Contents\n\n\
         ### `a.txt`\n\n```\nhi\n```\n\n\
         ### `sub/b.txt`\n\n```\nyo\n```\n\n"
    );
    assert_eq!(outcome.processed, 2);
    assert_eq!(outcome.failed, 0);
}

#[test]
fn collection_order_does_not_change_the_report() {
    let forward = vec![
        entry("/root/a.txt", "a.txt", b"hi\n"),
        entry("/root/sub/b.txt", "sub/b.txt", b"yo\n"),
    ];
    let backward = vec![
        entry("/root/sub/b.txt", "sub/b.txt", b"yo\n"),
        entry("/root/a.txt", "a.txt", b"hi\n"),
    ];
    let tree_of = |entries: &Vec<WalkEntry>| {
        let sorted = sort_by_relative_path(&select_records(entries));
        build_tree_from_records(&sorted)
    };
    assert_eq!(tree_of(&forward), tree_of(&backward));
}
