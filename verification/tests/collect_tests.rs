use rosetree::collect::{
    filter_by_extension, keep_entry, select_records, sort_by_relative_path, WalkEntry,
};
use rosetree::records::{make_record, FileRecord};

fn entry(abs: &str, rel: &str, content: &[u8]) -> WalkEntry {
    WalkEntry {
        absolute_path: String::from(abs),
        relative_path: String::from(rel),
        is_file: true,
        is_symlink: false,
        content_prefix: Some(content.to_vec()),
    }
}

fn rels(records: &[FileRecord]) -> Vec<String> {
    records.iter().map(|r| r.relative_path.clone()).collect()
}

#[test]
fn raw_scenario_excludes_git_subtree() {
    let entries = vec![
        entry("/root/a.txt", "a.txt", b"hi\n"),
        entry("/root/sub/b.txt", "sub/b.txt", b"yo\n"),
        entry("/root/.git/HEAD", ".git/HEAD", b"ref: refs/heads/main\n"),
    ];
    let mut got = rels(&select_records(&entries));
    got.sort();
    assert_eq!(got, vec![String::from("a.txt"), String::from("sub/b.txt")]);
}

#[test]
fn ignore_aware_scenario_keeps_only_unignored() {
    // With a root .gitignore holding `sub/`, the rule-aware walk never
    // delivers entries under sub/; the selection keeps what remains.
    let entries = vec![
        entry("/root/a.txt", "a.txt", b"hi\n"),
        entry("/root/.gitignore", ".gitignore", b"sub/\n"),
    ];
    let got = rels(&select_records(&entries));
    assert!(got.contains(&String::from("a.txt")));
    assert!(!got.iter().any(|r| r.starts_with("sub/")));
}

#[test]
fn duplicate_absolute_paths_collapse() {
    let entries = vec![
        entry("/root/a.txt", "a.txt", b"one"),
        entry("/root/a.txt", "a.txt", b"two"),
        entry("/root/b.txt", "b.txt", b"three"),
    ];
    let got = select_records(&entries);
    assert_eq!(got.len(), 2);
    let mut abs: Vec<String> = got.iter().map(|r| r.absolute_path.clone()).collect();
    abs.sort();
    abs.dedup();
    assert_eq!(abs.len(), 2);
}

#[test]
fn directories_symlinks_and_binaries_are_dropped() {
    let mut dir = entry("/root/d", "d", b"");
    dir.is_file = false;
    let mut link = entry("/root/l.txt", "l.txt", b"text");
    link.is_symlink = true;
    let binary = entry("/root/x.bin", "x.bin", &[0x00, 0xff, 0xfe]);
    let unreadable = WalkEntry {
        absolute_path: String::from("/root/locked.txt"),
        relative_path: String::from("locked.txt"),
        is_file: true,
        is_symlink: false,
        content_prefix: None,
    };
    assert!(!keep_entry(&dir));
    assert!(!keep_entry(&link));
    assert!(!keep_entry(&binary));
    assert!(!keep_entry(&unreadable));
    let entries = vec![dir, link, binary, unreadable];
    assert_eq!(select_records(&entries).len(), 0);
}

#[test]
fn extension_is_lowercased_and_derived_from_base_name() {
    let r = make_record(String::from("/root/A.TXT"), String::from("A.TXT"));
    assert_eq!(r.extension, "txt");
    let r = make_record(String::from("/root/.gitignore"), String::from(".gitignore"));
    assert_eq!(r.extension, "");
    let r = make_record(String::from("/root/a.tar.gz"), String::from("a.tar.gz"));
    assert_eq!(r.extension, "gz");
    let r = make_record(String::from("/root/sub.dir/noext"), String::from("sub.dir/noext"));
    assert_eq!(r.extension, "");
}

#[test]
fn selecting_txt_keeps_only_txt() {
    let records = vec![
        make_record(String::from("/root/a.txt"), String::from("a.txt")),
        make_record(String::from("/root/b.md"), String::from("b.md")),
    ];
    let got = filter_by_extension(&records, &vec![String::from("txt")]);
    assert_eq!(rels(&got), vec![String::from("a.txt")]);
}

#[test]
fn empty_selection_keeps_nothing() {
    let records = vec![make_record(String::from("/root/a.txt"), String::from("a.txt"))];
    let got = filter_by_extension(&records, &Vec::new());
    assert_eq!(got.len(), 0);
}

#[test]
fn sorting_orders_by_relative_path() {
    let records = vec![
        make_record(String::from("/root/sub/b.txt"), String::from("sub/b.txt")),
        make_record(String::from("/root/a.txt"), String::from("a.txt")),
        make_record(String::from("/root/m.txt"), String::from("m.txt")),
    ];
    let got = sort_by_relative_path(&records);
    assert_eq!(
        rels(&got),
        vec![
            String::from("a.txt"),
            String::from("m.txt"),
            String::from("sub/b.txt")
        ]
    );
}
