use rosetree::collect::WalkEntry;
use rosetree::language::language_from_extension;
use rosetree::locate::find_ignore_files;
use rosetree::sorting::sort_dedup;

fn entry(rel: &str, is_file: bool, is_symlink: bool) -> WalkEntry {
    WalkEntry {
        absolute_path: format!("/root/{rel}"),
        relative_path: String::from(rel),
        is_file,
        is_symlink,
        content_prefix: None,
    }
}

#[test]
fn finds_gitignore_files_in_walk_order() {
    let entries = vec![
        entry("a.txt", true, false),
        entry(".gitignore", true, false),
        entry("sub", false, false),
        entry("sub/.gitignore", true, false),
        entry("sub/.gitignore.bak", true, false),
        entry("linked/.gitignore", true, true),
    ];
    let got = find_ignore_files(&entries);
    let rels: Vec<String> = got.iter().map(|r| r.relative_path.clone()).collect();
    assert_eq!(
        rels,
        vec![String::from(".gitignore"), String::from("sub/.gitignore")]
    );
}

#[test]
fn language_table_known_and_unknown() {
    assert_eq!(language_from_extension("rs"), "rust");
    assert_eq!(language_from_extension("py"), "python");
    assert_eq!(language_from_extension("yml"), "yaml");
    assert_eq!(language_from_extension("h"), "c");
    assert_eq!(language_from_extension("cxx"), "cpp");
    assert_eq!(language_from_extension("md"), "markdown");
    assert_eq!(language_from_extension("sh"), "bash");
    assert_eq!(language_from_extension("weird"), "");
    assert_eq!(language_from_extension(""), "");
}

#[test]
fn sort_dedup_orders_and_collapses() {
    let v = vec![
        String::from("md"),
        String::from("txt"),
        String::from("md"),
        String::from(""),
        String::from("rs"),
    ];
    let got = sort_dedup(&v);
    assert_eq!(
        got,
        vec![
            String::from(""),
            String::from("md"),
            String::from("rs"),
            String::from("txt")
        ]
    );
}
