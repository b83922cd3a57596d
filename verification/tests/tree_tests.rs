use rosetree::tree::build_tree;

fn paths(v: &[&str]) -> Vec<String> {
    v.iter().map(|s| String::from(*s)).collect()
}

#[test]
fn empty_set_renders_notice() {
    let out = build_tree(&paths(&[]));
    assert_eq!(out, ".\n(No files or directories found to list)\n");
}

#[test]
fn single_file_at_root() {
    let out = build_tree(&paths(&["a.txt"]));
    assert_eq!(out, ".\n└── a.txt\n");
}

#[test]
fn root_file_and_subdirectory() {
    let out = build_tree(&paths(&["a.txt", "sub/b.txt"]));
    assert_eq!(out, ".\n├── a.txt\n└── sub\n   └── b.txt\n");
}

#[test]
fn order_independent_rendering() {
    let p1 = paths(&["a.txt", "sub/b.txt", "sub/inner/c.rs", "zzz.md"]);
    let p2 = paths(&["zzz.md", "sub/inner/c.rs", "sub/b.txt", "a.txt"]);
    assert_eq!(build_tree(&p1), build_tree(&p2));
}

#[test]
fn duplicates_change_nothing() {
    let p1 = paths(&["a.txt", "sub/b.txt"]);
    let p2 = paths(&["sub/b.txt", "a.txt", "a.txt", "sub/b.txt"]);
    assert_eq!(build_tree(&p1), build_tree(&p2));
}

#[test]
fn ancestors_appear_once() {
    let out = build_tree(&paths(&["d/x.txt", "d/y.txt"]));
    assert_eq!(out, ".\n└── d\n   ├── x.txt\n   └── y.txt\n");
}

#[test]
fn children_sorted_lexicographically() {
    let out = build_tree(&paths(&["b.txt", "a.txt", "c.txt"]));
    assert_eq!(out, ".\n├── a.txt\n├── b.txt\n└── c.txt\n");
}

#[test]
fn non_last_levels_use_bar_indent() {
    let out = build_tree(&paths(&["sub/inner/c.txt", "sub/a.txt", "z.txt"]));
    assert_eq!(
        out,
        ".\n├── sub\n│  ├── a.txt\n│  └── inner\n│     └── c.txt\n└── z.txt\n"
    );
}

#[test]
fn deep_chain() {
    let out = build_tree(&paths(&["a/b/c/d.txt"]));
    assert_eq!(out, ".\n└── a\n   └── b\n      └── c\n         └── d.txt\n");
}
