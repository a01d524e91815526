use docs_list::walk::collect_markdown_paths;
use docs_list::walk::entry_action;
use docs_list::walk::is_excluded_dir;
use docs_list::walk::EntryAction;
use docs_list::walk::FsNode;
use docs_list::walk::is_hidden_name;
use docs_list::walk::is_markdown_name;
use docs_list::walk::path_to_slash_string;
use docs_list::walk::sort_paths;

#[test]
fn hidden_names_start_with_a_dot() {
    assert!(is_hidden_name(".hidden.md"));
    assert!(is_hidden_name(".git"));
    assert!(!is_hidden_name("visible.md"));
    assert!(!is_hidden_name(""));
}

#[test]
fn excluded_directories_by_exact_name() {
    assert!(is_excluded_dir("archive"));
    assert!(is_excluded_dir("research"));
    assert!(!is_excluded_dir("archives"));
    assert!(!is_excluded_dir("Research"));
    assert!(!is_excluded_dir("docs"));
}

#[test]
fn markdown_names_by_exact_suffix() {
    assert!(is_markdown_name("a.md"));
    assert!(is_markdown_name(".md"));
    assert!(!is_markdown_name("a.MD"));
    assert!(!is_markdown_name("a.mdx"));
    assert!(!is_markdown_name("md"));
}

#[test]
fn entry_actions_at_any_depth() {
    // hidden entries never pass, files or directories
    assert_eq!(entry_action(".hidden.md", false, true), EntryAction::Skip);
    assert_eq!(entry_action(".hidden", true, false), EntryAction::Skip);
    // excluded directory names are skipped, but a file of that name is not a directory
    assert_eq!(entry_action("archive", true, false), EntryAction::Skip);
    assert_eq!(entry_action("research", true, false), EntryAction::Skip);
    assert_eq!(entry_action("sub", true, false), EntryAction::Recurse);
    // files pass on the exact `.md` suffix alone
    assert_eq!(entry_action("c.md", false, true), EntryAction::Include);
    assert_eq!(entry_action("not-markdown.txt", false, true), EntryAction::Skip);
    // an entry that is neither file nor directory is skipped
    assert_eq!(entry_action("socket.md", false, false), EntryAction::Skip);
}

#[test]
fn separator_normalization() {
    assert_eq!(path_to_slash_string("sub\\c.md", '\\'), "sub/c.md");
    assert_eq!(path_to_slash_string("sub/c.md", '/'), "sub/c.md");
    assert_eq!(path_to_slash_string("a.md", '\\'), "a.md");
}

#[test]
fn paths_sort_lexicographically() {
    let mut paths = vec![
        "sub/c.md".to_string(),
        "b.md".to_string(),
        "a.md".to_string(),
        "a/b.md".to_string(),
        "bad-frontmatter.md".to_string(),
    ];
    sort_paths(&mut paths);
    assert_eq!(
        paths,
        vec![
            "a.md".to_string(),
            "a/b.md".to_string(),
            "b.md".to_string(),
            "bad-frontmatter.md".to_string(),
            "sub/c.md".to_string(),
        ]
    );
}

#[test]
fn tree_walk_applies_all_rules_at_every_depth() {
    let tree = vec![
        FsNode::File { name: "b.md".to_string() },
        FsNode::File { name: "a.md".to_string() },
        FsNode::File { name: ".hidden.md".to_string() },
        FsNode::File { name: "not-markdown.txt".to_string() },
        FsNode::Dir {
            name: "archive".to_string(),
            entries: vec![FsNode::File { name: "ignored.md".to_string() }],
        },
        FsNode::Dir {
            name: "research".to_string(),
            entries: vec![FsNode::File { name: "ignored.md".to_string() }],
        },
        FsNode::Dir {
            name: ".hidden".to_string(),
            entries: vec![FsNode::File { name: "nested.md".to_string() }],
        },
        FsNode::Dir {
            name: "sub".to_string(),
            entries: vec![
                FsNode::File { name: "c.md".to_string() },
                FsNode::File { name: ".hidden-nested.md".to_string() },
                FsNode::Dir {
                    name: "research".to_string(),
                    entries: vec![FsNode::File { name: "deep.md".to_string() }],
                },
            ],
        },
        FsNode::Other { name: "socket.md".to_string() },
    ];
    let paths = collect_markdown_paths(&tree);
    assert_eq!(
        paths,
        vec!["a.md".to_string(), "b.md".to_string(), "sub/c.md".to_string()]
    );
}

#[test]
fn tree_walk_orders_across_levels() {
    let tree = vec![
        FsNode::Dir {
            name: "a".to_string(),
            entries: vec![FsNode::File { name: "z.md".to_string() }],
        },
        FsNode::File { name: "a.md".to_string() },
        FsNode::File { name: "ab.md".to_string() },
    ];
    let paths = collect_markdown_paths(&tree);
    // '.' (46) sorts before '/' (47), which sorts before 'b' (98)
    assert_eq!(
        paths,
        vec!["a.md".to_string(), "a/z.md".to_string(), "ab.md".to_string()]
    );
}

#[test]
fn tree_walk_same_name_in_different_directories() {
    let tree = vec![
        FsNode::Dir {
            name: "y".to_string(),
            entries: vec![FsNode::File { name: "a.md".to_string() }],
        },
        FsNode::Dir {
            name: "x".to_string(),
            entries: vec![FsNode::File { name: "a.md".to_string() }],
        },
        FsNode::File { name: "a.md".to_string() },
    ];
    let paths = collect_markdown_paths(&tree);
    assert_eq!(
        paths,
        vec!["a.md".to_string(), "x/a.md".to_string(), "y/a.md".to_string()]
    );
}

#[test]
fn sort_keeps_duplicates() {
    let mut paths = vec!["x.md".to_string(), "a.md".to_string(), "x.md".to_string()];
    sort_paths(&mut paths);
    assert_eq!(paths, vec!["a.md".to_string(), "x.md".to_string(), "x.md".to_string()]);
}
