use zed_plus::tree::{DirectorySet, Row, TreeNode};

/// Renders what the list would show, one string per row, indented by depth. Directories end in
/// `/`; files show their full path so a misplaced row is obvious.
fn outline(paths: &[&str], collapsed: &[&str]) -> Vec<String> {
    outline_with(paths, collapsed, true)
}

fn outline_with(paths: &[&str], collapsed: &[&str], compress: bool) -> Vec<String> {
    let mut root = TreeNode::default();
    let mut indices = (0..paths.len()).collect::<Vec<_>>();
    indices.sort_by_key(|index| paths[*index]);
    for index in indices {
        root.insert(&paths[index].split('/').collect::<Vec<_>>(), index);
    }

    let mut collapsed_dirs = DirectorySet::new();
    for path in collapsed {
        collapsed_dirs.insert(path.to_string());
    }
    let mut rows = Vec::new();
    root.flatten("", 0, compress, &collapsed_dirs, &mut rows);

    rows.iter()
        .map(|row| {
            let indent = |depth: &usize| "  ".repeat(*depth);
            match row {
                Row::Directory { label, depth, .. } => format!("{}{label}/", indent(depth)),
                Row::File { entry, depth } => format!("{}{}", indent(depth), paths[*entry]),
            }
        })
        .collect()
}

#[test]
fn idea_git_folds_a_chain_of_single_child_directories() {
    assert_eq!(
        outline(
            &[
                "assets/keymaps/default-linux.json",
                "assets/themes/gruvbox/LICENSE"
            ],
            &[]
        ),
        vec![
            "assets/",
            "  keymaps/",
            "    assets/keymaps/default-linux.json",
            "  themes/gruvbox/",
            "    assets/themes/gruvbox/LICENSE",
        ]
    );
}

#[test]
fn idea_git_a_collapsed_directory_hides_its_contents_but_not_its_siblings() {
    assert_eq!(
        outline(
            &["src/main.rs", "src/nested/deep.rs", "README.md"],
            &["src"]
        ),
        vec!["src/", "README.md"]
    );
}

#[test]
fn idea_git_directories_come_before_files_at_every_level() {
    assert_eq!(
        outline(&["b.rs", "a/inner.rs", "a.rs"], &[]),
        vec!["a/", "  a/inner.rs", "a.rs", "b.rs"]
    );
}

/// A folded chain is keyed by its full path, so collapsing it takes the whole chain with it.
#[test]
fn idea_git_a_folded_chain_collapses_under_its_full_path() {
    let paths = ["assets/themes/gruvbox/LICENSE"];
    assert_eq!(
        outline(&paths, &["assets/themes/gruvbox"]),
        vec!["assets/themes/gruvbox/"]
    );
    // `assets` is not a row of its own once the chain is folded, so collapsing it is not
    // something the user can express, and asking for it changes nothing.
    assert_eq!(
        outline(&paths, &["assets"]),
        vec!["assets/themes/gruvbox/", "  assets/themes/gruvbox/LICENSE"]
    );
}

#[test]
fn plus_git_folds_a_chain_of_single_child_directories() {
    assert_eq!(
        outline_with(
            &[
                "assets/keymaps/default-linux.json",
                "assets/themes/gruvbox/LICENSE"
            ],
            &[],
            true
        ),
        vec![
            "assets/",
            "  keymaps/",
            "    assets/keymaps/default-linux.json",
            "  themes/gruvbox/",
            "    assets/themes/gruvbox/LICENSE",
        ]
    );
}

#[test]
fn plus_git_a_collapsed_directory_hides_its_contents_but_not_its_siblings() {
    assert_eq!(
        outline_with(
            &["src/main.rs", "src/nested/deep.rs", "README.md"],
            &["src"],
            true
        ),
        vec!["src/", "README.md"]
    );
}

#[test]
fn plus_git_directories_come_before_files_at_every_level() {
    assert_eq!(
        outline_with(&["b.rs", "a/inner.rs", "a.rs"], &[], true),
        vec!["a/", "  a/inner.rs", "a.rs", "b.rs"]
    );
}

/// Without compression every directory gets a row, and the files under it move one level deeper
/// for each.
#[test]
fn every_directory_gets_a_level_when_compression_is_off() {
    let paths = ["assets/themes/gruvbox/LICENSE"];
    assert_eq!(
        outline_with(&paths, &[], false),
        vec![
            "assets/",
            "  themes/",
            "    gruvbox/",
            "      assets/themes/gruvbox/LICENSE",
        ]
    );
    assert_eq!(
        outline_with(&paths, &[], true),
        vec!["assets/themes/gruvbox/", "  assets/themes/gruvbox/LICENSE",]
    );
}

/// Uncompressed, each level is collapsible on its own — the whole point of the mode.
#[test]
fn an_intermediate_directory_collapses_when_compression_is_off() {
    assert_eq!(
        outline_with(
            &["assets/themes/gruvbox/LICENSE"],
            &["assets/themes"],
            false
        ),
        vec!["assets/", "  themes/"]
    );
}

/// A folded chain is keyed by its full path, so collapsing it takes the whole chain with it.
#[test]
fn plus_git_a_folded_chain_collapses_under_its_full_path() {
    let paths = ["assets/themes/gruvbox/LICENSE"];
    assert_eq!(
        outline_with(&paths, &["assets/themes/gruvbox"], true),
        vec!["assets/themes/gruvbox/"]
    );
    // `assets` is not a row of its own once the chain is folded, so collapsing it is not
    // something the user can express, and asking for it changes nothing.
    assert_eq!(
        outline_with(&paths, &["assets"], true),
        vec!["assets/themes/gruvbox/", "  assets/themes/gruvbox/LICENSE"]
    );
}

#[test]
fn the_same_file_added_twice_is_shown_twice() {
    assert_eq!(
        outline(&["a/b.rs", "a/b.rs"], &[]),
        vec!["a/", "  a/b.rs", "  a/b.rs"]
    );
}

#[test]
fn an_empty_list_has_no_rows() {
    assert_eq!(outline(&[], &[]), Vec::<String>::new());
    let mut root = TreeNode::default();
    root.insert(&[], 7);
    let mut rows = Vec::new();
    root.flatten("", 0, true, &DirectorySet::new(), &mut rows);
    assert_eq!(rows.len(), 0);
}

/// A directory that holds a file of its own is not folded into the one below it.
#[test]
fn a_directory_with_a_file_keeps_its_own_row() {
    assert_eq!(
        outline(&["a/b/c.rs", "a/x.rs"], &[]),
        vec!["a/", "  b/", "    a/b/c.rs", "  a/x.rs"]
    );
}

#[test]
fn collapsing_an_outer_directory_hides_collapsed_inner_ones() {
    let paths = ["a/b/c.rs", "a/x.rs", "d/e.rs"];
    assert_eq!(
        outline(&paths, &["a", "a/b"]),
        vec!["a/", "d/", "  d/e.rs"]
    );
    assert_eq!(
        outline(&paths, &["a/b"]),
        vec!["a/", "  b/", "  a/x.rs", "d/", "  d/e.rs"]
    );
}

#[test]
fn rows_carry_full_paths_depths_and_marks() {
    let mut root = TreeNode::default();
    root.insert(&["a", "b", "c.rs"], 0);
    root.insert(&["a", "x.rs"], 1);
    let mut collapsed = DirectorySet::new();
    assert!(collapsed.insert("a/b".to_string()));
    assert!(!collapsed.insert("a/b".to_string()));
    let mut rows = Vec::new();
    root.flatten("", 0, true, &collapsed, &mut rows);
    assert_eq!(rows.len(), 3);
    match &rows[0] {
        Row::Directory { path, label, depth, collapsed } => {
            assert_eq!((path.as_str(), label.as_str(), *depth, *collapsed), ("a", "a", 0, false));
        }
        Row::File { .. } => panic!("expected a directory"),
    }
    match &rows[1] {
        Row::Directory { path, label, depth, collapsed } => {
            assert_eq!((path.as_str(), label.as_str(), *depth, *collapsed), ("a/b", "b", 1, true));
        }
        Row::File { .. } => panic!("expected a directory"),
    }
    match &rows[2] {
        Row::File { entry, depth } => assert_eq!((*entry, *depth), (1, 1)),
        Row::Directory { .. } => panic!("expected a file"),
    }
    assert_eq!(rows[1].depth(), 1);
    assert_eq!(rows[2].depth(), 1);
    assert!(collapsed.contains("a/b"));
    assert!(collapsed.remove("a/b"));
    assert!(!collapsed.remove("a/b"));
    collapsed.insert("z".to_string());
    collapsed.clear();
    assert!(!collapsed.contains("z"));
}

fn flattened(paths: &[&str], compress: bool) -> Vec<Row> {
    let mut root = TreeNode::default();
    let mut indices = (0..paths.len()).collect::<Vec<_>>();
    indices.sort_by_key(|index| paths[*index]);
    for index in indices {
        root.insert(&paths[index].split('/').collect::<Vec<_>>(), index);
    }
    let mut rows = Vec::new();
    root.flatten("", 0, compress, &DirectorySet::new(), &mut rows);
    rows
}

/// Whatever order files are added in, each is shown as often as it was added, and no two
/// directory rows have the same path.
#[test]
fn no_two_directory_rows_share_a_path() {
    let added: [(&[&str], usize); 7] = [
        (&["b", "x", "1"], 4),
        (&["a", "x", "1"], 0),
        (&["b", "2"], 9),
        (&["a", "x", "1"], 0),
        (&["x", "1"], 7),
        (&["b", "x", "y", "3"], 2),
        (&["b"], 5),
    ];
    for compress in [true, false] {
        let mut root = TreeNode::default();
        for (components, entry) in added {
            root.insert(components, entry);
        }
        let mut rows = Vec::new();
        root.flatten("", 0, compress, &DirectorySet::new(), &mut rows);
        let mut directories = Vec::new();
        let mut files = Vec::new();
        for row in &rows {
            match row {
                Row::Directory { path, .. } => directories.push(path.as_str()),
                Row::File { entry, .. } => files.push(*entry),
            }
        }
        files.sort();
        assert_eq!(files, vec![0, 0, 2, 4, 5, 7, 9]);
        assert_eq!(
            directories,
            if compress {
                vec!["a/x", "b", "b/x", "b/x/y", "x"]
            } else {
                vec!["a", "a/x", "b", "b/x", "b/x/y", "x"]
            }
        );
    }
}

/// A file may be without a name, and a directory inside another one too: each still has a row of
/// its own, under a path of its own.
#[test]
fn names_may_be_empty_below_the_top() {
    let paths = ["", "a/", "a//b", "a/c/d"];
    for compress in [true, false] {
        let directories = flattened(&paths, compress)
            .into_iter()
            .filter_map(|row| match row {
                Row::Directory { path, label, .. } => Some((path, label)),
                Row::File { .. } => None,
            })
            .collect::<Vec<_>>();
        assert_eq!(
            directories,
            vec![
                ("a".to_string(), "a".to_string()),
                ("a/".to_string(), String::new()),
                ("a/c".to_string(), "c".to_string()),
            ]
        );
    }
    assert_eq!(outline(&["a//b"], &[]), vec!["a//", "  a//b"]);
    assert_eq!(outline(&["a//b"], &["a/"]), vec!["a//"]);
    assert_eq!(outline(&[""], &[]), vec![""]);
}

/// Folded or not, every file is shown once, under a directory whose path it lies under, and each
/// directory's label is how its path ends.
#[test]
fn rows_nest_and_show_every_file() {
    let lists: [&[&str]; 4] = [
        &["a/b/c/d.rs", "a/b/e.rs", "z.rs", "a/f/g/h.rs"],
        &["x", "y/z", "y/zz/1", "y/zz/2/3"],
        &["one/two/three/four.rs"],
        &["b/1", "a/1", "b-c/1", "b"],
    ];
    for paths in lists {
        for compress in [true, false] {
            let rows = flattened(paths, compress);
            let mut above: Vec<String> = Vec::new();
            let mut files = Vec::new();
            for row in &rows {
                assert!(row.depth() <= above.len());
                above.truncate(row.depth());
                match row {
                    Row::Directory { path, label, .. } => {
                        assert!(path == label || path.ends_with(&format!("/{label}")));
                        assert!(compress || !label.contains('/'));
                        if let Some(outer) = above.last() {
                            assert!(path.starts_with(&format!("{outer}/")));
                        }
                        above.push(path.clone());
                    }
                    Row::File { entry, .. } => {
                        let outer = match above.last() {
                            Some(outer) => format!("{outer}/"),
                            None => String::new(),
                        };
                        let rest = paths[*entry].strip_prefix(outer.as_str()).unwrap();
                        assert!(!rest.contains('/'));
                        files.push(*entry);
                    }
                }
            }
            files.sort();
            assert_eq!(files, (0..paths.len()).collect::<Vec<_>>());
        }
    }
}
