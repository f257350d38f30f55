use illusionna::changes::{FileContent, Modification, TreeCreationPart};
use illusionna::tree::{PathContent, PathInfo, PathTree};
use illusionna::workspace::{
    append_workspace_content, build_workspace_content, refactor_workspace_content,
    relocate_workspace_content, remove_workspace_content, PathError, TreePart,
};

fn part(sha: &str, path: &str) -> TreePart {
    TreePart { sha: sha.to_string(), url: format!("https://example.test/{}", sha), path: path.to_string() }
}

fn listing(tree: &PathTree) -> Vec<(String, bool, String)> {
    let mut out = Vec::new();
    for (_, node) in tree.entries.iter() {
        match &node.content {
            PathContent::File(_) => out.push((node.path.clone(), false, node.sha.clone())),
            PathContent::Directory(d) => {
                out.push((node.path.clone(), true, node.sha.clone()));
                out.extend(listing(&d.contents));
            }
        }
    }
    out
}

fn files(tree: &PathTree) -> Vec<(String, String)> {
    listing(tree).into_iter().filter(|e| !e.1).map(|e| (e.0, e.2)).collect()
}

fn keys(tree: &PathTree) -> Vec<String> {
    tree.entries.iter().map(|e| e.0.clone()).collect()
}

fn parts_view(parts: &[TreeCreationPart]) -> Vec<(String, Option<String>)> {
    parts.iter().map(|p| (p.path.clone(), p.sha.clone())).collect()
}

fn find<'a>(tree: &'a PathTree, key: &str) -> Option<&'a PathInfo> {
    tree.entries.iter().find(|e| e.0 == key).map(|e| &e.1)
}

#[test]
fn rename_file_to_parent_scenario() {
    let (mut tree, mut modification) = build_workspace_content(vec![part("sha1", "a/b.txt"), part("sha2", "a/c.txt")]);
    let trace = match refactor_workspace_content(&mut tree, "a/b.txt".to_string(), "../d.txt".to_string()) {
        Ok(trace) => trace,
        Err(_) => panic!("rename refused"),
    };
    assert_eq!(trace, vec![("a/b.txt".to_string(), ("d.txt".to_string(), "sha1".to_string()))]);
    assert_eq!(
        files(&tree),
        vec![("a/c.txt".to_string(), "sha2".to_string()), ("d.txt".to_string(), "sha1".to_string())]
    );
    modification.record_rename(trace);
    let parts = modification.flatten(&vec![]).unwrap();
    assert_eq!(
        parts_view(&parts),
        vec![("a/b.txt".to_string(), None), ("d.txt".to_string(), Some("sha1".to_string()))]
    );
    assert!(matches!(modification.view(&"d.txt".to_string()), Some(FileContent::Sha(h)) if h == "sha1"));
    assert!(modification.view(&"a/b.txt".to_string()).is_none());
}

#[test]
fn import_then_delete_scenario() {
    let (mut tree, mut modification) = build_workspace_content(vec![part("sha2", "a/c.txt")]);
    let bytes = vec![1u8, 2, 3];
    append_workspace_content(&mut tree, vec!["x/y.txt".to_string()]);
    modification.set("x/y.txt".to_string(), FileContent::Bytes(bytes.clone()));
    assert_eq!(keys(&tree), vec!["a".to_string(), "x".to_string()]);
    assert!(modification.present());
    let removed = remove_workspace_content(&mut tree, "x/y.txt".to_string());
    assert_eq!(removed.map(|n| n.path), Some("x/y.txt".to_string()));
    modification.erase("x/y.txt".to_string());
    assert_eq!(keys(&tree), vec!["a".to_string()]);
    assert!(find(&tree, "x").is_none());
    assert!(modification.view(&"x/y.txt".to_string()).is_none());
    assert!(!modification.present());
    assert_eq!(modification.flatten(&vec![]).map(|p| p.len()), Some(0));
}

#[test]
fn flatten_single_erase_scenario() {
    let (_, mut modification) = build_workspace_content(vec![part("sha1", "a.txt")]);
    modification.erase("a.txt".to_string());
    let parts = modification.flatten(&vec![]).unwrap();
    assert_eq!(parts.len(), 1);
    assert_eq!(parts[0].path, "a.txt");
    assert_eq!(parts[0].sha, None);
    assert_eq!(parts[0].mode, "100644");
    assert_eq!(parts[0].type_, "blob");
}

#[test]
fn build_then_flatten_leaves_gives_paths_and_hashes() {
    let given = vec![part("h3", "src/main.rs"), part("h1", "README.md"), part("h2", "src/lib/mod.rs")];
    let (tree, _) = build_workspace_content(given);
    assert_eq!(
        files(&tree),
        vec![
            ("README.md".to_string(), "h1".to_string()),
            ("src/lib/mod.rs".to_string(), "h2".to_string()),
            ("src/main.rs".to_string(), "h3".to_string()),
        ]
    );
    let src = find(&tree, "src").unwrap();
    assert_eq!(src.path, "src");
    assert_eq!(src.sha, "");
    assert_eq!(src.url, "");
}

#[test]
fn build_keeps_segments_sorted() {
    let (tree, _) = build_workspace_content(vec![part("1", "zeta"), part("2", "alpha"), part("3", "Mid")]);
    assert_eq!(keys(&tree), vec!["Mid".to_string(), "alpha".to_string(), "zeta".to_string()]);
}

#[test]
fn build_directory_entry_then_file_keeps_directory_identity() {
    let (tree, modification) = build_workspace_content(vec![part("tree1", "a"), part("blob1", "a/b.txt")]);
    let a = find(&tree, "a").unwrap();
    assert!(matches!(a.content, PathContent::Directory(_)));
    assert_eq!(a.sha, "tree1");
    assert_eq!(files(&tree), vec![("a/b.txt".to_string(), "blob1".to_string())]);
    assert!(modification.in_baseline(&"a".to_string()));
    assert!(modification.in_baseline(&"a/b.txt".to_string()));
}

#[test]
fn insert_then_delete_restores_tree() {
    let (mut tree, _) = build_workspace_content(vec![part("1", "a/b.txt"), part("2", "c.txt")]);
    let before = listing(&tree);
    append_workspace_content(&mut tree, vec!["a/n/m/new.txt".to_string()]);
    assert_ne!(listing(&tree), before);
    let removed = remove_workspace_content(&mut tree, "a/n/m/new.txt".to_string());
    assert!(removed.is_some());
    assert_eq!(listing(&tree), before);
}

#[test]
fn delete_without_node_changes_nothing() {
    let (mut tree, _) = build_workspace_content(vec![part("1", "a/b.txt")]);
    let before = listing(&tree);
    assert!(remove_workspace_content(&mut tree, "a/zzz.txt".to_string()).is_none());
    assert!(remove_workspace_content(&mut tree, "a/b.txt/deeper".to_string()).is_none());
    assert!(remove_workspace_content(&mut tree, "q".to_string()).is_none());
    assert_eq!(listing(&tree), before);
}

#[test]
fn delete_keeps_non_empty_ancestors() {
    let (mut tree, _) = build_workspace_content(vec![part("1", "a/b/x.txt"), part("2", "a/y.txt")]);
    remove_workspace_content(&mut tree, "a/b/x.txt".to_string());
    assert_eq!(files(&tree), vec![("a/y.txt".to_string(), "2".to_string())]);
    let a = find(&tree, "a").unwrap();
    match &a.content {
        PathContent::Directory(d) => assert_eq!(keys(&d.contents), vec!["y.txt".to_string()]),
        PathContent::File(_) => panic!("a should stay a directory"),
    }
}

#[test]
fn rename_directory_traces_every_file_once() {
    let (mut tree, _) = build_workspace_content(vec![
        part("1", "src/a.rs"),
        part("2", "src/deep/b.rs"),
        part("3", "src/deep/c.rs"),
        part("4", "other.txt"),
    ]);
    let trace = match refactor_workspace_content(&mut tree, "src".to_string(), "lib".to_string()) {
        Ok(trace) => trace,
        Err(_) => panic!("rename refused"),
    };
    let mut olds: Vec<String> = trace.iter().map(|e| e.0.clone()).collect();
    olds.sort();
    assert_eq!(olds, vec!["src/a.rs".to_string(), "src/deep/b.rs".to_string(), "src/deep/c.rs".to_string()]);
    assert!(trace.contains(&("src/deep/b.rs".to_string(), ("lib/deep/b.rs".to_string(), "2".to_string()))));
    assert!(trace.contains(&("src/a.rs".to_string(), ("lib/a.rs".to_string(), "1".to_string()))));
    assert_eq!(
        files(&tree),
        vec![
            ("lib/a.rs".to_string(), "1".to_string()),
            ("lib/deep/b.rs".to_string(), "2".to_string()),
            ("lib/deep/c.rs".to_string(), "3".to_string()),
            ("other.txt".to_string(), "4".to_string()),
        ]
    );
    let lib = find(&tree, "lib").unwrap();
    match &lib.content {
        PathContent::Directory(d) => {
            let deep = find(&d.contents, "deep").unwrap();
            assert_eq!(deep.path, "lib/deep");
        }
        PathContent::File(_) => panic!("lib should be a directory"),
    }
}

#[test]
fn rename_keeps_emptied_ancestors() {
    let (mut tree, _) = build_workspace_content(vec![part("1", "a/b.txt")]);
    assert!(refactor_workspace_content(&mut tree, "a/b.txt".to_string(), "../top.txt".to_string()).is_ok());
    let a = find(&tree, "a").unwrap();
    match &a.content {
        PathContent::Directory(d) => assert!(d.contents.entries.is_empty()),
        PathContent::File(_) => panic!("a should stay a directory"),
    }
    assert_eq!(files(&tree), vec![("top.txt".to_string(), "1".to_string())]);
}

#[test]
fn rename_into_existing_directory_merges() {
    let (mut tree, _) = build_workspace_content(vec![part("1", "x/one.txt"), part("2", "y/two.txt")]);
    assert!(refactor_workspace_content(&mut tree, "x".to_string(), "y".to_string()).is_ok());
    assert_eq!(
        files(&tree),
        vec![("y/one.txt".to_string(), "1".to_string()), ("y/two.txt".to_string(), "2".to_string())]
    );
}

#[test]
fn rename_rejects_bad_targets() {
    let (mut tree, _) = build_workspace_content(vec![part("1", "a/b.txt")]);
    let before = listing(&tree);
    for input in ["", "/abs.txt", "dir/", "name.", "../../escape.txt", "./.."] {
        let r = refactor_workspace_content(&mut tree, "a/b.txt".to_string(), input.to_string());
        assert!(matches!(r, Err(PathError::InvalidPath)), "input {:?}", input);
    }
    assert_eq!(listing(&tree), before);
}

#[test]
fn rename_of_missing_path_is_not_found() {
    let (mut tree, _) = build_workspace_content(vec![part("1", "a/b.txt")]);
    let before = listing(&tree);
    let r = refactor_workspace_content(&mut tree, "a/none.txt".to_string(), "x.txt".to_string());
    assert!(matches!(r, Err(PathError::NotFound)));
    assert_eq!(listing(&tree), before);
}

#[test]
fn relocate_checks_destination_segments() {
    let (mut tree, _) = build_workspace_content(vec![part("1", "a/b.txt")]);
    assert!(matches!(
        relocate_workspace_content(&mut tree, "a/b.txt".to_string(), "a/../c".to_string()),
        Err(PathError::InvalidPath)
    ));
    assert!(matches!(
        relocate_workspace_content(&mut tree, "a/b.txt".to_string(), "a//c".to_string()),
        Err(PathError::InvalidPath)
    ));
    let trace = match relocate_workspace_content(&mut tree, "a/b.txt".to_string(), "e/f.txt".to_string()) {
        Ok(trace) => trace,
        Err(_) => panic!("move refused"),
    };
    assert_eq!(trace, vec![("a/b.txt".to_string(), ("e/f.txt".to_string(), "1".to_string()))]);
    assert_eq!(files(&tree), vec![("e/f.txt".to_string(), "1".to_string())]);
}

#[test]
fn search_ignores_case_and_looks_below() {
    let (tree, _) = build_workspace_content(vec![part("1", "Docs/ReadMe.md"), part("2", "src/main.rs")]);
    let docs = find(&tree, "Docs").unwrap();
    assert!(docs.contains("README"));
    assert!(docs.contains("docs"));
    assert!(!docs.contains("main"));
    let src = find(&tree, "src").unwrap();
    assert!(src.contains("MAIN.RS"));
    assert!(src.contains(""));
    assert!(!src.contains("readme"));
}

#[test]
fn changes_stay_in_path_order() {
    let mut modification = Modification::new();
    modification.set("b.txt".to_string(), FileContent::Sha("hb".to_string()));
    modification.set("a.txt".to_string(), FileContent::Bytes(vec![7]));
    modification.set("c.txt".to_string(), FileContent::Bytes(vec![8]));
    assert_eq!(modification.pending_uploads(), vec!["a.txt".to_string(), "c.txt".to_string()]);
    assert!(modification.flatten(&vec!["only-one".to_string()]).is_none());
    let uploaded = vec!["ha".to_string(), "hc".to_string()];
    let first = modification.flatten(&uploaded).unwrap();
    let second = modification.flatten(&uploaded).unwrap();
    assert_eq!(parts_view(&first), parts_view(&second));
    assert_eq!(
        parts_view(&first),
        vec![
            ("a.txt".to_string(), Some("ha".to_string())),
            ("b.txt".to_string(), Some("hb".to_string())),
            ("c.txt".to_string(), Some("hc".to_string())),
        ]
    );
}

#[test]
fn erase_of_unknown_path_leaves_no_trace() {
    let (_, mut modification) = build_workspace_content(vec![part("1", "kept.txt")]);
    modification.erase("never.txt".to_string());
    assert!(!modification.present());
    modification.set("local.txt".to_string(), FileContent::Bytes(vec![1]));
    assert!(modification.present());
    modification.erase("local.txt".to_string());
    assert!(!modification.present());
    modification.erase("kept.txt".to_string());
    assert!(modification.present());
    assert_eq!(parts_view(&modification.flatten(&vec![]).unwrap()), vec![("kept.txt".to_string(), None)]);
}

#[test]
fn rename_moves_pending_content() {
    let (_, mut modification) = build_workspace_content(vec![part("1", "a.txt")]);
    modification.set("new.txt".to_string(), FileContent::Bytes(vec![5, 6]));
    modification.refactor("new.txt".to_string(), "moved.txt".to_string(), "".to_string());
    assert!(modification.view(&"new.txt".to_string()).is_none());
    assert!(matches!(modification.view(&"moved.txt".to_string()), Some(FileContent::Bytes(b)) if b == &vec![5u8, 6]));
    modification.refactor("a.txt".to_string(), "a.txt".to_string(), "1".to_string());
    assert_eq!(modification.pending_uploads(), vec!["moved.txt".to_string()]);
    let parts = modification.flatten(&vec!["hm".to_string()]).unwrap();
    assert_eq!(parts_view(&parts), vec![("moved.txt".to_string(), Some("hm".to_string()))]);
}

#[test]
fn reset_drops_pending_changes() {
    let (_, mut modification) = build_workspace_content(vec![part("1", "a.txt")]);
    modification.erase("a.txt".to_string());
    modification.set("b.txt".to_string(), FileContent::Sha("x".to_string()));
    assert!(modification.present());
    modification.reset();
    assert!(!modification.present());
    assert!(modification.in_baseline(&"a.txt".to_string()));
}

#[test]
fn rename_onto_other_kind_is_a_conflict() {
    let (mut tree, _) = build_workspace_content(vec![part("1", "f.txt"), part("2", "d/inner.txt"), part("3", "g.txt")]);
    let before = listing(&tree);
    let onto_dir = refactor_workspace_content(&mut tree, "f.txt".to_string(), "d".to_string());
    assert!(matches!(onto_dir, Err(PathError::StructuralConflict)));
    let onto_file = refactor_workspace_content(&mut tree, "d".to_string(), "f.txt".to_string());
    assert!(matches!(onto_file, Err(PathError::StructuralConflict)));
    let through_file = refactor_workspace_content(&mut tree, "g.txt".to_string(), "f.txt/g.txt".to_string());
    assert!(matches!(through_file, Err(PathError::StructuralConflict)));
    assert_eq!(listing(&tree), before);
    let onto_same_kind = refactor_workspace_content(&mut tree, "g.txt".to_string(), "f.txt".to_string());
    assert!(onto_same_kind.is_ok());
    assert_eq!(
        files(&tree),
        vec![("d/inner.txt".to_string(), "2".to_string()), ("f.txt".to_string(), "3".to_string())]
    );
}

#[test]
fn rename_directory_into_itself_detaches_first() {
    let (mut tree, _) = build_workspace_content(vec![part("1", "x/a.txt")]);
    let trace = match relocate_workspace_content(&mut tree, "x".to_string(), "x/sub".to_string()) {
        Ok(trace) => trace,
        Err(_) => panic!("move refused"),
    };
    assert_eq!(trace, vec![("x/a.txt".to_string(), ("x/sub/a.txt".to_string(), "1".to_string()))]);
    assert_eq!(files(&tree), vec![("x/sub/a.txt".to_string(), "1".to_string())]);
}

#[test]
fn record_rename_folds_every_move() {
    let (mut tree, mut modification) = build_workspace_content(vec![part("1", "src/a.rs"), part("2", "src/b.rs")]);
    modification.set("src/new.rs".to_string(), FileContent::Bytes(vec![9]));
    append_workspace_content(&mut tree, vec!["src/new.rs".to_string()]);
    let trace = match refactor_workspace_content(&mut tree, "src".to_string(), "lib".to_string()) {
        Ok(trace) => trace,
        Err(_) => panic!("rename refused"),
    };
    modification.record_rename(trace);
    assert_eq!(modification.pending_uploads(), vec!["lib/new.rs".to_string()]);
    let parts = modification.flatten(&vec!["hn".to_string()]).unwrap();
    assert_eq!(
        parts_view(&parts),
        vec![
            ("lib/a.rs".to_string(), Some("1".to_string())),
            ("lib/b.rs".to_string(), Some("2".to_string())),
            ("lib/new.rs".to_string(), Some("hn".to_string())),
            ("src/a.rs".to_string(), None),
            ("src/b.rs".to_string(), None),
        ]
    );
}
