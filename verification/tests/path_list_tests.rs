use file_tree::FileTree;

fn s(x: &str) -> String {
    x.to_string()
}

#[test]
fn reconstructs_root_files_and_subdirectories() {
    let values = vec![
        s("/docs"),
        s("/docs/d1/f1.txt"),
        s("/docs/d1/f2.txt"),
        s("/docs/readme.md"),
    ];
    let t = FileTree::from_string_vector(values);
    assert_eq!(t.path, "/docs");
    assert_eq!(t.files, vec![s("/docs/readme.md")]);
    assert_eq!(t.directories.len(), 1);
    assert_eq!(t.directories[0].path, "/docs/d1");
    assert_eq!(t.directories[0].files, vec![s("/docs/d1/f1.txt"), s("/docs/d1/f2.txt")]);
    assert!(t.directories[0].directories.is_empty());
}

#[test]
fn shortest_string_becomes_root_and_loses_trailing_separator() {
    let values = vec![s("/r/a.mp4"), s("/r/")];
    let t = FileTree::from_string_vector(values);
    assert_eq!(t.path, "/r");
    assert_eq!(t.files, vec![s("/r/a.mp4")]);
    assert!(t.directories.is_empty());
}

#[test]
fn sibling_directory_names_do_not_leak_by_substring() {
    // "a" must not swallow the entries of "ab": placement is by exact
    // segment, not substring containment
    let values = vec![s("/r"), s("/r/a/y.mp4"), s("/r/ab/x.mp4")];
    let t = FileTree::from_string_vector(values);
    assert_eq!(t.path, "/r");
    assert!(t.files.is_empty());
    assert_eq!(t.directories.len(), 2);
    assert_eq!(t.directories[0].path, "/r/a");
    assert_eq!(t.directories[0].files, vec![s("/r/a/y.mp4")]);
    assert_eq!(t.directories[1].path, "/r/ab");
    assert_eq!(t.directories[1].files, vec![s("/r/ab/x.mp4")]);
}

#[test]
fn deep_nesting_builds_recursively() {
    let values = vec![s("/r"), s("/r/a/b/c.mp4"), s("/r/a/d.mp4")];
    let t = FileTree::from_string_vector(values);
    assert_eq!(t.directories.len(), 1);
    let a = &t.directories[0];
    assert_eq!(a.path, "/r/a");
    assert_eq!(a.files, vec![s("/r/a/d.mp4")]);
    assert_eq!(a.directories.len(), 1);
    assert_eq!(a.directories[0].path, "/r/a/b");
    assert_eq!(a.directories[0].files, vec![s("/r/a/b/c.mp4")]);
}

#[test]
fn every_input_path_lands_exactly_once() {
    let values = vec![
        s("/r"),
        s("/r/one/a.mp4"),
        s("/r/one/b.mp4"),
        s("/r/two/c.mp4"),
        s("/r/top.mp4"),
    ];
    let t = FileTree::from_string_vector(values.clone());
    let mut flattened = t.get_directories_list();
    flattened.sort();
    let mut expected: Vec<String> = values[1..].to_vec();
    expected.sort();
    assert_eq!(flattened, expected);
}

#[test]
fn new_from_string_vector_matches_from_string_vector() {
    let values = vec![s("/r"), s("/r/x/a.mp4"), s("/r/y.mp4")];
    let a = FileTree::from_string_vector(values.clone());
    let b = FileTree::new_from_string_vector(values);
    assert_eq!(a.path, b.path);
    assert_eq!(a.files, b.files);
    assert_eq!(a.directories.len(), b.directories.len());
    assert_eq!(a.directories[0].path, b.directories[0].path);
    assert_eq!(a.directories[0].files, b.directories[0].files);
}
