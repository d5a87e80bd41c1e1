use file_tree::FileTree;
use file_tree::PlexCourse;

fn s(x: &str) -> String {
    x.to_string()
}

fn leaf(path: &str, files: &[&str]) -> FileTree {
    FileTree {
        path: s(path),
        files: files.iter().map(|f| s(f)).collect(),
        directories: Vec::new(),
    }
}

#[test]
fn new_starts_empty() {
    let t = FileTree::new(s("/home/user"));
    assert_eq!(t.path, "/home/user");
    assert!(t.files.is_empty());
    assert!(t.directories.is_empty());
}

#[test]
fn name_is_last_component() {
    let t = FileTree::new(s("/home/user/videos"));
    assert_eq!(t.name(), "videos");
    let u = FileTree::new(s("plain"));
    assert_eq!(u.name(), "plain");
    let v = FileTree::new(s("/ends/with/slash/"));
    assert_eq!(v.name(), "");
}

#[test]
fn to_file_list_prefixes_and_trims() {
    let t = FileTree {
        path: s("/root"),
        files: vec![s(" a.mp4 "), s("b.mp4")],
        directories: vec![leaf("/root/sub", &["c.mp4"])],
    };
    let list = t.to_file_list(">> ");
    assert_eq!(
        list,
        vec![
            s(">> /root"),
            s(">> a.mp4"),
            s(">> b.mp4"),
            s(">> /root/sub"),
            s(">> c.mp4"),
        ]
    );
}

#[test]
fn get_directories_list_flattens_depth_first() {
    let t = FileTree {
        path: s("/home/user"),
        files: vec![s("file1"), s("file2")],
        directories: vec![
            leaf("/home/user/dir1", &["file3", "file4"]),
            leaf("/home/user/dir2", &["file5", "file6"]),
        ],
    };
    let list = t.get_directories_list();
    assert_eq!(
        list,
        vec![s("file1"), s("file2"), s("file3"), s("file4"), s("file5"), s("file6")]
    );
}

#[test]
fn get_2d_vector_rows_per_top_level_directory() {
    let t = FileTree {
        path: s("/home/user"),
        files: vec![s("file1"), s("file2")],
        directories: vec![
            leaf("/home/user/dir1", &["file3", "file4"]),
            leaf("/home/user/dir2", &["file5", "file6"]),
        ],
    };
    let rows = t.get_2d_vector();
    assert_eq!(
        rows,
        vec![
            vec![s("file1"), s("file2")],
            vec![s("file3"), s("file4")],
            vec![s("file5"), s("file6")],
        ]
    );
}

#[test]
fn partition_entries_splits_by_directory_flag() {
    let entries = vec![
        (s("/r/a.mp4"), false),
        (s("/r/sub"), true),
        (s("/r/b.txt"), false),
        (s("/r/other"), true),
    ];
    let (files, dirs) = file_tree::tree::partition_entries(entries);
    assert_eq!(files, vec![s("/r/a.mp4"), s("/r/b.txt")]);
    assert_eq!(dirs, vec![s("/r/sub"), s("/r/other")]);
}

#[test]
fn plex_course_holds_its_parts() {
    let base = leaf("/lib", &[]);
    let tree = leaf("/lib", &[]);
    let course = PlexCourse::new(base, tree, s("/dest"));
    assert_eq!(course.destination, "/dest");
    assert_eq!(course.base_dir.path, "/lib");
    assert_eq!(course.file_tree.path, "/lib");
}
