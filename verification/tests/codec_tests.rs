use file_tree::FileTree;

fn s(x: &str) -> String {
    x.to_string()
}

fn leaf(path: &str, files: &[&str]) -> FileTree {
    FileTree {
        path: s(path),
        files: files.iter().map(|f| s(f)).collect(),
        directories: Vec::new(),
    }
}

const MID: &str = "\u{251c}\u{2500}\u{2500} ";
const LAST: &str = "\u{2514}\u{2500}\u{2500} ";
const VERT: &str = "\u{2502}   ";

fn sample_tree() -> FileTree {
    FileTree {
        path: s("lib"),
        files: Vec::new(),
        directories: vec![
            leaf("one", &["a.mp4", "b.mp4"]),
            leaf("two", &["c.mp4"]),
        ],
    }
}

fn sample_text() -> String {
    format!(
        "lib\n{m}one\n{v}{m}a.mp4\n{v}{l}b.mp4\n{l}two\n    {l}c.mp4",
        m = MID,
        l = LAST,
        v = VERT
    )
}

#[test]
fn format_emits_box_drawing_lines() {
    let t = sample_tree();
    assert_eq!(t.to_file_tree(true), sample_text());
}

#[test]
fn format_without_root_label_omits_first_line() {
    let t = leaf("one", &["a.mp4", "b.mp4"]);
    assert_eq!(t.to_file_tree(false), format!("{m}a.mp4\n{l}b.mp4", m = MID, l = LAST));
    assert_eq!(t.to_file_tree(true), format!("one\n{m}a.mp4\n{l}b.mp4", m = MID, l = LAST));
}

#[test]
fn get_formatted_file_tree_starts_with_root() {
    let t = sample_tree();
    let text = t.get_formatted_file_tree();
    assert!(text.starts_with("lib\n"));
    assert_eq!(text, sample_text());
}

#[test]
fn last_file_keeps_closing_connector_before_directories() {
    // the closing connector goes to the last file even though a directory
    // block follows it
    let t = FileTree {
        path: s("root"),
        files: vec![s("f1.mp4"), s("f2.mp4")],
        directories: vec![leaf("d", &["g.mp4"])],
    };
    let expected = format!(
        "root\n{m}f1.mp4\n{l}f2.mp4\n{l}d\n    {l}g.mp4",
        m = MID,
        l = LAST
    );
    assert_eq!(t.to_file_tree(true), expected);
}

#[test]
fn parse_recovers_the_tree() {
    let t = FileTree::from_file_tree(sample_text());
    assert_eq!(t.path, "lib");
    assert!(t.files.is_empty());
    assert_eq!(t.directories.len(), 2);
    assert_eq!(t.directories[0].path, "one");
    assert_eq!(t.directories[0].files, vec![s("a.mp4"), s("b.mp4")]);
    assert!(t.directories[0].directories.is_empty());
    assert_eq!(t.directories[1].path, "two");
    assert_eq!(t.directories[1].files, vec![s("c.mp4")]);
}

#[test]
fn parse_then_format_round_trips_text() {
    let text = sample_text();
    let reparsed = FileTree::from_file_tree(text.clone());
    assert_eq!(reparsed.to_file_tree(true), text);
}

#[test]
fn round_trip_with_trailing_file_oddity() {
    let t = FileTree {
        path: s("root"),
        files: vec![s("f1.mp4"), s("f2.mp4")],
        directories: vec![leaf("d", &["g.mp4"])],
    };
    let text = t.to_file_tree(true);
    let back = FileTree::from_file_tree(text.clone());
    assert_eq!(back.to_file_tree(true), text);
}

#[test]
fn round_trip_nested_directories() {
    let t = FileTree {
        path: s("top"),
        files: vec![s("x.mp4")],
        directories: vec![
            FileTree {
                path: s("mid"),
                files: vec![s("y.mp4")],
                directories: vec![leaf("deep", &["z.mp4"])],
            },
            leaf("side", &[]),
        ],
    };
    let text = t.to_file_tree(true);
    let back = FileTree::from_file_tree(text.clone());
    assert_eq!(back.to_file_tree(true), text);
    assert_eq!(back.directories[0].directories[0].files, vec![s("z.mp4")]);
    assert_eq!(back.directories[1].path, "side");
    assert!(back.directories[1].files.is_empty());
}

#[test]
fn parse_collects_root_level_files() {
    let text = format!("lib\n{m}a.mp4\n{l}b.mp4", m = MID, l = LAST);
    let t = FileTree::from_file_tree(text.clone());
    assert_eq!(t.path, "lib");
    assert_eq!(t.files, vec![s("a.mp4"), s("b.mp4")]);
    assert!(t.directories.is_empty());
    assert_eq!(t.to_file_tree(true), text);
}

#[test]
fn parse_ignores_unrecognized_names_as_directories() {
    // a branch line that does not end with a recognized suffix opens a
    // directory block rather than a file entry
    let text = format!("root\n{m}notes.txt", m = MID);
    let t = FileTree::from_file_tree(text);
    assert!(t.files.is_empty());
    assert_eq!(t.directories.len(), 1);
    assert_eq!(t.directories[0].path, "notes.txt");
}
