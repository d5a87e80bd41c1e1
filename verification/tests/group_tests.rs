use file_tree::FileTree;
use file_tree::group::{
    format_group_dir, format_link_name, get_sorted_group_files, get_sorted_group_names,
    links_for_outcomes,
};

fn s(x: &str) -> String {
    x.to_string()
}

fn leaf(path: &str, files: &[&str]) -> FileTree {
    FileTree {
        path: s(path),
        files: files.iter().map(|f| s(f)).collect(),
        directories: Vec::new(),
    }
}

fn library_tree() -> FileTree {
    FileTree {
        path: s("/lib"),
        files: Vec::new(),
        directories: vec![
            leaf("/lib/one", &["/lib/one/a.mp4", "/lib/one/b.mp4"]),
            leaf("/lib/two", &["/lib/two/c.mp4"]),
        ],
    }
}

#[test]
fn generate_file_list_keeps_only_recognized_suffixes() {
    let t = FileTree {
        path: s("/lib"),
        files: vec![s("/lib/readme.txt"), s("/lib/movie.mp4")],
        directories: vec![leaf("/lib/sub", &["/lib/sub/clip.mp4", "/lib/sub/cover.jpg"])],
    };
    let postfixes = vec![s(".mp4")];
    let list = t.generate_file_list(&postfixes);
    assert_eq!(list, vec![s("/lib/movie.mp4"), s("/lib/sub/clip.mp4")]);
}

#[test]
fn group_names_sort_lexically_with_ordinals() {
    // groups named {"two", "one"} sort to ordinals one = 1, two = 2
    let file_list = vec![s("/lib/two/c.mp4"), s("/lib/one/a.mp4"), s("/lib/one/b.mp4")];
    let names = get_sorted_group_names(file_list);
    assert_eq!(names, vec![s("one"), s("two")]);
}

#[test]
fn group_names_are_distinct() {
    let file_list = vec![
        s("/x/g/a.mp4"),
        s("/x/g/b.mp4"),
        s("/y/g/c.mp4"),
        s("/x/h/d.mp4"),
    ];
    let names = get_sorted_group_names(file_list);
    assert_eq!(names, vec![s("g"), s("h")]);
}

#[test]
fn file_without_separator_gets_empty_group_key() {
    let names = get_sorted_group_names(vec![s("bare.mp4"), s("/x/g/a.mp4")]);
    assert_eq!(names, vec![s(""), s("g")]);
}

#[test]
fn group_files_filter_by_parent_and_sort_by_file_name() {
    let file_list = vec![
        s("/lib/one/b.mp4"),
        s("/lib/two/c.mp4"),
        s("/lib/one/a.mp4"),
    ];
    let files = get_sorted_group_files(file_list, "one");
    assert_eq!(files, vec![s("/lib/one/a.mp4"), s("/lib/one/b.mp4")]);
}

#[test]
fn grouping_is_deterministic_across_runs() {
    let t = library_tree();
    let p1 = t.plan_grouped_symlinks("dest", "Season");
    let p2 = t.plan_grouped_symlinks("dest", "Season");
    assert_eq!(p1.len(), p2.len());
    for (a, b) in p1.iter().zip(p2.iter()) {
        assert_eq!(a.directory, b.directory);
        assert_eq!(a.links, b.links);
    }
}

#[test]
fn format_group_dir_season_and_default() {
    assert_eq!(format_group_dir(0, "one", "Season"), "Season 1 - one");
    assert_eq!(format_group_dir(1, "two", "Season"), "Season 2 - two");
    assert_eq!(format_group_dir(0, "one", "Chapter"), "one");
}

#[test]
fn format_link_name_season_and_default() {
    assert_eq!(format_link_name(0, 0, &s("/lib/one/a.mp4"), "Season"), "S01E01 - a.mp4");
    assert_eq!(format_link_name(0, 1, &s("/lib/one/b.mp4"), "Season"), "S01E02 - b.mp4");
    assert_eq!(format_link_name(1, 0, &s("/lib/two/c.mp4"), "Season"), "S02E01 - c.mp4");
    assert_eq!(format_link_name(9, 10, &s("/x/g/e.mp4"), "Season"), "S10E11 - e.mp4");
    assert_eq!(format_link_name(0, 0, &s("/lib/one/a.mp4"), "Chapter"), "a.mp4");
}

#[test]
fn format_link_name_replaces_spaces_with_dots() {
    assert_eq!(
        format_link_name(0, 0, &s("/x/g/My File 01.mp4"), "Season"),
        "S01E01 - My.File.01.mp4"
    );
}

#[test]
fn season_plan_produces_ordinal_directories_and_links() {
    let t = library_tree();
    let plans = t.plan_grouped_symlinks("dest", "Season");
    assert_eq!(plans.len(), 2);
    assert_eq!(plans[0].directory, "dest/Season 1 - one");
    assert_eq!(
        plans[0].links,
        vec![
            (s("dest/Season 1 - one/S01E01 - a.mp4"), s("/lib/one/a.mp4")),
            (s("dest/Season 1 - one/S01E02 - b.mp4"), s("/lib/one/b.mp4")),
        ]
    );
    assert_eq!(plans[1].directory, "dest/Season 2 - two");
    assert_eq!(
        plans[1].links,
        vec![(s("dest/Season 2 - two/S02E01 - c.mp4"), s("/lib/two/c.mp4"))]
    );
}

#[test]
fn chapter_plan_uses_bare_names() {
    let t = library_tree();
    let plans = t.plan_grouped_symlinks("dest", "Chapter");
    assert_eq!(plans.len(), 2);
    assert_eq!(plans[0].directory, "dest/one");
    assert_eq!(
        plans[0].links,
        vec![
            (s("dest/one/a.mp4"), s("/lib/one/a.mp4")),
            (s("dest/one/b.mp4"), s("/lib/one/b.mp4")),
        ]
    );
    assert_eq!(plans[1].directory, "dest/two");
}

#[test]
fn failed_group_directory_skips_only_that_group() {
    // when one group's destination directory cannot be created, files of
    // the other groups are still linked
    let t = library_tree();
    let plans = t.plan_grouped_symlinks("dest", "Season");
    let outcomes = vec![false, true];
    let links = links_for_outcomes(&plans, &outcomes);
    assert_eq!(
        links,
        vec![(s("dest/Season 2 - two/S02E01 - c.mp4"), s("/lib/two/c.mp4"))]
    );
    let all = links_for_outcomes(&plans, &vec![true, true]);
    assert_eq!(all.len(), 3);
}
