use srcprof::config::Settings;
use srcprof::histogram::histogram;
use srcprof::pipeline::measure_all;
use srcprof::pipeline::process_files;
use srcprof::ranking::rank;
use srcprof::stats::SrcStats;
use srcprof::walk::SourceFile;
use srcprof::walk::Tree;
use srcprof::walk::enumerate;

fn file(name: &str, content: &str) -> Tree {
    Tree::File { name: String::from(name), content: content.as_bytes().to_vec() }
}

fn dir(name: &str, children: Vec<Tree>) -> Tree {
    Tree::Dir { name: String::from(name), children }
}

fn plain_settings(utf8: bool) -> Settings {
    Settings::from_options(
        String::from("root"),
        false,
        false,
        10,
        false,
        false,
        &vec![],
        &vec![],
        false,
        utf8,
    )
}

#[test]
fn ignored_directories_are_never_descended_into() {
    let tree = dir(
        "root",
        vec![
            dir("node_modules", vec![file("hidden.rs", "a\nb\nc\n")]),
            dir("src", vec![file("main.rs", "one\ntwo\n")]),
            file("top.py", "x\n"),
        ],
    );
    let settings = plain_settings(false);
    let (files, table, visited) = process_files(&tree, &settings);
    let names: Vec<&str> = files.iter().map(|f| f.name.as_str()).collect();
    assert_eq!(names, vec!["root/src/main.rs", "root/top.py"]);
    // root, src, main.rs, top.py; nothing under node_modules
    assert_eq!(visited, 4);
    assert_eq!(
        table,
        vec![
            (String::from("py"), SrcStats { files: 1, lines: 1, size: 2 }),
            (String::from("rs"), SrcStats { files: 1, lines: 2, size: 8 }),
        ]
    );
}

#[test]
fn two_runs_over_an_unmodified_tree_agree() {
    let tree = dir(
        "root",
        vec![file("a.rs", "1\n2\n3\n"), file("b.py", "1\n"), dir("lib", vec![file("c.rs", "x")])],
    );
    let settings = plain_settings(false);
    let (files1, table1, visited1) = process_files(&tree, &settings);
    let (files2, table2, visited2) = process_files(&tree, &settings);
    assert_eq!(files1, files2);
    assert_eq!(table1, table2);
    assert_eq!(visited1, visited2);
    let top1 = rank(&files1, 10);
    let top2 = rank(&files2, 10);
    assert_eq!(top1, top2);
}

#[test]
fn an_empty_tree_yields_zero_everything() {
    let tree = dir("root", vec![]);
    let settings = plain_settings(false);
    let (files, table, visited) = process_files(&tree, &settings);
    assert!(files.is_empty());
    assert!(table.is_empty());
    assert_eq!(visited, 1);
    assert!(rank(&files, 10).is_empty());
    let h = histogram(&files);
    assert!(h.iter().all(|c| *c == 0));
}

#[test]
fn character_mode_changes_the_size_figure() {
    let tree = dir("root", vec![file("u.rs", "héllo\n")]);
    let bytes_run = process_files(&tree, &plain_settings(false));
    let chars_run = process_files(&tree, &plain_settings(true));
    assert_eq!(bytes_run.0[0].size, 7);
    assert_eq!(chars_run.0[0].size, 6);
    assert_eq!(bytes_run.0[0].lines, 1);
    assert_eq!(chars_run.0[0].lines, 1);
}

#[test]
fn undecodable_files_are_dropped_in_character_mode() {
    let sources = vec![
        SourceFile { path: String::from("root/ok.rs"), content: b"fine\n".to_vec() },
        SourceFile { path: String::from("root/bad.rs"), content: vec![0xff, 0xfe] },
    ];
    let kept = measure_all(&sources, true);
    assert_eq!(kept.len(), 1);
    assert_eq!(kept[0].name, "root/ok.rs");
    let both = measure_all(&sources, false);
    assert_eq!(both.len(), 2);
}

#[test]
fn the_walk_counts_visited_entries() {
    let tree = dir(
        "root",
        vec![file("a.txt", "skip"), dir(".git", vec![file("x.rs", "a")]), file("b.rs", "a\n")],
    );
    let settings = plain_settings(false);
    let mut out: Vec<SourceFile> = Vec::new();
    let mut visited: u64 = 0;
    enumerate(&tree, &settings, "", &mut out, &mut visited);
    // root, a.txt and b.rs are visited; a.txt is rejected by extension
    assert_eq!(visited, 3);
    assert_eq!(out.len(), 1);
    assert_eq!(out[0].path, "root/b.rs");
}
