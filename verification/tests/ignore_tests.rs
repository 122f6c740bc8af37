use srcprof::ignore_dirs::IgnoreDirs;

#[test]
fn check_is_ignore_file_pattern() {
    let samples = [
        (".gitignore", true),
        (".dockerignore", true),
        (".ignore", true),
        ("src", false),
        ("build", false),
        (".123ignore", false),
        ("README.md", false),
        (".IGNORE", false),
    ];

    for (input, expected) in samples {
        assert_eq!(
            IgnoreDirs::is_ignore_file_pattern(input),
            expected,
            "input ({}) should be {}",
            input,
            expected
        );
    }
}

#[test]
fn check_is_ignore_path_pattern() {
    let samples = [
        ("# build directory", false),
        ("", false),
        ("/build", true),
        ("build", true),
        (".editorconfig", true),
    ];

    for (input, expected) in samples {
        assert_eq!(
            IgnoreDirs::is_ignore_path_pattern(input),
            expected,
            "input ({}) should be {}",
            input,
            expected
        );
    }
}

#[test]
fn bare_ignore_is_a_marker_file() {
    assert!(IgnoreDirs::is_ignore_file_pattern("ignore"));
    assert!(IgnoreDirs::is_ignore_file_pattern(".dockerignore"));
    assert!(!IgnoreDirs::is_ignore_file_pattern("ignored"));
    assert!(!IgnoreDirs::is_ignore_file_pattern("reignite"));
}

#[test]
fn blank_lines_are_not_patterns() {
    assert!(!IgnoreDirs::is_ignore_path_pattern("   "));
    assert!(!IgnoreDirs::is_ignore_path_pattern("\t"));
    assert!(IgnoreDirs::is_ignore_path_pattern("  x"));
}

#[test]
fn marker_files_are_selected_in_order() {
    let names = vec![
        String::from(".gitignore"),
        String::from("src"),
        String::from(".dockerignore"),
        String::from("README.md"),
    ];
    let markers = IgnoreDirs::get_all_ignore_files(&names);
    assert_eq!(markers, vec![String::from(".gitignore"), String::from(".dockerignore")]);
}

#[test]
fn pattern_lines_drop_comments_and_blanks() {
    let lines = vec![
        String::from("# build directory"),
        String::from("/build"),
        String::from(""),
        String::from("target"),
    ];
    let patterns = IgnoreDirs::get_all_ignore_paths_from_ignore_file(&lines);
    assert_eq!(patterns, vec![String::from("/build"), String::from("target")]);
}

#[test]
fn query_from_gathers_patterns_of_marker_files() {
    let dir_files = vec![
        (
            String::from(".gitignore"),
            vec![
                String::from("# build directory"),
                String::from("/build"),
                String::from(""),
                String::from("target"),
            ],
        ),
        (String::from("notes.txt"), vec![String::from("keep")]),
        (String::from(".dockerignore"), vec![String::from(".git")]),
    ];
    let patterns = IgnoreDirs::query_from(&dir_files);
    assert_eq!(
        patterns,
        vec![String::from("/build"), String::from("target"), String::from(".git")]
    );
}
