use srcprof::config::Settings;
use srcprof::config::ext_key_of;

fn plain_settings(extensions: Vec<String>, ignore_dirs: Vec<String>) -> Settings {
    Settings::from_options(
        String::from("root"),
        false,
        false,
        10,
        false,
        false,
        &extensions,
        &ignore_dirs,
        false,
        false,
    )
}

#[test]
fn defaults_are_seeded() {
    let s = plain_settings(vec![], vec![]);
    assert_eq!(s.extensions.len(), 16);
    assert!(s.extensions.iter().any(|e| e == "rs"));
    assert!(s.extensions.iter().any(|e| e == "py"));
    assert_eq!(s.ignore_dirs.len(), 6);
    assert!(s.ignore_dirs.iter().any(|d| d == "node_modules"));
    assert!(s.ignore_dirs.iter().any(|d| d == ".git"));
    assert!(s.summary);
    assert!(s.enable_distrib);
    assert_eq!(s.ranking, 10);
}

#[test]
fn user_entries_are_appended() {
    let s = plain_settings(vec![String::from(".txt")], vec![String::from("dist")]);
    assert_eq!(s.extensions.len(), 17);
    assert_eq!(s.extensions.last().unwrap(), "txt");
    assert_eq!(s.ignore_dirs.len(), 7);
    assert_eq!(s.ignore_dirs.last().unwrap(), "dist");
}

#[test]
fn summary_and_distribution_flags_invert() {
    let s = Settings::from_options(
        String::from("root"),
        true,
        true,
        0,
        true,
        true,
        &vec![],
        &vec![],
        true,
        true,
    );
    assert!(!s.summary);
    assert!(!s.enable_distrib);
    assert!(s.listing && s.enable_html && s.human_readable && s.utf8);
    assert_eq!(s.ranking, 0);
}

#[test]
fn extension_keys_are_derived_and_lowered() {
    assert_eq!(ext_key_of("main.RS"), "rs");
    assert_eq!(ext_key_of("Makefile"), "makefile");
    assert_eq!(ext_key_of(".gitignore"), ".gitignore");
    assert_eq!(ext_key_of("archive.tar.GZ"), "gz");
    assert_eq!(ext_key_of("x.c"), "c");
}

#[test]
fn filter_accepts_by_lowered_extension() {
    let s = plain_settings(vec![], vec![]);
    assert_eq!(s.accepts_file("lib.rs"), Some(String::from("rs")));
    assert_eq!(s.accepts_file("APP.C"), Some(String::from("c")));
    assert_eq!(s.accepts_file("photo.png"), None);
    assert_eq!(s.accepts_file("README"), None);
}

#[test]
fn filter_prunes_ignored_directories() {
    let s = plain_settings(vec![], vec![String::from("dist")]);
    assert!(s.accepts_directory("src"));
    assert!(!s.accepts_directory("node_modules"));
    assert!(!s.accepts_directory(".git"));
    assert!(!s.accepts_directory("dist"));
}
