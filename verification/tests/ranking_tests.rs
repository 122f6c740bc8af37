use srcprof::ranking::rank;
use srcprof::ranking::sort_by_lines_desc;
use srcprof::stats::FileEntry;

fn record(name: &str, lines: usize) -> FileEntry {
    FileEntry { name: String::from(name), lines, size: lines as u64 }
}

#[test]
fn ranking_drops_empty_files_and_keeps_tie_order() {
    let files = vec![record("a", 0), record("b", 5), record("c", 5), record("d", 3)];
    let top = rank(&files, 10);
    let lines: Vec<usize> = top.iter().map(|f| f.lines).collect();
    assert_eq!(lines, vec![5, 5, 3]);
    let names: Vec<&str> = top.iter().map(|f| f.name.as_str()).collect();
    assert_eq!(names, vec!["b", "c", "d"]);
}

#[test]
fn ranking_cuts_at_the_requested_count() {
    let files = vec![record("a", 1), record("b", 5), record("c", 4)];
    let top = rank(&files, 2);
    let names: Vec<&str> = top.iter().map(|f| f.name.as_str()).collect();
    assert_eq!(names, vec!["b", "c"]);
}

#[test]
fn ranking_of_zero_is_disabled() {
    let files = vec![record("a", 7)];
    assert!(rank(&files, 0).is_empty());
}

#[test]
fn ranking_stops_at_the_first_empty_file() {
    let files = vec![record("a", 5), record("b", 0), record("c", 3)];
    let top = rank(&files, 10);
    let lines: Vec<usize> = top.iter().map(|f| f.lines).collect();
    assert_eq!(lines, vec![5, 3]);
}

#[test]
fn sorting_is_stable_by_descending_lines() {
    let mut files = vec![record("a", 3), record("b", 9), record("c", 3), record("d", 12)];
    sort_by_lines_desc(&mut files);
    let names: Vec<&str> = files.iter().map(|f| f.name.as_str()).collect();
    assert_eq!(names, vec!["d", "b", "a", "c"]);
}
