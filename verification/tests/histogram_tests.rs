use srcprof::histogram::bar_length;
use srcprof::histogram::bin_bounds;
use srcprof::histogram::bin_index;
use srcprof::histogram::histogram;
use srcprof::histogram::isqrt;
use srcprof::histogram::max_bin_count;
use srcprof::histogram::pow2_u64;
use srcprof::stats::FileEntry;

fn record(lines: usize) -> FileEntry {
    FileEntry { name: String::from("x.rs"), lines, size: 0 }
}

#[test]
fn bins_follow_the_log_scale() {
    assert_eq!(bin_index(1), Some(0));
    assert_eq!(bin_index(2), Some(2));
    assert_eq!(bin_index(3), Some(4));
    assert_eq!(bin_index(100), Some(14));
}

#[test]
fn oversized_line_counts_leave_the_scale() {
    assert_eq!(bin_index(46340), Some(31));
    assert_eq!(bin_index(46341), None);
    assert_eq!(bin_index(70000), None);
}

#[test]
fn histogram_counts_files_per_bin() {
    let files = vec![record(1), record(2), record(100), record(0), record(2)];
    let h = histogram(&files);
    assert_eq!(h.len(), 32);
    assert_eq!(h[0], 1);
    assert_eq!(h[2], 2);
    assert_eq!(h[14], 1);
    // the file with no lines is counted nowhere
    assert_eq!(h.iter().sum::<usize>(), 4);
}

#[test]
fn empty_input_yields_all_zero_bins() {
    let h = histogram(&Vec::new());
    assert!(h.iter().all(|c| *c == 0));
    let m = max_bin_count(&h);
    assert_eq!(m, 0);
    // the division guard keeps every bar at zero length
    assert_eq!(bar_length(0, m, 60), 0);
}

#[test]
fn the_largest_bin_ignores_bin_zero() {
    let mut h = vec![0usize; 32];
    h[0] = 9;
    h[1] = 4;
    h[5] = 2;
    assert_eq!(max_bin_count(&h), 4);
}

#[test]
fn bars_scale_against_the_largest_bin() {
    assert_eq!(bar_length(2, 4, 60), 30);
    assert_eq!(bar_length(4, 4, 60), 60);
    assert_eq!(bar_length(1, 3, 60), 20);
}

#[test]
fn bounds_come_from_powers_of_the_square_root_of_two() {
    assert_eq!(bin_bounds(2), (1, 1));
    assert_eq!(bin_bounds(4), (2, 3));
    assert_eq!(bin_bounds(14), (90, 127));
}

#[test]
fn integer_square_roots_round_down() {
    assert_eq!(isqrt(0), 0);
    assert_eq!(isqrt(1), 1);
    assert_eq!(isqrt(2), 1);
    assert_eq!(isqrt(16), 4);
    assert_eq!(isqrt(4294967296), 65536);
    assert_eq!(pow2_u64(5), 32);
}
