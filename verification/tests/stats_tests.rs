use srcprof::stats::FileEntry;
use srcprof::stats::SrcStats;
use srcprof::stats::aggregate;
use srcprof::stats::total_stats;

fn record(name: &str, lines: usize, size: u64) -> FileEntry {
    FileEntry { name: String::from(name), lines, size }
}

#[test]
fn table_is_keyed_and_sorted_by_extension() {
    let files = vec![
        record("root/a.rs", 10, 100),
        record("root/sub/b.PY", 3, 30),
        record("root/c.rs", 5, 50),
        record("root/makefile", 2, 20),
    ];
    let table = aggregate(&files);
    assert_eq!(
        table,
        vec![
            (String::from("makefile"), SrcStats { files: 1, lines: 2, size: 20 }),
            (String::from("py"), SrcStats { files: 1, lines: 3, size: 30 }),
            (String::from("rs"), SrcStats { files: 2, lines: 15, size: 150 }),
        ]
    );
}

#[test]
fn aggregation_is_lossless() {
    let files = vec![
        record("r/a.rs", 10, 100),
        record("r/b.py", 5, 50),
        record("r/c.rs", 3, 30),
        record("r/d.sh", 0, 0),
    ];
    let table = aggregate(&files);
    let total = total_stats(&table);
    assert_eq!(total.files, files.len());
    assert_eq!(total.lines, files.iter().map(|f| f.lines).sum::<usize>());
    assert_eq!(total.size, files.iter().map(|f| f.size).sum::<u64>());
}

#[test]
fn aggregation_is_order_independent() {
    let files = vec![
        record("r/a.rs", 10, 100),
        record("r/b.py", 5, 50),
        record("r/c.rs", 3, 30),
        record("r/d.py", 7, 70),
    ];
    let mut reversed: Vec<FileEntry> = Vec::new();
    for f in files.iter().rev() {
        reversed.push(record(&f.name, f.lines, f.size));
    }
    assert_eq!(aggregate(&files), aggregate(&reversed));
}

#[test]
fn empty_input_gives_an_empty_table() {
    let table = aggregate(&Vec::new());
    assert!(table.is_empty());
    let total = total_stats(&table);
    assert_eq!(total, SrcStats { files: 0, lines: 0, size: 0 });
}
