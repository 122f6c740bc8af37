//! Per-extension statistics aggregation.
//!
//! The aggregator folds measured file records into a table keyed by the
//! file's extension key, ordered by key, holding per-key counts of files,
//! lines and size. Its mathematical model is `stats_table`: a fold of
//! `add_file` over the records, where one `add_file` step either starts a
//! new key at its ordered position or adds onto the key's entry.

use vstd::prelude::*;
use vstd::string::StrSliceExecFns;

use crate::config::ext_key_of;
use crate::text::basename;
use crate::text::basename_of;
use crate::text::eq_str;
use crate::text::ext_key;
use crate::text::lemma_lex_transitive;
use crate::text::lemma_lex_trichotomy;
use crate::text::lex_lt;
use crate::text::str_lt;

verus! {

/// One measured file: its resolved path, line count and size figure.
#[derive(Debug, PartialEq, Eq)]
pub struct FileEntry {
    /// The file's path, joined below the walk's root with `/`.
    pub name: String,
    /// Number of newline-delimited lines.
    pub lines: usize,
    /// Size figure: byte length, or decoded character count.
    pub size: u64,
}

impl FileEntry {
    /// An owned copy of this record.
    pub fn duplicate(&self) -> (r: FileEntry)
        ensures
            r == *self,
    {
        FileEntry { name: self.name.clone(), lines: self.lines, size: self.size }
    }
}

/// Accumulated statistics of one extension key, or of a whole run.
#[derive(Clone, Copy, PartialEq, Eq, Structural, Debug)]
pub struct SrcStats {
    /// Number of files.
    pub files: usize,
    /// Total line count.
    pub lines: usize,
    /// Total size figure.
    pub size: u64,
}

impl Default for SrcStats {
    /// The all-zero statistics.
    fn default() -> (r: SrcStats)
        ensures
            r.files == 0 && r.lines == 0 && r.size == 0,
    {
        SrcStats { files: 0, lines: 0, size: 0 }
    }
}

/// The aggregation key of a record: the extension key of its path's final
/// component.
pub open spec fn file_key(f: FileEntry) -> Seq<char> {
    ext_key(basename(f.name@))
}

/// The model of one table entry: key, file count, line total, size total.
pub type EntryModel = (Seq<char>, int, int, int);

/// The model of a statistics table.
pub type TableModel = Seq<EntryModel>;

/// The model of an executable table.
pub open spec fn table_view(t: Seq<(String, SrcStats)>) -> TableModel {
    t.map_values(
        |e: (String, SrcStats)| (e.0@, e.1.files as int, e.1.lines as int, e.1.size as int),
    )
}

/// Adds one record onto a table: onto its key's entry, or as a fresh entry
/// at the key's ordered position.
pub open spec fn add_file(t: TableModel, f: FileEntry) -> TableModel
    decreases t.len(),
{
    let k = file_key(f);
    if t.len() == 0 {
        seq![(k, 1int, f.lines as int, f.size as int)]
    } else if t[0].0 == k {
        seq![(t[0].0, t[0].1 + 1, t[0].2 + f.lines, t[0].3 + f.size)] + t.drop_first()
    } else if lex_lt(k, t[0].0) {
        seq![(k, 1int, f.lines as int, f.size as int)] + t
    } else {
        seq![t[0]] + add_file(t.drop_first(), f)
    }
}

/// The statistics table of a sequence of records.
pub open spec fn stats_table(files: Seq<FileEntry>) -> TableModel
    decreases files.len(),
{
    if files.len() == 0 {
        Seq::empty()
    } else {
        add_file(stats_table(files.drop_last()), files.last())
    }
}

/// Table keys are strictly ascending.
pub open spec fn sorted_strict(t: TableModel) -> bool {
    forall|i: int, j: int| 0 <= i < j < t.len() ==> lex_lt(t[i].0, t[j].0)
}

/// Total line count of a sequence of records.
pub open spec fn sum_lines(files: Seq<FileEntry>) -> int
    decreases files.len(),
{
    if files.len() == 0 {
        0
    } else {
        sum_lines(files.drop_last()) + files.last().lines
    }
}

/// Total size of a sequence of records.
pub open spec fn sum_sizes(files: Seq<FileEntry>) -> int
    decreases files.len(),
{
    if files.len() == 0 {
        0
    } else {
        sum_sizes(files.drop_last()) + files.last().size
    }
}

/// Number of records whose key is `k`.
pub open spec fn key_count(files: Seq<FileEntry>, k: Seq<char>) -> int
    decreases files.len(),
{
    if files.len() == 0 {
        0
    } else {
        key_count(files.drop_last(), k) + (if file_key(files.last()) == k {
            1int
        } else {
            0int
        })
    }
}

/// Total line count of the records whose key is `k`.
pub open spec fn key_lines(files: Seq<FileEntry>, k: Seq<char>) -> int
    decreases files.len(),
{
    if files.len() == 0 {
        0
    } else {
        key_lines(files.drop_last(), k) + (if file_key(files.last()) == k {
            files.last().lines as int
        } else {
            0int
        })
    }
}

/// Total size of the records whose key is `k`.
pub open spec fn key_sizes(files: Seq<FileEntry>, k: Seq<char>) -> int
    decreases files.len(),
{
    if files.len() == 0 {
        0
    } else {
        key_sizes(files.drop_last(), k) + (if file_key(files.last()) == k {
            files.last().size as int
        } else {
            0int
        })
    }
}

/// Every entry of `t` holds exactly the totals of the records of `files`
/// with its key.
pub open spec fn table_matches(t: TableModel, files: Seq<FileEntry>) -> bool {
    forall|j: int|
        0 <= j < t.len() ==> {
            &&& (#[trigger] t[j]).1 == key_count(files, t[j].0)
            &&& t[j].2 == key_lines(files, t[j].0)
            &&& t[j].3 == key_sizes(files, t[j].0)
        }
}

/// Some entry of `t` has key `k`.
pub open spec fn key_in_table(t: TableModel, k: Seq<char>) -> bool {
    exists|j: int| 0 <= j < t.len() && (#[trigger] t[j]).0 == k
}

/// Every record's key has an entry in `t`.
pub open spec fn table_complete(t: TableModel, files: Seq<FileEntry>) -> bool {
    forall|idx: int| 0 <= idx < files.len() ==> key_in_table(t, file_key(#[trigger] files[idx]))
}

proof fn lemma_add_file_props(t: TableModel, f: FileEntry)
    requires
        sorted_strict(t),
    ensures
        sorted_strict(add_file(t, f)),
        add_file(t, f).len() >= 1,
        forall|m: int|
            0 <= m < add_file(t, f).len() ==> key_in_table(t, (#[trigger] add_file(t, f)[m]).0)
                || add_file(t, f)[m].0 == file_key(f),
        forall|n: int| 0 <= n < t.len() ==> key_in_table(add_file(t, f), (#[trigger] t[n]).0),
        key_in_table(add_file(t, f), file_key(f)),
    decreases t.len(),
{
    let k = file_key(f);
    let a = add_file(t, f);
    if t.len() == 0 {
        assert(a[0].0 == k);
    } else if t[0].0 == k {
        assert(forall|m: int| 0 <= m < t.len() ==> (#[trigger] a[m]).0 == t[m].0);
        assert forall|n: int| 0 <= n < t.len() implies key_in_table(a, (#[trigger] t[n]).0) by {
            assert(a[n].0 == t[n].0);
        }
        assert(a[0].0 == k);
    } else if lex_lt(k, t[0].0) {
        assert(forall|m: int| 1 <= m < a.len() ==> (#[trigger] a[m]).0 == t[m - 1].0);
        assert forall|i: int, j: int| 0 <= i < j < a.len() implies lex_lt(a[i].0, a[j].0) by {
            if i == 0 {
                if j > 1 {
                    lemma_lex_transitive(k, t[0].0, t[j - 1].0);
                }
            }
        }
        assert forall|n: int| 0 <= n < t.len() implies key_in_table(a, (#[trigger] t[n]).0) by {
            assert(a[n + 1].0 == t[n].0);
        }
        assert(a[0].0 == k);
    } else {
        lemma_lex_trichotomy(k, t[0].0);
        let rest = t.drop_first();
        let arest = add_file(rest, f);
        assert(forall|i: int| 0 <= i < rest.len() ==> (#[trigger] rest[i]) == t[i + 1]);
        lemma_add_file_props(rest, f);
        assert(a =~= seq![t[0]] + arest);
        assert(forall|m: int| 1 <= m < a.len() ==> (#[trigger] a[m]) == arest[m - 1]);
        // the head's key precedes every key of the rest's table
        assert forall|m: int| 1 <= m < a.len() implies lex_lt(t[0].0, a[m].0) by {
            if key_in_table(rest, arest[m - 1].0) {
                let n = choose|n: int|
                    0 <= n < rest.len() && (#[trigger] rest[n]).0 == arest[m - 1].0;
                assert(t[n + 1].0 == arest[m - 1].0);
            } else {
                assert(arest[m - 1].0 == k);
            }
        }
        assert forall|i: int, j: int| 0 <= i < j < a.len() implies lex_lt(a[i].0, a[j].0) by {
            if i >= 1 {
                assert(lex_lt(arest[i - 1].0, arest[j - 1].0));
            }
        }
        assert forall|m: int|
            0 <= m < a.len() implies key_in_table(t, (#[trigger] a[m]).0) || a[m].0 == k by {
            if m == 0 {
                assert(t[0].0 == a[0].0);
            } else if key_in_table(rest, arest[m - 1].0) {
                let n = choose|n: int|
                    0 <= n < rest.len() && (#[trigger] rest[n]).0 == arest[m - 1].0;
                assert(t[n + 1].0 == a[m].0);
            }
        }
        assert forall|n: int| 0 <= n < t.len() implies key_in_table(a, (#[trigger] t[n]).0) by {
            if n == 0 {
                assert(a[0].0 == t[0].0);
            } else {
                assert(key_in_table(arest, rest[n - 1].0));
                let j = choose|j: int|
                    0 <= j < arest.len() && (#[trigger] arest[j]).0 == rest[n - 1].0;
                assert(a[j + 1].0 == t[n].0);
            }
        }
        let j = choose|j: int| 0 <= j < arest.len() && (#[trigger] arest[j]).0 == k;
        assert(a[j + 1].0 == k);
    }
}

/// The table of any record sequence has strictly ascending keys.
pub proof fn lemma_stats_table_sorted(files: Seq<FileEntry>)
    ensures
        sorted_strict(stats_table(files)),
    decreases files.len(),
{
    if files.len() > 0 {
        lemma_stats_table_sorted(files.drop_last());
        lemma_add_file_props(stats_table(files.drop_last()), files.last());
    }
}

/// Totals are nonnegative, and per-key totals are bounded by the whole.
proof fn lemma_key_sums_bounds(files: Seq<FileEntry>, k: Seq<char>)
    ensures
        0 <= key_count(files, k) <= files.len(),
        0 <= key_lines(files, k) <= sum_lines(files),
        0 <= key_sizes(files, k) <= sum_sizes(files),
    decreases files.len(),
{
    if files.len() > 0 {
        lemma_key_sums_bounds(files.drop_last(), k);
    }
}

proof fn lemma_key_count_occurs(files: Seq<FileEntry>, k: Seq<char>)
    requires
        key_count(files, k) != 0,
    ensures
        exists|idx: int| 0 <= idx < files.len() && file_key(#[trigger] files[idx]) == k,
    decreases files.len(),
{
    if files.len() > 0 {
        if file_key(files.last()) == k {
            assert(file_key(files[files.len() - 1]) == k);
        } else {
            lemma_key_count_occurs(files.drop_last(), k);
            let idx = choose|idx: int|
                0 <= idx < files.drop_last().len() && file_key(
                    #[trigger] files.drop_last()[idx],
                ) == k;
            assert(file_key(files[idx]) == k);
        }
    }
}

proof fn lemma_add_file_matches(t: TableModel, files: Seq<FileEntry>, f: FileEntry)
    requires
        sorted_strict(t),
        table_matches(t, files),
        !key_in_table(t, file_key(f)) ==> key_count(files, file_key(f)) == 0,
    ensures
        table_matches(add_file(t, f), files.push(f)),
    decreases t.len(),
{
    let k = file_key(f);
    let a = add_file(t, f);
    let fs2 = files.push(f);
    assert(fs2.drop_last() =~= files);
    assert(fs2.last() == f);
    if t.len() == 0 {
        assert(key_count(files, k) == 0 && key_lines(files, k) == 0 && key_sizes(files, k) == 0)
            by {
            if key_count(files, k) != 0 {
                lemma_key_count_occurs(files, k);
            }
            lemma_key_sums_zero(files, k);
        }
        assert(a[0].1 == key_count(fs2, k));
    } else if t[0].0 == k {
        assert forall|j: int|
            0 <= j < a.len() implies {
            &&& (#[trigger] a[j]).1 == key_count(fs2, a[j].0)
            &&& a[j].2 == key_lines(fs2, a[j].0)
            &&& a[j].3 == key_sizes(fs2, a[j].0)
        } by {
            if j == 0 {
                assert(t[0].1 == key_count(files, k));
            } else {
                assert(a[j] == t[j]);
                assert(t[j].1 == key_count(files, t[j].0));
                lemma_lex_trichotomy(t[j].0, k);
            }
        }
    } else if lex_lt(k, t[0].0) {
        assert(key_count(files, k) == 0 && key_lines(files, k) == 0 && key_sizes(files, k) == 0)
            by {
            if key_in_table(t, k) {
                let n = choose|n: int| 0 <= n < t.len() && (#[trigger] t[n]).0 == k;
                if n > 0 {
                    lemma_lex_transitive(k, t[0].0, t[n].0);
                }
                lemma_lex_trichotomy(k, t[n].0);
            }
            if key_count(files, k) != 0 {
                lemma_key_count_occurs(files, k);
            }
            lemma_key_sums_zero(files, k);
        }
        assert forall|j: int|
            0 <= j < a.len() implies {
            &&& (#[trigger] a[j]).1 == key_count(fs2, a[j].0)
            &&& a[j].2 == key_lines(fs2, a[j].0)
            &&& a[j].3 == key_sizes(fs2, a[j].0)
        } by {
            if j == 0 {
                assert(a[0].1 == key_count(fs2, k));
            } else {
                assert(a[j] == t[j - 1]);
                if j - 1 > 0 {
                    lemma_lex_transitive(k, t[0].0, t[j - 1].0);
                }
                lemma_lex_trichotomy(k, t[j - 1].0);
            }
        }
    } else {
        lemma_lex_trichotomy(k, t[0].0);
        let rest = t.drop_first();
        let arest = add_file(rest, f);
        assert(forall|i: int| 0 <= i < rest.len() ==> (#[trigger] rest[i]) == t[i + 1]);
        assert(!key_in_table(rest, k) ==> !key_in_table(t, k)) by {
            if key_in_table(t, k) {
                let n = choose|n: int| 0 <= n < t.len() && (#[trigger] t[n]).0 == k;
                assert(n > 0);
                assert(rest[n - 1].0 == k);
            }
        }
        lemma_add_file_matches(rest, files, f);
        assert forall|j: int|
            0 <= j < a.len() implies {
            &&& (#[trigger] a[j]).1 == key_count(fs2, a[j].0)
            &&& a[j].2 == key_lines(fs2, a[j].0)
            &&& a[j].3 == key_sizes(fs2, a[j].0)
        } by {
            if j == 0 {
                assert(a[0] == t[0]);
                assert(t[0].1 == key_count(files, t[0].0));
                lemma_lex_trichotomy(t[0].0, k);
            } else {
                assert(a[j] == arest[j - 1]);
            }
        }
    }
}

proof fn lemma_key_sums_zero(files: Seq<FileEntry>, k: Seq<char>)
    requires
        key_count(files, k) == 0,
    ensures
        key_lines(files, k) == 0,
        key_sizes(files, k) == 0,
    decreases files.len(),
{
    if files.len() > 0 {
        lemma_key_sums_bounds(files.drop_last(), k);
        lemma_key_sums_zero(files.drop_last(), k);
    }
}

/// The table of a record sequence matches it: every entry holds exactly the
/// totals of the records with its key, and every record's key has an entry.
pub proof fn lemma_stats_table_matches(files: Seq<FileEntry>)
    ensures
        table_matches(stats_table(files), files),
        table_complete(stats_table(files), files),
    decreases files.len(),
{
    if files.len() > 0 {
        let fs = files.drop_last();
        let f = files.last();
        let k = file_key(f);
        let t = stats_table(fs);
        let a = stats_table(files);
        lemma_stats_table_matches(fs);
        lemma_stats_table_sorted(fs);
        assert(!key_in_table(t, k) ==> key_count(fs, k) == 0) by {
            if key_count(fs, k) != 0 {
                lemma_key_count_occurs(fs, k);
                let idx = choose|idx: int|
                    0 <= idx < fs.len() && file_key(#[trigger] fs[idx]) == k;
                assert(key_in_table(t, file_key(fs[idx])));
            }
        }
        lemma_add_file_matches(t, fs, f);
        assert(fs.push(f) =~= files);
        lemma_add_file_props(t, f);
        assert forall|idx: int|
            0 <= idx < files.len() implies key_in_table(a, file_key(#[trigger] files[idx])) by {
            if idx < files.len() - 1 {
                assert(fs[idx] == files[idx]);
                assert(key_in_table(t, file_key(fs[idx])));
                let n = choose|n: int|
                    0 <= n < t.len() && (#[trigger] t[n]).0 == file_key(fs[idx]);
                assert(key_in_table(a, t[n].0));
            } else {
                assert(file_key(files[idx]) == k);
            }
        }
    }
}

proof fn lemma_add_file_splice(t: TableModel, f: FileEntry, j: int)
    requires
        sorted_strict(t),
        0 <= j <= t.len(),
        forall|m: int| 0 <= m < j ==> lex_lt((#[trigger] t[m]).0, file_key(f)),
        j < t.len() ==> !lex_lt(t[j].0, file_key(f)),
    ensures
        j < t.len() && t[j].0 == file_key(f) ==> add_file(t, f) == t.update(
            j,
            (t[j].0, t[j].1 + 1, t[j].2 + f.lines, t[j].3 + f.size),
        ),
        !(j < t.len() && t[j].0 == file_key(f)) ==> add_file(t, f) == t.insert(
            j,
            (file_key(f), 1int, f.lines as int, f.size as int),
        ),
    decreases t.len(),
{
    let k = file_key(f);
    let a = add_file(t, f);
    if t.len() == 0 {
        assert(a =~= t.insert(0, (k, 1int, f.lines as int, f.size as int)));
    } else if j == 0 {
        if t[0].0 == k {
            assert(a =~= t.update(0, (t[0].0, t[0].1 + 1, t[0].2 + f.lines, t[0].3 + f.size)));
        } else {
            lemma_lex_trichotomy(k, t[0].0);
            assert(a =~= t.insert(0, (k, 1int, f.lines as int, f.size as int)));
        }
    } else {
        lemma_lex_trichotomy(k, t[0].0);
        let rest = t.drop_first();
        assert(forall|i: int| 0 <= i < rest.len() ==> (#[trigger] rest[i]) == t[i + 1]);
        lemma_add_file_splice(rest, f, j - 1);
        if j < t.len() && t[j].0 == k {
            assert(a =~= t.update(j, (t[j].0, t[j].1 + 1, t[j].2 + f.lines, t[j].3 + f.size)));
        } else {
            assert(a =~= t.insert(j, (k, 1int, f.lines as int, f.size as int)));
        }
    }
}

/// A prefix's totals are bounded by the whole sequence's.
proof fn lemma_sum_prefix(files: Seq<FileEntry>, i: int)
    requires
        0 <= i <= files.len(),
    ensures
        sum_lines(files.take(i)) <= sum_lines(files),
        sum_sizes(files.take(i)) <= sum_sizes(files),
    decreases files.len() - i,
{
    if i == files.len() {
        assert(files.take(i) =~= files);
    } else {
        lemma_sum_prefix(files, i + 1);
        assert(files.take(i + 1).drop_last() =~= files.take(i));
        assert(files.take(i + 1).last() == files[i]);
    }
}

/// Folds measured records into the per-extension statistics table, ordered
/// by key: per key, the number of records, their total line count and their
/// total size. The run's totals must fit the machine's integer types.
pub fn aggregate(files: &Vec<FileEntry>) -> (t: Vec<(String, SrcStats)>)
    requires
        sum_lines(files@) <= usize::MAX,
        sum_sizes(files@) <= u64::MAX,
    ensures
        table_view(t@) == stats_table(files@),
{
    let mut t: Vec<(String, SrcStats)> = Vec::new();
    let mut i: usize = 0;
    proof {
        assert(table_view(t@) =~= stats_table(files@.take(0)));
    }
    while i < files.len()
        invariant
            i <= files@.len(),
            sum_lines(files@) <= usize::MAX,
            sum_sizes(files@) <= u64::MAX,
            table_view(t@) == stats_table(files@.take(i as int)),
        decreases files@.len() - i,
    {
        let ghost prefix = files@.take(i as int);
        let ghost fval = files@[i as int];
        let f = &files[i];
        let key = ext_key_of(basename_of(f.name.as_str()));
        let mut j: usize = 0;
        while j < t.len() && str_lt(t[j].0.as_str(), key.as_str())
            invariant
                j <= t@.len(),
                table_view(t@) == stats_table(prefix),
                key@ == file_key(fval),
                forall|m: int| 0 <= m < j ==> lex_lt((#[trigger] table_view(t@)[m]).0, key@),
            decreases t@.len() - j,
        {
            proof {
                assert(table_view(t@)[j as int].0 == t@[j as int].0@);
            }
            j = j + 1;
        }
        let ghost tv = table_view(t@);
        proof {
            lemma_stats_table_sorted(prefix);
            lemma_stats_table_matches(prefix);
            lemma_key_sums_bounds(prefix, key@);
            lemma_sum_prefix(files@, i + 1);
            assert(files@.take(i + 1).drop_last() =~= prefix);
            assert(files@.take(i + 1).last() == fval);
            assert(j < t@.len() ==> tv[j as int].0 == t@[j as int].0@);
            lemma_add_file_splice(tv, fval, j as int);
        }
        if j < t.len() && eq_str(t[j].0.as_str(), key.as_str()) {
            let entry = t.remove(j);
            let s = entry.1;
            proof {
                assert(tv[j as int].1 == key_count(prefix, key@));
                assert(tv[j as int].2 == key_lines(prefix, key@));
                assert(tv[j as int].3 == key_sizes(prefix, key@));
                assert(key_count(prefix, key@) <= prefix.len());
                assert(sum_lines(files@.take(i + 1)) <= sum_lines(files@));
                assert(sum_sizes(files@.take(i + 1)) <= sum_sizes(files@));
            }
            let updated = SrcStats {
                files: s.files + 1,
                lines: s.lines + f.lines,
                size: s.size + f.size,
            };
            t.insert(j, (entry.0, updated));
            proof {
                assert(table_view(t@) =~= add_file(tv, fval));
            }
        } else {
            t.insert(j, (key, SrcStats { files: 1, lines: f.lines, size: f.size }));
            proof {
                assert(table_view(t@) =~= add_file(tv, fval));
            }
        }
        i = i + 1;
    }
    proof {
        assert(files@.take(i as int) =~= files@);
    }
    t
}

/// The total row of a statistics table: the sum of its entries.
pub fn total_stats(table: &Vec<(String, SrcStats)>) -> (r: SrcStats)
    requires
        table_files(table_view(table@)) <= usize::MAX,
        table_lines(table_view(table@)) <= usize::MAX,
        table_sizes(table_view(table@)) <= u64::MAX,
    ensures
        r.files == table_files(table_view(table@)),
        r.lines == table_lines(table_view(table@)),
        r.size == table_sizes(table_view(table@)),
{
    let mut r = SrcStats { files: 0, lines: 0, size: 0 };
    let mut i: usize = 0;
    proof {
        assert(table_view(table@).take(0) =~= Seq::<EntryModel>::empty());
        lemma_table_sums_prefix(table_view(table@), 0);
    }
    while i < table.len()
        invariant
            i <= table@.len(),
            table_files(table_view(table@)) <= usize::MAX,
            table_lines(table_view(table@)) <= usize::MAX,
            table_sizes(table_view(table@)) <= u64::MAX,
            r.files == table_files(table_view(table@).take(i as int)),
            r.lines == table_lines(table_view(table@).take(i as int)),
            r.size == table_sizes(table_view(table@).take(i as int)),
        decreases table@.len() - i,
    {
        let ghost tv = table_view(table@);
        proof {
            lemma_table_sums_prefix(tv, i + 1);
            assert(tv.take(i + 1).drop_last() =~= tv.take(i as int));
            assert(tv.take(i + 1).last() == tv[i as int]);
            assert(tv[i as int].1 == table[i as int].1.files as int);
        }
        let s = table[i].1;
        r = SrcStats { files: r.files + s.files, lines: r.lines + s.lines, size: r.size + s.size };
        i = i + 1;
    }
    proof {
        assert(table_view(table@).take(i as int) =~= table_view(table@));
    }
    r
}

/// Total file count over a table's entries.
pub open spec fn table_files(t: TableModel) -> int
    decreases t.len(),
{
    if t.len() == 0 {
        0
    } else {
        table_files(t.drop_last()) + t.last().1
    }
}

/// Total line count over a table's entries.
pub open spec fn table_lines(t: TableModel) -> int
    decreases t.len(),
{
    if t.len() == 0 {
        0
    } else {
        table_lines(t.drop_last()) + t.last().2
    }
}

/// Total size over a table's entries.
pub open spec fn table_sizes(t: TableModel) -> int
    decreases t.len(),
{
    if t.len() == 0 {
        0
    } else {
        table_sizes(t.drop_last()) + t.last().3
    }
}

proof fn lemma_table_sums_prefix(t: TableModel, i: int)
    requires
        0 <= i <= t.len(),
        forall|m: int| 0 <= m < t.len() ==> (#[trigger] t[m]).1 >= 0 && t[m].2 >= 0 && t[m].3 >= 0,
    ensures
        table_files(t.take(i)) <= table_files(t),
        table_lines(t.take(i)) <= table_lines(t),
        table_sizes(t.take(i)) <= table_sizes(t),
    decreases t.len() - i,
{
    if i == t.len() {
        assert(t.take(i) =~= t);
    } else {
        lemma_table_sums_prefix(t, i + 1);
        assert(t.take(i + 1).drop_last() =~= t.take(i));
        assert(t.take(i + 1).last() == t[i]);
    }
}

proof fn lemma_table_sums_prepend(e: EntryModel, s: TableModel)
    ensures
        table_files(seq![e] + s) == e.1 + table_files(s),
        table_lines(seq![e] + s) == e.2 + table_lines(s),
        table_sizes(seq![e] + s) == e.3 + table_sizes(s),
    decreases s.len(),
{
    if s.len() == 0 {
        let single = seq![e] + s;
        assert(single =~= seq![e]);
        assert(single.len() == 1);
        assert(single.drop_last() =~= Seq::<EntryModel>::empty());
        assert(table_files(single.drop_last()) == 0);
        assert(table_files(single) == table_files(single.drop_last()) + single.last().1);
        assert(single.last() == e);
        assert(table_files(s) == 0);
        assert(table_lines(single) == table_lines(single.drop_last()) + single.last().2);
        assert(table_sizes(single) == table_sizes(single.drop_last()) + single.last().3);
    } else {
        lemma_table_sums_prepend(e, s.drop_last());
        let whole = seq![e] + s;
        assert(whole.len() == s.len() + 1);
        assert(whole.drop_last() =~= seq![e] + s.drop_last());
        assert(whole.last() == s.last());
        assert(table_files(whole) == table_files(whole.drop_last()) + whole.last().1);
        assert(table_lines(whole) == table_lines(whole.drop_last()) + whole.last().2);
        assert(table_sizes(whole) == table_sizes(whole.drop_last()) + whole.last().3);
    }
}

proof fn lemma_add_file_sums(t: TableModel, f: FileEntry)
    ensures
        table_files(add_file(t, f)) == table_files(t) + 1,
        table_lines(add_file(t, f)) == table_lines(t) + f.lines,
        table_sizes(add_file(t, f)) == table_sizes(t) + f.size,
    decreases t.len(),
{
    let k = file_key(f);
    let a = add_file(t, f);
    if t.len() == 0 {
        assert(a.drop_last() =~= Seq::<EntryModel>::empty());
        assert(table_files(a.drop_last()) == 0);
        assert(table_lines(a.drop_last()) == 0);
        assert(table_sizes(a.drop_last()) == 0);
        assert(a.last() == (k, 1int, f.lines as int, f.size as int));
        assert(table_files(a) == table_files(t) + 1);
        assert(table_lines(a) == table_lines(t) + f.lines);
        assert(table_sizes(a) == table_sizes(t) + f.size);
    } else if t[0].0 == k {
        lemma_table_sums_prepend((t[0].0, t[0].1 + 1, t[0].2 + f.lines, t[0].3 + f.size),
            t.drop_first());
        lemma_table_sums_prepend(t[0], t.drop_first());
        assert(t =~= seq![t[0]] + t.drop_first());
        assert(a == seq![(t[0].0, t[0].1 + 1, t[0].2 + f.lines, t[0].3 + f.size)]
            + t.drop_first());
        assert(table_files(a) == table_files(t) + 1);
        assert(table_lines(a) == table_lines(t) + f.lines);
        assert(table_sizes(a) == table_sizes(t) + f.size);
    } else if lex_lt(k, t[0].0) {
        lemma_table_sums_prepend((k, 1int, f.lines as int, f.size as int), t);
        assert(table_files(a) == table_files(t) + 1);
        assert(table_lines(a) == table_lines(t) + f.lines);
        assert(table_sizes(a) == table_sizes(t) + f.size);
    } else {
        lemma_add_file_sums(t.drop_first(), f);
        lemma_table_sums_prepend(t[0], add_file(t.drop_first(), f));
        lemma_table_sums_prepend(t[0], t.drop_first());
        assert(t =~= seq![t[0]] + t.drop_first());
        assert(table_files(a) == table_files(t) + 1);
        assert(table_lines(a) == table_lines(t) + f.lines);
        assert(table_sizes(a) == table_sizes(t) + f.size);
    }
}

/// Aggregation is lossless: the table's total file count, line count and
/// size equal the sums over the records themselves.
pub proof fn lemma_aggregation_lossless(files: Seq<FileEntry>)
    ensures
        table_files(stats_table(files)) == files.len(),
        table_lines(stats_table(files)) == sum_lines(files),
        table_sizes(stats_table(files)) == sum_sizes(files),
    decreases files.len(),
{
    if files.len() > 0 {
        lemma_aggregation_lossless(files.drop_last());
        lemma_add_file_sums(stats_table(files.drop_last()), files.last());
    }
}

proof fn lemma_key_sums_remove_one(files: Seq<FileEntry>, i: int, k: Seq<char>)
    requires
        0 <= i < files.len(),
    ensures
        key_count(files, k) == key_count(files.remove(i), k) + (if file_key(files[i]) == k {
            1int
        } else {
            0int
        }),
        key_lines(files, k) == key_lines(files.remove(i), k) + (if file_key(files[i]) == k {
            files[i].lines as int
        } else {
            0int
        }),
        key_sizes(files, k) == key_sizes(files.remove(i), k) + (if file_key(files[i]) == k {
            files[i].size as int
        } else {
            0int
        }),
    decreases files.len(),
{
    if i == files.len() - 1 {
        assert(files.remove(i) =~= files.drop_last());
    } else {
        lemma_key_sums_remove_one(files.drop_last(), i, k);
        assert(files.remove(i).drop_last() =~= files.drop_last().remove(i));
        assert(files.remove(i).last() == files.last());
    }
}

/// Per-key totals do not depend on the records' order.
pub proof fn lemma_key_sums_permutation(l1: Seq<FileEntry>, l2: Seq<FileEntry>, k: Seq<char>)
    requires
        l1.to_multiset() == l2.to_multiset(),
    ensures
        key_count(l1, k) == key_count(l2, k),
        key_lines(l1, k) == key_lines(l2, k),
        key_sizes(l1, k) == key_sizes(l2, k),
    decreases l1.len(),
{
    broadcast use vstd::seq_lib::group_to_multiset_ensures;

    if l1.len() > 0 {
        let a = l1.last();
        assert(l1.to_multiset().count(a) > 0) by {
            assert(l1.contains(a));
        }
        assert(l2.contains(a));
        let i = choose|i: int| 0 <= i < l2.len() && l2[i] == a;
        assert(l1.drop_last() =~= l1.remove(l1.len() - 1));
        assert(l1.drop_last().to_multiset() == l2.remove(i).to_multiset()) by {
            assert(l1.remove(l1.len() - 1).to_multiset() =~= l1.to_multiset().remove(a));
            assert(l2.remove(i).to_multiset() =~= l2.to_multiset().remove(a));
        }
        lemma_key_sums_permutation(l1.drop_last(), l2.remove(i), k);
        lemma_key_sums_remove_one(l2, i, k);
    } else {
        assert(l2.to_multiset().len() == 0);
        if l2.len() > 0 {
            assert(l2.contains(l2[0]));
            assert(l2.to_multiset().count(l2[0]) > 0);
        }
    }
}

proof fn lemma_key_occurrence_counts(files: Seq<FileEntry>, idx: int)
    requires
        0 <= idx < files.len(),
    ensures
        key_count(files, file_key(files[idx])) >= 1,
    decreases files.len(),
{
    lemma_key_sums_bounds(files.drop_last(), file_key(files[idx]));
    if idx < files.len() - 1 {
        lemma_key_occurrence_counts(files.drop_last(), idx);
    }
}

proof fn lemma_stats_table_keys_occur(files: Seq<FileEntry>)
    ensures
        forall|j: int|
            0 <= j < stats_table(files).len() ==> exists|idx: int|
                0 <= idx < files.len() && (#[trigger] stats_table(files)[j]).0 == file_key(
                    files[idx],
                ),
    decreases files.len(),
{
    if files.len() > 0 {
        let fs = files.drop_last();
        let t = stats_table(fs);
        let a = stats_table(files);
        lemma_stats_table_keys_occur(fs);
        lemma_stats_table_sorted(fs);
        lemma_add_file_props(t, files.last());
        assert forall|j: int|
            0 <= j < a.len() implies exists|idx: int|
            0 <= idx < files.len() && (#[trigger] a[j]).0 == file_key(files[idx]) by {
            if key_in_table(t, a[j].0) {
                let n = choose|n: int| 0 <= n < t.len() && (#[trigger] t[n]).0 == a[j].0;
                let idx = choose|idx: int|
                    0 <= idx < fs.len() && (#[trigger] t[n]).0 == file_key(fs[idx]);
                assert(a[j].0 == file_key(files[idx]));
            } else {
                assert(a[j].0 == file_key(files[files.len() - 1]));
            }
        }
    }
}

proof fn lemma_sorted_tables_unique(t1: TableModel, t2: TableModel)
    requires
        sorted_strict(t1),
        sorted_strict(t2),
        forall|j: int| 0 <= j < t1.len() ==> key_in_table(t2, (#[trigger] t1[j]).0),
        forall|j: int| 0 <= j < t2.len() ==> key_in_table(t1, (#[trigger] t2[j]).0),
        forall|j: int, m: int|
            0 <= j < t1.len() && 0 <= m < t2.len() && (#[trigger] t1[j]).0 == (#[trigger] t2[m]).0
                ==> t1[j] == t2[m],
    ensures
        t1 == t2,
    decreases t1.len(),
{
    if t1.len() == 0 {
        if t2.len() > 0 {
            assert(key_in_table(t1, t2[0].0));
        }
        assert(t1 =~= t2);
    } else {
        assert(key_in_table(t2, t1[0].0));
        let m = choose|m: int| 0 <= m < t2.len() && (#[trigger] t2[m]).0 == t1[0].0;
        assert(key_in_table(t1, t2[0].0));
        let n = choose|n: int| 0 <= n < t1.len() && (#[trigger] t1[n]).0 == t2[0].0;
        if m > 0 {
            // t2[0].0 < t2[m].0 == t1[0].0 <= t1[n].0 == t2[0].0: impossible
            assert(lex_lt(t2[0].0, t2[m].0));
            if n > 0 {
                assert(lex_lt(t1[0].0, t1[n].0));
                lemma_lex_transitive(t2[0].0, t1[0].0, t2[0].0);
                lemma_lex_trichotomy(t2[0].0, t2[0].0);
            } else {
                lemma_lex_trichotomy(t2[0].0, t1[0].0);
            }
        }
        assert(t1[0] == t2[0]);
        let r1 = t1.drop_first();
        let r2 = t2.drop_first();
        assert(forall|i: int| 0 <= i < r1.len() ==> (#[trigger] r1[i]) == t1[i + 1]);
        assert(forall|i: int| 0 <= i < r2.len() ==> (#[trigger] r2[i]) == t2[i + 1]);
        assert forall|j: int| 0 <= j < r1.len() implies key_in_table(r2, (#[trigger] r1[j]).0) by {
            assert(key_in_table(t2, t1[j + 1].0));
            let w = choose|w: int| 0 <= w < t2.len() && (#[trigger] t2[w]).0 == t1[j + 1].0;
            if w == 0 {
                // r1's key would equal the shared head key, yet heads are
                // strictly below their tails
                assert(lex_lt(t1[0].0, t1[j + 1].0));
                lemma_lex_trichotomy(t1[0].0, t1[j + 1].0);
                assert(false);
            }
            assert(r2[w - 1].0 == r1[j].0);
        }
        assert forall|j: int| 0 <= j < r2.len() implies key_in_table(r1, (#[trigger] r2[j]).0) by {
            assert(key_in_table(t1, t2[j + 1].0));
            let w = choose|w: int| 0 <= w < t1.len() && (#[trigger] t1[w]).0 == t2[j + 1].0;
            if w == 0 {
                assert(lex_lt(t2[0].0, t2[j + 1].0));
                lemma_lex_trichotomy(t2[0].0, t2[j + 1].0);
                assert(false);
            }
            assert(r1[w - 1].0 == r2[j].0);
        }
        lemma_sorted_tables_unique(r1, r2);
        assert forall|i: int| 0 <= i < t1.len() implies t1[i] == t2[i] by {
            if i > 0 {
                assert(t1[i] == r1[i - 1]);
                assert(t2[i] == r2[i - 1]);
            }
        }
        assert(t1 =~= t2);
    }
}

/// Aggregation does not depend on the records' order: any reordering of the
/// records yields the same table. This is what allows the measurement stage
/// to run in parallel and the partial results to be merged in any order.
pub proof fn lemma_aggregation_order_independent(l1: Seq<FileEntry>, l2: Seq<FileEntry>)
    requires
        l1.to_multiset() == l2.to_multiset(),
    ensures
        stats_table(l1) == stats_table(l2),
{
    let t1 = stats_table(l1);
    let t2 = stats_table(l2);
    lemma_stats_table_sorted(l1);
    lemma_stats_table_sorted(l2);
    lemma_stats_table_matches(l1);
    lemma_stats_table_matches(l2);
    lemma_stats_table_keys_occur(l1);
    lemma_stats_table_keys_occur(l2);
    assert forall|j: int| 0 <= j < t1.len() implies key_in_table(t2, (#[trigger] t1[j]).0) by {
        let idx = choose|idx: int| 0 <= idx < l1.len() && (#[trigger] t1[j]).0 == file_key(l1[idx]);
        lemma_key_occurrence_counts(l1, idx);
        lemma_key_sums_permutation(l1, l2, t1[j].0);
        lemma_key_count_occurs(l2, t1[j].0);
        let w = choose|w: int| 0 <= w < l2.len() && file_key(#[trigger] l2[w]) == t1[j].0;
        assert(key_in_table(t2, file_key(l2[w])));
    }
    assert forall|j: int| 0 <= j < t2.len() implies key_in_table(t1, (#[trigger] t2[j]).0) by {
        let idx = choose|idx: int| 0 <= idx < l2.len() && (#[trigger] t2[j]).0 == file_key(l2[idx]);
        lemma_key_occurrence_counts(l2, idx);
        lemma_key_sums_permutation(l1, l2, t2[j].0);
        lemma_key_count_occurs(l1, t2[j].0);
        let w = choose|w: int| 0 <= w < l1.len() && file_key(#[trigger] l1[w]) == t2[j].0;
        assert(key_in_table(t1, file_key(l1[w])));
    }
    assert forall|j: int, m: int|
        0 <= j < t1.len() && 0 <= m < t2.len() && (#[trigger] t1[j]).0 == (#[trigger] t2[m]).0
        implies t1[j] == t2[m] by {
        lemma_key_sums_permutation(l1, l2, t1[j].0);
    }
    lemma_sorted_tables_unique(t1, t2);
}

proof fn lemma_add_file_congruent(t: TableModel, f: FileEntry, g: FileEntry)
    requires
        file_key(f) == file_key(g),
        f.lines == g.lines,
        f.size == g.size,
    ensures
        add_file(t, f) == add_file(t, g),
    decreases t.len(),
{
    if t.len() > 0 && t[0].0 != file_key(f) && !lex_lt(file_key(f), t[0].0) {
        lemma_add_file_congruent(t.drop_first(), f, g);
    }
}

/// True when the two record sequences carry the same data: equal paths (as
/// character sequences), line counts and sizes, in the same order.
pub open spec fn entries_match(l1: Seq<FileEntry>, l2: Seq<FileEntry>) -> bool {
    &&& l1.len() == l2.len()
    &&& forall|i: int|
        0 <= i < l1.len() ==> {
            &&& (#[trigger] l1[i]).name@ == (#[trigger] l2[i]).name@
            &&& l1[i].lines == l2[i].lines
            &&& l1[i].size == l2[i].size
        }
}

/// Two runs over the same measured data aggregate to the same table, even
/// when the records are distinct allocations: the table is a function of the
/// records' paths, line counts and sizes alone.
pub proof fn lemma_aggregation_idempotent(l1: Seq<FileEntry>, l2: Seq<FileEntry>)
    requires
        entries_match(l1, l2),
    ensures
        stats_table(l1) == stats_table(l2),
    decreases l1.len(),
{
    if l1.len() > 0 {
        assert(entries_match(l1.drop_last(), l2.drop_last()));
        lemma_aggregation_idempotent(l1.drop_last(), l2.drop_last());
        lemma_add_file_congruent(stats_table(l2.drop_last()), l1.last(), l2.last());
    }
}

} // verus!
