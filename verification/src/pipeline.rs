//! The whole pipeline over an in-memory tree: enumerate, measure, aggregate.
//!
//! The binary mirrors this composition over a real filesystem or a git tree;
//! here every stage is the verified one, so the pipeline's behaviour — which
//! files appear, their measurements, and the statistics table — is a
//! function of the tree and the configuration alone.

use vstd::prelude::*;
use vstd::utf8::decode_utf8;
use vstd::utf8::valid_utf8;

use crate::config::Settings;
use crate::measure::lemma_line_count_le_len;
use crate::measure::line_count;
use crate::measure::measure;
use crate::ranking::rank_spec;
use crate::ranking::lemma_ranking_idempotent;
use crate::stats::FileEntry;
use crate::stats::SrcStats;
use crate::stats::aggregate;
use crate::stats::entries_match;
use crate::stats::lemma_aggregation_idempotent;
use crate::stats::stats_table;
use crate::stats::sum_lines;
use crate::stats::sum_sizes;
use crate::stats::table_view;
use crate::walk::SourceFile;
use crate::walk::Tree;
use crate::walk::enumerate;
use crate::walk::sources_view;
use crate::walk::str_views;
use crate::walk::tree_model;
use crate::walk::TreeModel;
use crate::walk::walk_accepted;
use crate::walk::walk_visited;

verus! {

/// The model of a measured record list: each record's path, line count and
/// size.
pub open spec fn entry_views(files: Seq<FileEntry>) -> Seq<(Seq<char>, int, int)> {
    files.map_values(|f: FileEntry| (f.name@, f.lines as int, f.size as int))
}

/// What measuring one enumerated file yields: its record — or nothing, when
/// character-mode decoding fails, a per-file failure.
pub open spec fn measure_one(e: (Seq<char>, Seq<u8>), utf8: bool) -> Seq<(Seq<char>, int, int)> {
    if utf8 {
        if valid_utf8(e.1) {
            seq![(e.0, line_count(e.1) as int, decode_utf8(e.1).len() as int)]
        } else {
            Seq::empty()
        }
    } else {
        seq![(e.0, line_count(e.1) as int, e.1.len() as int)]
    }
}

/// The records of measuring a list of enumerated files, in order.
pub open spec fn measured(entries: Seq<(Seq<char>, Seq<u8>)>, utf8: bool) -> Seq<
    (Seq<char>, int, int),
>
    decreases entries.len(),
{
    if entries.len() == 0 {
        Seq::empty()
    } else {
        measured(entries.drop_last(), utf8) + measure_one(entries.last(), utf8)
    }
}

/// Total line count over record models.
pub open spec fn rec_lines_sum(rs: Seq<(Seq<char>, int, int)>) -> int
    decreases rs.len(),
{
    if rs.len() == 0 {
        0
    } else {
        rec_lines_sum(rs.drop_last()) + rs.last().1
    }
}

/// Total size over record models.
pub open spec fn rec_sizes_sum(rs: Seq<(Seq<char>, int, int)>) -> int
    decreases rs.len(),
{
    if rs.len() == 0 {
        0
    } else {
        rec_sizes_sum(rs.drop_last()) + rs.last().2
    }
}

/// What the pipeline measures for a tree: the accepted files of a walk below
/// an empty prefix, each measured.
pub open spec fn pipeline_records(
    t: TreeModel,
    ignore: Seq<Seq<char>>,
    exts: Seq<Seq<char>>,
    utf8: bool,
) -> Seq<(Seq<char>, int, int)> {
    measured(walk_accepted(t, ignore, exts, Seq::empty()), utf8)
}

/// Measures every enumerated file: line count, and byte length or decoded
/// character count as the size. A file that fails to decode in character
/// mode is dropped; the others keep their order.
pub fn measure_all(sources: &Vec<SourceFile>, utf8: bool) -> (r: Vec<FileEntry>)
    ensures
        entry_views(r@) == measured(sources_view(sources@), utf8),
{
    let ghost sv = sources_view(sources@);
    let mut r: Vec<FileEntry> = Vec::new();
    let mut i: usize = 0;
    proof {
        assert(sv.take(0) =~= Seq::<(Seq<char>, Seq<u8>)>::empty());
        assert(entry_views(r@) =~= measured(sv.take(0), utf8));
    }
    while i < sources.len()
        invariant
            i <= sources@.len(),
            sv == sources_view(sources@),
            sv.len() == sources@.len(),
            entry_views(r@) == measured(sv.take(i as int), utf8),
        decreases sources@.len() - i,
    {
        let s = &sources[i];
        proof {
            assert(sv.take(i + 1).drop_last() =~= sv.take(i as int));
            assert(sv.take(i + 1).last() == sv[i as int]);
            assert(sv[i as int] == (s.path@, s.content@));
            lemma_line_count_le_len(s.content@);
        }
        let size = s.content.len() as u64;
        match measure(&s.content, utf8, size) {
            Some(m) => {
                r.push(FileEntry { name: s.path.clone(), lines: m.0, size: m.1 });
                proof {
                    assert(entry_views(r@) =~= entry_views(r@.drop_last()).push(
                        (r@.last().name@, r@.last().lines as int, r@.last().size as int),
                    ));
                    assert(entry_views(r@) =~= measured(sv.take(i + 1), utf8));
                }
            },
            None => {
                proof {
                    assert(entry_views(r@) =~= measured(sv.take(i + 1), utf8));
                }
            },
        }
        i = i + 1;
    }
    proof {
        assert(sv.take(i as int) =~= sv);
    }
    r
}

proof fn lemma_sums_from_views(files: Seq<FileEntry>)
    ensures
        sum_lines(files) == rec_lines_sum(entry_views(files)),
        sum_sizes(files) == rec_sizes_sum(entry_views(files)),
    decreases files.len(),
{
    if files.len() > 0 {
        lemma_sums_from_views(files.drop_last());
        assert(entry_views(files).drop_last() =~= entry_views(files.drop_last()));
        assert(entry_views(files).last() == (
            files.last().name@,
            files.last().lines as int,
            files.last().size as int,
        ));
    } else {
        assert(entry_views(files).len() == 0);
    }
}

/// Runs the pipeline over an in-memory tree: walks it below an empty prefix
/// — so the root node's own name heads every path — measures every accepted
/// file, and aggregates the per-extension table. Returns the measured
/// records, the table, and how many entries the walk visited.
pub fn process_files(tree: &Tree, settings: &Settings) -> (r: (
    Vec<FileEntry>,
    Vec<(String, SrcStats)>,
    u64,
))
    requires
        walk_visited(tree_model(*tree), str_views(settings.ignore_dirs@)) <= u64::MAX,
        rec_lines_sum(
            pipeline_records(
                tree_model(*tree),
                str_views(settings.ignore_dirs@),
                str_views(settings.extensions@),
                settings.utf8,
            ),
        ) <= usize::MAX,
        rec_sizes_sum(
            pipeline_records(
                tree_model(*tree),
                str_views(settings.ignore_dirs@),
                str_views(settings.extensions@),
                settings.utf8,
            ),
        ) <= u64::MAX,
    ensures
        entry_views(r.0@) == pipeline_records(
            tree_model(*tree),
            str_views(settings.ignore_dirs@),
            str_views(settings.extensions@),
            settings.utf8,
        ),
        table_view(r.1@) == stats_table(r.0@),
        r.2 == walk_visited(tree_model(*tree), str_views(settings.ignore_dirs@)),
{
    let mut sources: Vec<SourceFile> = Vec::new();
    let mut visited: u64 = 0;
    proof {
        reveal_strlit("");
        assert(""@ =~= Seq::<char>::empty());
        assert(sources_view(sources@) =~= Seq::<(Seq<char>, Seq<u8>)>::empty());
    }
    enumerate(tree, settings, "", &mut sources, &mut visited);
    proof {
        assert(sources_view(sources@) =~= walk_accepted(
            tree_model(*tree),
            str_views(settings.ignore_dirs@),
            str_views(settings.extensions@),
            Seq::empty(),
        ));
    }
    let files = measure_all(&sources, settings.utf8);
    proof {
        lemma_sums_from_views(files@);
    }
    let table = aggregate(&files);
    (files, table, visited)
}

/// Two runs of the pipeline over unmodified data yield identical statistics
/// and matching rankings: every stage is a function of the measured records'
/// paths, line counts and sizes alone.
pub proof fn lemma_pipeline_idempotent(l1: Seq<FileEntry>, l2: Seq<FileEntry>, k: int)
    requires
        entry_views(l1) == entry_views(l2),
    ensures
        stats_table(l1) == stats_table(l2),
        entries_match(rank_spec(l1, k), rank_spec(l2, k)),
{
    assert(entries_match(l1, l2)) by {
        assert(entry_views(l1).len() == l1.len());
        assert(entry_views(l2).len() == l2.len());
        assert forall|i: int|
            0 <= i < l1.len() implies {
            &&& (#[trigger] l1[i]).name@ == (#[trigger] l2[i]).name@
            &&& l1[i].lines == l2[i].lines
            &&& l1[i].size == l2[i].size
        } by {
            assert(entry_views(l1)[i] == (l1[i].name@, l1[i].lines as int, l1[i].size as int));
            assert(entry_views(l2)[i] == (l2[i].name@, l2[i].lines as int, l2[i].size as int));
        }
    }
    lemma_aggregation_idempotent(l1, l2);
    lemma_ranking_idempotent(l1, l2, k);
}

} // verus!
