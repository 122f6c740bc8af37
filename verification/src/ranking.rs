//! Ranking of files by line count.
//!
//! The ranker sorts the measured records by descending line count with a
//! stable insertion sort — records with equal line counts keep their input
//! order — and exposes the top `k`, cutting the prefix short at the first
//! record with no lines: empty files are never shown.

use vstd::prelude::*;

use crate::stats::FileEntry;
use crate::stats::entries_match;

verus! {

/// Inserts `f` into a descending-sorted sequence, after every record with at
/// least as many lines, so that records with equal line counts keep their
/// original order.
pub open spec fn insert_desc(s: Seq<FileEntry>, f: FileEntry) -> Seq<FileEntry>
    decreases s.len(),
{
    if s.len() == 0 {
        seq![f]
    } else if s[0].lines >= f.lines {
        seq![s[0]] + insert_desc(s.drop_first(), f)
    } else {
        seq![f] + s
    }
}

/// Stable sort by descending line count: each record, in input order, is
/// inserted after its equals.
pub open spec fn sort_desc(s: Seq<FileEntry>) -> Seq<FileEntry>
    decreases s.len(),
{
    if s.len() == 0 {
        Seq::empty()
    } else {
        insert_desc(sort_desc(s.drop_last()), s.last())
    }
}

/// Line counts are non-increasing.
pub open spec fn sorted_desc(s: Seq<FileEntry>) -> bool {
    forall|i: int, j: int| 0 <= i < j < s.len() ==> (#[trigger] s[i]).lines >= (#[trigger] s[j]).lines
}

/// The ranked prefix of a sorted sequence: at most `k` records, ending
/// before the first record with no lines.
pub open spec fn take_ranked(s: Seq<FileEntry>, k: int) -> Seq<FileEntry>
    decreases s.len(),
{
    if k <= 0 || s.len() == 0 || s[0].lines == 0 {
        Seq::empty()
    } else {
        seq![s[0]] + take_ranked(s.drop_first(), k - 1)
    }
}

/// What the ranking shows for `files` and a cutoff `k`.
pub open spec fn rank_spec(files: Seq<FileEntry>, k: int) -> Seq<FileEntry> {
    take_ranked(sort_desc(files), k)
}

proof fn lemma_insert_desc_props(s: Seq<FileEntry>, f: FileEntry)
    requires
        sorted_desc(s),
    ensures
        sorted_desc(insert_desc(s, f)),
        insert_desc(s, f).len() == s.len() + 1,
        insert_desc(s, f).to_multiset() == s.push(f).to_multiset(),
    decreases s.len(),
{
    broadcast use vstd::seq_lib::group_to_multiset_ensures;

    let r = insert_desc(s, f);
    if s.len() == 0 {
        assert(r =~= Seq::<FileEntry>::empty().push(f));
        assert(s.push(f) =~= Seq::<FileEntry>::empty().push(f));
    } else if s[0].lines >= f.lines {
        let rest = s.drop_first();
        assert(forall|i: int| 0 <= i < rest.len() ==> (#[trigger] rest[i]) == s[i + 1]);
        lemma_insert_desc_props(rest, f);
        let rr = insert_desc(rest, f);
        assert(forall|i: int| 1 <= i < r.len() ==> (#[trigger] r[i]) == rr[i - 1]);
        // every record of the inserted tail has at most the head's lines
        assert forall|j: int| 1 <= j < r.len() implies s[0].lines >= r[j].lines by {
            assert(rr.to_multiset().count(rr[j - 1]) > 0);
            assert(rest.push(f).to_multiset().count(rr[j - 1]) > 0);
            assert(rest.push(f).contains(rr[j - 1]));
            let w = choose|w: int| 0 <= w < rest.push(f).len() && rest.push(f)[w] == rr[j - 1];
            if w < rest.len() {
                assert(rr[j - 1] == s[w + 1]);
            } else {
                assert(rr[j - 1] == f);
            }
        }
        assert(sorted_desc(r));
        assert(r =~= seq![s[0]] + rr);
        assert(r.to_multiset() == s.push(f).to_multiset()) by {
            assert(r =~= rr.insert(0, s[0]));
            assert(r.to_multiset() =~= rr.to_multiset().insert(s[0]));
            assert(rest.push(f).insert(0, s[0]) =~= s.push(f));
            assert(rest.push(f).insert(0, s[0]).to_multiset() =~= rest.push(
                f,
            ).to_multiset().insert(s[0]));
        }
    } else {
        assert(forall|i: int| 1 <= i < r.len() ==> (#[trigger] r[i]) == s[i - 1]);
        assert forall|i: int, j: int|
            0 <= i < j < r.len() implies (#[trigger] r[i]).lines >= (#[trigger] r[j]).lines by {
            if i == 0 && j > 1 {
                assert(s[0].lines >= s[j - 1].lines);
            }
        }
        assert(r.to_multiset() == s.push(f).to_multiset()) by {
            assert(r =~= s.insert(0, f));
            assert(r.to_multiset() =~= s.to_multiset().insert(f));
            assert(s.push(f).to_multiset() =~= s.to_multiset().insert(f));
        }
    }
}

/// Sorting by descending line count yields a sorted permutation of the
/// records.
pub proof fn lemma_sort_desc_props(s: Seq<FileEntry>)
    ensures
        sorted_desc(sort_desc(s)),
        sort_desc(s).len() == s.len(),
        sort_desc(s).to_multiset() == s.to_multiset(),
    decreases s.len(),
{
    broadcast use vstd::seq_lib::group_to_multiset_ensures;

    if s.len() > 0 {
        lemma_sort_desc_props(s.drop_last());
        lemma_insert_desc_props(sort_desc(s.drop_last()), s.last());
        assert(s.drop_last().push(s.last()) =~= s);
    }
}

proof fn lemma_insert_desc_at(s: Seq<FileEntry>, f: FileEntry, j: int)
    requires
        0 <= j <= s.len(),
        forall|m: int| 0 <= m < j ==> (#[trigger] s[m]).lines >= f.lines,
        j < s.len() ==> s[j].lines < f.lines,
    ensures
        insert_desc(s, f) == s.insert(j, f),
    decreases s.len(),
{
    if s.len() == 0 {
        assert(insert_desc(s, f) =~= s.insert(0, f));
    } else if j == 0 {
        assert(insert_desc(s, f) =~= s.insert(0, f));
    } else {
        let rest = s.drop_first();
        assert(forall|i: int| 0 <= i < rest.len() ==> (#[trigger] rest[i]) == s[i + 1]);
        lemma_insert_desc_at(rest, f, j - 1);
        assert(seq![s[0]] + rest.insert(j - 1, f) =~= s.insert(j, f));
    }
}

proof fn lemma_take_ranked_prefix(s: Seq<FileEntry>, k: int, i: int)
    requires
        0 <= i <= s.len(),
        i <= k,
        forall|m: int| 0 <= m < i ==> (#[trigger] s[m]).lines > 0,
        i < s.len() && i < k ==> s[i].lines == 0,
    ensures
        take_ranked(s, k) == s.take(i),
    decreases s.len(),
{
    if k <= 0 || s.len() == 0 || s[0].lines == 0 {
        assert(i == 0);
        assert(take_ranked(s, k) =~= s.take(0));
    } else {
        let rest = s.drop_first();
        assert(forall|m: int| 0 <= m < rest.len() ==> (#[trigger] rest[m]) == s[m + 1]);
        lemma_take_ranked_prefix(rest, k - 1, i - 1);
        assert(seq![s[0]] + rest.take(i - 1) =~= s.take(i));
    }
}

/// Sorts the records by descending line count; records with equal line
/// counts keep their relative order.
pub fn sort_by_lines_desc(files: &mut Vec<FileEntry>)
    ensures
        final (files)@ == sort_desc(old(files)@),
{
    let ghost input = files@;
    let mut sorted: Vec<FileEntry> = Vec::new();
    let mut i: usize = 0;
    proof {
        assert(input.take(0) =~= Seq::<FileEntry>::empty());
    }
    while i < files.len()
        invariant
            i <= input.len(),
            files@ == input,
            sorted@ == sort_desc(input.take(i as int)),
        decreases input.len() - i,
    {
        let f = files[i].duplicate();
        proof {
            lemma_sort_desc_props(input.take(i as int));
        }
        let mut j: usize = 0;
        while j < sorted.len() && sorted[j].lines >= f.lines
            invariant
                j <= sorted@.len(),
                f == input[i as int],
                sorted@ == sort_desc(input.take(i as int)),
                forall|m: int| 0 <= m < j ==> (#[trigger] sorted@[m]).lines >= f.lines,
            decreases sorted@.len() - j,
        {
            j = j + 1;
        }
        proof {
            lemma_insert_desc_at(sorted@, input[i as int], j as int);
            assert(input.take(i + 1).drop_last() =~= input.take(i as int));
            assert(input.take(i + 1).last() == input[i as int]);
        }
        sorted.insert(j, f);
        i = i + 1;
    }
    proof {
        assert(input.take(i as int) =~= input);
    }
    *files = sorted;
}

/// The top of the ranking: the `top_k` records with the most lines, in
/// descending order, records with equal line counts in input order, cut
/// short at the first record with no lines.
pub fn rank(files: &Vec<FileEntry>, top_k: u32) -> (r: Vec<FileEntry>)
    ensures
        r@ == rank_spec(files@, top_k as int),
        sorted_desc(r@),
        r@.len() <= top_k,
        forall|m: int| 0 <= m < r@.len() ==> (#[trigger] r@[m]).lines > 0,
{
    let mut sorted: Vec<FileEntry> = Vec::new();
    let mut i: usize = 0;
    while i < files.len()
        invariant
            i <= files@.len(),
            sorted@ == files@.take(i as int),
        decreases files@.len() - i,
    {
        sorted.push(files[i].duplicate());
        proof {
            assert(files@.take(i + 1) =~= files@.take(i as int).push(files@[i as int]));
        }
        i = i + 1;
    }
    proof {
        assert(files@.take(i as int) =~= files@);
    }
    sort_by_lines_desc(&mut sorted);
    proof {
        lemma_sort_desc_props(files@);
    }
    let mut out: Vec<FileEntry> = Vec::new();
    let mut n: usize = 0;
    while n < sorted.len() && (n as u64) < (top_k as u64) && sorted[n].lines > 0
        invariant
            n <= sorted@.len(),
            n <= top_k,
            sorted@ == sort_desc(files@),
            out@ == sorted@.take(n as int),
            forall|m: int| 0 <= m < n ==> (#[trigger] sorted@[m]).lines > 0,
        decreases sorted@.len() - n,
    {
        out.push(sorted[n].duplicate());
        proof {
            assert(sorted@.take(n + 1) =~= sorted@.take(n as int).push(sorted@[n as int]));
        }
        n = n + 1;
    }
    proof {
        lemma_take_ranked_prefix(sorted@, top_k as int, n as int);
    }
    out
}

/// The records of `s` with exactly `v` lines, in order.
pub open spec fn with_lines(s: Seq<FileEntry>, v: usize) -> Seq<FileEntry>
    decreases s.len(),
{
    if s.len() == 0 {
        Seq::empty()
    } else if s.last().lines == v {
        with_lines(s.drop_last(), v).push(s.last())
    } else {
        with_lines(s.drop_last(), v)
    }
}

proof fn lemma_with_lines_single(f: FileEntry, v: usize)
    ensures
        f.lines == v ==> with_lines(seq![f], v) == Seq::<FileEntry>::empty().push(f),
        f.lines != v ==> with_lines(seq![f], v) == Seq::<FileEntry>::empty(),
{
    assert(seq![f].drop_last() =~= Seq::<FileEntry>::empty());
    assert(with_lines(Seq::<FileEntry>::empty(), v) == Seq::<FileEntry>::empty());
    assert(seq![f].last() == f);
}

proof fn lemma_with_lines_add(a: Seq<FileEntry>, b: Seq<FileEntry>, v: usize)
    ensures
        with_lines(a + b, v) == with_lines(a, v) + with_lines(b, v),
    decreases b.len(),
{
    if b.len() == 0 {
        assert(a + b =~= a);
        assert(with_lines(b, v) == Seq::<FileEntry>::empty());
        assert(with_lines(a, v) + Seq::<FileEntry>::empty() =~= with_lines(a, v));
    } else {
        lemma_with_lines_add(a, b.drop_last(), v);
        assert((a + b).drop_last() =~= a + b.drop_last());
        assert((a + b).last() == b.last());
        if b.last().lines == v {
            assert((with_lines(a, v) + with_lines(b.drop_last(), v)).push(b.last())
                =~= with_lines(a, v) + with_lines(b.drop_last(), v).push(b.last()));
        }
    }
}

proof fn lemma_with_lines_none(s: Seq<FileEntry>, v: usize)
    requires
        forall|i: int| 0 <= i < s.len() ==> (#[trigger] s[i]).lines != v,
    ensures
        with_lines(s, v) == Seq::<FileEntry>::empty(),
    decreases s.len(),
{
    if s.len() > 0 {
        lemma_with_lines_none(s.drop_last(), v);
    }
}

proof fn lemma_insert_desc_filter(s: Seq<FileEntry>, f: FileEntry, v: usize)
    requires
        sorted_desc(s),
    ensures
        f.lines == v ==> with_lines(insert_desc(s, f), v) == with_lines(s, v).push(f),
        f.lines != v ==> with_lines(insert_desc(s, f), v) == with_lines(s, v),
    decreases s.len(),
{
    let r = insert_desc(s, f);
    if s.len() == 0 {
        lemma_with_lines_single(f, v);
        assert(with_lines(s, v) == Seq::<FileEntry>::empty());
    } else if s[0].lines >= f.lines {
        let rest = s.drop_first();
        assert(forall|i: int| 0 <= i < rest.len() ==> (#[trigger] rest[i]) == s[i + 1]);
        lemma_insert_desc_filter(rest, f, v);
        let rr = insert_desc(rest, f);
        lemma_with_lines_add(seq![s[0]], rr, v);
        assert(s =~= seq![s[0]] + rest);
        lemma_with_lines_add(seq![s[0]], rest, v);
        if f.lines == v {
            assert(with_lines(seq![s[0]], v) + with_lines(rest, v).push(f) =~= (with_lines(
                seq![s[0]],
                v,
            ) + with_lines(rest, v)).push(f));
        }
    } else {
        // every record of `s` has fewer lines than `f`, so when the filter
        // keeps `f` it keeps nothing of `s`
        assert(r =~= seq![f] + s);
        lemma_with_lines_add(seq![f], s, v);
        lemma_with_lines_single(f, v);
        if f.lines == v {
            assert(forall|i: int| 0 <= i < s.len() ==> (#[trigger] s[i]).lines < v);
            lemma_with_lines_none(s, v);
            assert(with_lines(seq![f], v) + with_lines(s, v) =~= with_lines(s, v).push(f));
        } else {
            assert(with_lines(seq![f], v) + with_lines(s, v) =~= with_lines(s, v));
        }
    }
}

/// The sort is stable: for any line count, the records with exactly that
/// count appear in the sorted sequence in their original order.
pub proof fn lemma_ranking_stable(files: Seq<FileEntry>, v: usize)
    ensures
        with_lines(sort_desc(files), v) == with_lines(files, v),
    decreases files.len(),
{
    if files.len() > 0 {
        let fs = files.drop_last();
        let f = files.last();
        lemma_ranking_stable(fs, v);
        lemma_sort_desc_props(fs);
        lemma_insert_desc_filter(sort_desc(fs), f, v);
    }
}

proof fn lemma_insert_desc_congruent(s1: Seq<FileEntry>, s2: Seq<FileEntry>, f1: FileEntry, f2: FileEntry)
    requires
        entries_match(s1, s2),
        f1.name@ == f2.name@,
        f1.lines == f2.lines,
        f1.size == f2.size,
    ensures
        entries_match(insert_desc(s1, f1), insert_desc(s2, f2)),
    decreases s1.len(),
{
    if s1.len() == 0 {
    } else if s1[0].lines >= f1.lines {
        let r1 = s1.drop_first();
        let r2 = s2.drop_first();
        assert(forall|i: int| 0 <= i < r1.len() ==> (#[trigger] r1[i]) == s1[i + 1]);
        assert(forall|i: int| 0 <= i < r2.len() ==> (#[trigger] r2[i]) == s2[i + 1]);
        lemma_insert_desc_congruent(r1, r2, f1, f2);
        assert(entries_match(insert_desc(s1, f1), insert_desc(s2, f2))) by {
            let a1 = insert_desc(s1, f1);
            let a2 = insert_desc(s2, f2);
            assert(forall|i: int| 1 <= i < a1.len() ==> (#[trigger] a1[i]) == insert_desc(r1, f1)[i - 1]);
            assert(forall|i: int| 1 <= i < a2.len() ==> (#[trigger] a2[i]) == insert_desc(r2, f2)[i - 1]);
        }
    } else {
    }
}

proof fn lemma_sort_desc_congruent(l1: Seq<FileEntry>, l2: Seq<FileEntry>)
    requires
        entries_match(l1, l2),
    ensures
        entries_match(sort_desc(l1), sort_desc(l2)),
    decreases l1.len(),
{
    if l1.len() > 0 {
        assert(entries_match(l1.drop_last(), l2.drop_last()));
        lemma_sort_desc_congruent(l1.drop_last(), l2.drop_last());
        lemma_insert_desc_congruent(
            sort_desc(l1.drop_last()),
            sort_desc(l2.drop_last()),
            l1.last(),
            l2.last(),
        );
    }
}

proof fn lemma_take_ranked_congruent(s1: Seq<FileEntry>, s2: Seq<FileEntry>, k: int)
    requires
        entries_match(s1, s2),
    ensures
        entries_match(take_ranked(s1, k), take_ranked(s2, k)),
    decreases s1.len(),
{
    if !(k <= 0 || s1.len() == 0 || s1[0].lines == 0) {
        let r1 = s1.drop_first();
        let r2 = s2.drop_first();
        assert(forall|i: int| 0 <= i < r1.len() ==> (#[trigger] r1[i]) == s1[i + 1]);
        assert(forall|i: int| 0 <= i < r2.len() ==> (#[trigger] r2[i]) == s2[i + 1]);
        lemma_take_ranked_congruent(r1, r2, k - 1);
        assert(entries_match(take_ranked(s1, k), take_ranked(s2, k))) by {
            let a1 = take_ranked(s1, k);
            let a2 = take_ranked(s2, k);
            assert(forall|i: int| 1 <= i < a1.len() ==> (#[trigger] a1[i]) == take_ranked(r1, k - 1)[i - 1]);
            assert(forall|i: int| 1 <= i < a2.len() ==> (#[trigger] a2[i]) == take_ranked(r2, k - 1)[i - 1]);
        }
    }
}

/// Two runs over the same measured data rank identically: the ranking is a
/// function of the records' paths, line counts and sizes alone, even when
/// the records are distinct allocations.
pub proof fn lemma_ranking_idempotent(l1: Seq<FileEntry>, l2: Seq<FileEntry>, k: int)
    requires
        entries_match(l1, l2),
    ensures
        entries_match(rank_spec(l1, k), rank_spec(l2, k)),
{
    lemma_sort_desc_congruent(l1, l2);
    lemma_take_ranked_congruent(sort_desc(l1), sort_desc(l2), k);
}

} // verus!
