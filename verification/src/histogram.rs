//! The logarithmic line-count histogram.
//!
//! Files are bucketed by line count on a base-√2 logarithmic scale into 32
//! bins: a file with `L > 0` lines falls in bin `ceil(log_√2(L))` — the
//! least `i` with `√2^i >= L`, which is the least `i` with `2^i >= L²` —
//! clamped below at 0; files with no lines are left out, and so are files
//! whose bin index would reach 32. Bin `i` is rendered with the line-count
//! range `floor(√2^(i-1)) .. floor(√2^i) - 1` and a bar scaled against the
//! largest count among bins 1..32.

use vstd::prelude::*;

use crate::stats::FileEntry;

verus! {

/// Two to the power `e`.
pub open spec fn pow2(e: nat) -> nat
    decreases e,
{
    if e == 0 {
        1
    } else {
        2 * pow2((e - 1) as nat)
    }
}

/// The least `i` with `2^i >= n`, for `n >= 1`.
pub open spec fn log2_ceil(n: nat) -> nat
    decreases n,
{
    if n <= 1 {
        0
    } else {
        1 + log2_ceil(((n + 1) / 2) as nat)
    }
}

/// The histogram bin of a file with `lines > 0` lines:
/// `ceil(log_√2(lines))`, clamped below at 0.
pub open spec fn bin_of(lines: nat) -> nat {
    log2_ceil(lines * lines)
}

proof fn lemma_pow2_positive(e: nat)
    ensures
        pow2(e) >= 1,
    decreases e,
{
    if e > 0 {
        lemma_pow2_positive((e - 1) as nat);
    }
}

proof fn lemma_pow2_monotonic(a: nat, b: nat)
    requires
        a <= b,
    ensures
        pow2(a) <= pow2(b),
    decreases b,
{
    if a < b {
        lemma_pow2_monotonic(a, (b - 1) as nat);
        lemma_pow2_positive(a);
    }
}

/// `log2_ceil(n)` is the least exponent whose power reaches `n`.
proof fn lemma_log2_ceil(n: nat)
    requires
        n >= 1,
    ensures
        pow2(log2_ceil(n)) >= n,
        log2_ceil(n) >= 1 ==> pow2((log2_ceil(n) - 1) as nat) < n,
    decreases n,
{
    if n > 1 {
        let m = ((n + 1) / 2) as nat;
        lemma_log2_ceil(m);
        lemma_pow2_positive(log2_ceil(m));
    }
}

proof fn lemma_log2_ceil_unique(n: nat, i: nat)
    requires
        n >= 1,
        pow2(i) >= n,
        i >= 1 ==> pow2((i - 1) as nat) < n,
    ensures
        i == log2_ceil(n),
{
    lemma_log2_ceil(n);
    let l = log2_ceil(n);
    if i < l {
        lemma_pow2_monotonic(i, (l - 1) as nat);
    }
    if l < i {
        lemma_pow2_monotonic(l, (i - 1) as nat);
    }
}

/// Number of records of `files` that fall in bin `b`.
pub open spec fn bin_count(files: Seq<FileEntry>, b: int) -> int
    decreases files.len(),
{
    if files.len() == 0 {
        0
    } else {
        bin_count(files.drop_last(), b) + (if files.last().lines > 0 && bin_of(
            files.last().lines as nat,
        ) == b {
            1int
        } else {
            0int
        })
    }
}

proof fn lemma_pow2_values()
    ensures
        pow2(31) == 0x8000_0000,
        pow2(32) == 0x1_0000_0000,
{
    reveal_with_fuel(pow2, 33);
}

proof fn lemma_bin_count_bounds(files: Seq<FileEntry>, b: int)
    ensures
        0 <= bin_count(files, b) <= files.len(),
    decreases files.len(),
{
    if files.len() > 0 {
        lemma_bin_count_bounds(files.drop_last(), b);
    }
}

/// The histogram bin of a file with `lines` lines, when it is on the scale:
/// bins at 32 and beyond are dropped.
pub fn bin_index(lines: usize) -> (r: Option<usize>)
    requires
        lines >= 1,
    ensures
        match r {
            Some(b) => b < 32 && b == bin_of(lines as nat),
            None => bin_of(lines as nat) >= 32,
        },
{
    proof {
        lemma_pow2_values();
    }
    if lines > 65536 {
        proof {
            assert((lines as nat) * (lines as nat) > 0x1_0000_0000) by (nonlinear_arith)
                requires
                    lines > 65536,
            ;
            let sqg = (lines as nat) * (lines as nat);
            lemma_log2_ceil(sqg);
            if log2_ceil(sqg) < 33 {
                lemma_pow2_monotonic(log2_ceil(sqg), 32);
            }
        }
        return None;
    }
    proof {
        assert((lines as int) * (lines as int) <= 0x1_0000_0000) by (nonlinear_arith)
            requires
                lines <= 65536,
        ;
        assert((lines as int) * (lines as int) >= 1) by (nonlinear_arith)
            requires
                lines >= 1,
        ;
    }
    let sq: u64 = (lines as u64) * (lines as u64);
    let mut i: usize = 0;
    let mut p: u64 = 1;
    while p < sq
        invariant
            sq == (lines as int) * (lines as int),
            1 <= sq <= 0x1_0000_0000,
            i <= 32,
            p == pow2(i as nat),
            i >= 1 ==> pow2((i - 1) as nat) < sq,
        decreases 32 - i,
    {
        proof {
            lemma_pow2_values();
            lemma_pow2_positive(i as nat);
            if i >= 32 {
                assert(false);
            }
            lemma_pow2_monotonic(i as nat, 31);
        }
        p = p * 2;
        i = i + 1;
    }
    proof {
        lemma_log2_ceil_unique(sq as nat, i as nat);
    }
    if i < 32 {
        Some(i)
    } else {
        None
    }
}

/// Buckets the records into the 32 histogram bins: bin `b` counts the files
/// with at least one line whose bin index is `b`.
pub fn histogram(files: &Vec<FileEntry>) -> (h: Vec<usize>)
    ensures
        h@.len() == 32,
        forall|b: int| 0 <= b < 32 ==> h@[b] == bin_count(files@, b),
{
    let mut h: Vec<usize> = Vec::new();
    let mut z: usize = 0;
    while z < 32
        invariant
            z <= 32,
            h@.len() == z,
            forall|b: int| 0 <= b < z ==> h@[b] == 0,
        decreases 32 - z,
    {
        h.push(0);
        z = z + 1;
    }
    let mut i: usize = 0;
    proof {
        assert forall|b: int| 0 <= b < 32 implies h@[b] == bin_count(files@.take(0), b) by {
            assert(files@.take(0) =~= Seq::<FileEntry>::empty());
        }
    }
    while i < files.len()
        invariant
            i <= files@.len(),
            h@.len() == 32,
            forall|b: int| 0 <= b < 32 ==> h@[b] == bin_count(files@.take(i as int), b),
        decreases files@.len() - i,
    {
        let ghost prefix = files@.take(i as int);
        proof {
            assert(files@.take(i + 1).drop_last() =~= prefix);
            assert(files@.take(i + 1).last() == files@[i as int]);
        }
        let lines = files[i].lines;
        if lines > 0 {
            match bin_index(lines) {
                Some(b) => {
                    proof {
                        lemma_bin_count_bounds(prefix, b as int);
                    }
                    let c = h.remove(b);
                    h.insert(b, c + 1);
                    proof {
                        assert forall|bb: int|
                            0 <= bb < 32 implies h@[bb] == bin_count(
                            files@.take(i + 1),
                            bb,
                        ) by {}
                    }
                },
                None => {},
            }
        }
        i = i + 1;
    }
    proof {
        assert(files@.take(i as int) =~= files@);
    }
    h
}

/// The largest count among bins 1..32 — bin 1 is counted here even though
/// it is not rendered, an asymmetry kept from the tool's observed behaviour.
pub fn max_bin_count(h: &Vec<usize>) -> (m: usize)
    requires
        h@.len() == 32,
    ensures
        forall|i: int| 1 <= i < 32 ==> h@[i] <= m,
        m == 0 || exists|i: int| 1 <= i < 32 && h@[i] == m,
{
    let mut m: usize = 0;
    let mut i: usize = 1;
    while i < 32
        invariant
            1 <= i <= 32,
            h@.len() == 32,
            forall|j: int| 1 <= j < i ==> h@[j] <= m,
            m == 0 || exists|j: int| 1 <= j < i && h@[j] == m,
        decreases 32 - i,
    {
        if h[i] > m {
            m = h[i];
        }
        i = i + 1;
    }
    m
}

/// Two to the power `e`, executably.
pub fn pow2_u64(e: usize) -> (r: u64)
    requires
        e <= 32,
    ensures
        r == pow2(e as nat),
{
    let mut r: u64 = 1;
    let mut i: usize = 0;
    while i < e
        invariant
            i <= e <= 32,
            r == pow2(i as nat),
        decreases e - i,
    {
        proof {
            lemma_pow2_values();
            lemma_pow2_monotonic(i as nat, 31);
        }
        r = r * 2;
        i = i + 1;
    }
    r
}

/// The integer square root: the largest `r` with `r² <= n`.
pub fn isqrt(n: u64) -> (r: u64)
    requires
        n <= 0x1_0000_0000,
    ensures
        r * r <= n < (r + 1) * (r + 1),
{
    let mut r: u64 = 0;
    proof {
        assert(((r + 1) as int) * ((r + 1) as int) <= 0x1_0001_0000_0000) by (nonlinear_arith)
            requires
                r <= 0x1_0000,
        ;
    }
    while (r + 1) * (r + 1) <= n
        invariant
            n <= 0x1_0000_0000,
            r * r <= n,
            r <= n,
            r <= 0x1_0000,
            ((r + 1) as int) * ((r + 1) as int) <= 0x1_0001_0000_0000,
        decreases n - r,
    {
        proof {
            assert(((r + 1) as int) * ((r + 1) as int) <= 0x1_0000_0000 ==> r + 1 <= 0x1_0000)
                by (nonlinear_arith);
            assert(r + 1 <= ((r + 1) as int) * ((r + 1) as int)) by (nonlinear_arith);
            assert(((r + 2) as int) * ((r + 2) as int) <= 0x1_0001_0000_0000) by (nonlinear_arith)
                requires
                    r + 1 <= 0x1_0000,
            ;
        }
        r = r + 1;
    }
    r
}

/// The rendered line-count range of bin `i`:
/// `floor(√2^(i-1)) .. floor(√2^i) - 1`, each bound characterized by its
/// square against the power of two.
pub fn bin_bounds(i: usize) -> (r: (u64, u64))
    requires
        1 <= i < 32,
    ensures
        r.0 * r.0 <= pow2((i - 1) as nat) < (r.0 + 1) * (r.0 + 1),
        (r.1 + 1) * (r.1 + 1) <= pow2(i as nat) < (r.1 + 2) * (r.1 + 2),
{
    proof {
        lemma_pow2_values();
        lemma_pow2_monotonic((i - 1) as nat, 32);
        lemma_pow2_monotonic(i as nat, 32);
    }
    let lo = isqrt(pow2_u64(i - 1));
    let hi = isqrt(pow2_u64(i));
    proof {
        lemma_pow2_positive(i as nat);
        if hi == 0 {
            assert(((hi + 1) as int) * ((hi + 1) as int) == 1) by (nonlinear_arith)
                requires
                    hi == 0,
            ;
            assert(false);
        }
    }
    (lo, hi - 1)
}

/// The length of the rendered bar of a bin: its count scaled by the display
/// width against the largest bin count, zero when every bin is empty.
pub fn bar_length(count: usize, max_count: usize, width: usize) -> (r: usize)
    requires
        count <= max_count,
        count * width <= usize::MAX,
    ensures
        max_count == 0 ==> r == 0,
        max_count > 0 ==> r == count * width / (max_count as int),
{
    if max_count == 0 {
        0
    } else {
        count * width / max_count
    }
}

} // verus!
