//! Discovery of ignore patterns.
//!
//! A root directory may hold ignore-marker files — `.gitignore`,
//! `.dockerignore`, a bare `ignore` — whose lines are path patterns, except
//! comments and blank lines. This module decides which file names are
//! ignore-marker files, which lines are patterns, and gathers the patterns
//! of a directory's files. Reading the directory and the files is the
//! caller's side; the names and lines are handed in as plain values.

use vstd::prelude::*;
use vstd::string::StrSliceExecFns;

verus! {

/// A file name without its optional leading dot.
pub open spec fn ignore_stem(name: Seq<char>) -> Seq<char> {
    if name.len() > 0 && name[0] == '.' {
        name.drop_first()
    } else {
        name
    }
}

/// True when every character is an ASCII lower-case letter.
pub open spec fn all_lowercase(s: Seq<char>) -> bool {
    forall|i: int| 0 <= i < s.len() ==> 97 <= (#[trigger] s[i]) as u32 <= 122
}

/// True when `name` names an ignore-marker file: an optional leading dot,
/// then ASCII lower-case letters only, ending in the literal `ignore`.
pub open spec fn is_ignore_file_name(name: Seq<char>) -> bool {
    &&& ignore_stem(name).len() >= 6
    &&& all_lowercase(ignore_stem(name))
    &&& ignore_stem(name).skip(ignore_stem(name).len() - 6) == "ignore"@
}

/// Whitespace as pattern files know it: space, tab, line feed, vertical
/// tab, form feed, carriage return.
pub open spec fn is_space(c: char) -> bool {
    c == ' ' || c == '\t' || c == '\n' || c == '\r' || c as u32 == 11 || c as u32 == 12
}

/// True when a line of an ignore-marker file is a pattern: it is not a
/// comment (first character `#`) and not blank (empty or whitespace only).
pub open spec fn is_ignore_path_line(line: Seq<char>) -> bool {
    &&& !(line.len() > 0 && line[0] == '#')
    &&& !(forall|i: int| 0 <= i < line.len() ==> is_space(#[trigger] line[i]))
}

/// The names of `names` that are ignore-marker files, in order.
pub open spec fn marker_files(names: Seq<String>) -> Seq<String>
    decreases names.len(),
{
    if names.len() == 0 {
        Seq::empty()
    } else if is_ignore_file_name(names.last()@) {
        marker_files(names.drop_last()).push(names.last())
    } else {
        marker_files(names.drop_last())
    }
}

/// The lines of `lines` that are patterns, in order.
pub open spec fn pattern_lines(lines: Seq<String>) -> Seq<String>
    decreases lines.len(),
{
    if lines.len() == 0 {
        Seq::empty()
    } else if is_ignore_path_line(lines.last()@) {
        pattern_lines(lines.drop_last()).push(lines.last())
    } else {
        pattern_lines(lines.drop_last())
    }
}

/// The patterns of a directory: for each entry — a file name and the file's
/// lines — the pattern lines of every ignore-marker file, flattened in
/// order.
pub open spec fn query_spec(entries: Seq<(String, Vec<String>)>) -> Seq<String>
    decreases entries.len(),
{
    if entries.len() == 0 {
        Seq::empty()
    } else if is_ignore_file_name(entries.last().0@) {
        query_spec(entries.drop_last()) + pattern_lines(entries.last().1@)
    } else {
        query_spec(entries.drop_last())
    }
}

/// Discovery of the ignore patterns a root directory declares.
pub struct IgnoreDirs {}

impl IgnoreDirs {
    /// The ignore patterns of a root directory, given its entries as pairs
    /// of file name and file lines: every pattern line of every
    /// ignore-marker file, in directory order.
    pub fn query_from(dir_files: &Vec<(String, Vec<String>)>) -> (r: Vec<String>)
        ensures
            r@ == query_spec(dir_files@),
    {
        let mut r: Vec<String> = Vec::new();
        let mut i: usize = 0;
        proof {
            assert(dir_files@.take(0) =~= Seq::<(String, Vec<String>)>::empty());
            assert(r@ =~= query_spec(dir_files@.take(0)));
        }
        while i < dir_files.len()
            invariant
                i <= dir_files@.len(),
                r@ == query_spec(dir_files@.take(i as int)),
            decreases dir_files@.len() - i,
        {
            proof {
                assert(dir_files@.take(i + 1).drop_last() =~= dir_files@.take(i as int));
                assert(dir_files@.take(i + 1).last() == dir_files@[i as int]);
            }
            let entry = &dir_files[i];
            if IgnoreDirs::is_ignore_file_pattern(entry.0.as_str()) {
                let paths = IgnoreDirs::get_all_ignore_paths_from_ignore_file(&entry.1);
                let ghost before = r@;
                let mut j: usize = 0;
                while j < paths.len()
                    invariant
                        j <= paths@.len(),
                        paths@ == pattern_lines(dir_files@[i as int].1@),
                        r@ == before + paths@.take(j as int),
                    decreases paths@.len() - j,
                {
                    r.push(paths[j].clone());
                    proof {
                        assert(paths@.take(j + 1) =~= paths@.take(j as int).push(
                            paths@[j as int],
                        ));
                        assert(before + paths@.take(j as int).push(paths@[j as int]) =~= (before
                            + paths@.take(j as int)).push(paths@[j as int]));
                    }
                    j = j + 1;
                }
                proof {
                    assert(paths@.take(j as int) =~= paths@);
                }
            }
            i = i + 1;
        }
        proof {
            assert(dir_files@.take(i as int) =~= dir_files@);
        }
        r
    }

    /// True when `input` names an ignore-marker file: an optional leading
    /// dot, then ASCII lower-case letters only, ending in `ignore`.
    pub fn is_ignore_file_pattern(input: &str) -> (r: bool)
        ensures
            r == is_ignore_file_name(input@),
    {
        proof {
            reveal_strlit("ignore");
        }
        let len = input.unicode_len();
        let start: usize = if len > 0 && input.get_char(0) == '.' {
            1
        } else {
            0
        };
        let ghost t = ignore_stem(input@);
        proof {
            assert(t.len() == len - start);
            assert(forall|i: int| 0 <= i < t.len() ==> t[i] == input@[start + i]);
        }
        if len - start < 6 {
            return false;
        }
        let mut i: usize = start;
        while i < len
            invariant
                start <= i <= len,
                len == input@.len(),
                start <= 1,
                t == ignore_stem(input@),
                t.len() == len - start,
                forall|k: int| 0 <= k < t.len() ==> t[k] == input@[start + k],
                forall|k: int| 0 <= k < i - start ==> 97 <= (#[trigger] t[k]) as u32 <= 122,
            decreases len - i,
        {
            let c = input.get_char(i);
            let n = c as u32;
            if n < 97 || n > 122 {
                proof {
                    assert(t[i - start] == input@[i as int]);
                }
                return false;
            }
            i = i + 1;
        }
        let suffix = input.substring_char(len - 6, len);
        let matches_suffix = crate::text::eq_str(suffix, "ignore");
        proof {
            assert(suffix@ =~= input@.subrange(len - 6, len as int));
            assert(t.skip(t.len() - 6) =~= input@.subrange(len - 6, len as int));
        }
        matches_suffix
    }

    /// The names among `file_names` that are ignore-marker files, in order.
    /// The caller lists the root directory and hands the names in.
    pub fn get_all_ignore_files(file_names: &Vec<String>) -> (r: Vec<String>)
        ensures
            r@ == marker_files(file_names@),
    {
        let mut r: Vec<String> = Vec::new();
        let mut i: usize = 0;
        proof {
            assert(file_names@.take(0) =~= Seq::<String>::empty());
            assert(r@ =~= marker_files(file_names@.take(0)));
        }
        while i < file_names.len()
            invariant
                i <= file_names@.len(),
                r@ == marker_files(file_names@.take(i as int)),
            decreases file_names@.len() - i,
        {
            proof {
                assert(file_names@.take(i + 1).drop_last() =~= file_names@.take(i as int));
                assert(file_names@.take(i + 1).last() == file_names@[i as int]);
            }
            if IgnoreDirs::is_ignore_file_pattern(file_names[i].as_str()) {
                r.push(file_names[i].clone());
            }
            i = i + 1;
        }
        proof {
            assert(file_names@.take(i as int) =~= file_names@);
        }
        r
    }

    /// True when a line of an ignore-marker file is a pattern: not a
    /// comment and not blank.
    pub fn is_ignore_path_pattern(input: &str) -> (r: bool)
        ensures
            r == is_ignore_path_line(input@),
    {
        let len = input.unicode_len();
        if len > 0 && input.get_char(0) == '#' {
            return false;
        }
        let mut i: usize = 0;
        while i < len
            invariant
                i <= len,
                len == input@.len(),
                !(input@.len() > 0 && input@[0] == '#'),
                forall|k: int| 0 <= k < i ==> is_space(#[trigger] input@[k]),
            decreases len - i,
        {
            let c = input.get_char(i);
            let n = c as u32;
            if !(n == 32 || n == 9 || n == 10 || n == 13 || n == 11 || n == 12) {
                proof {
                    assert(!is_space(input@[i as int]));
                }
                return true;
            }
            i = i + 1;
        }
        false
    }

    /// The lines of one ignore-marker file that are patterns, in order. The
    /// caller reads the file and hands the lines in.
    pub fn get_all_ignore_paths_from_ignore_file(lines: &Vec<String>) -> (r: Vec<String>)
        ensures
            r@ == pattern_lines(lines@),
    {
        let mut r: Vec<String> = Vec::new();
        let mut i: usize = 0;
        proof {
            assert(lines@.take(0) =~= Seq::<String>::empty());
            assert(r@ =~= pattern_lines(lines@.take(0)));
        }
        while i < lines.len()
            invariant
                i <= lines@.len(),
                r@ == pattern_lines(lines@.take(i as int)),
            decreases lines@.len() - i,
        {
            proof {
                assert(lines@.take(i + 1).drop_last() =~= lines@.take(i as int));
                assert(lines@.take(i + 1).last() == lines@[i as int]);
            }
            if IgnoreDirs::is_ignore_path_pattern(lines[i].as_str()) {
                r.push(lines[i].clone());
            }
            i = i + 1;
        }
        proof {
            assert(lines@.take(i as int) =~= lines@);
        }
        r
    }
}

} // verus!
