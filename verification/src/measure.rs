//! Per-file measurement: line counting and size figures.
//!
//! A file's content is handed in as plain bytes; the caller (the unverified
//! binary) is responsible for reading it. The line count is the number of
//! newline-delimited lines, where a trailing line without a terminator still
//! counts. The size figure is either the declared byte size or, in
//! character mode, the number of decoded UTF-8 characters; content that is
//! not valid UTF-8 is a per-file failure in that mode.

use vstd::prelude::*;
use vstd::string::StrSliceExecFns;
use vstd::string::StringSliceAdditionalSpecFns;
use vstd::utf8::decode_utf8;
use vstd::utf8::encode_utf8;
use vstd::utf8::encode_utf8_decode_utf8;
use vstd::utf8::encode_utf8_valid_utf8;
use vstd::utf8::valid_utf8;

verus! {

/// Number of newline bytes in `s`.
pub open spec fn newline_count(s: Seq<u8>) -> nat
    decreases s.len(),
{
    if s.len() == 0 {
        0
    } else {
        newline_count(s.drop_last()) + (if s.last() == 10u8 {
            1nat
        } else {
            0nat
        })
    }
}

/// Number of newline-delimited lines in `s`: one per newline byte, plus one
/// for a trailing line that lacks a terminator.
pub open spec fn line_count(s: Seq<u8>) -> nat {
    if s.len() == 0 {
        0
    } else if s.last() == 10u8 {
        newline_count(s)
    } else {
        newline_count(s) + 1
    }
}

proof fn lemma_newline_count_le_len(s: Seq<u8>)
    ensures
        newline_count(s) <= s.len(),
    decreases s.len(),
{
    if s.len() > 0 {
        lemma_newline_count_le_len(s.drop_last());
    }
}

/// A file has at most as many lines as bytes.
pub proof fn lemma_line_count_le_len(s: Seq<u8>)
    ensures
        line_count(s) <= s.len(),
{
    if s.len() > 0 {
        lemma_newline_count_le_len(s);
        if s.last() != 10u8 {
            lemma_newline_count_le_len(s.drop_last());
        }
    }
}

/// Counts the newline-delimited lines of `content`.
pub fn count_lines(content: &Vec<u8>) -> (n: usize)
    ensures
        n == line_count(content@),
{
    let mut newlines: usize = 0;
    let mut i: usize = 0;
    while i < content.len()
        invariant
            i <= content@.len(),
            newlines == newline_count(content@.take(i as int)),
            newlines <= i,
        decreases content@.len() - i,
    {
        if content[i] == 10u8 {
            newlines = newlines + 1;
        }
        i = i + 1;
        proof {
            assert(content@.take(i as int).drop_last() =~= content@.take(i - 1));
        }
    }
    proof {
        assert(content@.take(content@.len() as int) =~= content@);
        lemma_newline_count_le_len(content@);
    }
    if content.len() == 0 {
        0
    } else if content[content.len() - 1] == 10u8 {
        newlines
    } else {
        proof {
            lemma_newline_count_le_len(content@.drop_last());
        }
        newlines + 1
    }
}

/// Relies on std's `str::from_utf8`: it returns `Ok` exactly when the bytes
/// are valid UTF-8, and the resulting string slice is backed by those very
/// bytes.
#[verifier::external_body]
fn bytes_as_str(bytes: &Vec<u8>) -> (r: Option<&str>)
    ensures
        match r {
            Some(s) => s.spec_bytes() == bytes@,
            None => !valid_utf8(bytes@),
        },
{
    core::str::from_utf8(bytes.as_slice()).ok()
}

/// Measures one accepted file: the line count of its content, and a size
/// figure. In byte mode the size is the declared one (from metadata or blob
/// length); in character mode it is the number of decoded UTF-8 characters,
/// and content that does not decode is dropped (`None`), a per-file failure.
pub fn measure(content: &Vec<u8>, utf8_mode: bool, byte_size: u64) -> (r: Option<(usize, u64)>)
    ensures
        !utf8_mode ==> r == Some((line_count(content@) as usize, byte_size)),
        utf8_mode && valid_utf8(content@) ==> (r matches Some(p) && p.0 == line_count(content@)
            && p.1 == decode_utf8(content@).len()),
        utf8_mode && !valid_utf8(content@) ==> r is None,
{
    let lines = count_lines(content);
    if utf8_mode {
        match bytes_as_str(content) {
            Some(s) => {
                let chars = s.unicode_len();
                proof {
                    broadcast use encode_utf8_valid_utf8, encode_utf8_decode_utf8;

                    assert(encode_utf8(s@) == content@);
                    assert(valid_utf8(content@));
                    assert(decode_utf8(content@) == s@);
                }
                Some((lines, chars as u64))
            },
            None => None,
        }
    } else {
        Some((lines, byte_size))
    }
}

} // verus!
