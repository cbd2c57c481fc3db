//! The leading comment block of a file, and the place where a header goes in.
//!
//! The block is the first unbroken run of comment lines behind the file's
//! interpreter directives and blank lines. A blank line inside the run ends the
//! block like any other line that is no comment: a header in which a blank
//! line stands is not found whole. A line that holds the comment marker alone
//! is a comment line, and that is how an empty line of a template is shown.

use crate::header::{hashbang, marker, newline};
use crate::text::{
    append_chars, first_line, first_line_span, from_chars, is_blank, is_blank_chars,
    lemma_utf8_len_is_encoded, lemma_utf8_len_take_mono, scan_line, slice_chars, starts_with,
    starts_with_chars, to_chars, utf8_len, utf8_len_chars,
};
use vstd::prelude::*;

verus! {

/// The line is an interpreter directive.
pub open spec fn is_hashbang(line: Seq<char>) -> bool {
    starts_with(line, hashbang())
}

/// The line begins with the comment marker.
pub open spec fn is_comment(line: Seq<char>) -> bool {
    starts_with(line, marker())
}

/// The line is passed over before the first comment: an interpreter directive
/// or a line of white space only.
pub open spec fn is_skipped(line: Seq<char>) -> bool {
    is_hashbang(line) || is_blank(line)
}

/// Number of characters at the start of `s` that its leading interpreter
/// directives and blank lines take, line feeds counted.
pub open spec fn skipped_len(s: Seq<char>) -> int
    decreases s.len(),
{
    let n = first_line_span(s);
    if s.len() == 0 || !(1 <= n <= s.len()) || !is_skipped(first_line(s)) {
        0
    } else {
        n + skipped_len(s.skip(n))
    }
}

/// The comment lines that `s` begins with, each closed by a line feed. The run
/// ends before the first line that does not begin with the comment marker.
pub open spec fn comment_run(s: Seq<char>) -> Seq<char>
    decreases s.len(),
{
    let n = first_line_span(s);
    if s.len() == 0 || !(1 <= n <= s.len()) || !is_comment(first_line(s)) {
        Seq::empty()
    } else {
        first_line(s) + newline() + comment_run(s.skip(n))
    }
}

/// The first comment block of a file: the comment lines that follow its
/// leading interpreter directives and blank lines.
pub open spec fn comment_block(content: Seq<char>) -> Seq<char> {
    comment_run(content.skip(skipped_len(content)))
}

/// The byte offset at which a header is put into a file: behind its leading
/// interpreter directives and blank lines.
pub open spec fn insert_offset(content: Seq<char>) -> nat {
    utf8_len(content.take(skipped_len(content)))
}

pub proof fn lemma_skipped_len_bounds(s: Seq<char>)
    ensures
        0 <= skipped_len(s) <= s.len(),
    decreases s.len(),
{
    let n = first_line_span(s);
    if s.len() == 0 || !(1 <= n <= s.len()) || !is_skipped(first_line(s)) {
    } else {
        lemma_skipped_len_bounds(s.skip(n));
    }
}

fn is_skipped_chars(line: &Vec<char>) -> (b: bool)
    ensures
        b == is_skipped(line@),
{
    let mut h: Vec<char> = Vec::new();
    h.push('#');
    h.push('!');
    assert(h@ =~= hashbang());
    starts_with_chars(line, &h) || is_blank_chars(line)
}

fn is_comment_chars(line: &Vec<char>) -> (b: bool)
    ensures
        b == is_comment(line@),
{
    let mut m: Vec<char> = Vec::new();
    m.push('#');
    assert(m@ =~= marker());
    starts_with_chars(line, &m)
}

/// Index of the first character of `content` behind its leading interpreter
/// directives and blank lines.
pub fn skipped_len_chars(content: &Vec<char>) -> (k: usize)
    ensures
        k == skipped_len(content@),
        k <= content.len(),
{
    let mut i: usize = 0;
    assert(content@.skip(0) =~= content@);
    while i < content.len()
        invariant
            i <= content.len(),
            skipped_len(content@) == i + skipped_len(content@.skip(i as int)),
        decreases content.len() - i,
    {
        let (stop, next) = scan_line(content, i);
        let line = slice_chars(content, i, stop);
        if !is_skipped_chars(&line) {
            return i;
        }
        assert(content@.skip(i as int).skip(next - i) =~= content@.skip(next as int));
        i = next;
    }
    i
}

/// The comment lines that begin at index `start` of `content`.
pub fn comment_run_chars(content: &Vec<char>, start: usize) -> (r: Vec<char>)
    requires
        start <= content.len(),
    ensures
        r@ == comment_run(content@.skip(start as int)),
{
    let mut r: Vec<char> = Vec::new();
    let mut i: usize = start;
    assert(r@ + comment_run(content@.skip(i as int)) =~= comment_run(content@.skip(start as int)));
    while i < content.len()
        invariant
            start <= i <= content.len(),
            r@ + comment_run(content@.skip(i as int)) == comment_run(content@.skip(start as int)),
        decreases content.len() - i,
    {
        let (stop, next) = scan_line(content, i);
        let line = slice_chars(content, i, stop);
        if !is_comment_chars(&line) {
            assert(r@ =~= r@ + Seq::<char>::empty());
            return r;
        }
        let ghost before = r@;
        append_chars(&mut r, &line);
        r.push('\n');
        proof {
            assert(content@.skip(i as int).skip(next - i) =~= content@.skip(next as int));
            assert(r@ =~= before + (line@ + newline()));
            assert(r@ + comment_run(content@.skip(next as int)) =~= before + (line@ + newline()
                + comment_run(content@.skip(next as int))));
        }
        i = next;
    }
    assert(r@ =~= r@ + Seq::<char>::empty());
    r
}

/// Finds the first comment block of a file and the byte offset at which a
/// header would be put in. Interpreter directives and blank lines before the
/// first comment are passed over, and the offset lies behind them.
pub fn find_first_comment(content: &str) -> (r: (String, usize))
    ensures
        r.0@ == comment_block(content@),
        r.1 == insert_offset(content@),
{
    let chars = to_chars(content);
    let k = skipped_len_chars(&chars);
    let block = comment_run_chars(&chars, k);
    let bytes = content.as_bytes().len();
    proof {
        lemma_utf8_len_is_encoded(content@);
        assert(utf8_len(content@) == bytes);
        lemma_utf8_len_take_mono(chars@, k as int, chars@.len() as int);
        assert(chars@.take(chars@.len() as int) =~= chars@);
    }
    let at = utf8_len_chars(&chars, k);
    (from_chars(&block), at)
}

} // verus!
