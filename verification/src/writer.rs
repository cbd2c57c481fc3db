//! How the text of a file changes when a header is put in, or when an outdated
//! header gives way to the current one.

use crate::header::newline;
use crate::text::{
    append_chars, char_width, find, find_chars, from_chars, is_blank, is_blank_chars,
    lemma_utf8_len_push, lemma_utf8_len_take_mono, slice_chars, to_chars, utf8_len,
};
use vstd::prelude::*;

verus! {

/// A character of `s` begins at byte `at`, or `s` ends there: `k` is its index.
pub open spec fn is_char_index(s: Seq<char>, at: nat, k: int) -> bool {
    0 <= k <= s.len() && utf8_len(s.take(k)) == at
}

/// The index of the character of `s` that begins at byte `at`, where one
/// begins there or `s` ends there.
pub open spec fn char_index(s: Seq<char>, at: nat) -> Option<int> {
    if exists|k: int| is_char_index(s, at, k) {
        Some(choose|k: int| is_char_index(s, at, k))
    } else {
        None
    }
}

/// `s` begins with the comment marker.
pub open spec fn begins_comment(s: Seq<char>) -> bool {
    s.len() > 0 && s[0] == '#'
}

/// What separates a header from what follows it: a blank line before a
/// comment, nothing before anything else.
pub open spec fn gap_before(after: Seq<char>) -> Seq<char> {
    if begins_comment(after) {
        newline()
    } else {
        Seq::empty()
    }
}

/// The content with the header put in before its character `k`. What stands
/// before that character is kept unless it is white space only.
pub open spec fn with_header_at(content: Seq<char>, header: Seq<char>, k: int) -> Seq<char> {
    let before = content.take(k);
    let after = content.skip(k);
    (if is_blank(before) {
        Seq::empty()
    } else {
        before
    }) + header + gap_before(after) + after
}

/// The content with the header put in at byte `at`, where a character begins
/// there.
pub open spec fn inserted(content: Seq<char>, header: Seq<char>, at: nat) -> Option<Seq<char>> {
    match char_index(content, at) {
        Some(k) => Some(with_header_at(content, header, k)),
        None => None,
    }
}

/// The content, with a line feed added where it does not end with one.
pub open spec fn closed_by_newline(content: Seq<char>) -> Seq<char> {
    if content.len() > 0 && content.last() == '\n' {
        content
    } else {
        content + newline()
    }
}

/// The content with the header in place of the first occurrence of `span`,
/// where `span` occurs. The content is closed by a line feed first.
pub open spec fn updated(content: Seq<char>, span: Seq<char>, header: Seq<char>) -> Option<
    Seq<char>,
> {
    let c = closed_by_newline(content);
    match find(c, span) {
        Some(i) => {
            let after = c.skip(i + span.len());
            Some(c.take(i) + header + gap_before(after) + after)
        },
        None => None,
    }
}

pub proof fn lemma_utf8_len_take_strict(s: Seq<char>, a: int, b: int)
    requires
        0 <= a < b <= s.len(),
    ensures
        utf8_len(s.take(a)) < utf8_len(s.take(b)),
{
    lemma_utf8_len_take_mono(s, a, b - 1);
    assert(s.take(b) =~= s.take(b - 1).push(s[b - 1]));
    lemma_utf8_len_push(s.take(b - 1), s[b - 1]);
}

/// The byte offset of a character leads back to that character.
pub proof fn lemma_char_index_of_offset(s: Seq<char>, k: int)
    requires
        0 <= k <= s.len(),
    ensures
        char_index(s, utf8_len(s.take(k))) == Some(k),
{
    let at = utf8_len(s.take(k));
    assert(is_char_index(s, at, k));
    let c = choose|c: int| is_char_index(s, at, c);
    if c < k {
        lemma_utf8_len_take_strict(s, c, k);
    } else if c > k {
        lemma_utf8_len_take_strict(s, k, c);
    }
}

/// Finds the character of `s` that begins at byte `at`.
pub fn char_index_chars(s: &Vec<char>, at: usize) -> (r: Option<usize>)
    ensures
        match r {
            Some(k) => char_index(s@, at as nat) == Some(k as int),
            None => char_index(s@, at as nat) is None,
        },
{
    let mut i: usize = 0;
    let mut bytes: usize = 0;
    assert(s@.take(0) =~= Seq::<char>::empty());
    while i < s.len() && bytes < at
        invariant
            i <= s.len(),
            bytes == utf8_len(s@.take(i as int)),
            bytes <= at,
        decreases s.len() - i,
    {
        let w = char_width(s[i]);
        proof {
            assert(s@.take(i + 1) =~= s@.take(i as int).push(s@[i as int]));
            lemma_utf8_len_push(s@.take(i as int), s@[i as int]);
        }
        if w > at - bytes {
            proof {
                assert forall|k: int| !is_char_index(s@, at as nat, k) by {
                    if 0 <= k <= i {
                        lemma_utf8_len_take_mono(s@, k, i as int);
                    } else if i < k <= s.len() {
                        lemma_utf8_len_take_mono(s@, i + 1, k);
                    }
                }
            }
            return None;
        }
        bytes = bytes + w;
        i += 1;
    }
    if bytes == at {
        proof {
            lemma_char_index_of_offset(s@, i as int);
        }
        Some(i)
    } else {
        proof {
            assert forall|k: int| !is_char_index(s@, at as nat, k) by {
                if 0 <= k <= s.len() {
                    lemma_utf8_len_take_mono(s@, k, s.len() as int);
                }
            }
        }
        None
    }
}

/// Puts the header into the content before its character `k`.
pub fn insert_at_char(content: &Vec<char>, header: &Vec<char>, k: usize) -> (r: Vec<char>)
    requires
        k <= content.len(),
    ensures
        r@ == with_header_at(content@, header@, k as int),
{
    let before = slice_chars(content, 0, k);
    let after = slice_chars(content, k, content.len());
    assert(before@ =~= content@.take(k as int));
    assert(after@ =~= content@.skip(k as int));
    let mut r: Vec<char> = Vec::new();
    if !is_blank_chars(&before) {
        append_chars(&mut r, &before);
    }
    append_chars(&mut r, header);
    if after.len() > 0 && after[0] == '#' {
        r.push('\n');
    }
    append_chars(&mut r, &after);
    assert(r@ =~= with_header_at(content@, header@, k as int));
    r
}

/// Puts the header in place of the first occurrence of `span`.
pub fn replace_span_chars(content: &Vec<char>, span: &Vec<char>, header: &Vec<char>) -> (r: Option<
    Vec<char>,
>)
    ensures
        match r {
            Some(t) => updated(content@, span@, header@) == Some(t@),
            None => updated(content@, span@, header@) is None,
        },
{
    let c = close_by_newline(content);
    match find_chars(&c, span) {
        None => None,
        Some(i) => Some(splice_chars(&c, i, span.len(), header)),
    }
}

fn close_by_newline(content: &Vec<char>) -> (c: Vec<char>)
    ensures
        c@ == closed_by_newline(content@),
{
    let mut c: Vec<char> = Vec::new();
    append_chars(&mut c, content);
    if !(content.len() > 0 && content[content.len() - 1] == '\n') {
        c.push('\n');
    }
    assert(c@ =~= closed_by_newline(content@));
    c
}

/// Puts the header in place of the `n` characters of `c` from index `i` on.
fn splice_chars(c: &Vec<char>, i: usize, n: usize, header: &Vec<char>) -> (r: Vec<char>)
    requires
        i + n <= c.len(),
    ensures
        r@ == c@.take(i as int) + header@ + gap_before(c@.skip(i + n)) + c@.skip(i + n),
{
    let before = slice_chars(c, 0, i);
    let after = slice_chars(c, i + n, c.len());
    assert(before@ =~= c@.take(i as int));
    assert(after@ =~= c@.skip(i + n));
    let mut r: Vec<char> = Vec::new();
    append_chars(&mut r, &before);
    append_chars(&mut r, header);
    if after.len() > 0 && after[0] == '#' {
        r.push('\n');
    }
    append_chars(&mut r, &after);
    assert(r@ =~= c@.take(i as int) + header@ + gap_before(after@) + after@);
    r
}

/// Inserts a license header into the content of a file at byte `insert_at`.
/// What stands before that byte is kept unless it is white space only, and a
/// blank line parts the header from a comment that follows it. There is no
/// result where no character of the content begins at `insert_at`.
pub fn insert_header(content: &str, license_header: &str, insert_at: usize) -> (r: Option<String>)
    ensures
        match r {
            Some(t) => inserted(content@, license_header@, insert_at as nat) == Some(t@),
            None => inserted(content@, license_header@, insert_at as nat) is None,
        },
{
    let c = to_chars(content);
    let h = to_chars(license_header);
    match char_index_chars(&c, insert_at) {
        None => None,
        Some(k) => {
            let out = insert_at_char(&c, &h, k);
            Some(from_chars(&out))
        },
    }
}

/// Puts the license header in place of the existing header in the content of
/// a file. The content is closed by a line feed first, and a blank line parts
/// the header from a comment that follows it. There is no result where the
/// existing header does not occur in the content.
pub fn update_header(content: &str, existing_header: &str, license_header: &str) -> (r: Option<
    String,
>)
    ensures
        match r {
            Some(t) => updated(content@, existing_header@, license_header@) == Some(t@),
            None => updated(content@, existing_header@, license_header@) is None,
        },
{
    let c = to_chars(content);
    let e = to_chars(existing_header);
    let h = to_chars(license_header);
    match replace_span_chars(&c, &e, &h) {
        None => None,
        Some(out) => Some(from_chars(&out)),
    }
}

} // verus!
