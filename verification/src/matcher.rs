//! Whether a comment block holds the license header: the block is held against
//! the template line by line and word by word.
//!
//! Lines of the block that stand before the header are passed over: the header
//! begins at the first line of the block that matches the first line of the
//! template. From there on every line of the template must match the next line
//! of the block. A line of the template without words is matched by a line of
//! the block without words. Only the years of the matched lines decide whether
//! the header is outdated.

use crate::config::Config;
use crate::header::{comparison_template, newline, year_token};
use crate::number::{parse_i64, parse_i64_chars};
use crate::text::{
    append_chars, eq_chars, from_chars, join, lines, lines_chars, slice_chars, texts, to_chars,
    trim, trim_chars, words, words_chars,
};
use vstd::prelude::*;

verus! {

/// What the check of a comment block found.
#[derive(Debug, Clone, Copy, PartialEq, Eq, Structural)]
pub enum LicenseCheckRes {
    /// The block holds no header.
    Missing,
    /// The block holds the header, and its years are the configured year.
    Found,
    /// The block holds the header with another year.
    Outdated,
}

/// `s` without the comment markers that it begins with.
pub open spec fn strip_hashes(s: Seq<char>) -> Seq<char>
    decreases s.len(),
{
    if s.len() > 0 && s[0] == '#' {
        strip_hashes(s.drop_first())
    } else {
        s
    }
}

/// A line without its leading comment markers and the white space around the
/// rest.
pub open spec fn clean_line(s: Seq<char>) -> Seq<char> {
    trim(strip_hashes(s))
}

/// The words of a line that are compared.
pub open spec fn line_words(s: Seq<char>) -> Seq<Seq<char>> {
    words(clean_line(s))
}

/// The compared words of each of the lines `ls`.
pub open spec fn word_table(ls: Seq<Seq<char>>) -> Seq<Seq<Seq<char>>> {
    Seq::new(ls.len(), |i: int| line_words(ls[i]))
}

/// The word `b` of a block stands for the word `t` of the template: in place
/// of `{year}` any integer, else the same word.
pub open spec fn word_matches(b: Seq<char>, t: Seq<char>) -> bool {
    if t == year_token() {
        parse_i64(b) is Some
    } else {
        b == t
    }
}

/// The word `b` stands in place of `{year}` and is not `year`.
pub open spec fn word_stale(b: Seq<char>, t: Seq<char>, year: int) -> bool {
    t == year_token() && parse_i64(b) != Some(year)
}

/// The words `b` of a block line stand for the words `t` of a template line.
pub open spec fn line_matches(b: Seq<Seq<char>>, t: Seq<Seq<char>>) -> bool {
    b.len() == t.len() && forall|j: int| 0 <= j < t.len() ==> word_matches(#[trigger] b[j], t[j])
}

/// Some word of `b` stands in place of `{year}` and is not `year`.
pub open spec fn line_stale(b: Seq<Seq<char>>, t: Seq<Seq<char>>, year: int) -> bool {
    exists|j: int| 0 <= j < t.len() && j < b.len() && word_stale(#[trigger] b[j], t[j], year)
}

/// Index of the first line of `block` that matches `first`, or `block.len()`
/// where none does.
pub open spec fn header_start(block: Seq<Seq<Seq<char>>>, first: Seq<Seq<char>>) -> int
    decreases block.len(),
{
    if block.len() == 0 || line_matches(block[0], first) {
        0
    } else {
        1 + header_start(block.drop_first(), first)
    }
}

/// The lines of `block` from index `s` on match the lines of `tmpl`, one for
/// one.
pub open spec fn header_at(block: Seq<Seq<Seq<char>>>, tmpl: Seq<Seq<Seq<char>>>, s: int) -> bool {
    0 <= s && s + tmpl.len() <= block.len() && forall|k: int|
        0 <= k < tmpl.len() ==> line_matches(#[trigger] block[s + k], tmpl[k])
}

/// One of the header lines that begin at index `s` holds another year.
pub open spec fn header_stale(
    block: Seq<Seq<Seq<char>>>,
    tmpl: Seq<Seq<Seq<char>>>,
    s: int,
    year: int,
) -> bool {
    exists|k: int| 0 <= k < tmpl.len() && line_stale(#[trigger] block[s + k], tmpl[k], year)
}

/// The classification of a block, given the words of its lines and of the
/// template's lines. A template without lines is found in every block.
pub open spec fn classify(
    block: Seq<Seq<Seq<char>>>,
    tmpl: Seq<Seq<Seq<char>>>,
    year: int,
) -> LicenseCheckRes {
    if tmpl.len() == 0 {
        LicenseCheckRes::Found
    } else {
        let s = header_start(block, tmpl[0]);
        if !header_at(block, tmpl, s) {
            LicenseCheckRes::Missing
        } else if header_stale(block, tmpl, s, year) {
            LicenseCheckRes::Outdated
        } else {
            LicenseCheckRes::Found
        }
    }
}

/// The text of the lines `s .. s + n` of a block, a line feed between each two.
pub open spec fn span_of(block_lines: Seq<Seq<char>>, s: int, n: int) -> Seq<char> {
    join(block_lines.subrange(s, s + n), newline())
}

/// What the check gives for the text of a block and the text of a template:
/// the classification, and for an outdated header the text of its lines as
/// they stand in the block. The text is empty for the other two.
pub open spec fn check_result(block: Seq<char>, template: Seq<char>, year: int) -> (
    Seq<char>,
    LicenseCheckRes,
) {
    let bl = lines(block);
    let bt = word_table(bl);
    let tt = word_table(lines(template));
    let res = classify(bt, tt, year);
    if res == LicenseCheckRes::Outdated {
        (span_of(bl, header_start(bt, tt[0]), tt.len() as int), res)
    } else {
        (Seq::empty(), res)
    }
}

/// The texts of the words that a table of vectors holds.
pub open spec fn tables(v: Seq<Vec<Vec<char>>>) -> Seq<Seq<Seq<char>>> {
    Seq::new(v.len(), |i: int| texts(v[i]@))
}

pub proof fn lemma_header_start_bounds(block: Seq<Seq<Seq<char>>>, first: Seq<Seq<char>>)
    ensures
        0 <= header_start(block, first) <= block.len(),
        header_start(block, first) < block.len() ==> line_matches(
            block[header_start(block, first)],
            first,
        ),
        forall|i: int|
            0 <= i < header_start(block, first) ==> !line_matches(#[trigger] block[i], first),
    decreases block.len(),
{
    if block.len() == 0 || line_matches(block[0], first) {
    } else {
        let rest = block.drop_first();
        lemma_header_start_bounds(rest, first);
        assert forall|i: int| 0 <= i < header_start(block, first) implies !line_matches(
            #[trigger] block[i],
            first,
        ) by {
            if i > 0 {
                assert(block[i] == rest[i - 1]);
            }
        }
    }
}

/// The header begins where a scan from the top meets the first matching line.
pub proof fn lemma_header_start_is(block: Seq<Seq<Seq<char>>>, first: Seq<Seq<char>>, s: int)
    requires
        0 <= s <= block.len(),
        forall|i: int| 0 <= i < s ==> !line_matches(#[trigger] block[i], first),
        s < block.len() ==> line_matches(block[s], first),
    ensures
        header_start(block, first) == s,
{
    lemma_header_start_bounds(block, first);
    let e = header_start(block, first);
    if e < s {
        assert(line_matches(block[e], first));
    }
}

fn strip_hashes_chars(s: &Vec<char>) -> (r: Vec<char>)
    ensures
        r@ == strip_hashes(s@),
{
    let mut i: usize = 0;
    assert(s@.skip(0) =~= s@);
    while i < s.len() && s[i] == '#'
        invariant
            i <= s.len(),
            strip_hashes(s@) == strip_hashes(s@.skip(i as int)),
        decreases s.len() - i,
    {
        assert(s@.skip(i as int).drop_first() =~= s@.skip(i + 1));
        i += 1;
    }
    let r = slice_chars(s, i, s.len());
    assert(r@ =~= s@.skip(i as int));
    r
}

/// The compared words of one line.
pub fn line_words_chars(line: &Vec<char>) -> (r: Vec<Vec<char>>)
    ensures
        texts(r@) == line_words(line@),
{
    let stripped = strip_hashes_chars(line);
    let cleaned = trim_chars(&stripped);
    words_chars(&cleaned)
}

fn word_table_chars(ls: &Vec<Vec<char>>) -> (r: Vec<Vec<Vec<char>>>)
    ensures
        tables(r@) == word_table(texts(ls@)),
{
    let mut r: Vec<Vec<Vec<char>>> = Vec::new();
    let mut i: usize = 0;
    while i < ls.len()
        invariant
            i <= ls.len(),
            r.len() == i,
            forall|j: int| 0 <= j < i ==> texts(#[trigger] r@[j]@) == line_words(ls@[j]@),
        decreases ls.len() - i,
    {
        let w = line_words_chars(&ls[i]);
        r.push(w);
        i += 1;
    }
    assert(tables(r@) =~= word_table(texts(ls@)));
    r
}

/// Holds the words of a block line against those of a template line: `None`
/// where they do not match, else whether a year among them is another one.
fn check_line(b: &Vec<Vec<char>>, t: &Vec<Vec<char>>, year: i64) -> (r: Option<bool>)
    ensures
        match r {
            Some(stale) => line_matches(texts(b@), texts(t@)) && stale == line_stale(
                texts(b@),
                texts(t@),
                year as int,
            ),
            None => !line_matches(texts(b@), texts(t@)),
        },
{
    if b.len() != t.len() {
        return None;
    }
    let token = crate::header::year_token_chars();
    let ghost bs = texts(b@);
    let ghost ts = texts(t@);
    let mut stale = false;
    let mut j: usize = 0;
    while j < t.len()
        invariant
            j <= t.len() == b.len(),
            bs == texts(b@),
            ts == texts(t@),
            token@ == year_token(),
            forall|k: int| 0 <= k < j ==> word_matches(#[trigger] bs[k], ts[k]),
            stale == exists|k: int| 0 <= k < j && word_stale(#[trigger] bs[k], ts[k], year as int),
        decreases t.len() - j,
    {
        let ghost before = stale;
        assert(bs[j as int] == b@[j as int]@);
        assert(ts[j as int] == t@[j as int]@);
        if eq_chars(&t[j], &token) {
            match parse_i64_chars(&b[j]) {
                Some(y) => {
                    if y != year {
                        stale = true;
                    }
                },
                None => {
                    assert(!word_matches(bs[j as int], ts[j as int]));
                    return None;
                },
            }
        } else if !eq_chars(&b[j], &t[j]) {
            assert(!word_matches(bs[j as int], ts[j as int]));
            return None;
        }
        proof {
            let now = word_stale(bs[j as int], ts[j as int], year as int);
            assert(stale == (before || now));
            if stale {
                if before {
                    let k = choose|k: int|
                        0 <= k < j && word_stale(#[trigger] bs[k], ts[k], year as int);
                    assert(0 <= k < j + 1 && word_stale(bs[k], ts[k], year as int));
                } else {
                    assert(0 <= j < j + 1 && word_stale(bs[j as int], ts[j as int], year as int));
                }
            } else {
                assert forall|k: int| 0 <= k < j + 1 implies !word_stale(
                    #[trigger] bs[k],
                    ts[k],
                    year as int,
                ) by {}
            }
        }
        j += 1;
    }
    Some(stale)
}

/// The lines `a .. b` of `parts`, a line feed between each two.
fn join_lines(parts: &Vec<Vec<char>>, a: usize, b: usize) -> (r: Vec<char>)
    requires
        a <= b <= parts.len(),
    ensures
        r@ == join(texts(parts@).subrange(a as int, b as int), newline()),
{
    let mut r: Vec<char> = Vec::new();
    let ghost all = texts(parts@);
    if a == b {
        assert(all.subrange(a as int, b as int) =~= Seq::<Seq<char>>::empty());
        return r;
    }
    append_chars(&mut r, &parts[a]);
    let mut i: usize = a + 1;
    assert(all.subrange(a as int, a + 1) =~= seq![parts@[a as int]@]);
    assert(r@ =~= parts@[a as int]@);
    while i < b
        invariant
            a < i <= b <= parts.len(),
            all == texts(parts@),
            r@ == join(all.subrange(a as int, i as int), newline()),
        decreases b - i,
    {
        let ghost before = all.subrange(a as int, i as int);
        let ghost after = all.subrange(a as int, i + 1);
        proof {
            assert(after.drop_last() =~= before);
            assert(after.last() == parts@[i as int]@);
            assert(after.len() >= 2);
        }
        r.push('\n');
        append_chars(&mut r, &parts[i]);
        assert(r@ =~= join(before, newline()) + newline() + parts@[i as int]@);
        i += 1;
    }
    r
}

/// Checks the lines of a block against the lines of a template.
pub fn check_license_chars(block: &Vec<char>, template: &Vec<char>, year: i64) -> (r: (
    Vec<char>,
    LicenseCheckRes,
))
    ensures
        (r.0@, r.1) == check_result(block@, template@, year as int),
{
    let bl = lines_chars(block);
    let tl = lines_chars(template);
    let bt = word_table_chars(&bl);
    let tt = word_table_chars(&tl);
    let ghost bs = tables(bt@);
    let ghost ts = tables(tt@);
    let n: usize = tt.len();
    if n == 0 {
        return (Vec::new(), LicenseCheckRes::Found);
    }
    assert(ts[0] == texts(tt@[0]@));
    let mut s: usize = 0;
    let mut found = false;
    while s < bt.len() && !found
        invariant
            s <= bt.len(),
            n == tt.len(),
            n > 0,
            bs == tables(bt@),
            ts == tables(tt@),
            forall|i: int| 0 <= i < s ==> !line_matches(#[trigger] bs[i], ts[0]),
            found ==> s < bt.len() && line_matches(bs[s as int], ts[0]),
        decreases bt.len() - s + (if found { 0int } else { 1int }),
    {
        assert(bs[s as int] == texts(bt@[s as int]@));
        assert(ts[0] == texts(tt@[0]@));
        if check_line(&bt[s], &tt[0], year).is_some() {
            found = true;
        } else {
            s += 1;
        }
    }
    proof {
        lemma_header_start_is(bs, ts[0], s as int);
    }
    if bt.len() - s < n {
        return (Vec::new(), LicenseCheckRes::Missing);
    }
    let mut stale = false;
    let mut k: usize = 0;
    while k < n
        invariant
            k <= n == tt.len(),
            n > 0,
            s + n <= bt.len(),
            bs == tables(bt@),
            ts == tables(tt@),
            bs == word_table(lines(block@)),
            ts == word_table(lines(template@)),
            header_start(bs, ts[0]) == s,
            forall|i: int| 0 <= i < k ==> line_matches(#[trigger] bs[s + i], ts[i]),
            stale == exists|i: int|
                0 <= i < k && line_stale(#[trigger] bs[s + i], ts[i], year as int),
        decreases n - k,
    {
        let ghost before = stale;
        assert(bs[s + k] == texts(bt@[s + k]@));
        assert(ts[k as int] == texts(tt@[k as int]@));
        match check_line(&bt[s + k], &tt[k], year) {
            None => {
                assert(!header_at(bs, ts, s as int));
                return (Vec::new(), LicenseCheckRes::Missing);
            },
            Some(st) => {
                if st {
                    stale = true;
                }
                proof {
                    let now = line_stale(bs[s + k], ts[k as int], year as int);
                    assert(stale == (before || now));
                    if stale {
                        if before {
                            let i = choose|i: int|
                                0 <= i < k && line_stale(#[trigger] bs[s + i], ts[i], year as int);
                            assert(0 <= i < k + 1 && line_stale(bs[s + i], ts[i], year as int));
                        } else {
                            assert(0 <= k < k + 1 && line_stale(
                                bs[s + k],
                                ts[k as int],
                                year as int,
                            ));
                        }
                    } else {
                        assert forall|i: int| 0 <= i < k + 1 implies !line_stale(
                            #[trigger] bs[s + i],
                            ts[i],
                            year as int,
                        ) by {}
                    }
                }
            },
        }
        k += 1;
    }
    assert(header_at(bs, ts, s as int));
    assert(stale == header_stale(bs, ts, s as int, year as int));
    if stale {
        let span = join_lines(&bl, s, s + n);
        (span, LicenseCheckRes::Outdated)
    } else {
        (Vec::new(), LicenseCheckRes::Found)
    }
}

/// Checks a comment block against a pattern: the lines of the header with
/// `{year}` where a year is to stand.
pub fn match_header(comment_block: &str, template: &str, license_year: i64) -> (r: (
    String,
    LicenseCheckRes,
))
    ensures
        (r.0@, r.1) == check_result(comment_block@, template@, license_year as int),
{
    let b = to_chars(comment_block);
    let t = to_chars(template);
    let (span, res) = check_license_chars(&b, &t, license_year);
    (from_chars(&span), res)
}

/// Checks whether a comment block is the license header of `config`: missing,
/// found, or outdated. For an outdated header the text of its lines comes
/// back too, as they stand in the block.
pub fn check_license(comment_block: &str, config: &Config) -> (r: (String, LicenseCheckRes))
    requires
        config.license_header_template is Some,
    ensures
        (r.0@, r.1) == check_result(
            comment_block@,
            comparison_template(*config),
            config.license_year as int,
        ),
{
    let b = to_chars(comment_block);
    let pattern = crate::header::render_chars(
        &crate::header::expanded_template_chars(config),
        None,
    );
    let (span, res) = check_license_chars(&b, &pattern, config.license_year);
    (from_chars(&span), res)
}

} // verus!
