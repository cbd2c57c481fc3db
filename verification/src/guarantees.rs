//! What holds of the check of a block, whatever the block and the template.

use crate::header::year_token;
use crate::matcher::{
    check_result, classify, header_at, header_stale, header_start, lemma_header_start_bounds,
    lemma_header_start_is, line_matches, line_stale, span_of, word_matches, word_stale,
    word_table, LicenseCheckRes,
};
use crate::line_lemmas::{ends_lines, lemma_lines_concat};
use crate::number::parse_i64;
use crate::text::lines;
use vstd::prelude::*;

verus! {

/// Where a block is found to hold the header, current or outdated, every word
/// of the header's lines that stands in place of `{year}` is an integer.
pub proof fn year_words_are_numbers(
    block: Seq<char>,
    template: Seq<char>,
    year: int,
    k: int,
    j: int,
)
    requires
        check_result(block, template, year).1 != LicenseCheckRes::Missing,
        0 <= k < word_table(lines(template)).len(),
        0 <= j < word_table(lines(template))[k].len(),
        word_table(lines(template))[k][j] == year_token(),
    ensures
        ({
            let bt = word_table(lines(block));
            let tt = word_table(lines(template));
            let s = header_start(bt, tt[0]);
            &&& s + k < bt.len()
            &&& j < bt[s + k].len()
            &&& parse_i64(bt[s + k][j]) is Some
        }),
{
    let bt = word_table(lines(block));
    let tt = word_table(lines(template));
    let s = header_start(bt, tt[0]);
    assert(header_at(bt, tt, s));
    assert(line_matches(bt[s + k], tt[k]));
    assert(word_matches(bt[s + k][j], tt[k][j]));
}

/// A block with as many lines as the template, in which a word that stands in
/// place of `{year}` is no integer, holds no header.
pub proof fn year_that_is_no_number_is_missing(
    block: Seq<char>,
    template: Seq<char>,
    year: int,
    k: int,
    j: int,
)
    requires
        lines(block).len() == lines(template).len(),
        0 <= k < word_table(lines(template)).len(),
        0 <= j < word_table(lines(template))[k].len(),
        word_table(lines(template))[k][j] == year_token(),
        j < word_table(lines(block))[k].len() ==> parse_i64(word_table(lines(block))[k][j])
            is None,
    ensures
        check_result(block, template, year).1 == LicenseCheckRes::Missing,
{
    let bt = word_table(lines(block));
    let tt = word_table(lines(template));
    let s = header_start(bt, tt[0]);
    lemma_header_start_bounds(bt, tt[0]);
    if header_at(bt, tt, s) {
        assert(s == 0);
        assert(line_matches(bt[s + k], tt[k]));
        assert(word_matches(bt[k][j], tt[k][j]));
    }
}

/// Where the lines of a block from line `s` on match the template, no line
/// before them matches its first line, and one of their years is another
/// year than `year`, the block is outdated, and what is to be replaced is the
/// text of exactly those lines.
pub proof fn other_year_is_outdated(
    block: Seq<char>,
    template: Seq<char>,
    year: int,
    s: int,
    k: int,
    j: int,
)
    requires
        header_at(word_table(lines(block)), word_table(lines(template)), s),
        forall|i: int|
            0 <= i < s ==> !line_matches(
                #[trigger] word_table(lines(block))[i],
                word_table(lines(template))[0],
            ),
        0 <= k < word_table(lines(template)).len(),
        0 <= j < word_table(lines(template))[k].len(),
        word_table(lines(template))[k][j] == year_token(),
        parse_i64(word_table(lines(block))[s + k][j]) != Some(year),
    ensures
        check_result(block, template, year) == (
            span_of(lines(block), s, lines(template).len() as int),
            LicenseCheckRes::Outdated,
        ),
{
    let bt = word_table(lines(block));
    let tt = word_table(lines(template));
    assert(line_matches(bt[s + 0], tt[0]));
    lemma_header_start_is(bt, tt[0], s);
    assert(line_matches(bt[s + k], tt[k]));
    assert(word_stale(bt[s + k][j], tt[k][j], year));
    assert(line_stale(bt[s + k], tt[k], year));
    assert(header_stale(bt, tt, s, year));
}

/// Lines that do not match the first line of the template, put before a
/// block, change nothing of what the check finds in it: the header is found
/// as many lines further down.
pub proof fn leading_lines_are_passed_over(
    lead: Seq<Seq<Seq<char>>>,
    block: Seq<Seq<Seq<char>>>,
    tmpl: Seq<Seq<Seq<char>>>,
    year: int,
)
    requires
        tmpl.len() > 0,
        forall|i: int| 0 <= i < lead.len() ==> !line_matches(#[trigger] lead[i], tmpl[0]),
    ensures
        header_start(lead + block, tmpl[0]) == lead.len() + header_start(block, tmpl[0]),
        classify(lead + block, tmpl, year) == classify(block, tmpl, year),
{
    let all = lead + block;
    let s = header_start(block, tmpl[0]);
    let n = lead.len() as int;
    lemma_header_start_bounds(block, tmpl[0]);
    assert forall|i: int| 0 <= i < n + s implies !line_matches(#[trigger] all[i], tmpl[0]) by {
        if i < n {
            assert(all[i] == lead[i]);
        } else {
            assert(all[i] == block[i - n]);
        }
    }
    if s < block.len() {
        assert(all[n + s] == block[s]);
    }
    lemma_header_start_is(all, tmpl[0], n + s);
    if header_at(block, tmpl, s) {
        assert forall|k: int| 0 <= k < tmpl.len() implies line_matches(
            #[trigger] all[n + s + k],
            tmpl[k],
        ) by {
            assert(line_matches(block[s + k], tmpl[k]));
        }
        assert(header_at(all, tmpl, n + s));
        if header_stale(block, tmpl, s, year) {
            let k = choose|k: int|
                0 <= k < tmpl.len() && line_stale(#[trigger] block[s + k], tmpl[k], year);
            assert(line_stale(all[n + s + k], tmpl[k], year));
        }
        if header_stale(all, tmpl, n + s, year) {
            let k = choose|k: int|
                0 <= k < tmpl.len() && line_stale(#[trigger] all[n + s + k], tmpl[k], year);
            assert(line_stale(block[s + k], tmpl[k], year));
        }
    } else {
        if header_at(all, tmpl, n + s) {
            assert forall|k: int| 0 <= k < tmpl.len() implies line_matches(
                #[trigger] block[s + k],
                tmpl[k],
            ) by {
                assert(line_matches(all[n + s + k], tmpl[k]));
            }
        }
    }
}

/// Comment lines that stand before a block and do not match the first line of
/// the template do not make the header missing: the check of both together
/// gives what the check of the block alone gives, the text of an outdated
/// header included.
pub proof fn leading_comments_change_nothing(
    lead: Seq<char>,
    block: Seq<char>,
    template: Seq<char>,
    year: int,
)
    requires
        ends_lines(lead),
        lines(template).len() > 0,
        forall|i: int|
            0 <= i < lines(lead).len() ==> !line_matches(
                #[trigger] word_table(lines(lead))[i],
                word_table(lines(template))[0],
            ),
    ensures
        check_result(lead + block, template, year) == check_result(block, template, year),
{
    let ll = lines(lead);
    let bl = lines(block);
    let tt = word_table(lines(template));
    let n = ll.len() as int;
    lemma_lines_concat(lead, block);
    assert(word_table(ll + bl) =~= word_table(ll) + word_table(bl));
    leading_lines_are_passed_over(word_table(ll), word_table(bl), tt, year);
    let s = header_start(word_table(bl), tt[0]);
    if classify(word_table(bl), tt, year) == LicenseCheckRes::Outdated {
        assert(header_at(word_table(bl), tt, s));
        assert((ll + bl).subrange(n + s, n + s + tt.len()) =~= bl.subrange(s, s + tt.len()));
    }
}

} // verus!
