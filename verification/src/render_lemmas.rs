//! The rendered header holds the pattern: what the check finds in the lines
//! that `format_header` writes.

use crate::header::{
    filled, marker, newline, normalize_line, render_lines, rendered_header, rendered_pattern,
    year_token,
};
use crate::line_lemmas::{
    ends_lines, lacks, lemma_lines_concat, lemma_lines_lack_newline, lemma_lines_single,
};
use crate::matcher::{
    check_result, header_at, header_stale, lemma_header_start_is, line_matches, line_stale,
    line_words, strip_hashes, word_matches, word_stale, word_table, LicenseCheckRes,
};
use crate::number::{decimal, is_digit, lemma_nat_digits, lemma_parse_decimal, nat_digits};
use crate::replace_lemmas::{
    lemma_replace_absent, lemma_replace_cons, lemma_replace_first, lemma_replace_lacks,
    lemma_replace_whole,
};
use crate::text::{
    contains, is_space, lines, no_space, replace, starts_with, trim, trim_end, trim_start, words,
};
use crate::word_lemmas::{
    lemma_trim_end_cons, lemma_trim_ends, lemma_trim_lacks, lemma_trim_of_unindented,
    lemma_trim_start_first, lemma_words_replace, lemma_words_trim, lemma_words_trim_end,
    replace_each,
};
use vstd::prelude::*;

verus! {

/// The words of a template line that are compared once the line is rendered:
/// those behind its leading white space and comment markers.
pub open spec fn compared_words(l: Seq<char>) -> Seq<Seq<char>> {
    words(strip_hashes(trim_start(l)))
}

/// In the compared words of a template line `{year}` stands only as a word
/// of its own.
pub open spec fn year_stands_alone(l: Seq<char>) -> bool {
    forall|j: int|
        0 <= j < compared_words(l).len() ==> (#[trigger] compared_words(l)[j] == year_token()
            || !contains(compared_words(l)[j], year_token()))
}

/// The lines of a template as they are rendered.
pub open spec fn shown_lines(ls: Seq<Seq<char>>, year: Option<int>) -> Seq<Seq<char>> {
    Seq::new(ls.len(), |i: int| normalize_line(filled(ls[i], year)))
}

/// A year is written in digits, behind a minus sign where it is negative.
pub proof fn lemma_decimal_chars(year: int)
    ensures
        decimal(year).len() > 0,
        forall|i: int|
            0 <= i < decimal(year).len() ==> is_digit(#[trigger] decimal(year)[i]) || decimal(
                year,
            )[i] == '-',
        no_space(decimal(year)),
        lacks(decimal(year), '\n'),
        lacks(decimal(year), '#'),
{
    let d = decimal(year);
    if year < 0 {
        let n = nat_digits((-year) as nat);
        lemma_nat_digits((-year) as nat);
        assert forall|i: int| 0 <= i < d.len() implies is_digit(#[trigger] d[i]) || d[i]
            == '-' by {
            if i > 0 {
                assert(d[i] == n[i - 1]);
                assert(is_digit(n[i - 1]));
            }
        }
    } else {
        lemma_nat_digits(year as nat);
    }
    assert forall|i: int| 0 <= i < d.len() implies !is_space(#[trigger] d[i]) by {
        assert(is_digit(d[i]) || d[i] == '-');
    }
    assert forall|i: int| 0 <= i < d.len() implies #[trigger] d[i] != '\n' by {
        assert(is_digit(d[i]) || d[i] == '-');
    }
    assert forall|i: int| 0 <= i < d.len() implies #[trigger] d[i] != '#' by {
        assert(is_digit(d[i]) || d[i] == '-');
    }
}

pub proof fn lemma_year_token()
    ensures
        year_token().len() == 6,
        year_token()[0] == '{',
        no_space(year_token()),
{
}

/// Trimming the end of a text leaves its beginning alone.
pub proof fn lemma_trim_end_first(z: Seq<char>)
    ensures
        trim_end(z).len() > 0 ==> z.len() > 0 && trim_end(z)[0] == z[0],
    decreases z.len(),
{
    if z.len() > 0 && is_space(z.last()) {
        lemma_trim_end_first(z.drop_last());
    }
}

/// It is the same to take the markers from the front and then the white space
/// from the end, or the other way round.
pub proof fn lemma_strip_hashes_trim_end(z: Seq<char>)
    ensures
        strip_hashes(trim_end(z)) == trim_end(strip_hashes(z)),
    decreases z.len(),
{
    if z.len() > 0 && z[0] == '#' {
        let r = z.drop_first();
        assert(z =~= seq!['#'] + r);
        lemma_trim_end_cons('#', r);
        let t = seq!['#'] + trim_end(r);
        assert(t[0] == '#');
        assert(t.drop_first() =~= trim_end(r));
        lemma_strip_hashes_trim_end(r);
    } else {
        lemma_trim_end_first(z);
    }
}

/// Markers at the front of a line are not touched by `replace`.
pub proof fn lemma_strip_hashes_replace(l: Seq<char>, p: Seq<char>, w: Seq<char>)
    requires
        p.len() > 0,
        p[0] != '#',
        w.len() > 0,
        w[0] != '#',
    ensures
        strip_hashes(replace(l, p, w)) == replace(strip_hashes(l), p, w),
    decreases l.len(),
{
    if l.len() > 0 && l[0] == '#' {
        let r = l.drop_first();
        assert(l =~= seq!['#'] + r);
        lemma_replace_cons('#', r, p, w);
        let x = seq!['#'] + replace(r, p, w);
        assert(x[0] == '#');
        assert(x.drop_first() =~= replace(r, p, w));
        lemma_strip_hashes_replace(r, p, w);
    } else if l.len() > 0 {
        lemma_replace_first(l, p, w);
    } else {
    }
}

/// White space at the front of a line is not touched by `replace`.
pub proof fn lemma_trim_start_replace(l: Seq<char>, p: Seq<char>, w: Seq<char>)
    requires
        p.len() > 0,
        !is_space(p[0]),
        w.len() > 0,
        !is_space(w[0]),
    ensures
        trim_start(replace(l, p, w)) == replace(trim_start(l), p, w),
    decreases l.len(),
{
    if l.len() > 0 && is_space(l[0]) {
        let r = l.drop_first();
        assert(l =~= seq![l[0]] + r);
        lemma_replace_cons(l[0], r, p, w);
        let x = seq![l[0]] + replace(r, p, w);
        assert(x[0] == l[0]);
        assert(x.drop_first() =~= replace(r, p, w));
        lemma_trim_start_replace(r, p, w);
    } else if l.len() > 0 {
        lemma_replace_first(l, p, w);
    } else {
    }
}

/// The words that the check compares of a rendered line are the words of the
/// line behind its leading white space and comment markers.
pub proof fn lemma_normalized_words(x: Seq<char>)
    ensures
        line_words(normalize_line(x)) == compared_words(x),
{
    let t = trim(x);
    let x1 = trim_start(x);
    lemma_trim_start_first(x);
    if starts_with(t, marker()) {
        assert(t.take(1)[0] == t[0]);
        lemma_words_trim(strip_hashes(t));
        lemma_strip_hashes_trim_end(x1);
        lemma_words_trim_end(strip_hashes(x1));
    } else {
        let b = seq!['#', ' '] + t;
        assert(b[0] == '#');
        let b1 = b.drop_first();
        assert(b1 =~= seq![' '] + t);
        assert(b1[0] == ' ');
        assert(strip_hashes(b) == strip_hashes(b1));
        assert(strip_hashes(b1) == b1);
        lemma_words_trim(b1);
        assert(b1.drop_first() =~= t);
        assert(words(b1) == words(t));
        lemma_words_trim_end(x1);
        if x1.len() > 0 && x1[0] == '#' {
            lemma_trim_of_unindented(x1);
            assert(trim(x1) == trim_end(trim_start(x1)));
            assert(trim_start(x1) == x1);
            assert(t.take(1) =~= marker());
        }
        assert(strip_hashes(x1) == x1);
    }
}

/// The compared words of a template line with the year filled in are the
/// compared words of the line, each with the year in place of `{year}`.
pub proof fn lemma_filled_words(l: Seq<char>, year: int)
    ensures
        compared_words(replace(l, year_token(), decimal(year))) == replace_each(
            compared_words(l),
            year_token(),
            decimal(year),
        ),
{
    let p = year_token();
    let d = decimal(year);
    lemma_decimal_chars(year);
    lemma_year_token();
    assert(d[0] != '#');
    assert(!is_space(d[0]));
    assert(!is_space(p[0]));
    lemma_trim_start_replace(l, p, d);
    lemma_strip_hashes_replace(trim_start(l), p, d);
    lemma_words_replace(strip_hashes(trim_start(l)), p, d);
}

/// A word of the pattern in which the year stands in place of `{year}`
/// stands for that word, and its year is the current one.
pub proof fn lemma_shown_word_matches(w: Seq<char>, year: int)
    requires
        w == year_token() || !contains(w, year_token()),
        i64::MIN <= year <= i64::MAX,
    ensures
        word_matches(replace(w, year_token(), decimal(year)), w),
        !word_stale(replace(w, year_token(), decimal(year)), w, year),
{
    if w == year_token() {
        lemma_replace_whole(year_token(), decimal(year));
        lemma_parse_decimal(year, i64::MIN as int, i64::MAX as int);
    } else {
        lemma_replace_absent(w, year_token(), decimal(year));
    }
}

/// A template line as it is rendered begins with the comment marker, holds
/// no line feed, and does not end with a carriage return.
pub proof fn lemma_shown_line_is_a_line(l: Seq<char>, year: Option<int>)
    requires
        lacks(l, '\n'),
    ensures
        ({
            let shown = normalize_line(filled(l, year));
            &&& lacks(shown, '\n')
            &&& shown.len() > 0
            &&& shown[0] == '#'
            &&& shown.last() != '\r'
        }),
{
    let x = filled(l, year);
    match year {
        Some(y) => {
            lemma_decimal_chars(y);
            lemma_replace_lacks(l, year_token(), decimal(y), '\n');
        },
        None => {},
    }
    let t = trim(x);
    lemma_trim_lacks(x, '\n');
    lemma_trim_ends(x);
    let shown = normalize_line(x);
    if starts_with(t, marker()) {
        assert(t.take(1)[0] == t[0]);
    } else {
        assert forall|i: int| 0 <= i < shown.len() implies #[trigger] shown[i] != '\n' by {
            if i >= 2 {
                assert(shown[i] == t[i - 2]);
            }
        }
        if t.len() > 0 {
            assert(shown.last() == t.last());
        } else {
            assert(shown.last() == ' ');
        }
    }
}

/// The lines of a rendered template are its lines as they are rendered, and
/// the rendered template ends with a line feed unless it is empty.
pub proof fn lemma_lines_of_rendered(ls: Seq<Seq<char>>, year: Option<int>)
    requires
        forall|i: int| 0 <= i < ls.len() ==> lacks(#[trigger] ls[i], '\n'),
    ensures
        lines(render_lines(ls, year)) == shown_lines(ls, year),
        ends_lines(render_lines(ls, year)),
        ls.len() > 0 ==> render_lines(ls, year).len() > 0,
    decreases ls.len(),
{
    if ls.len() == 0 {
        assert(lines(render_lines(ls, year)) =~= shown_lines(ls, year));
    } else {
        let init = ls.drop_last();
        assert forall|i: int| 0 <= i < init.len() implies lacks(#[trigger] init[i], '\n') by {
            assert(init[i] == ls[i]);
        }
        lemma_lines_of_rendered(init, year);
        let a = render_lines(init, year);
        let shown = normalize_line(filled(ls.last(), year));
        lemma_shown_line_is_a_line(ls.last(), year);
        lemma_lines_concat(a, shown + newline());
        lemma_lines_single(shown);
        assert(render_lines(ls, year) == a + (shown + newline()));
        assert((a + (shown + newline())).last() == '\n');
        assert(shown_lines(init, year) + seq![shown] =~= shown_lines(ls, year));
    }
}

/// The header that a template renders holds the pattern that the template
/// renders, with the current year: the check of the header against the pattern
/// finds it, whatever the year, where `{year}` stands in the template only as
/// a word of its own.
pub proof fn rendered_header_is_found(template: Seq<char>, year: int)
    requires
        i64::MIN <= year <= i64::MAX,
        forall|i: int|
            0 <= i < lines(template).len() ==> year_stands_alone(#[trigger] lines(template)[i]),
    ensures
        check_result(rendered_header(template, year), rendered_pattern(template), year) == (
            Seq::<char>::empty(),
            LicenseCheckRes::Found,
        ),
{
    let ls = lines(template);
    let h = rendered_header(template, year);
    let p = rendered_pattern(template);
    assert forall|i: int| 0 <= i < ls.len() implies lacks(#[trigger] ls[i], '\n') by {
        lemma_lines_lack_newline(template, i);
    }
    lemma_lines_of_rendered(ls, Some(year));
    lemma_lines_of_rendered(ls, None);
    let bt = word_table(lines(h));
    let tt = word_table(lines(p));
    assert(tt.len() == ls.len());
    assert forall|k: int| 0 <= k < tt.len() implies line_matches(#[trigger] bt[k], tt[k])
        && !line_stale(bt[k], tt[k], year) by {
        let l = ls[k];
        lemma_normalized_words(l);
        lemma_normalized_words(replace(l, year_token(), decimal(year)));
        lemma_filled_words(l, year);
        assert(tt[k] == line_words(shown_lines(ls, None)[k]));
        assert(bt[k] == line_words(shown_lines(ls, Some(year))[k]));
        assert(tt[k] == compared_words(l));
        assert(bt[k] == replace_each(tt[k], year_token(), decimal(year)));
        assert forall|j: int| 0 <= j < tt[k].len() implies word_matches(
            #[trigger] bt[k][j],
            tt[k][j],
        ) && !word_stale(bt[k][j], tt[k][j], year) by {
            assert(compared_words(l)[j] == year_token() || !contains(
                compared_words(l)[j],
                year_token(),
            ));
            lemma_shown_word_matches(tt[k][j], year);
        }
    }
    if tt.len() > 0 {
        assert(line_matches(bt[0], tt[0]));
        lemma_header_start_is(bt, tt[0], 0);
        assert forall|k: int| 0 <= k < tt.len() implies line_matches(
            #[trigger] bt[0 + k],
            tt[k],
        ) by {
            assert(line_matches(bt[k], tt[k]));
        }
        assert(header_at(bt, tt, 0));
        if header_stale(bt, tt, 0, year) {
            let k = choose|k: int|
                0 <= k < tt.len() && line_stale(#[trigger] bt[0 + k], tt[k], year);
            assert(!line_stale(bt[k], tt[k], year));
        }
    }
}

} // verus!
