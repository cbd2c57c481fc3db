//! A header that was put into a file is found there again.

use crate::extract::{
    comment_block, comment_run, insert_offset, is_comment, is_hashbang, is_skipped,
    lemma_skipped_len_bounds, skipped_len,
};
use crate::formatter::{fixed_content, outcome_of};
use crate::header::{
    hashbang, marker, newline, render_line, render_lines, rendered_header, rendered_pattern,
};
use crate::line_lemmas::{
    ends_lines, lacks, lemma_first_line_concat, lemma_line_end_inside, lemma_lines_lack_newline,
    lemma_lines_single,
};
use crate::matcher::{check_result, word_table, LicenseCheckRes};
use crate::render_lemmas::{
    lemma_shown_line_is_a_line, rendered_header_is_found, year_stands_alone,
};
use crate::text::{
    first_line, first_line_span, is_blank, is_space, lemma_line_end_bounds, lemma_line_end_is,
    line_end, lines, starts_with,
};
use crate::writer::{
    begins_comment, gap_before, inserted, lemma_char_index_of_offset, with_header_at,
};
use vstd::prelude::*;

verus! {

/// What a file begins with before its first comment or code: its leading
/// interpreter directives and blank lines.
pub open spec fn skipped_part(content: Seq<char>) -> Seq<char> {
    content.take(skipped_len(content))
}

/// No comment block begins where a text is empty or begins with another
/// character than the comment marker.
pub proof fn lemma_comment_run_stops(tail: Seq<char>)
    requires
        !begins_comment(tail),
    ensures
        comment_run(tail) == Seq::<char>::empty(),
{
    lemma_line_end_bounds(tail);
    let l = first_line(tail);
    if tail.len() > 0 && is_comment(l) {
        assert(l.take(1)[0] == l[0]);
        assert(l[0] == tail[0]);
    }
}

/// A comment line at the start of a text is the first line of its comment
/// block.
pub proof fn lemma_comment_run_line(l: Seq<char>, rest: Seq<char>)
    requires
        lacks(l, '\n'),
        l.len() > 0,
        l[0] == '#',
        l.last() != '\r',
    ensures
        comment_run(l + newline() + rest) == l + newline() + comment_run(rest),
        first_line(l + newline() + rest) == l,
        first_line_span(l + newline() + rest) == l.len() + 1,
{
    let a = l + newline();
    lemma_lines_single(l);
    lemma_line_end_inside(a);
    lemma_first_line_concat(a, rest);
    assert(a.skip(l.len() as int + 1) =~= Seq::<char>::empty());
    assert((a + rest).skip(l.len() as int + 1) =~= rest);
    assert(l.take(1) =~= marker());
}

/// The header is its first line and the header of the other lines.
pub proof fn lemma_render_lines_front(ls: Seq<Seq<char>>, year: Option<int>)
    requires
        ls.len() > 0,
    ensures
        render_lines(ls, year) == render_line(ls[0], year) + render_lines(ls.drop_first(), year),
    decreases ls.len(),
{
    if ls.len() == 1 {
        assert(ls.drop_last() =~= Seq::<Seq<char>>::empty());
        assert(ls.drop_first() =~= Seq::<Seq<char>>::empty());
        assert(render_lines(ls.drop_last(), year) =~= Seq::<char>::empty());
        assert(render_lines(ls, year) =~= render_line(ls[0], year));
        assert(render_line(ls[0], year) + render_lines(ls.drop_first(), year) =~= render_line(
            ls[0],
            year,
        ));
    } else {
        let init = ls.drop_last();
        lemma_render_lines_front(init, year);
        assert(init[0] == ls[0]);
        assert(init.drop_first() =~= ls.drop_first().drop_last());
        assert(ls.drop_first().last() == ls.last());
        assert(render_lines(ls.drop_first(), year) == render_lines(
            ls.drop_first().drop_last(),
            year,
        ) + render_line(ls.last(), year));
        assert((render_line(ls[0], year) + render_lines(init.drop_first(), year)) + render_line(
            ls.last(),
            year,
        ) =~= render_line(ls[0], year) + (render_lines(init.drop_first(), year) + render_line(
            ls.last(),
            year,
        )));
    }
}

/// The comment block of a header and what follows it is the header, where
/// what follows does not begin with the comment marker.
pub proof fn lemma_comment_run_header(ls: Seq<Seq<char>>, year: Option<int>, tail: Seq<char>)
    requires
        forall|i: int| 0 <= i < ls.len() ==> lacks(#[trigger] ls[i], '\n'),
        !begins_comment(tail),
    ensures
        comment_run(render_lines(ls, year) + tail) == render_lines(ls, year),
    decreases ls.len(),
{
    if ls.len() == 0 {
        assert(render_lines(ls, year) + tail =~= tail);
        lemma_comment_run_stops(tail);
    } else {
        lemma_render_lines_front(ls, year);
        let first = crate::header::normalize_line(crate::header::filled(ls[0], year));
        let others = ls.drop_first();
        assert forall|i: int| 0 <= i < others.len() implies lacks(#[trigger] others[i], '\n') by {
            assert(others[i] == ls[i + 1]);
        }
        lemma_shown_line_is_a_line(ls[0], year);
        let rest = render_lines(others, year) + tail;
        lemma_comment_run_line(first, rest);
        lemma_comment_run_header(others, year, tail);
        assert(render_lines(ls, year) + tail =~= first + newline() + rest);
        assert(first + newline() + render_lines(others, year) =~= render_lines(ls, year));
    }
}

/// Nothing is passed over at the start of a header whose first line is no
/// interpreter directive.
pub proof fn lemma_header_not_skipped(ls: Seq<Seq<char>>, year: Option<int>, tail: Seq<char>)
    requires
        ls.len() > 0,
        forall|i: int| 0 <= i < ls.len() ==> lacks(#[trigger] ls[i], '\n'),
        !starts_with(render_lines(ls, year), hashbang()),
    ensures
        skipped_len(render_lines(ls, year) + tail) == 0,
{
    lemma_render_lines_front(ls, year);
    let first = crate::header::normalize_line(crate::header::filled(ls[0], year));
    lemma_shown_line_is_a_line(ls[0], year);
    let others = render_lines(ls.drop_first(), year);
    let rest = others + tail;
    lemma_comment_run_line(first, rest);
    let h = render_lines(ls, year);
    assert(h + tail =~= first + newline() + rest);
    assert(h =~= first + newline() + others);
    if is_hashbang(first) {
        assert(first.take(2) =~= hashbang());
        assert(h.take(2) =~= first.take(2));
    }
    if is_blank(first) {
        assert(is_space(first[0]));
    }
}

/// What is passed over at the start of a text that goes on is what is passed
/// over in its first part, and in the other part, where the first part is
/// passed over whole and ends with a line feed.
pub proof fn lemma_skipped_concat(p: Seq<char>, rest: Seq<char>)
    requires
        skipped_len(p) == p.len(),
        ends_lines(p),
    ensures
        skipped_len(p + rest) == p.len() + skipped_len(rest),
    decreases p.len(),
{
    if p.len() == 0 {
        assert(p + rest =~= rest);
    } else {
        lemma_line_end_inside(p);
        lemma_first_line_concat(p, rest);
        let n = first_line_span(p);
        let q = p.skip(n);
        if q.len() > 0 {
            assert(q.last() == p.last());
        }
        lemma_skipped_len_bounds(q);
        lemma_skipped_concat(q, rest);
    }
}

/// What is passed over at the start of a file is passed over whole when it
/// stands alone.
pub proof fn lemma_skipped_part(content: Seq<char>)
    ensures
        0 <= skipped_len(content) <= content.len(),
        skipped_len(skipped_part(content)) == skipped_len(content),
    decreases content.len(),
{
    lemma_skipped_len_bounds(content);
    lemma_line_end_bounds(content);
    let n = first_line_span(content);
    let k = skipped_len(content);
    if content.len() == 0 || !(1 <= n <= content.len()) || !is_skipped(first_line(content)) {
        assert(skipped_part(content) =~= Seq::<char>::empty());
    } else {
        let rest = content.skip(n);
        let k2 = skipped_len(rest);
        lemma_skipped_part(rest);
        let e = line_end(content);
        let p = skipped_part(content);
        if e < content.len() {
            let a = content.take(n);
            assert(p =~= a + rest.take(k2));
            assert forall|i: int| 0 <= i < e implies a[i] != '\n' by {
                assert(a[i] == content[i]);
            }
            assert(a[e] == content[e]);
            lemma_line_end_is(a, e);
            lemma_first_line_concat(a, rest.take(k2));
            if e > 0 {
                assert(a[e - 1] == content[e - 1]);
                assert(a.take(e - 1) =~= content.take(e - 1));
            }
            assert(a.take(e) =~= content.take(e));
            assert(first_line(a) == first_line(content));
            assert(a.skip(n) =~= Seq::<char>::empty());
            assert((a + rest.take(k2)).skip(n) =~= rest.take(k2));
            assert(skipped_part(rest) == rest.take(k2));
        } else {
            assert(rest =~= Seq::<char>::empty());
            assert(p =~= content);
        }
    }
}

/// For a file with no header, the header that is put in is found there again:
/// the next check of the file finds the header, current. This holds where the
/// file's leading interpreter directives and blank lines end with a line feed
/// or are blank altogether, the header does not begin like an interpreter
/// directive, and `{year}` stands in the template only as a word of its own.
pub proof fn inserted_header_is_found(content: Seq<char>, template: Seq<char>, year: int)
    requires
        i64::MIN <= year <= i64::MAX,
        check_result(comment_block(content), rendered_pattern(template), year).1
            == LicenseCheckRes::Missing,
        is_blank(skipped_part(content)) || ends_lines(skipped_part(content)),
        !starts_with(rendered_header(template, year), hashbang()),
        forall|i: int|
            0 <= i < lines(template).len() ==> year_stands_alone(#[trigger] lines(template)[i]),
    ensures
        ({
            let header = rendered_header(template, year);
            let fixed = with_header_at(content, header, skipped_len(content));
            &&& inserted(content, header, insert_offset(content)) == Some(fixed)
            &&& comment_block(fixed) == header
            &&& check_result(comment_block(fixed), rendered_pattern(template), year) == (
                Seq::<char>::empty(),
                LicenseCheckRes::Found,
            )
        }),
{
    let ls = lines(template);
    let header = rendered_header(template, year);
    let k = skipped_len(content);
    lemma_skipped_part(content);
    lemma_char_index_of_offset(content, k);
    let fixed = with_header_at(content, header, k);
    let before = content.take(k);
    let after = content.skip(k);
    let kept = if is_blank(before) {
        Seq::<char>::empty()
    } else {
        before
    };
    let tail = gap_before(after) + after;
    assert(fixed =~= kept + (header + tail));
    assert(!begins_comment(tail)) by {
        if begins_comment(after) {
            assert(tail[0] == '\n');
        } else {
            assert(tail =~= after);
        }
    }
    assert forall|i: int| 0 <= i < ls.len() implies lacks(#[trigger] ls[i], '\n') by {
        lemma_lines_lack_newline(template, i);
    }
    crate::render_lemmas::lemma_lines_of_rendered(ls, None);
    assert(ls.len() > 0) by {
        if ls.len() == 0 {
            assert(word_table(lines(rendered_pattern(template))).len() == 0);
        }
    }
    lemma_header_not_skipped(ls, Some(year), tail);
    assert(skipped_len(kept) == kept.len() && ends_lines(kept)) by {
        if is_blank(before) {
        } else {
            assert(kept == skipped_part(content));
        }
    }
    lemma_skipped_concat(kept, header + tail);
    assert(fixed.skip(kept.len() as int) =~= header + tail);
    lemma_comment_run_header(ls, Some(year), tail);
    rendered_header_is_found(template, year);
}

/// Fixing a file that has no header puts the header in, and the next run on
/// the file finds it: the file then needs no fix. The conditions are those of
/// `inserted_header_is_found`.
pub proof fn fix_of_missing_header_is_found(content: Seq<char>, template: Seq<char>, year: int)
    requires
        i64::MIN <= year <= i64::MAX,
        outcome_of(
            content,
            rendered_header(template, year),
            rendered_pattern(template),
            year,
            false,
        ).0 == LicenseCheckRes::Missing,
        is_blank(skipped_part(content)) || ends_lines(skipped_part(content)),
        !starts_with(rendered_header(template, year), hashbang()),
        forall|i: int|
            0 <= i < lines(template).len() ==> year_stands_alone(#[trigger] lines(template)[i]),
    ensures
        ({
            let header = rendered_header(template, year);
            let pattern = rendered_pattern(template);
            let fixed = fixed_content(content, header, pattern, year);
            outcome_of(fixed, header, pattern, year, false) == (
                LicenseCheckRes::Found,
                false,
                None::<Seq<char>>,
            )
        }),
{
    inserted_header_is_found(content, template, year);
}

/// A file whose header is current is left as it is, so that the next run
/// finds the header again, with any header to write and any template.
pub proof fn found_header_stays_found(
    content: Seq<char>,
    header: Seq<char>,
    template: Seq<char>,
    year: int,
)
    requires
        outcome_of(content, header, template, year, false).0 == LicenseCheckRes::Found,
    ensures
        fixed_content(content, header, template, year) == content,
        outcome_of(fixed_content(content, header, template, year), header, template, year, false)
            == (LicenseCheckRes::Found, false, None::<Seq<char>>),
{
}

/// A run that only checks changes no file, whatever it finds.
pub proof fn check_only_changes_nothing(
    content: Seq<char>,
    header: Seq<char>,
    template: Seq<char>,
    year: int,
)
    ensures
        outcome_of(content, header, template, year, true).2 is None,
        outcome_of(content, header, template, year, true).0 == outcome_of(
            content,
            header,
            template,
            year,
            false,
        ).0,
        outcome_of(content, header, template, year, true).1 == (outcome_of(
            content,
            header,
            template,
            year,
            true,
        ).0 != LicenseCheckRes::Found),
{
}

} // verus!
