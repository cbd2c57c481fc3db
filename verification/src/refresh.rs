//! What holds after a fix: an outdated header that gave way to the current one
//! is found again, and a file that was fixed is left alone by the next run.

use crate::config::Config;
use crate::extract::{comment_block, comment_run, is_comment, is_skipped, skipped_len};
use crate::formatter::{fixed_content, outcome_of};
use crate::guarantees::leading_lines_are_passed_over;
use crate::header::{
    comparison_template, expanded_template, hashbang, header_of, newline, render_lines,
    rendered_header, rendered_pattern,
};
use crate::line_lemmas::{
    ends_lines, lacks, lemma_first_line_concat, lemma_lines_concat, lemma_lines_lack_newline,
};
use crate::matcher::{
    check_result, header_at, header_start, lemma_header_start_bounds, line_matches, word_table,
    LicenseCheckRes,
};
use crate::render_lemmas::{lemma_lines_of_rendered, rendered_header_is_found, year_stands_alone};
use crate::roundtrip::{
    lemma_comment_run_header, lemma_header_not_skipped, lemma_skipped_concat,
    lemma_skipped_part, skipped_part,
};
use crate::text::{
    find, first_line, first_line_span, lemma_line_end_bounds, lemma_line_end_is, line_end, lines,
    starts_with,
};
use crate::writer::{begins_comment, closed_by_newline, gap_before, updated};
use vstd::prelude::*;

verus! {

/// Number of characters that the first `s` lines of a text take, line feeds
/// counted: the place where line `s` begins.
pub open spec fn line_offset(r: Seq<char>, s: int) -> int
    decreases s,
{
    let n = first_line_span(r);
    if s <= 0 || r.len() == 0 || !(1 <= n <= r.len()) {
        0
    } else {
        n + line_offset(r.skip(n), s - 1)
    }
}

/// The first line of a text, line feed and all, keeps being the first line
/// when something else follows it.
pub proof fn lemma_raw_line(r: Seq<char>, y: Seq<char>)
    requires
        0 <= line_end(r) < r.len(),
    ensures
        ({
            let n = first_line_span(r);
            &&& n == line_end(r) + 1
            &&& first_line(r.take(n) + y) == first_line(r)
            &&& first_line_span(r.take(n) + y) == n
            &&& (r.take(n) + y).skip(n) == y
            &&& (r.take(n) + y).len() >= n
        }),
{
    lemma_line_end_bounds(r);
    let e = line_end(r);
    let n = e + 1;
    let a = r.take(n);
    assert forall|i: int| 0 <= i < e implies a[i] != '\n' by {
        assert(a[i] == r[i]);
    }
    assert(a[e] == r[e]);
    lemma_line_end_is(a, e);
    lemma_first_line_concat(a, y);
    if e > 0 {
        assert(a[e - 1] == r[e - 1]);
        assert(a.take(e - 1) =~= r.take(e - 1));
    }
    assert(a.take(e) =~= r.take(e));
    assert(a.skip(n) =~= Seq::<char>::empty());
    assert((a + y).skip(n) =~= y);
}

/// What is passed over at the start of a file ends with a line feed, where
/// the file goes on behind it.
pub proof fn lemma_skipped_part_ends(content: Seq<char>)
    requires
        skipped_len(content) < content.len(),
    ensures
        ends_lines(skipped_part(content)),
    decreases content.len(),
{
    lemma_line_end_bounds(content);
    let n = first_line_span(content);
    if content.len() == 0 || !(1 <= n <= content.len()) || !is_skipped(first_line(content)) {
        assert(skipped_part(content) =~= Seq::<char>::empty());
    } else {
        let rest = content.skip(n);
        let k2 = skipped_len(rest);
        crate::extract::lemma_skipped_len_bounds(rest);
        let p = skipped_part(content);
        assert(p =~= content.take(n) + rest.take(k2));
        if k2 == 0 {
            assert(p =~= content.take(n));
            assert(line_end(content) < content.len());
            assert(p.last() == content[n - 1]);
        } else {
            lemma_skipped_part_ends(rest);
            assert(p.last() == rest.take(k2).last());
        }
    }
}

/// Behind what is passed over at the start of a file nothing more is passed
/// over.
pub proof fn lemma_skip_done(content: Seq<char>)
    ensures
        0 <= skipped_len(content) <= content.len(),
        skipped_len(content.skip(skipped_len(content))) == 0,
    decreases content.len(),
{
    crate::extract::lemma_skipped_len_bounds(content);
    let n = first_line_span(content);
    if content.len() == 0 || !(1 <= n <= content.len()) || !is_skipped(first_line(content)) {
        assert(content.skip(0) =~= content);
    } else {
        let rest = content.skip(n);
        lemma_skip_done(rest);
        assert(content.skip(n + skipped_len(rest)) =~= rest.skip(skipped_len(rest)));
    }
}

/// The first lines of a comment block, taken as they stand in the text, are
/// a comment block of their own: with anything behind them the comment block
/// is theirs and what the rest begins with, and their lines are the first
/// lines of the whole block.
pub proof fn lemma_comment_prefix(r: Seq<char>, s: int, z: Seq<char>)
    requires
        0 <= s < lines(comment_run(r)).len(),
    ensures
        ({
            let o = line_offset(r, s);
            let pre = r.take(o);
            &&& 0 <= o <= r.len()
            &&& comment_run(pre + z) == comment_run(pre) + comment_run(z)
            &&& lines(comment_run(pre)) == lines(comment_run(r)).take(s)
            &&& ends_lines(comment_run(pre))
            &&& s > 0 ==> pre.len() > 0 && first_line(pre + z) == first_line(r)
        }),
    decreases s,
{
    let o = line_offset(r, s);
    let pre = r.take(o);
    lemma_line_end_bounds(r);
    if s == 0 {
        assert(pre =~= Seq::<char>::empty());
        assert(pre + z =~= z);
        assert(comment_run(pre) + comment_run(z) =~= comment_run(z));
        assert(lines(comment_run(r)).take(0) =~= Seq::<Seq<char>>::empty());
    } else {
        let n = first_line_span(r);
        let fl = first_line(r);
        assert(r.len() > 0 && 1 <= n <= r.len() && is_comment(fl)) by {
            if r.len() == 0 || !(1 <= n <= r.len()) || !is_comment(fl) {
                assert(comment_run(r) =~= Seq::<char>::empty());
                assert(lines(comment_run(r)).len() == 0);
            }
        }
        let r2 = r.skip(n);
        let run2 = comment_run(r2);
        let head = fl + newline();
        assert(comment_run(r) == head + run2);
        assert(head.last() == '\n');
        lemma_lines_concat(head, run2);
        assert(lines(head).len() == 1) by {
            lemma_first_line_lacks_newline(r);
            lemma_lines_of_one(fl);
        }
        assert(lines(comment_run(r)).len() == 1 + lines(run2).len());
        assert(line_end(r) < r.len()) by {
            if line_end(r) == r.len() {
                assert(r2 =~= Seq::<char>::empty());
                assert(run2 =~= Seq::<char>::empty());
                assert(lines(run2).len() == 0);
            }
        }
        lemma_comment_prefix(r2, s - 1, z);
        let o2 = line_offset(r2, s - 1);
        let pre2 = r2.take(o2);
        assert(o == n + o2);
        assert(pre =~= r.take(n) + pre2);
        assert(pre + z =~= r.take(n) + (pre2 + z));
        lemma_raw_line(r, pre2 + z);
        lemma_raw_line(r, pre2);
        assert(comment_run(pre + z) == head + comment_run(pre2 + z));
        assert(comment_run(pre) == head + comment_run(pre2));
        assert(head + (comment_run(pre2) + comment_run(z)) =~= (head + comment_run(pre2))
            + comment_run(z));
        lemma_lines_concat(head, comment_run(pre2));
        assert(lines(head) + lines(run2).take(s - 1) =~= (lines(head) + lines(run2)).take(s));
        assert(comment_run(pre).last() == '\n') by {
            if comment_run(pre2).len() == 0 {
                assert(comment_run(pre) =~= head);
            } else {
                assert(comment_run(pre).last() == comment_run(pre2).last());
            }
        }
    }
}

/// A text without a line feed, closed by one, is one line.
pub proof fn lemma_lines_of_one(l: Seq<char>)
    requires
        lacks(l, '\n'),
    ensures
        lines(l + newline()).len() == 1,
{
    let s = l + newline();
    let k = l.len() as int;
    assert forall|i: int| 0 <= i < k implies s[i] != '\n' by {
        assert(s[i] == l[i]);
    }
    assert(s[k] == '\n');
    lemma_line_end_is(s, k);
    let rest = s.skip(k + 1);
    assert(rest =~= Seq::<char>::empty());
    assert(lines(rest) =~= Seq::<Seq<char>>::empty());
}

/// The first line of a text holds no line feed.
pub proof fn lemma_first_line_lacks_newline(r: Seq<char>)
    ensures
        lacks(first_line(r), '\n'),
{
    lemma_line_end_bounds(r);
    let l = first_line(r);
    assert forall|i: int| 0 <= i < l.len() implies #[trigger] l[i] != '\n' by {
        assert(l[i] == r[i]);
    }
}

/// The compared words of lines put together are those of the first lines and
/// those of the others.
pub proof fn lemma_word_table_concat(a: Seq<Seq<char>>, b: Seq<Seq<char>>)
    ensures
        word_table(a + b) == word_table(a) + word_table(b),
{
    assert(word_table(a + b) =~= word_table(a) + word_table(b));
}

/// The place in a file where line `s` of its first comment block begins.
pub open spec fn block_line_place(content: Seq<char>, s: int) -> int {
    skipped_len(content) + line_offset(content.skip(skipped_len(content)), s)
}

/// For a file with an outdated header, the header that takes its place is
/// found there again: the next check of the file finds the header, current.
/// This holds where the text of the outdated header occurs in the file at the
/// place of the header first, the header to write does not begin like an
/// interpreter directive, and `{year}` stands in the template only as a word
/// of its own.
pub proof fn replaced_header_is_found(content: Seq<char>, template: Seq<char>, year: int)
    requires
        i64::MIN <= year <= i64::MAX,
        check_result(comment_block(content), rendered_pattern(template), year).1 == LicenseCheckRes::Outdated,
        find(
            closed_by_newline(content),
            check_result(comment_block(content), rendered_pattern(template), year).0,
        ) == Some(
            block_line_place(
                content,
                header_start(
                    word_table(lines(comment_block(content))),
                    word_table(lines(rendered_pattern(template)))[0],
                ),
            ),
        ),
        !starts_with(rendered_header(template, year), hashbang()),
        forall|i: int|
            0 <= i < lines(template).len() ==> year_stands_alone(#[trigger] lines(template)[i]),
    ensures
        ({
            let header = rendered_header(template, year);
            let span = check_result(comment_block(content), rendered_pattern(template), year).0;
            &&& updated(content, span, header) is Some
            &&& check_result(
                comment_block(updated(content, span, header)->0),
                rendered_pattern(template),
                year,
            )
                == (Seq::<char>::empty(), LicenseCheckRes::Found)
        }),
{
    let header = rendered_header(template, year);
    let ls = lines(template);
    let tt = word_table(lines(rendered_pattern(template)));
    let bl = lines(comment_block(content));
    let bt = word_table(bl);
    let span = check_result(comment_block(content), rendered_pattern(template), year).0;
    let s = header_start(bt, tt[0]);
    lemma_outdated_facts(comment_block(content), rendered_pattern(template), year);
    lemma_fixed_shape(content, span, header, s);
    let tail = tail_behind(content, span, block_line_place(content, s));
    let fixed = updated(content, span, header)->0;
    assert forall|i: int| 0 <= i < ls.len() implies lacks(#[trigger] ls[i], '\n') by {
        lemma_lines_lack_newline(template, i);
    }
    lemma_lines_of_rendered(ls, None);
    assert(ls.len() > 0) by {
        if ls.len() == 0 {
            assert(lines(rendered_pattern(template)).len() == 0);
        }
    }
    lemma_block_of_refreshed(content, ls, Some(year), s, tail);
    let r = content.skip(skipped_len(content));
    lemma_lines_concat(comment_run(r.take(line_offset(r, s))), header);
    lemma_refreshed_is_found(bl, s, template, year, comment_block(fixed));
}

/// What an outdated block tells of itself: the pattern has lines, the header
/// begins inside the block, and no line before it matches the first line of
/// the pattern.
proof fn lemma_outdated_facts(block: Seq<char>, pattern: Seq<char>, year: int)
    requires
        check_result(block, pattern, year).1 == LicenseCheckRes::Outdated,
    ensures
        lines(pattern).len() > 0,
        ({
            let bt = word_table(lines(block));
            let tt = word_table(lines(pattern));
            let s = header_start(bt, tt[0]);
            &&& 0 <= s < lines(block).len()
            &&& forall|i: int| 0 <= i < s ==> !line_matches(#[trigger] bt[i], tt[0])
        }),
{
    let bt = word_table(lines(block));
    let tt = word_table(lines(pattern));
    lemma_header_start_bounds(bt, tt[0]);
    assert(tt.len() > 0);
    assert(header_at(bt, tt, header_start(bt, tt[0])));
}

/// What stands behind the replaced text, with the gap before it.
pub open spec fn tail_behind(content: Seq<char>, span: Seq<char>, pos: int) -> Seq<char> {
    let after = closed_by_newline(content).skip(pos + span.len());
    gap_before(after) + after
}

/// The shape of a file in which the header took the place of `span`, found at
/// the place of line `s` of the first comment block.
proof fn lemma_fixed_shape(content: Seq<char>, span: Seq<char>, header: Seq<char>, s: int)
    requires
        0 <= s < lines(comment_block(content)).len(),
        find(closed_by_newline(content), span) == Some(block_line_place(content, s)),
    ensures
        ({
            let r = content.skip(skipped_len(content));
            let pre = r.take(line_offset(r, s));
            let tail = tail_behind(content, span, block_line_place(content, s));
            &&& updated(content, span, header) == Some(
                skipped_part(content) + (pre + (header + tail)),
            )
            &&& !begins_comment(tail)
        }),
{
    let k = skipped_len(content);
    let r = content.skip(k);
    let o = line_offset(r, s);
    let pre = r.take(o);
    let c = closed_by_newline(content);
    let pos = k + o;
    crate::extract::lemma_skipped_len_bounds(content);
    lemma_comment_prefix(r, s, Seq::<char>::empty());
    let after = c.skip(pos + span.len());
    let tail = gap_before(after) + after;
    if begins_comment(after) {
        assert(tail[0] == '\n');
    } else {
        assert(tail =~= after);
    }
    assert(c.take(pos) =~= skipped_part(content) + pre);
    assert(c.take(pos) + header + gap_before(after) + after =~= skipped_part(content) + (pre + (
        header + tail)));
}

/// The first comment block of a file in which the header stands behind the
/// first `s` lines of the old block, and the lines of that block.
proof fn lemma_block_of_refreshed(
    content: Seq<char>,
    ls: Seq<Seq<char>>,
    year: Option<int>,
    s: int,
    tail: Seq<char>,
)
    requires
        0 <= s < lines(comment_block(content)).len(),
        ls.len() > 0,
        forall|i: int| 0 <= i < ls.len() ==> lacks(#[trigger] ls[i], '\n'),
        !starts_with(render_lines(ls, year), hashbang()),
        !begins_comment(tail),
    ensures
        ({
            let r = content.skip(skipped_len(content));
            let pre = r.take(line_offset(r, s));
            let header = render_lines(ls, year);
            let fixed = skipped_part(content) + (pre + (header + tail));
            &&& comment_block(fixed) == comment_run(pre) + header
            &&& lines(comment_run(pre)) == lines(comment_block(content)).take(s)
            &&& ends_lines(comment_run(pre))
        }),
{
    let k = skipped_len(content);
    let r = content.skip(k);
    let o = line_offset(r, s);
    let pre = r.take(o);
    let header = render_lines(ls, year);
    let p = skipped_part(content);
    let rest = pre + (header + tail);
    let fixed = p + rest;
    lemma_skip_done(content);
    lemma_skipped_part(content);
    assert(r.len() > 0) by {
        if r.len() == 0 {
            assert(comment_run(r) =~= Seq::<char>::empty());
        }
    }
    lemma_skipped_part_ends(content);
    lemma_skipped_concat(p, rest);
    lemma_comment_prefix(r, s, header + tail);
    assert(skipped_len(rest) == 0) by {
        if s == 0 {
            assert(pre =~= Seq::<char>::empty());
            assert(rest =~= header + tail);
            lemma_header_not_skipped(ls, year, tail);
        } else {
            assert(first_line(rest) == first_line(r));
            let n = first_line_span(r);
            lemma_line_end_bounds(r);
            lemma_line_end_bounds(rest);
            if is_skipped(first_line(r)) {
                crate::extract::lemma_skipped_len_bounds(r.skip(n));
                assert(skipped_len(r) >= n);
            }
        }
    }
    assert(skipped_len(fixed) == p.len());
    assert(fixed.skip(p.len() as int) =~= rest);
    lemma_comment_run_header(ls, year, tail);
}

/// A block whose lines are lines that do not match the first line of the
/// template, and behind them the lines of the header, holds the header,
/// current.
proof fn lemma_refreshed_is_found(
    bl: Seq<Seq<char>>,
    s: int,
    template: Seq<char>,
    year: int,
    block2: Seq<char>,
)
    requires
        i64::MIN <= year <= i64::MAX,
        0 <= s <= bl.len(),
        lines(template).len() > 0,
        forall|i: int|
            0 <= i < s ==> !line_matches(
                #[trigger] word_table(bl)[i],
                word_table(lines(rendered_pattern(template)))[0],
            ),
        lines(block2) == bl.take(s) + lines(rendered_header(template, year)),
        forall|i: int|
            0 <= i < lines(template).len() ==> year_stands_alone(#[trigger] lines(template)[i]),
    ensures
        check_result(block2, rendered_pattern(template), year) == (
            Seq::<char>::empty(),
            LicenseCheckRes::Found,
        ),
{
    let header = rendered_header(template, year);
    let tt = word_table(lines(rendered_pattern(template)));
    assert forall|i: int| 0 <= i < lines(template).len() implies lacks(
        #[trigger] lines(template)[i],
        '\n',
    ) by {
        lemma_lines_lack_newline(template, i);
    }
    lemma_lines_of_rendered(lines(template), None);
    lemma_word_table_concat(bl.take(s), lines(header));
    let lead = word_table(bl.take(s));
    assert forall|i: int| 0 <= i < lead.len() implies !line_matches(#[trigger] lead[i], tt[0]) by {
        assert(lead[i] == word_table(bl)[i]);
    }
    rendered_header_is_found(template, year);
    leading_lines_are_passed_over(lead, word_table(lines(header)), tt, year);
}

/// Fixing a file brings it to rest: where a run in fix mode found the header
/// missing or outdated and wrote the file anew, the next run finds the header,
/// current, and writes nothing. The conditions are those of
/// `inserted_header_is_found` for a missing header and those of
/// `replaced_header_is_found` for an outdated one.
pub proof fn fixing_twice_finds_the_header(content: Seq<char>, template: Seq<char>, year: int)
    requires
        i64::MIN <= year <= i64::MAX,
        !starts_with(rendered_header(template, year), hashbang()),
        forall|i: int|
            0 <= i < lines(template).len() ==> year_stands_alone(#[trigger] lines(template)[i]),
        check_result(comment_block(content), rendered_pattern(template), year).1 == LicenseCheckRes::Missing ==> (
        crate::text::is_blank(skipped_part(content)) || ends_lines(skipped_part(content))),
        check_result(comment_block(content), rendered_pattern(template), year).1 == LicenseCheckRes::Outdated
            ==> find(
            closed_by_newline(content),
            check_result(comment_block(content), rendered_pattern(template), year).0,
        ) == Some(
            block_line_place(
                content,
                header_start(
                    word_table(lines(comment_block(content))),
                    word_table(lines(rendered_pattern(template)))[0],
                ),
            ),
        ),
    ensures
        ({
            let header = rendered_header(template, year);
            let pattern = rendered_pattern(template);
            let fixed = fixed_content(content, header, pattern, year);
            outcome_of(fixed, header, pattern, year, false) == (
                LicenseCheckRes::Found,
                false,
                None::<Seq<char>>,
            )
        }),
{
    let header = rendered_header(template, year);
    match check_result(comment_block(content), rendered_pattern(template), year).1 {
        LicenseCheckRes::Missing => {
            crate::roundtrip::inserted_header_is_found(content, template, year);
        },
        LicenseCheckRes::Outdated => {
            replaced_header_is_found(content, template, year);
        },
        LicenseCheckRes::Found => {},
    }
}

/// The same of a run under a configuration that renders a header: a file that
/// the run fixed is left alone by the next run, which finds the header in it.
/// The conditions are those of `fixing_twice_finds_the_header`, for the
/// template of the configuration with its licensee in place and for its year.
pub proof fn fixed_file_is_left_alone(content: Seq<char>, config: Config)
    requires
        header_of(config) is Ok,
        ({
            let template = expanded_template(config);
            let pattern = comparison_template(config);
            let year = config.license_year as int;
            let found = check_result(comment_block(content), pattern, year);
            &&& !starts_with(rendered_header(template, year), hashbang())
            &&& forall|i: int|
                0 <= i < lines(template).len() ==> year_stands_alone(
                    #[trigger] lines(template)[i],
                )
            &&& found.1 == LicenseCheckRes::Missing ==> (crate::text::is_blank(
                skipped_part(content),
            ) || ends_lines(skipped_part(content)))
            &&& found.1 == LicenseCheckRes::Outdated ==> find(
                closed_by_newline(content),
                found.0,
            ) == Some(
                block_line_place(
                    content,
                    header_start(
                        word_table(lines(comment_block(content))),
                        word_table(lines(pattern))[0],
                    ),
                ),
            )
        }),
    ensures
        ({
            let header = header_of(config)->Ok_0;
            let pattern = comparison_template(config);
            let year = config.license_year as int;
            let fixed = fixed_content(content, header, pattern, year);
            outcome_of(fixed, header, pattern, year, false) == (
                LicenseCheckRes::Found,
                false,
                None::<Seq<char>>,
            )
        }),
{
    fixing_twice_finds_the_header(
        content,
        expanded_template(config),
        config.license_year as int,
    );
}

} // verus!
