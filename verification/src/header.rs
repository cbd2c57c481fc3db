//! The license header of a source file: the tokens of a template, and how a
//! template is rendered.
//!
//! A template is rendered twice. With the year in place of `{year}` it is the
//! header that is written into files. With `{year}` left standing it is the
//! pattern that the comment blocks of files are compared with. Either way each
//! line is trimmed and put behind the comment marker.

use crate::config::{Config, ConfigError};
use crate::number::{decimal, format_i64};
use crate::text::{
    append_chars, contains, contains_chars, from_chars, lines, lines_chars, replace, replace_chars,
    starts_with, starts_with_chars, texts, to_chars, trim, trim_chars,
};
use vstd::prelude::*;

verus! {

/// The token `{year}`.
pub open spec fn year_token() -> Seq<char> {
    seq!['{', 'y', 'e', 'a', 'r', '}']
}

/// The token `{licensee}`.
pub open spec fn licensee_token() -> Seq<char> {
    seq!['{', 'l', 'i', 'c', 'e', 'n', 's', 'e', 'e', '}']
}

/// The comment marker.
pub open spec fn marker() -> Seq<char> {
    seq!['#']
}

/// The two characters that begin an interpreter directive.
pub open spec fn hashbang() -> Seq<char> {
    seq!['#', '!']
}

/// The text of one line feed.
pub open spec fn newline() -> Seq<char> {
    seq!['\n']
}

/// The template with the licensee put in place of every `{licensee}`.
/// Without a licensee the template stays as it is.
pub open spec fn expand_licensee(template: Seq<char>, licensee: Option<Seq<char>>) -> Seq<char> {
    match licensee {
        Some(l) => replace(template, licensee_token(), l),
        None => template,
    }
}

/// A line as the header shows it: trimmed, and behind `# ` unless it begins
/// with the comment marker already.
pub open spec fn normalize_line(line: Seq<char>) -> Seq<char> {
    let t = trim(line);
    if starts_with(t, marker()) {
        t
    } else {
        seq!['#', ' '] + t
    }
}

/// A template line with what is to fill `{year}` put in its place; without a
/// year the line stays as it is.
pub open spec fn filled(line: Seq<char>, year: Option<int>) -> Seq<char> {
    match year {
        Some(y) => replace(line, year_token(), decimal(y)),
        None => line,
    }
}

/// One template line as it is rendered, its line feed included.
pub open spec fn render_line(line: Seq<char>, year: Option<int>) -> Seq<char> {
    normalize_line(filled(line, year)) + newline()
}

/// The template lines `ls` as they are rendered, one after the other.
pub open spec fn render_lines(ls: Seq<Seq<char>>, year: Option<int>) -> Seq<char>
    decreases ls.len(),
{
    if ls.len() == 0 {
        Seq::empty()
    } else {
        render_lines(ls.drop_last(), year) + render_line(ls.last(), year)
    }
}

/// The header that is written for a template in which the licensee stands
/// already: each of its lines rendered with `year` in place of `{year}`.
pub open spec fn rendered_header(expanded: Seq<char>, year: int) -> Seq<char> {
    render_lines(lines(expanded), Some(year))
}

/// The pattern that blocks are compared with, for a template in which the
/// licensee stands already: each of its lines rendered, `{year}` left standing.
pub open spec fn rendered_pattern(expanded: Seq<char>) -> Seq<char> {
    render_lines(lines(expanded), None)
}

/// The template of a configuration with its licensee in place; the empty
/// text where no template is configured.
pub open spec fn expanded_template(config: Config) -> Seq<char> {
    match config.template_text() {
        Some(t) => expand_licensee(t, config.licensee_text()),
        None => Seq::empty(),
    }
}

/// What `format_header` gives for a configuration.
pub open spec fn header_of(config: Config) -> Result<Seq<char>, ConfigError> {
    match config.template_text() {
        None => Err(ConfigError::NoTemplate),
        Some(t) => if contains(t, licensee_token()) && config.licensee is None {
            Err(ConfigError::MissingLicensee)
        } else {
            Ok(rendered_header(expanded_template(config), config.license_year as int))
        },
    }
}

/// The pattern that the blocks of files are compared with under a
/// configuration.
pub open spec fn comparison_template(config: Config) -> Seq<char>
    recommends
        config.license_header_template is Some,
{
    rendered_pattern(expanded_template(config))
}

pub fn year_token_chars() -> (r: Vec<char>)
    ensures
        r@ == year_token(),
{
    let r = to_chars("{year}");
    proof {
        reveal_strlit("{year}");
        assert(r@ =~= year_token());
    }
    r
}

pub fn licensee_token_chars() -> (r: Vec<char>)
    ensures
        r@ == licensee_token(),
{
    let r = to_chars("{licensee}");
    proof {
        reveal_strlit("{licensee}");
        assert(r@ =~= licensee_token());
    }
    r
}

fn marker_chars() -> (r: Vec<char>)
    ensures
        r@ == marker(),
{
    let mut r: Vec<char> = Vec::new();
    r.push('#');
    assert(r@ =~= marker());
    r
}

/// The template of `config` with its licensee in place.
pub fn expand_chars(template: &Vec<char>, licensee: &Option<String>) -> (r: Vec<char>)
    ensures
        r@ == expand_licensee(
            template@,
            match *licensee {
                Some(l) => Some(l@),
                None => None,
            },
        ),
{
    match licensee {
        Some(l) => {
            let lc = to_chars(l.as_str());
            let tok = licensee_token_chars();
            replace_chars(template, &tok, &lc)
        },
        None => {
            let mut r: Vec<char> = Vec::new();
            append_chars(&mut r, template);
            r
        },
    }
}

fn normalize_chars(line: &Vec<char>) -> (r: Vec<char>)
    ensures
        r@ == normalize_line(line@),
{
    let t = trim_chars(line);
    let m = marker_chars();
    if starts_with_chars(&t, &m) {
        t
    } else {
        let mut r: Vec<char> = Vec::new();
        r.push('#');
        r.push(' ');
        assert(r@ =~= seq!['#', ' ']);
        append_chars(&mut r, &t);
        r
    }
}

/// Renders a template in which the licensee stands already: as the header
/// for a year, or as the pattern where no year is given.
pub fn render_chars(expanded: &Vec<char>, year: Option<i64>) -> (r: Vec<char>)
    ensures
        r@ == render_lines(
            lines(expanded@),
            match year {
                Some(y) => Some(y as int),
                None => None,
            },
        ),
{
    let ghost fill = match year {
        Some(y) => Some(y as int),
        None => None,
    };
    let ls = lines_chars(expanded);
    let tok = year_token_chars();
    let mut r: Vec<char> = Vec::new();
    let mut i: usize = 0;
    assert(texts(ls@).take(0) =~= Seq::<Seq<char>>::empty());
    while i < ls.len()
        invariant
            i <= ls.len(),
            tok@ == year_token(),
            fill == match year {
                Some(y) => Some(y as int),
                None => None,
            },
            r@ == render_lines(texts(ls@).take(i as int), fill),
        decreases ls.len() - i,
    {
        let shown = match year {
            Some(y) => normalize_chars(&replace_chars(&ls[i], &tok, &format_i64(y))),
            None => normalize_chars(&ls[i]),
        };
        proof {
            let next = texts(ls@).take(i + 1);
            assert(next.drop_last() =~= texts(ls@).take(i as int));
            assert(next.last() == ls@[i as int]@);
        }
        append_chars(&mut r, &shown);
        r.push('\n');
        assert(r@ =~= render_lines(texts(ls@).take(i as int), fill) + render_line(
            ls@[i as int]@,
            fill,
        ));
        i += 1;
    }
    assert(texts(ls@).take(ls.len() as int) =~= texts(ls@));
    r
}

/// The template of a configuration with its licensee in place.
pub fn expanded_template_chars(config: &Config) -> (r: Vec<char>)
    ensures
        r@ == expanded_template(*config),
{
    match &config.license_header_template {
        Some(t) => expand_chars(&to_chars(t.as_str()), &config.licensee),
        None => Vec::new(),
    }
}

/// The pattern that the blocks of files are compared with under `config`:
/// its template with the licensee in place, `{year}` left standing, and every
/// line behind the comment marker.
pub fn comparison_pattern(config: &Config) -> (r: String)
    ensures
        r@ == comparison_template(*config),
{
    from_chars(&render_chars(&expanded_template_chars(config), None))
}

/// Fills the template of `config` with its licensee and year, and puts every
/// line behind the comment marker. Fails where no template is configured, or
/// where the template asks for a licensee and none is configured.
pub fn format_header(config: &Config) -> (r: Result<String, ConfigError>)
    ensures
        match r {
            Ok(h) => header_of(*config) == Ok::<Seq<char>, ConfigError>(h@),
            Err(e) => header_of(*config) == Err::<Seq<char>, ConfigError>(e),
        },
{
    match &config.license_header_template {
        None => Err(ConfigError::NoTemplate),
        Some(t) => {
            let tc = to_chars(t.as_str());
            let tok = licensee_token_chars();
            if contains_chars(&tc, &tok) && config.licensee.is_none() {
                return Err(ConfigError::MissingLicensee);
            }
            let expanded = expand_chars(&tc, &config.licensee);
            let h = render_chars(&expanded, Some(config.license_year));
            Ok(from_chars(&h))
        },
    }
}

} // verus!
