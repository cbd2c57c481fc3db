//! The metadata file of a package: which of its lines say what, and how its
//! licenses and requirements are read.

use crate::metadata::{strings, Metadata};
use crate::text::{
    after_last, before_first, contains, contains_chars, eq_chars, from_chars,
    lemma_after_last_is, lemma_before_first_is, lemma_lex_less_irreflexive,
    lemma_lex_less_total, lemma_lex_less_transitive, lex_less, lex_less_chars, slice_chars,
    starts_with, starts_with_chars, texts, to_chars, trim, trim_chars,
};
use crate::version::{meets_python_req, meets_req};
use vstd::prelude::*;

verus! {

pub open spec fn is_colon(c: char) -> bool {
    c == ':'
}

pub open spec fn is_semicolon(c: char) -> bool {
    c == ';'
}

/// The characters that end the name of a requirement.
pub open spec fn ends_requirement(c: char) -> bool {
    c == '<' || c == '>' || c == '=' || c == '~' || c == '(' || c == ';' || c == '!'
}

/// What stands behind the last colon of a line, trimmed.
pub open spec fn value_of(line: Seq<char>) -> Seq<char> {
    trim(after_last(line, |c: char| is_colon(c)))
}

/// The name that a requirement begins with, trimmed.
pub open spec fn requirement_name(info: Seq<char>) -> Seq<char> {
    trim(before_first(info, |c: char| ends_requirement(c)))
}

/// The line gives a license.
pub open spec fn is_license_line(line: Seq<char>) -> bool {
    starts_with(line, "License-Expression: "@) || starts_with(
        line,
        "Classifier: License :: OSI Approved :: "@,
    )
}

pub open spec fn is_name_line(line: Seq<char>) -> bool {
    starts_with(line, "Name: "@)
}

pub open spec fn is_requirement_line(line: Seq<char>) -> bool {
    starts_with(line, "Requires-Dist: "@)
}

/// The requirement that a `Requires-Dist` line adds, where it adds one. A line
/// that speaks of an extra adds none. A requirement without a condition is
/// added; one with a condition on the Python version is added where
/// `python_version` meets it; one with another condition is not.
pub open spec fn requirement_of(line: Seq<char>, python_version: Seq<i32>) -> Option<Seq<char>> {
    let info = value_of(line);
    if contains(line, "extra"@) {
        None
    } else if !contains(info, ";"@) {
        Some(requirement_name(info))
    } else if contains(info, "; python_version"@) && meets_req(
        trim(after_last(info, |c: char| is_semicolon(c))),
        python_version,
    ) {
        Some(requirement_name(info))
    } else {
        None
    }
}

/// What the lines of a metadata file have given so far.
pub struct Fields {
    pub name: Seq<char>,
    pub license: Seq<Seq<char>>,
    pub requirements: Seq<Seq<char>>,
}

/// What one more line adds to the fields.
pub open spec fn with_line(
    f: Fields,
    line: Seq<char>,
    python_version: Seq<i32>,
    recursive: bool,
) -> Fields {
    if is_license_line(line) {
        Fields { license: f.license.push(value_of(line)), ..f }
    } else if is_name_line(line) {
        Fields { name: value_of(line), ..f }
    } else if is_requirement_line(line) && recursive {
        match requirement_of(line, python_version) {
            Some(r) => Fields { requirements: f.requirements.push(r), ..f },
            None => f,
        }
    } else {
        f
    }
}

/// What the lines of a metadata file give: the last name, and every license
/// and every requirement in the order of the lines.
pub open spec fn fields_of(lines: Seq<Seq<char>>, python_version: Seq<i32>, recursive: bool) -> Fields
    decreases lines.len(),
{
    if lines.len() == 0 {
        Fields { name: Seq::empty(), license: Seq::empty(), requirements: Seq::empty() }
    } else {
        with_line(
            fields_of(lines.drop_last(), python_version, recursive),
            lines.last(),
            python_version,
            recursive,
        )
    }
}

/// `acc`, which is in ascending order without repeats, with `x` in its place.
pub open spec fn insert_sorted(acc: Seq<Seq<char>>, x: Seq<char>) -> Seq<Seq<char>>
    decreases acc.len(),
{
    if acc.len() == 0 {
        seq![x]
    } else if acc.last() == x {
        acc
    } else if lex_less(acc.last(), x) {
        acc.push(x)
    } else {
        insert_sorted(acc.drop_last(), x).push(acc.last())
    }
}

/// The texts of `s` in ascending order, each once.
pub open spec fn sorted_unique(s: Seq<Seq<char>>) -> Seq<Seq<char>>
    decreases s.len(),
{
    if s.len() == 0 {
        Seq::empty()
    } else {
        insert_sorted(sorted_unique(s.drop_last()), s.last())
    }
}

/// Each text of `s` stands before the next in the order of strings.
pub open spec fn ascending(s: Seq<Seq<char>>) -> bool {
    forall|i: int, j: int| 0 <= i < j < s.len() ==> lex_less(#[trigger] s[i], #[trigger] s[j])
}

/// One of the texts of `license` is among those of `avoid`.
pub open spec fn any_avoided(license: Seq<Seq<char>>, avoid: Seq<Seq<char>>) -> bool {
    exists|i: int, j: int|
        0 <= i < license.len() && 0 <= j < avoid.len() && #[trigger] license[i] == #[trigger] avoid[j]
}

/// The license of a package that names none.
pub open spec fn unknown_license() -> Seq<char> {
    "?"@
}

/// What `parse_metadata` gives: name, licenses, requirements, and whether a
/// license is to be avoided. A package without a license has the license `?`
/// and is never flagged; else its licenses stand in ascending order, each once.
pub open spec fn metadata_of(
    lines: Seq<Seq<char>>,
    python_version: Seq<i32>,
    recursive: bool,
    avoid: Seq<Seq<char>>,
) -> (Seq<char>, Seq<Seq<char>>, Seq<Seq<char>>, bool) {
    let f = fields_of(lines, python_version, recursive);
    if f.license.len() == 0 {
        (f.name, seq![unknown_license()], f.requirements, false)
    } else {
        let l = sorted_unique(f.license);
        (f.name, l, f.requirements, any_avoided(l, avoid))
    }
}

/// Where `x` goes into `acc`: before index `i`, behind which every text stands
/// behind `x`.
proof fn lemma_insert_sorted_at(acc: Seq<Seq<char>>, x: Seq<char>, i: int)
    requires
        0 <= i <= acc.len(),
        forall|j: int| i <= j < acc.len() ==> lex_less(x, #[trigger] acc[j]),
        i > 0 ==> !lex_less(x, acc[i - 1]),
    ensures
        insert_sorted(acc, x) == if i > 0 && acc[i - 1] == x {
            acc
        } else {
            acc.take(i).push(x) + acc.skip(i)
        },
    decreases acc.len() - i,
{
    if i == acc.len() {
        assert(acc.take(i) =~= acc);
        assert(acc.skip(i) =~= Seq::<Seq<char>>::empty());
        if i > 0 {
            lemma_lex_less_total(acc[i - 1], x);
        }
        assert(acc.push(x) + Seq::<Seq<char>>::empty() =~= acc.push(x));
    } else {
        let last = acc.last();
        assert(lex_less(x, last));
        lemma_lex_less_irreflexive(x);
        if lex_less(last, x) {
            lemma_lex_less_transitive(x, last, x);
        }
        let rest = acc.drop_last();
        assert forall|j: int| i <= j < rest.len() implies lex_less(x, #[trigger] rest[j]) by {
            assert(rest[j] == acc[j]);
        }
        lemma_insert_sorted_at(rest, x, i);
        if i > 0 && acc[i - 1] == x {
            assert(rest.push(last) =~= acc);
        } else {
            assert((rest.take(i).push(x) + rest.skip(i)).push(last) =~= acc.take(i).push(x)
                + acc.skip(i));
        }
    }
}

/// Putting a text into an ascending sequence keeps it ascending, and the
/// sequence then holds what it held and the text.
pub proof fn lemma_insert_sorted(acc: Seq<Seq<char>>, x: Seq<char>)
    requires
        ascending(acc),
    ensures
        ascending(insert_sorted(acc, x)),
        forall|y: Seq<char>|
            #![trigger insert_sorted(acc, x).contains(y)]
            insert_sorted(acc, x).contains(y) <==> (acc.contains(y) || y == x),
    decreases acc.len(),
{
    let r = insert_sorted(acc, x);
    if acc.len() == 0 {
        assert(r[0] == x);
        assert forall|y: Seq<char>| r.contains(y) <==> (acc.contains(y) || y == x) by {
            if y == x {
                assert(r[0] == y);
            }
        }
    } else if acc.last() == x {
        assert forall|y: Seq<char>| r.contains(y) <==> (acc.contains(y) || y == x) by {
            if y == x {
                assert(acc[acc.len() - 1] == y);
            }
        }
    } else if lex_less(acc.last(), x) {
        assert forall|i: int, j: int| 0 <= i < j < r.len() implies lex_less(
            #[trigger] r[i],
            #[trigger] r[j],
        ) by {
            if j == r.len() - 1 {
                if i < acc.len() - 1 {
                    assert(lex_less(acc[i], acc[acc.len() - 1]));
                    lemma_lex_less_transitive(acc[i], acc.last(), x);
                }
            } else {
                assert(lex_less(acc[i], acc[j]));
            }
        }
        assert forall|y: Seq<char>| r.contains(y) <==> (acc.contains(y) || y == x) by {
            if y == x {
                assert(r[r.len() - 1] == y);
            }
            if acc.contains(y) {
                let k = choose|k: int| 0 <= k < acc.len() && acc[k] == y;
                assert(r[k] == y);
            }
            if r.contains(y) {
                let k = choose|k: int| 0 <= k < r.len() && r[k] == y;
                if k < acc.len() {
                    assert(acc[k] == y);
                }
            }
        }
    } else {
        let rest = acc.drop_last();
        let last = acc.last();
        assert forall|i: int, j: int| 0 <= i < j < rest.len() implies lex_less(
            #[trigger] rest[i],
            #[trigger] rest[j],
        ) by {
            assert(lex_less(acc[i], acc[j]));
        }
        lemma_insert_sorted(rest, x);
        let inner = insert_sorted(rest, x);
        lemma_lex_less_total(last, x);
        assert(lex_less(x, last));
        assert forall|i: int, j: int| 0 <= i < j < r.len() implies lex_less(
            #[trigger] r[i],
            #[trigger] r[j],
        ) by {
            if j == r.len() - 1 {
                assert(inner.contains(inner[i]));
                if inner[i] == x {
                } else {
                    assert(rest.contains(inner[i]));
                    let k = choose|k: int| 0 <= k < rest.len() && rest[k] == inner[i];
                    assert(lex_less(acc[k], acc[acc.len() - 1]));
                }
            } else {
                assert(lex_less(inner[i], inner[j]));
            }
        }
        assert forall|y: Seq<char>| r.contains(y) <==> (acc.contains(y) || y == x) by {
            if r.contains(y) {
                let k = choose|k: int| 0 <= k < r.len() && r[k] == y;
                if k < inner.len() {
                    assert(inner.contains(y));
                    if rest.contains(y) {
                        let m = choose|m: int| 0 <= m < rest.len() && rest[m] == y;
                        assert(acc[m] == y);
                    }
                } else {
                    assert(acc[acc.len() - 1] == y);
                }
            }
            if acc.contains(y) {
                let k = choose|k: int| 0 <= k < acc.len() && acc[k] == y;
                if k < rest.len() {
                    assert(rest[k] == y);
                    assert(inner.contains(y));
                    let m = choose|m: int| 0 <= m < inner.len() && inner[m] == y;
                    assert(r[m] == y);
                } else {
                    assert(r[r.len() - 1] == y);
                }
            }
            if y == x {
                assert(inner.contains(x));
                let m = choose|m: int| 0 <= m < inner.len() && inner[m] == x;
                assert(r[m] == y);
            }
        }
    }
}

/// The licenses of a package stand in ascending order, none twice, and they
/// are the licenses that its metadata names.
pub proof fn lemma_sorted_unique(s: Seq<Seq<char>>)
    ensures
        ascending(sorted_unique(s)),
        forall|y: Seq<char>|
            #![trigger sorted_unique(s).contains(y)]
            sorted_unique(s).contains(y) <==> s.contains(y),
    decreases s.len(),
{
    if s.len() == 0 {
    } else {
        let rest = s.drop_last();
        lemma_sorted_unique(rest);
        lemma_insert_sorted(sorted_unique(rest), s.last());
        assert forall|y: Seq<char>| sorted_unique(s).contains(y) <==> s.contains(y) by {
            if s.contains(y) {
                let k = choose|k: int| 0 <= k < s.len() && s[k] == y;
                if k < rest.len() {
                    assert(rest[k] == y);
                }
            }
            if rest.contains(y) {
                let k = choose|k: int| 0 <= k < rest.len() && rest[k] == y;
                assert(s[k] == y);
            }
            if y == s.last() {
                assert(s[s.len() - 1] == y);
            }
        }
    }
}

/// What stands in `line` behind its last `delimiter`, trimmed.
pub fn last_field(line: &Vec<char>, delimiter: char) -> (r: Vec<char>)
    ensures
        r@ == trim(after_last(line@, |c: char| c == delimiter)),
{
    let ghost stop = |c: char| c == delimiter;
    let mut k: usize = line.len();
    while k > 0 && line[k - 1] != delimiter
        invariant
            k <= line.len(),
            stop == (|c: char| c == delimiter),
            forall|j: int| k <= j < line.len() ==> !stop(line@[j]),
        decreases k,
    {
        k -= 1;
    }
    proof {
        assert(k > 0 ==> stop(line@[k - 1]));
        lemma_after_last_is(line@, stop, k as int);
    }
    let tail = slice_chars(line, k, line.len());
    assert(tail@ =~= line@.skip(k as int));
    trim_chars(&tail)
}

fn is_requirement_end(c: char) -> (b: bool)
    ensures
        b == ends_requirement(c),
{
    c == '<' || c == '>' || c == '=' || c == '~' || c == '(' || c == ';' || c == '!'
}

fn requirement_name_chars(info: &Vec<char>) -> (r: Vec<char>)
    ensures
        r@ == requirement_name(info@),
{
    let ghost stop = |c: char| ends_requirement(c);
    let mut k: usize = 0;
    while k < info.len() && !is_requirement_end(info[k])
        invariant
            k <= info.len(),
            stop == (|c: char| ends_requirement(c)),
            forall|j: int| 0 <= j < k ==> !stop(info@[j]),
        decreases info.len() - k,
    {
        k += 1;
    }
    proof {
        assert(k < info.len() ==> stop(info@[k as int]));
        lemma_before_first_is(info@, stop, k as int);
    }
    let head = slice_chars(info, 0, k);
    assert(head@ =~= info@.take(k as int));
    trim_chars(&head)
}

fn value_chars(line: &Vec<char>) -> (r: Vec<char>)
    ensures
        r@ == value_of(line@),
{
    assert((|c: char| c == ':') =~= (|c: char| is_colon(c)));
    last_field(line, ':')
}

/// The requirement that a `Requires-Dist` line adds, where it adds one.
pub fn requirement_chars(line: &Vec<char>, python_version: &[i32; 3]) -> (r: Option<Vec<char>>)
    ensures
        match r {
            Some(name) => requirement_of(line@, python_version@) == Some(name@),
            None => requirement_of(line@, python_version@) is None,
        },
{
    if contains_chars(line, &to_chars("extra")) {
        return None;
    }
    let info = value_chars(line);
    if !contains_chars(&info, &to_chars(";")) {
        Some(requirement_name_chars(&info))
    } else if contains_chars(&info, &to_chars("; python_version")) {
        assert((|c: char| c == ';') =~= (|c: char| is_semicolon(c)));
        let condition = last_field(&info, ';');
        let text = from_chars(&condition);
        if meets_python_req(text.as_str(), python_version) {
            Some(requirement_name_chars(&info))
        } else {
            None
        }
    } else {
        None
    }
}

/// Puts `x` into `acc`, which is in ascending order without repeats.
fn insert_sorted_chars(acc: &mut Vec<Vec<char>>, x: Vec<char>)
    ensures
        texts(final(acc)@) == insert_sorted(texts(old(acc)@), x@),
{
    let ghost before = texts(acc@);
    let mut i: usize = acc.len();
    while i > 0 && lex_less_chars(&x, &acc[i - 1])
        invariant
            i <= acc.len(),
            acc == old(acc),
            before == texts(acc@),
            forall|j: int| i <= j < acc.len() ==> lex_less(x@, #[trigger] before[j]),
        decreases i,
    {
        assert(before[i - 1] == acc@[i - 1]@);
        i -= 1;
    }
    proof {
        if i > 0 {
            assert(before[i - 1] == acc@[i - 1]@);
        }
        lemma_insert_sorted_at(before, x@, i as int);
    }
    if i > 0 && eq_chars(&acc[i - 1], &x) {
        return ;
    }
    acc.insert(i, x);
    assert(texts(acc@) =~= before.take(i as int).push(x@) + before.skip(i as int));
}

/// The texts of `s` in ascending order, each once.
pub fn sorted_unique_chars(s: &Vec<Vec<char>>) -> (r: Vec<Vec<char>>)
    ensures
        texts(r@) == sorted_unique(texts(s@)),
{
    let mut r: Vec<Vec<char>> = Vec::new();
    let mut i: usize = 0;
    assert(texts(s@).take(0) =~= Seq::<Seq<char>>::empty());
    assert(texts(r@) =~= Seq::<Seq<char>>::empty());
    while i < s.len()
        invariant
            i <= s.len(),
            texts(r@) == sorted_unique(texts(s@).take(i as int)),
        decreases s.len() - i,
    {
        let mut x: Vec<char> = Vec::new();
        crate::text::append_chars(&mut x, &s[i]);
        proof {
            let next = texts(s@).take(i + 1);
            assert(next.drop_last() =~= texts(s@).take(i as int));
            assert(next.last() == s@[i as int]@);
            assert(x@ =~= s@[i as int]@);
        }
        insert_sorted_chars(&mut r, x);
        i += 1;
    }
    assert(texts(s@).take(s.len() as int) =~= texts(s@));
    r
}

fn any_avoided_chars(license: &Vec<Vec<char>>, avoid: &Vec<String>) -> (b: bool)
    ensures
        b == any_avoided(texts(license@), strings(avoid@)),
{
    let ghost ls = texts(license@);
    let ghost av = strings(avoid@);
    let mut j: usize = 0;
    while j < avoid.len()
        invariant
            j <= avoid.len(),
            ls == texts(license@),
            av == strings(avoid@),
            forall|i: int, k: int|
                0 <= i < ls.len() && 0 <= k < j ==> #[trigger] ls[i] != #[trigger] av[k],
        decreases avoid.len() - j,
    {
        let a = to_chars(avoid[j].as_str());
        assert(av[j as int] == a@);
        let mut i: usize = 0;
        while i < license.len()
            invariant
                i <= license.len(),
                j < avoid.len(),
                ls == texts(license@),
                av == strings(avoid@),
                av[j as int] == a@,
                forall|m: int| 0 <= m < i ==> #[trigger] ls[m] != a@,
            decreases license.len() - i,
        {
            assert(ls[i as int] == license@[i as int]@);
            if eq_chars(&license[i], &a) {
                assert(ls[i as int] == av[j as int]);
                return true;
            }
            i += 1;
        }
        j += 1;
    }
    false
}

fn to_strings(v: &Vec<Vec<char>>) -> (r: Vec<String>)
    ensures
        strings(r@) == texts(v@),
{
    let mut r: Vec<String> = Vec::new();
    let mut i: usize = 0;
    while i < v.len()
        invariant
            i <= v.len(),
            r.len() == i,
            forall|j: int| 0 <= j < i ==> #[trigger] r@[j]@ == v@[j]@,
        decreases v.len() - i,
    {
        r.push(from_chars(&v[i]));
        i += 1;
    }
    assert(strings(r@) =~= texts(v@));
    r
}

/// Reads the lines of the metadata file of a package: its name, its licenses,
/// and, where `recursive` is set, the packages that it requires under the
/// Python version `python_version`. The package is flagged where one of its
/// licenses is among `license_to_avoid`.
pub fn parse_metadata(
    lines: &Vec<String>,
    python_version: &[i32; 3],
    recursive: bool,
    license_to_avoid: &Vec<String>,
) -> (m: Metadata)
    ensures
        (m.name@, strings(m.license@), strings(m.requirements@), m.bad_license) == metadata_of(
            strings(lines@),
            python_version@,
            recursive,
            strings(license_to_avoid@),
        ),
{
    let mut name: Vec<char> = Vec::new();
    let mut license: Vec<Vec<char>> = Vec::new();
    let mut requirements: Vec<Vec<char>> = Vec::new();
    let license_expression = to_chars("License-Expression: ");
    let classifier = to_chars("Classifier: License :: OSI Approved :: ");
    let name_prefix = to_chars("Name: ");
    let requires_prefix = to_chars("Requires-Dist: ");
    let ghost ls = strings(lines@);
    let mut i: usize = 0;
    assert(ls.take(0) =~= Seq::<Seq<char>>::empty());
    assert(texts(license@) =~= Seq::<Seq<char>>::empty());
    assert(texts(requirements@) =~= Seq::<Seq<char>>::empty());
    while i < lines.len()
        invariant
            i <= lines.len(),
            ls == strings(lines@),
            license_expression@ == "License-Expression: "@,
            classifier@ == "Classifier: License :: OSI Approved :: "@,
            name_prefix@ == "Name: "@,
            requires_prefix@ == "Requires-Dist: "@,
            (Fields { name: name@, license: texts(license@), requirements: texts(requirements@) })
                == fields_of(ls.take(i as int), python_version@, recursive),
        decreases lines.len() - i,
    {
        let line = to_chars(lines[i].as_str());
        let ghost old_license = texts(license@);
        let ghost old_requirements = texts(requirements@);
        proof {
            let next = ls.take(i + 1);
            assert(next.drop_last() =~= ls.take(i as int));
            assert(next.last() == line@);
        }
        if starts_with_chars(&line, &license_expression) || starts_with_chars(&line, &classifier) {
            let v = value_chars(&line);
            license.push(v);
            assert(texts(license@) =~= old_license.push(value_of(line@)));
        } else if starts_with_chars(&line, &name_prefix) {
            name = value_chars(&line);
        } else if starts_with_chars(&line, &requires_prefix) && recursive {
            match requirement_chars(&line, python_version) {
                Some(r) => {
                    let ghost text = r@;
                    requirements.push(r);
                    assert(texts(requirements@) =~= old_requirements.push(text));
                },
                None => {},
            }
        }
        i += 1;
    }
    assert(ls.take(lines.len() as int) =~= ls);
    if license.len() == 0 {
        let mut unknown: Vec<String> = Vec::new();
        unknown.push(String::from_str("?"));
        assert(strings(unknown@) =~= seq![unknown_license()]);
        Metadata {
            name: from_chars(&name),
            license: unknown,
            requirements: to_strings(&requirements),
            bad_license: false,
        }
    } else {
        let sorted = sorted_unique_chars(&license);
        let bad_license = any_avoided_chars(&sorted, license_to_avoid);
        Metadata {
            name: from_chars(&name),
            license: to_strings(&sorted),
            requirements: to_strings(&requirements),
            bad_license,
        }
    }
}

} // verus!
