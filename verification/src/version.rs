//! Python versions, and the version constraints that a requirement carries.

use crate::number::{parse_i32, parse_i32_chars};
use crate::outside::{regex_captures, regex_compiles, regex_groups};
use crate::text::{from_chars, lemma_before_first_is, slice_chars, split_at_each, texts, to_chars};
use vstd::prelude::*;

verus! {

/// The pattern of a version constraint: a comparison and a version of two or
/// three numbers.
pub open spec fn constraint_pattern() -> Seq<char> {
    "(==|<=|>=|!=|<|>)(\\d+\\.\\d+(?:\\.\\d+)?)"@
}

pub open spec fn is_dot(c: char) -> bool {
    c == '.'
}

/// The characters that a version constraint is written without: blanks and
/// both kinds of quotation marks.
pub open spec fn is_dropped(c: char) -> bool {
    c == ' ' || c == '\'' || c == '"'
}

/// `s` without the characters of the kind `drop`.
pub open spec fn without(s: Seq<char>, drop: spec_fn(char) -> bool) -> Seq<char>
    decreases s.len(),
{
    if s.len() == 0 {
        Seq::empty()
    } else if drop(s.last()) {
        without(s.drop_last(), drop)
    } else {
        without(s.drop_last(), drop).push(s.last())
    }
}

/// The parts of a version text: what stands between its dots.
pub open spec fn version_parts(version: Seq<char>) -> Seq<Seq<char>> {
    split_at_each(version, |c: char| is_dot(c))
}

/// Component `i` of the version that `parts` write: the number of part `i`
/// where there is such a part and it is a number, else component `i` of
/// `fallback`.
pub open spec fn component(parts: Seq<Seq<char>>, fallback: Seq<i32>, i: int) -> int {
    if i < parts.len() && parse_i32(parts[i]) is Some {
        parse_i32(parts[i])->0
    } else {
        fallback[i] as int
    }
}

/// The version that a text writes, with the components of `python_version` in
/// place of those that the text does not give.
pub open spec fn parsed_version(version: Seq<char>, python_version: Seq<i32>) -> Seq<int> {
    let parts = version_parts(version);
    seq![
        component(parts, python_version, 0),
        component(parts, python_version, 1),
        component(parts, python_version, 2),
    ]
}

/// `a` stands before `b` in the order of versions: the first component that
/// differs is the lesser in `a`.
pub open spec fn version_less(a: Seq<int>, b: Seq<int>) -> bool {
    a[0] < b[0] || (a[0] == b[0] && (a[1] < b[1] || (a[1] == b[1] && a[2] < b[2])))
}

pub open spec fn version_equal(a: Seq<int>, b: Seq<int>) -> bool {
    a[0] == b[0] && a[1] == b[1] && a[2] == b[2]
}

/// Whether the version `have` meets the comparison `op` with the version
/// `want`. An operator that is none of the six is met by no version.
pub open spec fn comparison_holds(op: Seq<char>, have: Seq<int>, want: Seq<int>) -> bool {
    if op == seq!['<', '='] {
        !version_less(want, have)
    } else if op == seq!['>', '='] {
        !version_less(have, want)
    } else if op == seq!['<'] {
        version_less(have, want)
    } else if op == seq!['>'] {
        version_less(want, have)
    } else if op == seq!['=', '='] {
        version_equal(have, want)
    } else if op == seq!['!', '='] {
        !version_equal(have, want)
    } else {
        false
    }
}

/// The integers of a version as a sequence.
pub open spec fn version_view(v: [i32; 3]) -> Seq<int> {
    seq![v[0] as int, v[1] as int, v[2] as int]
}

/// Whether a Python version meets a constraint, given what the pattern of
/// constraints found in it: the operator is group 1, the version group 2. A
/// constraint in which the pattern found nothing is not met, nor one whose
/// version has more than three parts.
pub open spec fn constraint_met(
    groups: Option<Seq<Option<Seq<char>>>>,
    python_version: Seq<i32>,
) -> bool {
    match groups {
        Some(g) => {
            &&& g.len() >= 3
            &&& g[1] is Some
            &&& g[2] is Some
            &&& version_parts(g[2]->0).len() <= 3
            &&& comparison_holds(
                g[1]->0,
                Seq::new(3, |i: int| python_version[i] as int),
                parsed_version(g[2]->0, python_version),
            )
        },
        None => false,
    }
}

/// What `meets_python_req` gives for a constraint.
pub open spec fn meets_req(constraint: Seq<char>, python_version: Seq<i32>) -> bool {
    let cleaned = without(constraint, |c: char| is_dropped(c));
    regex_compiles(constraint_pattern()) && constraint_met(
        regex_groups(constraint_pattern(), cleaned),
        python_version,
    )
}

/// The pieces of `s` between its characters of the kind that `stop_at` tells.
pub fn split_chars(s: &Vec<char>, delimiter: char) -> (r: Vec<Vec<char>>)
    ensures
        texts(r@) == split_at_each(s@, |c: char| c == delimiter),
        r.len() >= 1,
{
    let ghost stop = |c: char| c == delimiter;
    let mut r: Vec<Vec<char>> = Vec::new();
    let mut i: usize = 0;
    let mut done = false;
    assert(s@.skip(0) =~= s@);
    assert(texts(r@) =~= Seq::<Seq<char>>::empty());
    while !done
        invariant
            i <= s.len(),
            stop == (|c: char| c == delimiter),
            !done ==> texts(r@) + split_at_each(s@.skip(i as int), stop) == split_at_each(
                s@,
                stop,
            ),
            done ==> texts(r@) == split_at_each(s@, stop) && r.len() >= 1,
        decreases s.len() - i + (if done { 0int } else { 1int }),
    {
        let ghost rest = s@.skip(i as int);
        let mut k: usize = i;
        while k < s.len() && s[k] != delimiter
            invariant
                i <= k <= s.len(),
                stop == (|c: char| c == delimiter),
                forall|j: int| i <= j < k ==> !stop(s@[j]),
            decreases s.len() - k,
        {
            k += 1;
        }
        proof {
            assert(k < s.len() ==> stop(s@[k as int]));
            lemma_before_first_is(rest, stop, k - i);
        }
        let piece = slice_chars(s, i, k);
        proof {
            assert(piece@ =~= rest.take(k - i));
            let ghost before = texts(r@);
            assert(texts(r@.push(piece)) =~= before + seq![piece@]);
        }
        r.push(piece);
        if k < s.len() {
            assert(rest.skip((k - i) + 1) =~= s@.skip(k + 1));
            i = k + 1;
        } else {
            assert(rest.take(k - i) =~= rest);
            done = true;
        }
    }
    r
}

/// The version that a text writes. A part that is missing or that is no number
/// is taken from `python_version`.
pub fn parse_version(version: &str, python_version: &[i32; 3]) -> (r: [i32; 3])
    requires
        version_parts(version@).len() <= 3,
    ensures
        version_view(r) == parsed_version(version@, python_version@),
{
    let chars = to_chars(version);
    let parts = split_chars(&chars, '.');
    assert((|c: char| c == '.') == (|c: char| is_dot(c))) by {
        assert forall|c: char| (c == '.') == is_dot(c) by {}
        assert((|c: char| c == '.') =~= (|c: char| is_dot(c)));
    }
    let ghost ps = version_parts(version@);
    let mut r: [i32; 3] = [python_version[0], python_version[1], python_version[2]];
    let mut i: usize = 0;
    while i < parts.len()
        invariant
            i <= parts.len() <= 3,
            ps == texts(parts@),
            forall|j: int| 0 <= j < i ==> r@[j] as int == component(ps, python_version@, j),
            forall|j: int| i <= j < 3 ==> r@[j] == python_version@[j],
        decreases parts.len() - i,
    {
        assert(ps[i as int] == parts@[i as int]@);
        match parse_i32_chars(&parts[i]) {
            Some(v) => {
                r[i] = v;
            },
            None => {},
        }
        i += 1;
    }
    assert(version_view(r) =~= parsed_version(version@, python_version@));
    r
}

fn version_less_exec(a: &[i32; 3], b: &[i32; 3]) -> (r: bool)
    ensures
        r == version_less(version_view(*a), version_view(*b)),
{
    a[0] < b[0] || (a[0] == b[0] && (a[1] < b[1] || (a[1] == b[1] && a[2] < b[2])))
}

fn version_equal_exec(a: &[i32; 3], b: &[i32; 3]) -> (r: bool)
    ensures
        r == version_equal(version_view(*a), version_view(*b)),
{
    a[0] == b[0] && a[1] == b[1] && a[2] == b[2]
}

fn is_op(op: &Vec<char>, first: char, second: Option<char>) -> (r: bool)
    ensures
        r == (op@ == match second {
            Some(c) => seq![first, c],
            None => seq![first],
        }),
{
    match second {
        Some(c) => {
            let r = op.len() == 2 && op[0] == first && op[1] == c;
            assert(r == (op@ =~= seq![first, c]));
            r
        },
        None => {
            let r = op.len() == 1 && op[0] == first;
            assert(r == (op@ =~= seq![first]));
            r
        },
    }
}

/// Whether the version `have` meets the comparison `operator` with `want`.
pub fn version_meets(operator: &str, have: &[i32; 3], want: &[i32; 3]) -> (r: bool)
    ensures
        r == comparison_holds(operator@, version_view(*have), version_view(*want)),
{
    let op = to_chars(operator);
    if is_op(&op, '<', Some('=')) {
        !version_less_exec(want, have)
    } else if is_op(&op, '>', Some('=')) {
        !version_less_exec(have, want)
    } else if is_op(&op, '<', None) {
        version_less_exec(have, want)
    } else if is_op(&op, '>', None) {
        version_less_exec(want, have)
    } else if is_op(&op, '=', Some('=')) {
        version_equal_exec(have, want)
    } else if is_op(&op, '!', Some('=')) {
        !version_equal_exec(have, want)
    } else {
        false
    }
}

/// Whether a Python version meets a constraint of which the pattern of
/// constraints found the groups `groups`.
pub fn check_constraint(groups: &Option<Vec<Option<String>>>, python_version: &[i32; 3]) -> (r:
    bool)
    ensures
        r == constraint_met(crate::outside::groups_view(*groups), python_version@),
{
    match groups {
        None => false,
        Some(g) => {
            if g.len() < 3 {
                return false;
            }
            match (&g[1], &g[2]) {
                (Some(op), Some(version)) => {
                    let chars = to_chars(version.as_str());
                    let parts = split_chars(&chars, '.');
                    assert((|c: char| c == '.') == (|c: char| is_dot(c))) by {
                        assert((|c: char| c == '.') =~= (|c: char| is_dot(c)));
                    }
                    if parts.len() > 3 {
                        return false;
                    }
                    let want = parse_version(version.as_str(), python_version);
                    let r = version_meets(op.as_str(), python_version, &want);
                    assert(version_view(*python_version) =~= Seq::new(
                        3,
                        |i: int| python_version@[i] as int,
                    ));
                    r
                },
                _ => false,
            }
        },
    }
}

fn without_dropped(s: &Vec<char>) -> (r: Vec<char>)
    ensures
        r@ == without(s@, |c: char| is_dropped(c)),
{
    let ghost drop = |c: char| is_dropped(c);
    let mut r: Vec<char> = Vec::new();
    let mut i: usize = 0;
    assert(s@.take(0) =~= Seq::<char>::empty());
    while i < s.len()
        invariant
            i <= s.len(),
            drop == (|c: char| is_dropped(c)),
            r@ == without(s@.take(i as int), drop),
        decreases s.len() - i,
    {
        let c = s[i];
        assert(s@.take(i + 1).drop_last() =~= s@.take(i as int));
        assert(s@.take(i + 1).last() == c);
        if !(c == ' ' || c == '\'' || c == '"') {
            r.push(c);
        }
        i += 1;
    }
    assert(s@.take(s.len() as int) =~= s@);
    r
}

/// Checks whether a Python version meets the version constraint of a
/// requirement. Blanks and quotation marks of the constraint do not count.
pub fn meets_python_req(constraint: &str, python_version: &[i32; 3]) -> (r: bool)
    ensures
        r == meets_req(constraint@, python_version@),
{
    let cleaned = without_dropped(&to_chars(constraint));
    let text = from_chars(&cleaned);
    let pattern = "(==|<=|>=|!=|<|>)(\\d+\\.\\d+(?:\\.\\d+)?)";
    match regex_captures(pattern, text.as_str()) {
        Ok(groups) => check_constraint(&groups, python_version),
        Err(_) => false,
    }
}

} // verus!
