//! What the Python of the environment says of itself: its version, and the
//! directories in which packages are installed.

use crate::number::{decimal, format_i64, parse_i32, parse_i32_chars};
use crate::package::last_field;
use crate::text::{
    after_last, append_chars, before_first, contains, contains_chars, from_chars,
    lemma_before_first_is, slice_chars, split_at_each, texts, to_chars, trim, trim_chars,
};
use crate::metadata::strings;
use crate::version::{split_chars, version_parts, version_view};
use vstd::prelude::*;

verus! {

/// The last word of what `python3 --version` prints: the version.
pub open spec fn version_word(output: Seq<char>) -> Seq<char> {
    trim(after_last(output, |c: char| c == ' '))
}

/// The version that `python3 --version` reports, where its last word is three
/// integers with dots between them.
pub open spec fn python_version_of(output: Seq<char>) -> Option<Seq<int>> {
    let parts = version_parts(version_word(output));
    if parts.len() == 3 && parse_i32(parts[0]) is Some && parse_i32(parts[1]) is Some
        && parse_i32(parts[2]) is Some {
        Some(seq![parse_i32(parts[0])->0, parse_i32(parts[1])->0, parse_i32(parts[2])->0])
    } else {
        None
    }
}

/// Reads the version from what `python3 --version` prints.
pub fn parse_python_version(output: &str) -> (r: Option<[i32; 3]>)
    ensures
        match r {
            Some(v) => python_version_of(output@) == Some(version_view(v)),
            None => python_version_of(output@) is None,
        },
{
    let word = last_field(&to_chars(output), ' ');
    let parts = split_chars(&word, '.');
    assert((|c: char| c == '.') =~= (|c: char| crate::version::is_dot(c)));
    let ghost ps = version_parts(version_word(output@));
    assert(ps == texts(parts@));
    if parts.len() != 3 {
        return None;
    }
    assert(ps[0] == parts@[0]@);
    assert(ps[1] == parts@[1]@);
    assert(ps[2] == parts@[2]@);
    match (parse_i32_chars(&parts[0]), parse_i32_chars(&parts[1]), parse_i32_chars(&parts[2])) {
        (Some(a), Some(b), Some(c)) => {
            let v: [i32; 3] = [a, b, c];
            assert(version_view(v) =~= seq![a as int, b as int, c as int]);
            Some(v)
        },
        _ => None,
    }
}

/// A version as it is shown: its three numbers with dots between them.
pub open spec fn version_text_of(v: Seq<int>) -> Seq<char> {
    decimal(v[0]) + seq!['.'] + decimal(v[1]) + seq!['.'] + decimal(v[2])
}

/// Writes a version with dots between its numbers.
pub fn version_text(python_version: &[i32; 3]) -> (s: String)
    ensures
        s@ == version_text_of(version_view(*python_version)),
{
    let mut r = format_i64(python_version[0] as i64);
    r.push('.');
    append_chars(&mut r, &format_i64(python_version[1] as i64));
    r.push('.');
    append_chars(&mut r, &format_i64(python_version[2] as i64));
    assert(r@ =~= version_text_of(version_view(*python_version)));
    from_chars(&r)
}

/// The characters at which what `python3 -m site` prints is taken apart.
pub open spec fn is_site_separator(c: char) -> bool {
    c == '\n' || c == ',' || c == ':'
}

pub open spec fn is_quote(c: char) -> bool {
    c == '\''
}

/// The piece names a directory of installed packages that exists.
pub open spec fn names_packages(piece: Seq<char>) -> bool {
    (contains(piece, "dist-packages"@) || contains(piece, "site-packages"@)) && !contains(
        piece,
        "doesn't exist"@,
    )
}

/// What stands in a piece between its first quotation mark and the next one,
/// trimmed. A piece without a quotation mark has nothing there.
pub open spec fn quoted(piece: Seq<char>) -> Option<Seq<char>> {
    let head = before_first(piece, |c: char| is_quote(c));
    if head.len() >= piece.len() {
        None
    } else {
        Some(trim(before_first(piece.skip(head.len() as int + 1), |c: char| is_quote(c))))
    }
}

/// The directories that the pieces name, in their order. There is no result
/// where a piece that names a directory shows it without quotation marks.
pub open spec fn site_dirs(pieces: Seq<Seq<char>>) -> Option<Seq<Seq<char>>>
    decreases pieces.len(),
{
    if pieces.len() == 0 {
        Some(Seq::empty())
    } else {
        match site_dirs(pieces.drop_last()) {
            None => None,
            Some(acc) => if !names_packages(pieces.last()) {
                Some(acc)
            } else {
                match quoted(pieces.last()) {
                    Some(d) => Some(acc.push(d)),
                    None => None,
                }
            },
        }
    }
}

/// The directories of installed packages that `python3 -m site` prints.
pub open spec fn site_directories(output: Seq<char>) -> Option<Seq<Seq<char>>> {
    site_dirs(split_at_each(output, |c: char| is_site_separator(c)))
}

fn site_separator(c: char) -> (b: bool)
    ensures
        b == is_site_separator(c),
{
    c == '\n' || c == ',' || c == ':'
}

fn split_site(s: &Vec<char>) -> (r: Vec<Vec<char>>)
    ensures
        texts(r@) == split_at_each(s@, |c: char| is_site_separator(c)),
{
    let ghost stop = |c: char| is_site_separator(c);
    let mut r: Vec<Vec<char>> = Vec::new();
    let mut i: usize = 0;
    let mut done = false;
    assert(s@.skip(0) =~= s@);
    assert(texts(r@) =~= Seq::<Seq<char>>::empty());
    while !done
        invariant
            i <= s.len(),
            stop == (|c: char| is_site_separator(c)),
            !done ==> texts(r@) + split_at_each(s@.skip(i as int), stop) == split_at_each(
                s@,
                stop,
            ),
            done ==> texts(r@) == split_at_each(s@, stop),
        decreases s.len() - i + (if done { 0int } else { 1int }),
    {
        let ghost rest = s@.skip(i as int);
        let mut k: usize = i;
        while k < s.len() && !site_separator(s[k])
            invariant
                i <= k <= s.len(),
                stop == (|c: char| is_site_separator(c)),
                forall|j: int| i <= j < k ==> !stop(s@[j]),
            decreases s.len() - k,
        {
            k += 1;
        }
        proof {
            assert(k < s.len() ==> stop(s@[k as int]));
            lemma_before_first_is(rest, stop, k - i);
        }
        let piece = slice_chars(s, i, k);
        proof {
            assert(piece@ =~= rest.take(k - i));
            let ghost before = texts(r@);
            assert(texts(r@.push(piece)) =~= before + seq![piece@]);
        }
        r.push(piece);
        if k < s.len() {
            assert(rest.skip((k - i) + 1) =~= s@.skip(k + 1));
            i = k + 1;
        } else {
            assert(rest.take(k - i) =~= rest);
            done = true;
        }
    }
    r
}

fn quoted_chars(piece: &Vec<char>) -> (r: Option<Vec<char>>)
    ensures
        match r {
            Some(d) => quoted(piece@) == Some(d@),
            None => quoted(piece@) is None,
        },
{
    let ghost stop = |c: char| is_quote(c);
    let mut a: usize = 0;
    while a < piece.len() && piece[a] != '\''
        invariant
            a <= piece.len(),
            stop == (|c: char| is_quote(c)),
            forall|j: int| 0 <= j < a ==> !stop(piece@[j]),
        decreases piece.len() - a,
    {
        a += 1;
    }
    proof {
        assert(a < piece.len() ==> stop(piece@[a as int]));
        lemma_before_first_is(piece@, stop, a as int);
    }
    if a == piece.len() {
        return None;
    }
    let ghost rest = piece@.skip(a + 1);
    let mut b: usize = a + 1;
    while b < piece.len() && piece[b] != '\''
        invariant
            a < b <= piece.len(),
            stop == (|c: char| is_quote(c)),
            forall|j: int| a < j < b ==> !stop(piece@[j]),
        decreases piece.len() - b,
    {
        b += 1;
    }
    proof {
        assert forall|j: int| 0 <= j < b - a - 1 implies !stop(rest[j]) by {
            assert(rest[j] == piece@[j + a + 1]);
        }
        assert(b < piece.len() ==> stop(rest[b - a - 1]));
        lemma_before_first_is(rest, stop, b - a - 1);
    }
    let inner = slice_chars(piece, a + 1, b);
    assert(inner@ =~= rest.take(b - a - 1));
    Some(trim_chars(&inner))
}

fn names_packages_chars(piece: &Vec<char>) -> (b: bool)
    ensures
        b == names_packages(piece@),
{
    (contains_chars(piece, &to_chars("dist-packages")) || contains_chars(
        piece,
        &to_chars("site-packages"),
    )) && !contains_chars(piece, &to_chars("doesn't exist"))
}

/// Finds the directories of installed packages in what `python3 -m site`
/// prints: of every piece that names such a directory, and does not say that
/// it is missing, what stands between its first quotation marks.
pub fn parse_site_output(output: &str) -> (r: Option<Vec<String>>)
    ensures
        match r {
            Some(dirs) => site_directories(output@) == Some(strings(dirs@)),
            None => site_directories(output@) is None,
        },
{
    let pieces = split_site(&to_chars(output));
    let ghost ps = texts(pieces@);
    let mut dirs: Vec<String> = Vec::new();
    let mut i: usize = 0;
    assert(ps.take(0) =~= Seq::<Seq<char>>::empty());
    assert(strings(dirs@) =~= Seq::<Seq<char>>::empty());
    while i < pieces.len()
        invariant
            i <= pieces.len(),
            ps == texts(pieces@),
            ps == split_at_each(output@, |c: char| is_site_separator(c)),
            site_dirs(ps.take(i as int)) == Some(strings(dirs@)),
        decreases pieces.len() - i,
    {
        let ghost before = strings(dirs@);
        proof {
            assert(ps.take(i + 1).drop_last() =~= ps.take(i as int));
            assert(ps.take(i + 1).last() == pieces@[i as int]@);
        }
        if names_packages_chars(&pieces[i]) {
            match quoted_chars(&pieces[i]) {
                Some(d) => {
                    let text = from_chars(&d);
                    dirs.push(text);
                    assert(strings(dirs@) =~= before.push(d@));
                },
                None => {
                    proof {
                        lemma_site_dirs_fails(ps, i + 1);
                    }
                    assert(ps.take(pieces.len() as int) =~= ps);
                    return None;
                },
            }
        }
        i += 1;
    }
    assert(ps.take(pieces.len() as int) =~= ps);
    Some(dirs)
}

/// Once the pieces give no result, more pieces give none.
pub proof fn lemma_site_dirs_fails(pieces: Seq<Seq<char>>, k: int)
    requires
        0 <= k <= pieces.len(),
        site_dirs(pieces.take(k)) is None,
    ensures
        site_dirs(pieces) is None,
    decreases pieces.len() - k,
{
    if k < pieces.len() {
        assert(pieces.take(k + 1).drop_last() =~= pieces.take(k));
        lemma_site_dirs_fails(pieces, k + 1);
    } else {
        assert(pieces.take(k) =~= pieces);
    }
}

} // verus!
