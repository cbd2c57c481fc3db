//! Facts about trimming and about words: what the words of a text do not see,
//! and how `replace` goes through a text word by word.

use crate::line_lemmas::lacks;
use crate::replace_lemmas::{
    lemma_replace_at_separator, lemma_replace_cons, lemma_replace_first, lemma_replace_no_space,
};
use crate::text::{
    is_space, lemma_word_len_bounds, lemma_word_len_is, no_space, replace, trim, trim_end,
    trim_start, word_len, words,
};
use vstd::prelude::*;

verus! {

/// Each of the words `ws` with `p` replaced by `w`.
pub open spec fn replace_each(ws: Seq<Seq<char>>, p: Seq<char>, w: Seq<char>) -> Seq<Seq<char>> {
    Seq::new(ws.len(), |i: int| replace(ws[i], p, w))
}

pub proof fn lemma_trim_start_lacks(s: Seq<char>, c: char)
    requires
        lacks(s, c),
    ensures
        lacks(trim_start(s), c),
    decreases s.len(),
{
    if s.len() > 0 && is_space(s[0]) {
        let t = s.drop_first();
        assert forall|i: int| 0 <= i < t.len() implies #[trigger] t[i] != c by {
            assert(t[i] == s[i + 1]);
        }
        lemma_trim_start_lacks(t, c);
    }
}

pub proof fn lemma_trim_end_lacks(s: Seq<char>, c: char)
    requires
        lacks(s, c),
    ensures
        lacks(trim_end(s), c),
    decreases s.len(),
{
    if s.len() > 0 && is_space(s.last()) {
        let t = s.drop_last();
        assert forall|i: int| 0 <= i < t.len() implies #[trigger] t[i] != c by {
            assert(t[i] == s[i]);
        }
        lemma_trim_end_lacks(t, c);
    }
}

/// What is left of a trimmed text begins and ends with no white space.
pub proof fn lemma_trim_start_first(s: Seq<char>)
    ensures
        trim_start(s).len() == 0 || !is_space(trim_start(s)[0]),
    decreases s.len(),
{
    if s.len() > 0 && is_space(s[0]) {
        lemma_trim_start_first(s.drop_first());
    }
}

pub proof fn lemma_trim_end_last(s: Seq<char>)
    ensures
        trim_end(s).len() == 0 || !is_space(trim_end(s).last()),
    decreases s.len(),
{
    if s.len() > 0 && is_space(s.last()) {
        lemma_trim_end_last(s.drop_last());
    }
}

/// Trimming the end leaves a first character that is no white space alone.
pub proof fn lemma_trim_end_cons(c: char, r: Seq<char>)
    requires
        !is_space(c),
    ensures
        trim_end(seq![c] + r) == seq![c] + trim_end(r),
    decreases r.len(),
{
    let s = seq![c] + r;
    if r.len() == 0 {
        assert(s =~= seq![c]);
        assert(s.last() == c);
        assert(seq![c] + trim_end(r) =~= seq![c]);
    } else {
        assert(s.last() == r.last());
        if is_space(r.last()) {
            assert(s.drop_last() =~= seq![c] + r.drop_last());
            lemma_trim_end_cons(c, r.drop_last());
        }
    }
}

/// A text that begins with no white space is trimmed at its end only.
pub proof fn lemma_trim_of_unindented(s: Seq<char>)
    requires
        s.len() > 0,
        !is_space(s[0]),
    ensures
        trim(s) == trim_end(s),
        trim(s).len() > 0,
        trim(s)[0] == s[0],
{
    assert(s =~= seq![s[0]] + s.drop_first());
    lemma_trim_end_cons(s[0], s.drop_first());
}

/// The trimmed text begins and ends with no white space.
pub proof fn lemma_trim_ends(s: Seq<char>)
    ensures
        trim(s).len() == 0 || (!is_space(trim(s)[0]) && !is_space(trim(s).last())),
{
    let t = trim_start(s);
    lemma_trim_start_first(t);
    lemma_trim_start_first(s);
    lemma_trim_end_last(t);
    if t.len() > 0 {
        lemma_trim_of_unindented(t);
    }
}

pub proof fn lemma_trim_lacks(s: Seq<char>, c: char)
    requires
        lacks(s, c),
    ensures
        lacks(trim(s), c),
{
    lemma_trim_start_lacks(s, c);
    lemma_trim_end_lacks(trim_start(s), c);
}

/// White space at the end of a text adds no word.
pub proof fn lemma_words_push_space(u: Seq<char>, c: char)
    requires
        is_space(c),
    ensures
        words(u.push(c)) == words(u),
    decreases u.len(),
{
    let s = u.push(c);
    if u.len() == 0 {
        assert(s.drop_first() =~= u);
        assert(words(s) == words(s.drop_first()));
    } else if is_space(u[0]) {
        assert(s[0] == u[0]);
        assert(s.drop_first() =~= u.drop_first().push(c));
        lemma_words_push_space(u.drop_first(), c);
    } else {
        lemma_word_len_bounds(u);
        let k = word_len(u);
        assert forall|i: int| 0 <= i < k implies !is_space(s[i]) by {
            assert(s[i] == u[i]);
        }
        if k < u.len() {
            assert(s[k] == u[k]);
        } else {
            assert(s[k] == c);
        }
        lemma_word_len_is(s, k);
        assert(s[0] == u[0]);
        assert(s.take(k) =~= u.take(k));
        assert(s.skip(k) =~= u.skip(k).push(c));
        lemma_words_push_space(u.skip(k), c);
    }
}

/// The words of a text are the words of the trimmed text.
pub proof fn lemma_words_trim_start(s: Seq<char>)
    ensures
        words(trim_start(s)) == words(s),
    decreases s.len(),
{
    if s.len() > 0 && is_space(s[0]) {
        lemma_words_trim_start(s.drop_first());
    }
}

pub proof fn lemma_words_trim_end(s: Seq<char>)
    ensures
        words(trim_end(s)) == words(s),
    decreases s.len(),
{
    if s.len() > 0 && is_space(s.last()) {
        lemma_words_trim_end(s.drop_last());
        assert(s =~= s.drop_last().push(s.last()));
        lemma_words_push_space(s.drop_last(), s.last());
    }
}

pub proof fn lemma_words_trim(s: Seq<char>)
    ensures
        words(trim(s)) == words(s),
{
    lemma_words_trim_end(trim_start(s));
    lemma_words_trim_start(s);
}

/// A text without white space is one word.
pub proof fn lemma_words_of_word(u: Seq<char>)
    requires
        u.len() > 0,
        no_space(u),
    ensures
        words(u) == seq![u],
{
    lemma_word_len_is(u, u.len() as int);
    assert(u.take(u.len() as int) =~= u);
    let rest = u.skip(u.len() as int);
    assert(rest =~= Seq::<char>::empty());
    assert(words(rest) =~= Seq::<Seq<char>>::empty());
    assert(seq![u] + Seq::<Seq<char>>::empty() =~= seq![u]);
}

/// A word and what follows it behind white space: the words of both are the
/// word and the words of what follows.
pub proof fn lemma_words_word_then(u: Seq<char>, c: char, rest: Seq<char>)
    requires
        u.len() > 0,
        no_space(u),
        is_space(c),
    ensures
        words(u + seq![c] + rest) == seq![u] + words(rest),
{
    let s = u + seq![c] + rest;
    let k = u.len() as int;
    assert forall|i: int| 0 <= i < k implies !is_space(s[i]) by {
        assert(s[i] == u[i]);
    }
    assert(s[k] == c);
    lemma_word_len_is(s, k);
    assert(s[0] == u[0]);
    assert(s.take(k) =~= u);
    let tail = s.skip(k);
    assert(tail =~= seq![c] + rest);
    assert(tail[0] == c);
    assert(tail.drop_first() =~= rest);
    assert(words(tail) == words(rest));
}

/// `replace` goes through a text word by word, where neither the pattern nor
/// the replacement holds white space and neither is empty: the words of what
/// it gives are what it gives for each word.
pub proof fn lemma_words_replace(z: Seq<char>, p: Seq<char>, w: Seq<char>)
    requires
        p.len() > 0,
        w.len() > 0,
        no_space(p),
        no_space(w),
    ensures
        words(replace(z, p, w)) == replace_each(words(z), p, w),
    decreases z.len(),
{
    if z.len() == 0 {
        assert(replace(z, p, w) == z);
        assert(replace_each(words(z), p, w) =~= Seq::<Seq<char>>::empty());
    } else if is_space(z[0]) {
        let r = z.drop_first();
        assert(z =~= seq![z[0]] + r);
        assert(!is_space(p[0]));
        lemma_replace_cons(z[0], r, p, w);
        let x = seq![z[0]] + replace(r, p, w);
        assert(x[0] == z[0]);
        assert(x.drop_first() =~= replace(r, p, w));
        lemma_words_replace(r, p, w);
    } else {
        lemma_word_len_bounds(z);
        let k = word_len(z);
        let u = z.take(k);
        assert forall|i: int| 0 <= i < u.len() implies !is_space(#[trigger] u[i]) by {
            assert(u[i] == z[i]);
        }
        lemma_replace_no_space(u, p, w);
        lemma_replace_first(u, p, w);
        let ru = replace(u, p, w);
        if k == z.len() {
            assert(u =~= z);
            lemma_words_of_word(z);
            lemma_words_of_word(ru);
            assert(replace_each(seq![z], p, w) =~= seq![ru]);
        } else {
            let c = z[k];
            let rest = z.skip(k + 1);
            assert(z =~= u + seq![c] + rest);
            assert forall|i: int| 0 <= i < p.len() implies #[trigger] p[i] != c by {}
            lemma_replace_at_separator(u, c, rest, p, w);
            lemma_words_word_then(u, c, rest);
            lemma_words_word_then(ru, c, replace(rest, p, w));
            lemma_words_replace(rest, p, w);
            assert(replace_each(seq![u] + words(rest), p, w) =~= seq![ru] + replace_each(
                words(rest),
                p,
                w,
            ));
        }
    }
}

} // verus!
