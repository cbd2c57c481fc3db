//! Facts about `replace`: what it leaves alone, and how it goes through a text
//! piece by piece.

use crate::line_lemmas::lacks;
use crate::text::{contains, is_space, no_space, occurs_at, replace};
use vstd::prelude::*;

verus! {

/// A character that does not begin the pattern stays where it is.
pub proof fn lemma_replace_cons(c: char, r: Seq<char>, p: Seq<char>, w: Seq<char>)
    requires
        p.len() > 0,
        c != p[0],
    ensures
        replace(seq![c] + r, p, w) == seq![c] + replace(r, p, w),
{
    let s = seq![c] + r;
    assert(s.drop_first() =~= r);
    if s.len() < p.len() {
    } else {
        assert(s.take(p.len() as int)[0] == c);
    }
}

/// A text in which the pattern does not occur stays as it is.
pub proof fn lemma_replace_absent(s: Seq<char>, p: Seq<char>, w: Seq<char>)
    requires
        !contains(s, p),
    ensures
        replace(s, p, w) == s,
    decreases s.len(),
{
    if p.len() == 0 || s.len() < p.len() {
    } else {
        if s.take(p.len() as int) == p {
            assert(s.subrange(0, 0 + p.len() as int) =~= s.take(p.len() as int));
            assert(occurs_at(s, p, 0));
        }
        let t = s.drop_first();
        if contains(t, p) {
            let i = choose|i: int| occurs_at(t, p, i);
            assert(s.subrange(i + 1, i + 1 + p.len()) =~= t.subrange(i, i + p.len()));
            assert(occurs_at(s, p, i + 1));
        }
        lemma_replace_absent(t, p, w);
        assert(seq![s[0]] + t =~= s);
    }
}

/// The pattern itself becomes the replacement.
pub proof fn lemma_replace_whole(p: Seq<char>, w: Seq<char>)
    requires
        p.len() > 0,
    ensures
        replace(p, p, w) == w,
{
    assert(p.take(p.len() as int) =~= p);
    let rest = p.skip(p.len() as int);
    assert(rest =~= Seq::<char>::empty());
    assert(replace(rest, p, w) == rest);
    assert(w + rest =~= w);
}

/// What `replace` gives begins as the text does, or as the replacement does.
pub proof fn lemma_replace_first(s: Seq<char>, p: Seq<char>, w: Seq<char>)
    requires
        s.len() > 0,
        w.len() > 0,
    ensures
        replace(s, p, w).len() > 0,
        replace(s, p, w)[0] == s[0] || (p.len() > 0 && s[0] == p[0] && replace(s, p, w)[0]
            == w[0]),
{
    if p.len() == 0 || s.len() < p.len() {
    } else if s.take(p.len() as int) == p {
        assert(s.take(p.len() as int)[0] == s[0]);
    } else {
    }
}

/// A character that is neither in the text nor in the replacement is not in
/// what `replace` gives.
pub proof fn lemma_replace_lacks(s: Seq<char>, p: Seq<char>, w: Seq<char>, c: char)
    requires
        lacks(s, c),
        lacks(w, c),
    ensures
        lacks(replace(s, p, w), c),
    decreases s.len(),
{
    let r = replace(s, p, w);
    if p.len() == 0 || s.len() < p.len() {
    } else if s.take(p.len() as int) == p {
        let t = s.skip(p.len() as int);
        assert forall|i: int| 0 <= i < t.len() implies #[trigger] t[i] != c by {
            assert(t[i] == s[i + p.len()]);
        }
        lemma_replace_lacks(t, p, w, c);
        let rt = replace(t, p, w);
        assert forall|i: int| 0 <= i < r.len() implies #[trigger] r[i] != c by {
            if i < w.len() {
                assert(r[i] == w[i]);
            } else {
                assert(r[i] == rt[i - w.len()]);
            }
        }
    } else {
        let t = s.drop_first();
        assert forall|i: int| 0 <= i < t.len() implies #[trigger] t[i] != c by {
            assert(t[i] == s[i + 1]);
        }
        lemma_replace_lacks(t, p, w, c);
        let rt = replace(t, p, w);
        assert forall|i: int| 0 <= i < r.len() implies #[trigger] r[i] != c by {
            if i == 0 {
                assert(r[0] == s[0]);
            } else {
                assert(r[i] == rt[i - 1]);
            }
        }
    }
}

/// Where neither the text nor the replacement holds white space, what
/// `replace` gives holds none.
pub proof fn lemma_replace_no_space(s: Seq<char>, p: Seq<char>, w: Seq<char>)
    requires
        no_space(s),
        no_space(w),
    ensures
        no_space(replace(s, p, w)),
    decreases s.len(),
{
    let r = replace(s, p, w);
    if p.len() == 0 || s.len() < p.len() {
    } else if s.take(p.len() as int) == p {
        let t = s.skip(p.len() as int);
        assert forall|i: int| 0 <= i < t.len() implies !is_space(#[trigger] t[i]) by {
            assert(t[i] == s[i + p.len()]);
        }
        lemma_replace_no_space(t, p, w);
        let rt = replace(t, p, w);
        assert forall|i: int| 0 <= i < r.len() implies !is_space(#[trigger] r[i]) by {
            if i < w.len() {
                assert(r[i] == w[i]);
            } else {
                assert(r[i] == rt[i - w.len()]);
            }
        }
    } else {
        let t = s.drop_first();
        assert forall|i: int| 0 <= i < t.len() implies !is_space(#[trigger] t[i]) by {
            assert(t[i] == s[i + 1]);
        }
        lemma_replace_no_space(t, p, w);
        let rt = replace(t, p, w);
        assert forall|i: int| 0 <= i < r.len() implies !is_space(#[trigger] r[i]) by {
            if i == 0 {
                assert(r[0] == s[0]);
            } else {
                assert(r[i] == rt[i - 1]);
            }
        }
    }
}

/// A character that the pattern does not hold parts the text for `replace`:
/// what stands before it and what stands behind it are replaced each for
/// itself.
pub proof fn lemma_replace_at_separator(
    a: Seq<char>,
    c: char,
    b: Seq<char>,
    p: Seq<char>,
    w: Seq<char>,
)
    requires
        p.len() > 0,
        lacks(p, c),
    ensures
        replace(a + seq![c] + b, p, w) == replace(a, p, w) + seq![c] + replace(b, p, w),
    decreases a.len(),
{
    let s = a + seq![c] + b;
    let n = p.len() as int;
    if a.len() == 0 {
        assert(s =~= seq![c] + b);
        assert(p[0] != c);
        lemma_replace_cons(c, b, p, w);
        assert(replace(a, p, w) + seq![c] + replace(b, p, w) =~= seq![c] + replace(b, p, w));
    } else if s.len() < n {
        assert(replace(a, p, w) == a);
        assert(replace(b, p, w) == b);
    } else if s.take(n) == p {
        if a.len() < n {
            assert(s.take(n)[a.len() as int] == c);
            assert(p[a.len() as int] != c);
        }
        assert(a.take(n) =~= s.take(n));
        let a2 = a.skip(n);
        assert(s.skip(n) =~= a2 + seq![c] + b);
        lemma_replace_at_separator(a2, c, b, p, w);
        assert(w + (replace(a2, p, w) + seq![c] + replace(b, p, w)) =~= (w + replace(a2, p, w))
            + seq![c] + replace(b, p, w));
    } else {
        let a2 = a.drop_first();
        assert(s.drop_first() =~= a2 + seq![c] + b);
        lemma_replace_at_separator(a2, c, b, p, w);
        assert(s[0] == a[0]);
        if a.len() < n {
            assert(replace(a, p, w) == a);
            assert(replace(a2, p, w) == a2);
            assert(seq![a[0]] + a2 =~= a);
        } else {
            assert(a.take(n) =~= s.take(n));
        }
        assert(seq![a[0]] + (replace(a2, p, w) + seq![c] + replace(b, p, w)) =~= (seq![a[0]]
            + replace(a2, p, w)) + seq![c] + replace(b, p, w));
    }
}

} // verus!
