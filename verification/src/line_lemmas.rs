//! Facts about lines: how the lines of a text that is put together relate to
//! the lines of its parts.

use crate::header::newline;
use crate::text::{
    first_line, first_line_span, lemma_line_end_bounds, lemma_line_end_is, line_end, lines,
};
use vstd::prelude::*;

verus! {

/// The character `c` does not occur in `s`.
pub open spec fn lacks(s: Seq<char>, c: char) -> bool {
    forall|i: int| 0 <= i < s.len() ==> #[trigger] s[i] != c
}

/// `s` is empty or ends with a line feed.
pub open spec fn ends_lines(s: Seq<char>) -> bool {
    s.len() == 0 || s.last() == '\n'
}

/// A text that ends with a line feed has its first line feed inside.
pub proof fn lemma_line_end_inside(a: Seq<char>)
    requires
        a.len() > 0,
        a.last() == '\n',
    ensures
        0 <= line_end(a) < a.len(),
{
    lemma_line_end_bounds(a);
    if line_end(a) == a.len() {
        assert(a[a.len() - 1] != '\n');
    }
}

/// What follows a text that holds a line feed does not move its first line.
pub proof fn lemma_first_line_concat(a: Seq<char>, b: Seq<char>)
    requires
        0 <= line_end(a) < a.len(),
    ensures
        line_end(a + b) == line_end(a),
        first_line(a + b) == first_line(a),
        first_line_span(a + b) == first_line_span(a),
        1 <= first_line_span(a) <= a.len(),
        (a + b).skip(first_line_span(a)) == a.skip(first_line_span(a)) + b,
{
    lemma_line_end_bounds(a);
    let k = line_end(a);
    let ab = a + b;
    assert forall|i: int| 0 <= i < k implies ab[i] != '\n' by {
        assert(ab[i] == a[i]);
    }
    assert(ab[k] == a[k]);
    lemma_line_end_is(ab, k);
    if k > 0 {
        assert(ab[k - 1] == a[k - 1]);
    }
    assert(ab.take(k) =~= a.take(k));
    if k > 0 {
        assert(ab.take(k - 1) =~= a.take(k - 1));
    }
    assert(ab.skip(k + 1) =~= a.skip(k + 1) + b);
}

/// The lines of two texts put together are the lines of the first and the
/// lines of the second, where the first ends with a line feed.
pub proof fn lemma_lines_concat(a: Seq<char>, b: Seq<char>)
    requires
        ends_lines(a),
    ensures
        lines(a + b) == lines(a) + lines(b),
    decreases a.len(),
{
    if a.len() == 0 {
        assert(a + b =~= b);
        assert(lines(a) =~= Seq::<Seq<char>>::empty());
        assert(lines(a) + lines(b) =~= lines(b));
    } else {
        lemma_line_end_inside(a);
        lemma_first_line_concat(a, b);
        let n = first_line_span(a);
        let rest = a.skip(n);
        if rest.len() > 0 {
            assert(rest.last() == a.last());
        }
        lemma_lines_concat(rest, b);
        assert(lines(a + b) == seq![first_line(a)] + lines(rest + b));
        assert(lines(a) == seq![first_line(a)] + lines(rest));
        assert(seq![first_line(a)] + (lines(rest) + lines(b)) =~= (seq![first_line(a)] + lines(
            rest,
        )) + lines(b));
    }
}

/// A text without a line feed, closed by one, is the one line that it holds,
/// unless it ends with a carriage return.
pub proof fn lemma_lines_single(l: Seq<char>)
    requires
        lacks(l, '\n'),
        l.len() == 0 || l.last() != '\r',
    ensures
        lines(l + newline()) == seq![l],
        first_line(l + newline()) == l,
        first_line_span(l + newline()) == l.len() + 1,
{
    let s = l + newline();
    let k = l.len() as int;
    assert forall|i: int| 0 <= i < k implies s[i] != '\n' by {
        assert(s[i] == l[i]);
    }
    assert(s[k] == '\n');
    lemma_line_end_is(s, k);
    if k > 0 {
        assert(s[k - 1] == l[k - 1]);
    }
    assert(s.take(k) =~= l);
    assert(s.skip(k + 1) =~= Seq::<char>::empty());
    assert(lines(s.skip(k + 1)) =~= Seq::<Seq<char>>::empty());
    assert(seq![l] + Seq::<Seq<char>>::empty() =~= seq![l]);
}

/// No line holds a line feed.
pub proof fn lemma_lines_lack_newline(s: Seq<char>, i: int)
    requires
        0 <= i < lines(s).len(),
    ensures
        lacks(lines(s)[i], '\n'),
    decreases s.len(),
{
    let n = first_line_span(s);
    lemma_line_end_bounds(s);
    if s.len() == 0 || !(1 <= n <= s.len()) {
    } else if i == 0 {
        let l = first_line(s);
        assert forall|j: int| 0 <= j < l.len() implies #[trigger] l[j] != '\n' by {
            assert(l[j] == s[j]);
        }
    } else {
        lemma_lines_lack_newline(s.skip(n), i - 1);
        assert(lines(s)[i] == lines(s.skip(n))[i - 1]);
    }
}

} // verus!
