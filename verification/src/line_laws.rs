//! How texts that are put together divide into lines.
use vstd::prelude::*;
use crate::text::{
    blank, first, first_bounds, first_is, lines, trimmed, trimmed_end, trimmed_start,
    white_space, without_return,
};

verus! {

/// A text of whole lines: empty, or ended by a line feed.
pub open spec fn whole_lines(s: Seq<char>) -> bool {
    s.len() == 0 || s.last() == '\n'
}

/// The lines of whole lines followed by a text are the lines of the one and then
/// those of the other.
pub proof fn lines_concat(a: Seq<char>, b: Seq<char>)
    requires
        whole_lines(a),
    ensures
        lines(a + b) == lines(a) + lines(b),
    decreases a.len(),
{
    if a.len() == 0 {
        assert(a + b =~= b);
        assert(lines(a) + lines(b) =~= lines(b));
    } else {
        first_bounds(a, '\n');
        let n = first(a, '\n') as int;
        assert(n < a.len()) by {
            if n == a.len() {
                assert(a[a.len() - 1] != '\n');
            }
        }
        assert forall|j: int| 0 <= j < n implies (a + b)[j] != '\n' by {
            assert(a[j] != '\n');
        }
        first_is(a + b, '\n', n);
        let rest = a.skip(n + 1);
        assert((a + b).skip(n + 1) =~= rest + b);
        assert((a + b).take(n) =~= a.take(n));
        assert(whole_lines(rest)) by {
            if rest.len() > 0 {
                assert(rest.last() == a.last());
            }
        }
        lines_concat(rest, b);
        assert(lines(a + b) =~= lines(a) + lines(b));
    }
}

/// One line and its line feed.
pub proof fn lines_of_one(l: Seq<char>)
    requires
        !l.contains('\n'),
    ensures
        lines(l.push('\n')) == seq![without_return(l)],
{
    let s = l.push('\n');
    assert forall|j: int| 0 <= j < l.len() implies s[j] != '\n' by {
        assert(l.contains(l[j]));
    }
    first_is(s, '\n', l.len() as int);
    assert(s.take(l.len() as int) =~= l);
    assert(s.skip(l.len() as int + 1) =~= seq![]);
    assert(lines(s.skip(l.len() as int + 1)) =~= seq![]);
    assert(lines(s) =~= seq![without_return(l)]);
}

/// A line feed ends the last line of a text that did not end in a line ending,
/// and makes no other difference.
pub proof fn lines_closed(x: Seq<char>)
    requires
        x.len() > 0,
        x.last() != '\n',
        x.last() != '\r',
    ensures
        lines(x.push('\n')) == lines(x),
        lines(x).len() > 0,
    decreases x.len(),
{
    first_bounds(x, '\n');
    let n = first(x, '\n') as int;
    let y = x.push('\n');
    assert forall|j: int| 0 <= j < n implies y[j] != '\n' by {
        assert(x[j] != '\n');
    }
    first_is(y, '\n', n);
    if n < x.len() {
        let rest = x.skip(n + 1);
        assert(n + 1 < x.len()) by {
            if n + 1 == x.len() {
                assert(x.last() == x[n]);
            }
        }
        assert(y.skip(n + 1) =~= rest.push('\n'));
        assert(y.take(n) =~= x.take(n));
        assert(rest.last() == x.last());
        lines_closed(rest);
    } else {
        assert(y.take(n) =~= x);
        assert(y.skip(n + 1) =~= seq![]);
        assert(lines(y.skip(n + 1)) =~= seq![]);
        assert(lines(y) =~= seq![x]);
    }
}

/// A text without line ends set before another lengthens its first line.
pub proof fn lines_prefixed(p: Seq<char>, x: Seq<char>)
    requires
        p.len() > 0,
        !p.contains('\n'),
        p.last() != '\r',
        x.len() > 0,
    ensures
        lines(x).len() > 0,
        lines(p + x) == seq![p + lines(x)[0]] + lines(x).skip(1),
{
    first_bounds(x, '\n');
    let n = first(x, '\n') as int;
    let y = p + x;
    assert forall|j: int| 0 <= j < p.len() + n implies y[j] != '\n' by {
        if j < p.len() {
            assert(p.contains(p[j]));
        } else {
            assert(x[j - p.len()] != '\n');
        }
    }
    first_is(y, '\n', p.len() + n);
    if n < x.len() {
        assert(y.skip(p.len() + n + 1) =~= x.skip(n + 1));
        assert(y.take(p.len() + n) =~= p + x.take(n));
        let l = x.take(n);
        assert(without_return(p + l) =~= p + without_return(l)) by {
            if l.len() > 0 {
                assert((p + l).last() == l.last());
            } else {
                assert((p + l).last() == p.last());
            }
        }
        assert(lines(x).skip(1) =~= lines(x.skip(n + 1)));
        assert(lines(y) =~= seq![p + lines(x)[0]] + lines(x).skip(1));
    } else {
        assert(lines(y) =~= seq![p + lines(x)[0]] + lines(x).skip(1));
    }
}

/// No line holds a line feed.
pub proof fn lines_hold_no_feed(s: Seq<char>)
    ensures
        forall|i: int| 0 <= i < lines(s).len() ==> !(#[trigger] lines(s)[i]).contains('\n'),
    decreases s.len(),
{
    first_bounds(s, '\n');
    let n = first(s, '\n') as int;
    if s.len() > 0 && n < s.len() {
        lines_hold_no_feed(s.skip(n + 1));
        assert forall|i: int| 0 <= i < lines(s).len() implies !(#[trigger] lines(s)[i]).contains(
            '\n',
        ) by {
            if i == 0 {
                let l = lines(s)[0];
                if l.contains('\n') {
                    let j = choose|j: int| 0 <= j < l.len() && l[j] == '\n';
                    assert(l[j] == s[j]);
                }
            } else {
                assert(lines(s)[i] == lines(s.skip(n + 1))[i - 1]);
            }
        }
    } else if s.len() > 0 {
        assert(lines(s)[0] == s);
        if s.contains('\n') {
            let j = choose|j: int| 0 <= j < s.len() && s[j] == '\n';
            assert(s[j] != '\n');
        }
    }
}

/// White space at the end makes no difference to the trimmed end.
pub proof fn trimmed_end_ignores(s: Seq<char>, w: Seq<char>)
    requires
        blank(w),
    ensures
        trimmed_end(s + w) == trimmed_end(s),
    decreases w.len(),
{
    if w.len() == 0 {
        assert(s + w =~= s);
    } else {
        assert(white_space(w[w.len() - 1]));
        assert((s + w).last() == w.last());
        assert((s + w).drop_last() =~= s + w.drop_last());
        assert(blank(w.drop_last())) by {
            assert forall|i: int| 0 <= i < w.drop_last().len() implies white_space(
                #[trigger] w.drop_last()[i],
            ) by {
                assert(white_space(w[i]));
            }
        }
        trimmed_end_ignores(s, w.drop_last());
    }
}

/// White space at the start makes no difference to the trimmed start.
pub proof fn trimmed_start_ignores(w: Seq<char>, s: Seq<char>)
    requires
        blank(w),
    ensures
        trimmed_start(w + s) == trimmed_start(s),
    decreases w.len(),
{
    if w.len() == 0 {
        assert(w + s =~= s);
    } else {
        assert(white_space(w[0]));
        assert((w + s)[0] == w[0]);
        assert((w + s).skip(1) =~= w.skip(1) + s);
        assert(blank(w.skip(1))) by {
            assert forall|i: int| 0 <= i < w.skip(1).len() implies white_space(
                #[trigger] w.skip(1)[i],
            ) by {
                assert(white_space(w[i + 1]));
            }
        }
        trimmed_start_ignores(w.skip(1), s);
    }
}

/// What trimming the end leaves is a prefix that is empty or ends in something.
pub proof fn trimmed_end_is(s: Seq<char>)
    ensures
        trimmed_end(s).is_prefix_of(s),
        trimmed_end(s).len() > 0 ==> !white_space(trimmed_end(s).last()),
        blank(s) <==> trimmed_end(s).len() == 0,
        s.len() > 0 && !white_space(s[0]) ==> trimmed_end(s).len() > 0 && trimmed_end(s)[0] == s[0],
    decreases s.len(),
{
    if s.len() > 0 {
        if white_space(s.last()) {
            let rest = s.drop_last();
            trimmed_end_is(rest);
            assert(trimmed_end(s) == trimmed_end(rest));
            assert(blank(s) <==> blank(rest)) by {
                if blank(rest) {
                    assert forall|i: int| 0 <= i < s.len() implies white_space(#[trigger] s[i]) by {
                        if i < s.len() - 1 {
                            assert(white_space(rest[i]));
                        }
                    }
                }
                if blank(s) {
                    assert forall|i: int| 0 <= i < rest.len() implies white_space(
                        #[trigger] rest[i],
                    ) by {
                        assert(white_space(s[i]));
                    }
                }
            }
            if !white_space(s[0]) {
                assert(s.len() > 1);
                assert(rest[0] == s[0]);
            }
        } else {
            assert(!white_space(s[s.len() - 1]));
        }
    }
}

/// What trimming the start leaves is a suffix that is empty or begins with
/// something.
pub proof fn trimmed_start_is(s: Seq<char>)
    ensures
        trimmed_start(s).is_suffix_of(s),
        trimmed_start(s).len() > 0 ==> !white_space(trimmed_start(s)[0]),
        blank(s) <==> trimmed_start(s).len() == 0,
    decreases s.len(),
{
    if s.len() > 0 {
        if white_space(s[0]) {
            let rest = s.skip(1);
            trimmed_start_is(rest);
            assert(blank(s) <==> blank(rest)) by {
                if blank(rest) {
                    assert forall|i: int| 0 <= i < s.len() implies white_space(#[trigger] s[i]) by {
                        if i > 0 {
                            assert(white_space(rest[i - 1]));
                        }
                    }
                }
                if blank(s) {
                    assert forall|i: int| 0 <= i < rest.len() implies white_space(
                        #[trigger] rest[i],
                    ) by {
                        assert(white_space(s[i + 1]));
                    }
                }
            }
            let t = trimmed_start(s);
            assert(t =~= s.subrange(s.len() - t.len(), s.len() as int)) by {
                assert(t =~= rest.subrange(rest.len() - t.len(), rest.len() as int));
            }
        } else {
            assert(!white_space(s[0]));
        }
    }
}

/// A trimmed text is empty, where the text is blank, or begins and ends with
/// something.
pub proof fn trimmed_is(s: Seq<char>)
    ensures
        blank(s) <==> trimmed(s).len() == 0,
        trimmed(s).len() > 0 ==> !white_space(trimmed(s)[0]) && !white_space(trimmed(s).last()),
{
    trimmed_start_is(s);
    trimmed_end_is(trimmed_start(s));
    let t = trimmed_start(s);
    if t.len() > 0 {
        assert(trimmed_end(t).len() > 0);
    } else {
        assert(trimmed_end(t).len() == 0);
    }
}

/// A text that says something keeps what follows it when its start is trimmed.
pub proof fn trimmed_start_keeps(s: Seq<char>, more: Seq<char>)
    requires
        !blank(s),
    ensures
        trimmed_start(s + more) == trimmed_start(s) + more,
    decreases s.len(),
{
    assert((s + more)[0] == s[0]);
    if white_space(s[0]) {
        assert(!blank(s.skip(1))) by {
            trimmed_start_is(s);
            trimmed_start_is(s.skip(1));
        }
        trimmed_start_keeps(s.skip(1), more);
        assert((s + more).skip(1) =~= s.skip(1) + more);
    }
}

/// White space around a text makes no difference to the trimmed text.
pub proof fn trimmed_ignores(before: Seq<char>, s: Seq<char>, after: Seq<char>)
    requires
        blank(before),
        blank(after),
    ensures
        trimmed(before + s + after) == trimmed(s),
{
    assert(before + s + after =~= before + (s + after));
    trimmed_start_ignores(before, s + after);
    if blank(s) {
        assert(blank(s + after)) by {
            assert forall|i: int| 0 <= i < (s + after).len() implies white_space(
                #[trigger] (s + after)[i],
            ) by {
                if i < s.len() {
                    assert(white_space(s[i]));
                } else {
                    assert(white_space(after[i - s.len()]));
                }
            }
        }
        trimmed_is(s);
        trimmed_is(s + after);
        assert(trimmed(s) =~= trimmed(s + after));
    } else {
        trimmed_start_keeps(s, after);
        trimmed_end_ignores(trimmed_start(s), after);
    }
}

/// A text that says something keeps what precedes it when its end is trimmed.
pub proof fn trimmed_end_keeps(more: Seq<char>, s: Seq<char>)
    requires
        !blank(s),
    ensures
        trimmed_end(more + s) == more + trimmed_end(s),
    decreases s.len(),
{
    assert((more + s).last() == s.last());
    if white_space(s.last()) {
        assert(!blank(s.drop_last())) by {
            trimmed_end_is(s);
            trimmed_end_is(s.drop_last());
        }
        trimmed_end_keeps(more, s.drop_last());
        assert((more + s).drop_last() =~= more + s.drop_last());
    } else {
        assert(more + s == more + trimmed_end(s));
    }
}

/// Trimming the end first makes no difference.
pub proof fn trimmed_of_trimmed_end(s: Seq<char>)
    ensures
        trimmed(trimmed_end(s)) == trimmed(s),
{
    trimmed_end_is(s);
    let t = trimmed_end(s);
    let w = s.skip(t.len() as int);
    assert(s =~= Seq::<char>::empty() + t + w);
    after_trimmed_end_is_blank(s);
    trimmed_ignores(Seq::<char>::empty(), t, w);
}

proof fn after_trimmed_end_is_blank(s: Seq<char>)
    ensures
        trimmed_end(s).len() <= s.len(),
        blank(s.skip(trimmed_end(s).len() as int)),
    decreases s.len(),
{
    if s.len() > 0 && white_space(s.last()) {
        let rest = s.drop_last();
        after_trimmed_end_is_blank(rest);
        let n = trimmed_end(s).len() as int;
        let w = s.skip(n);
        assert forall|i: int| 0 <= i < w.len() implies white_space(#[trigger] w[i]) by {
            if i < w.len() - 1 {
                assert(rest.skip(n)[i] == w[i]);
            } else {
                assert(w[i] == s.last());
            }
        }
    }
}

} // verus!
