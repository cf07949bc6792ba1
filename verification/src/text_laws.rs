//! What splitting, joining and ordering texts and paths keeps.
use vstd::prelude::*;
use crate::chunk_laws::pieces_join;
use crate::line_laws::{lines_concat, lines_of_one};
use crate::order::before;
use crate::path::{
    absolute, after_names, below, file_name_of, first_name_of_joined, from_first_name,
    from_first_name_shrinks, inside, last_name_start, names, opening, suffix_keeps_last,
    to_last_name,
};
use crate::text::{
    first, first_bounds, first_is, found, found_is_first, joined, lines, pieces, stands_at,
    stripped, stripped_end, stripped_start,
};

verus! {

/// One text comes before another exactly where it is a proper beginning of the other, or
/// has the smaller character at the first place where they differ.
pub proof fn texts_are_ordered_by_their_first_difference(a: Seq<char>, b: Seq<char>, k: int)
    requires
        0 <= k <= a.len(),
        k <= b.len(),
        forall|j: int| 0 <= j < k ==> #[trigger] a[j] == b[j],
        k < a.len() && k < b.len() ==> a[k] != b[k],
    ensures
        before(a, b) <==> k < b.len() && (k == a.len() || (a[k] as int) < (b[k] as int)),
    decreases k,
{
    if k > 0 {
        assert(a[0] == b[0]);
        assert forall|j: int| 0 <= j < k - 1 implies #[trigger] a.skip(1)[j] == b.skip(1)[j] by {
            assert(a[j + 1] == b[j + 1]);
        }
        texts_are_ordered_by_their_first_difference(a.skip(1), b.skip(1), k - 1);
    }
}

/// A text is its pieces with the separator between them, and no piece holds the separator.
pub proof fn a_text_is_its_pieces(s: Seq<char>, sep: Seq<char>)
    requires
        sep.len() > 0,
    ensures
        joined(pieces(s, sep), sep) == s,
        forall|i: int, j: int|
            0 <= i < pieces(s, sep).len() ==> !#[trigger] stands_at(pieces(s, sep)[i], sep, j),
    decreases s.len(),
{
    pieces_join(s, sep);
    found_is_first(s, sep, 0);
    match found(s, sep, 0) {
        Some(k) => {
            let head = s.take(k);
            let rest = s.skip(k + sep.len());
            a_text_is_its_pieces(rest, sep);
            assert(pieces(s, sep) =~= seq![head] + pieces(rest, sep));
            assert forall|i: int, j: int| 0 <= i < pieces(s, sep).len() implies !#[trigger]
            stands_at(pieces(s, sep)[i], sep, j) by {
                if i == 0 {
                    if stands_at(head, sep, j) {
                        assert(head.subrange(j, j + sep.len()) =~= s.subrange(j, j + sep.len()));
                        assert(stands_at(s, sep, j));
                    }
                } else {
                    assert(pieces(s, sep)[i] == pieces(rest, sep)[i - 1]);
                }
            }
        },
        None => {
            assert(pieces(s, sep) =~= seq![s]);
        },
    }
}

/// Two lists that follow each other are joined as the one, the separator and the other; a
/// list of one is joined as it is.
pub proof fn joining_keeps_every_part(a: Seq<Seq<char>>, b: Seq<Seq<char>>, sep: Seq<char>)
    requires
        a.len() > 0,
        b.len() > 0,
    ensures
        joined(a + b, sep) == joined(a, sep) + sep + joined(b, sep),
        a.len() == 1 ==> joined(a, sep) == a[0],
    decreases b.len(),
{
    let all = a + b;
    if b.len() == 1 {
        assert(all.drop_last() =~= a);
        assert(all.last() == b[0]);
    } else {
        joining_keeps_every_part(a, b.drop_last(), sep);
        assert(all.drop_last() =~= a + b.drop_last());
        assert(all.last() == b.last());
        assert(joined(all, sep) =~= joined(a, sep) + sep + joined(b, sep));
    }
}

/// The first line of a text is what stands before its first line feed, without the carriage
/// return there, and the others are the lines behind; a text without a line feed is one
/// line as it is.
pub proof fn a_line_ends_at_its_line_feed(l: Seq<char>, rest: Seq<char>)
    requires
        !l.contains('\n'),
    ensures
        lines(l + seq!['\r', '\n'] + rest) == seq![l] + lines(rest),
        l.len() == 0 || l.last() != '\r' ==> lines(l + seq!['\n'] + rest) == seq![l] + lines(rest),
        l.len() > 0 ==> lines(l) == seq![l],
{
    let with = l.push('\r');
    assert(!with.contains('\n')) by {
        if with.contains('\n') {
            let j = choose|j: int| 0 <= j < with.len() && with[j] == '\n';
            assert(l[j] == '\n');
        }
    }
    lines_of_one(with);
    lines_concat(with.push('\n'), rest);
    assert(with.drop_last() =~= l);
    assert(l + seq!['\r', '\n'] + rest =~= with.push('\n') + rest);
    lines_of_one(l);
    lines_concat(l.push('\n'), rest);
    assert(l + seq!['\n'] + rest =~= l.push('\n') + rest);
    if l.len() > 0 {
        first_bounds(l, '\n');
        assert(first(l, '\n') == l.len()) by {
            if first(l, '\n') < l.len() {
                assert(l.contains(l[first(l, '\n') as int]));
            }
        }
    }
}

proof fn start_is_stripped(s: Seq<char>, c: char)
    ensures
        stripped_start(s, c).len() <= s.len(),
        stripped_start(s, c) == s.skip(s.len() - stripped_start(s, c).len()),
        stripped_start(s, c).len() > 0 ==> stripped_start(s, c)[0] != c,
        forall|j: int| 0 <= j < s.len() - stripped_start(s, c).len() ==> #[trigger] s[j] == c,
    decreases s.len(),
{
    if s.len() > 0 && s[0] == c {
        start_is_stripped(s.skip(1), c);
        assert(s.skip(1).skip(s.skip(1).len() - stripped_start(s, c).len()) =~= s.skip(
            s.len() - stripped_start(s, c).len(),
        ));
        assert forall|j: int| 0 <= j < s.len() - stripped_start(s, c).len() implies #[trigger] s[j]
            == c by {
            if j > 0 {
                assert(s.skip(1)[j - 1] == s[j]);
            }
        }
    } else {
        assert(s.skip(0) =~= s);
    }
}

proof fn end_is_stripped(s: Seq<char>, c: char)
    ensures
        stripped_end(s, c).len() <= s.len(),
        stripped_end(s, c) == s.take(stripped_end(s, c).len() as int),
        stripped_end(s, c).len() > 0 ==> stripped_end(s, c).last() != c,
        forall|j: int| stripped_end(s, c).len() <= j < s.len() ==> #[trigger] s[j] == c,
    decreases s.len(),
{
    if s.len() > 0 && s.last() == c {
        end_is_stripped(s.drop_last(), c);
        assert(s.drop_last().take(stripped_end(s, c).len() as int) =~= s.take(
            stripped_end(s, c).len() as int,
        ));
        assert forall|j: int| stripped_end(s, c).len() <= j < s.len() implies #[trigger] s[j]
            == c by {
            if j < s.len() - 1 {
                assert(s.drop_last()[j] == s[j]);
            }
        }
    } else {
        assert(s.take(s.len() as int) =~= s);
    }
}

/// A text stands in another at a place, with nothing but one character around it.
pub open spec fn stands_amid(t: Seq<char>, s: Seq<char>, i: int, c: char) -> bool {
    &&& 0 <= i
    &&& i + t.len() <= s.len()
    &&& s.subrange(i, i + t.len()) == t
    &&& forall|j: int| 0 <= j < i ==> #[trigger] s[j] == c
    &&& forall|j: int| i + t.len() <= j < s.len() ==> #[trigger] s[j] == c
}

/// Stripping takes every such character off both ends and no other: what is left stands in
/// the text with nothing but them around it, and neither begins nor ends on one.
pub proof fn stripping_takes_only_the_ends(s: Seq<char>, c: char)
    ensures
        stripped(s, c).len() > 0 ==> stripped(s, c)[0] != c && stripped(s, c).last() != c,
        exists|i: int| #[trigger] stands_amid(stripped(s, c), s, i, c),
{
    let m = stripped_start(s, c);
    let t = stripped(s, c);
    start_is_stripped(s, c);
    end_is_stripped(m, c);
    let i = s.len() - m.len();
    assert(s.subrange(i, i + t.len()) =~= t);
    assert forall|j: int| i + t.len() <= j < s.len() implies #[trigger] s[j] == c by {
        assert(m[j - i] == s[j]);
    }
    if t.len() > 0 {
        assert(t[0] == m[0]);
    }
    assert(stands_amid(t, s, i, c));
}

/// A name in a path: not empty, without a separator, and not the one for the directory
/// itself.
pub open spec fn is_name(name: Seq<char>) -> bool {
    name.len() > 0 && !name.contains('/') && name != seq!['.']
}

proof fn first_name_starts(s: Seq<char>)
    ensures
        ({
            let p = from_first_name(s);
            p.len() > 0 ==> p[0] != '/' && !(p[0] == '.' && (p.len() == 1 || p[1] == '/'))
        }),
    decreases s.len(),
{
    if s.len() > 0 && (s[0] == '/' || (s[0] == '.' && (s.len() == 1 || s[1] == '/'))) {
        first_name_starts(s.skip(1));
    }
}

/// Every name of a path is one.
pub proof fn names_are_names(s: Seq<char>, i: int)
    requires
        0 <= i < names(s).len(),
    ensures
        is_name(names(s)[i]),
    decreases from_first_name(s).len(),
{
    let p = from_first_name(s);
    first_name_starts(s);
    from_first_name_shrinks(s);
    if p.len() > 0 {
        first_bounds(p, '/');
        let n = first(p, '/') as int;
        let name = p.take(n);
        let rest = p.skip(n);
        from_first_name_shrinks(rest);
        assert(names(s) =~= seq![name] + names(rest));
        if i == 0 {
            assert(n > 0);
            assert(!name.contains('/')) by {
                if name.contains('/') {
                    let j = choose|j: int| 0 <= j < name.len() && name[j] == '/';
                    assert(p[j] == '/');
                }
            }
            if name == seq!['.'] {
                assert(name[0] == '.');
                assert(n == 1);
            }
        } else {
            names_are_names(rest, i - 1);
        }
    }
}

/// The names of a path that is written out of names are those names, in order.
pub proof fn a_path_reads_back(list: Seq<Seq<char>>)
    requires
        forall|i: int| 0 <= i < list.len() ==> is_name(#[trigger] list[i]),
    ensures
        names(joined(list, seq!['/'])) == list,
        list.len() > 0 && list.last() != seq!['.', '.'] ==> file_name_of(joined(list, seq!['/']))
            == Some(list.last()),
    decreases list.len(),
{
    let sep = seq!['/'];
    let s = joined(list, sep);
    if list.len() == 0 {
        assert(from_first_name(s).len() == 0);
        assert(names(s) =~= list);
    } else {
        let head = list[0];
        let rest = list.skip(1);
        let tail = if rest.len() == 0 {
            seq![]
        } else {
            sep + joined(rest, sep)
        };
        assert(is_name(list[0]));
        assert forall|i: int| 0 <= i < rest.len() implies is_name(#[trigger] rest[i]) by {
            assert(rest[i] == list[i + 1]);
        }
        a_path_reads_back(rest);
        assert(list =~= seq![head] + rest);
        assert(s == head + tail) by {
            if rest.len() == 0 {
                assert(s =~= head);
                assert(head + tail =~= head);
            } else {
                joining_keeps_every_part(seq![head], rest, sep);
                assert(s =~= head + tail);
            }
        }
        let n = head.len() as int;
        assert(s[0] == head[0]);
        assert(head.contains(head[0]));
        if n == 1 {
            if head[0] == '.' {
                assert(head =~= seq!['.']);
            }
        } else {
            assert(s[1] == head[1]);
            assert(head.contains(head[1]));
        }
        assert(from_first_name(s) == s);
        assert forall|j: int| 0 <= j < n implies s[j] != '/' by {
            assert(head.contains(head[j]));
        }
        first_is(s, '/', n);
        assert(s.take(n) =~= head);
        assert(s.skip(n) =~= tail);
        from_first_name_shrinks(tail);
        if rest.len() > 0 {
            assert(tail.skip(1) =~= joined(rest, sep));
            assert(from_first_name(tail) == from_first_name(joined(rest, sep)));
            assert(names(tail) == names(joined(rest, sep)));
        } else {
            assert(from_first_name(tail).len() == 0);
            assert(names(tail) =~= rest);
        }
        assert(names(s) =~= list);
    }
}

proof fn names_begin_with(s: Seq<char>, prefix: Seq<Seq<char>>)
    ensures
        after_names(s, prefix) is Some <==> prefix.is_prefix_of(names(s)),
        after_names(s, prefix) matches Some(rest) ==> names(s) == prefix + names(rest),
    decreases prefix.len(),
{
    let p = from_first_name(s);
    let n = first(p, '/') as int;
    first_bounds(p, '/');
    if prefix.len() == 0 {
        first_name_starts(s);
        assert(from_first_name(p) == p);
        assert(prefix + names(p) =~= names(p));
        assert(prefix =~= names(s).subrange(0, 0));
    } else if p.len() > 0 {
        let name = p.take(n);
        let rest = p.skip(n);
        assert(names(s) =~= seq![name] + names(rest));
        names_begin_with(rest, prefix.skip(1));
        if name == prefix[0] {
            let more = prefix.skip(1);
            assert(prefix =~= seq![name] + more);
            if more.is_prefix_of(names(rest)) {
                assert(prefix =~= names(s).subrange(0, prefix.len() as int)) by {
                    assert(more =~= names(rest).subrange(0, more.len() as int));
                }
            }
            if prefix.is_prefix_of(names(s)) {
                assert(prefix =~= names(s).subrange(0, prefix.len() as int));
                assert(more =~= names(rest).subrange(0, more.len() as int)) by {
                    assert forall|j: int| 0 <= j < more.len() implies more[j] == names(rest)[j] by {
                        assert(prefix[j + 1] == names(s)[j + 1]);
                    }
                }
            }
            if after_names(s, prefix) is Some {
                let end = after_names(s, prefix)->Some_0;
                assert(names(s) =~= prefix + names(end));
            }
        } else if prefix.is_prefix_of(names(s)) {
            assert(prefix =~= names(s).subrange(0, prefix.len() as int));
            assert(prefix[0] == names(s)[0]);
        }
    } else {
        assert(names(s).len() == 0);
    }
}

proof fn names_of_joined(a: Seq<char>, b: Seq<char>)
    requires
        a.len() > 0 ==> a.last() == '/' || (b.len() > 0 && b[0] == '/'),
    ensures
        names(a + b) == names(a) + names(b),
    decreases from_first_name(a).len(),
{
    let p = from_first_name(a);
    from_first_name_shrinks(a);
    first_name_of_joined(a, b);
    if p.len() > 0 {
        suffix_keeps_last(a);
        let n = first(p, '/') as int;
        first_bounds(p, '/');
        let rest = p.skip(n);
        let whole = p + b;
        assert(n > 0);
        assert(first(whole, '/') == n) by {
            assert forall|j: int| 0 <= j < n implies whole[j] != '/' by {
                assert(p[j] != '/');
            }
            if n < p.len() {
                assert(whole[n] == p[n]);
            } else {
                if p.last() == '/' {
                    assert(p[p.len() - 1] != '/');
                }
                assert(whole[n] == b[0]);
            }
            first_is(whole, '/', n);
        }
        assert(whole.take(n) =~= p.take(n));
        assert(whole.skip(n) =~= rest + b);
        assert(names(a) =~= seq![p.take(n)] + names(rest));
        assert(names(a + b) =~= seq![p.take(n)] + names(rest + b));
        if rest.len() > 0 {
            assert(rest.last() == p.last());
        }
        from_first_name_shrinks(rest);
        names_of_joined(rest, b);
        assert(names(a + b) =~= names(a) + names(b));
    } else {
        assert(names(a) =~= seq![]);
        assert(from_first_name(a + b) == from_first_name(b));
        assert(names(a + b) == names(b));
        assert(names(a) + names(b) =~= names(b));
    }
}

proof fn last_name_bounds(s: Seq<char>)
    ensures
        last_name_start(s) <= s.len(),
        last_name_start(s) > 0 ==> s[last_name_start(s) - 1] == '/',
    decreases s.len(),
{
    if s.len() > 0 && s.last() != '/' {
        last_name_bounds(s.drop_last());
    }
}

proof fn the_end_holds_no_name(s: Seq<char>)
    ensures
        names(to_last_name(s)) == names(s),
    decreases s.len(),
{
    let n = last_name_start(s) as int;
    last_name_bounds(s);
    if s.len() > 0 && (n == s.len() || s.skip(n) == seq!['.']) {
        if n > 0 {
            let a = s.take(n - 1);
            let b = s.skip(n - 1);
            assert(s =~= a + b);
            assert(b[0] == '/');
            names_of_joined(a, b);
            let t = b.skip(1);
            if n < s.len() {
                assert(t =~= s.skip(n));
                assert(t[0] == '.');
                assert(t.len() == 1);
                assert(from_first_name(t.skip(1)).len() == 0);
            }
            assert(from_first_name(t).len() == 0);
            assert(from_first_name(b).len() == 0);
            assert(names(b) =~= seq![]);
            assert(names(a) + names(b) =~= names(a));
            the_end_holds_no_name(a);
        } else {
            assert(s.skip(0) =~= s);
            assert(s[0] == '.');
            assert(s.len() == 1);
            assert(from_first_name(s.skip(1)).len() == 0);
            assert(names(s) =~= seq![]);
            let a = s.take(0);
            assert(from_first_name(a).len() == 0);
            assert(names(a) =~= seq![]);
            the_end_holds_no_name(a);
        }
    }
}

/// A path lies in a directory exactly where both open alike and the names of the one begin
/// with the names of the other; seen from there it has the names that follow.
pub proof fn a_path_lies_in_a_directory_by_its_names(dir: Seq<char>, path: Seq<char>)
    requires
        dir.len() > 0,
    ensures
        inside(dir, path) is Some <==> opening(dir) == opening(path) && names(dir).is_prefix_of(
            names(path),
        ),
        inside(dir, path) matches Some(rel) ==> names(path) == names(dir) + names(rel),
{
    names_begin_with(path, names(dir));
    if inside(dir, path) is Some {
        the_end_holds_no_name(after_names(path, names(dir))->Some_0);
    }
}

/// A path below a directory has the names of the directory and then its own; one that is
/// absolute stays as it is.
pub proof fn a_path_below_a_directory_has_the_names_of_both(dir: Seq<char>, path: Seq<char>)
    ensures
        absolute(path) ==> below(dir, path) == path,
        !absolute(path) ==> names(below(dir, path)) == names(dir) + names(path),
        !absolute(path) && dir.len() > 0 ==> opening(below(dir, path)) == opening(dir),
{
    if !absolute(path) {
        if dir.len() == 0 || dir.last() == '/' {
            names_of_joined(dir, path);
        } else {
            let tail = seq!['/'] + path;
            assert(dir.push('/') + path =~= dir + tail);
            names_of_joined(dir, tail);
            assert(tail.skip(1) =~= path);
            assert(from_first_name(tail) == from_first_name(path));
            assert(names(tail) == names(path));
        }
        if dir.len() > 0 {
            let whole = below(dir, path);
            assert(whole[0] == dir[0]);
            if dir.len() > 1 {
                assert(whole[1] == dir[1]);
            } else if dir.last() != '/' {
                assert(whole[1] == '/');
            }
            assert(opening(whole) =~= opening(dir));
        }
    }
}

} // verus!
