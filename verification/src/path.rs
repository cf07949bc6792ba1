//! Unix paths as text.
//!
//! A path is read the way `std::path` reads one: names divided by slashes, where
//! empty names and `.` stand for nothing.
use vstd::prelude::*;
use vstd::slice::slice_subrange;
use crate::text::{chars_of, copy_of, first, first_bounds, first_of, push_all, same, slices};

verus! {

/// A path from the root of the filesystem.
pub open spec fn absolute(s: Seq<char>) -> bool {
    s.len() > 0 && s[0] == '/'
}

/// A path from its first name on.
pub open spec fn from_first_name(s: Seq<char>) -> Seq<char>
    decreases s.len(),
{
    if s.len() > 0 && (s[0] == '/' || (s[0] == '.' && (s.len() == 1 || s[1] == '/'))) {
        from_first_name(s.skip(1))
    } else {
        s
    }
}

/// Where the last name of a path starts.
pub open spec fn last_name_start(s: Seq<char>) -> nat
    decreases s.len(),
{
    if s.len() == 0 || s.last() == '/' {
        s.len()
    } else {
        last_name_start(s.drop_last())
    }
}

/// A path up to its last name.
pub open spec fn to_last_name(s: Seq<char>) -> Seq<char>
    decreases s.len(),
{
    let n = last_name_start(s) as int;
    if s.len() > 0 && n <= s.len() && (n == s.len() || s.skip(n) == seq!['.']) {
        to_last_name(
            s.take(
                if n > 0 {
                    n - 1
                } else {
                    0
                },
            ),
        )
    } else {
        s
    }
}

/// The names of a path, in order.
pub open spec fn names(s: Seq<char>) -> Seq<Seq<char>>
    decreases from_first_name(s).len(),
    via names_decreases
{
    let p = from_first_name(s);
    if p.len() == 0 {
        seq![]
    } else {
        seq![p.take(first(p, '/') as int)] + names(p.skip(first(p, '/') as int))
    }
}

#[via_fn]
proof fn names_decreases(s: Seq<char>) {
    let p = from_first_name(s);
    from_first_name_shrinks(s);
    if p.len() > 0 {
        let n = first(p, '/') as int;
        first_bounds(p, '/');
        from_first_name_shrinks(p.skip(n));
    }
}

/// Dropping what stands before the first name never lengthens a path, and leaves no
/// slash in front.
pub proof fn from_first_name_shrinks(s: Seq<char>)
    ensures
        from_first_name(s).len() <= s.len(),
        from_first_name(s).len() > 0 ==> from_first_name(s)[0] != '/',
    decreases s.len(),
{
    if s.len() > 0 && (s[0] == '/' || (s[0] == '.' && (s.len() == 1 || s[1] == '/'))) {
        from_first_name_shrinks(s.skip(1));
    }
}

/// What follows the given names at the start of a path, from its first name on.
pub open spec fn after_names(s: Seq<char>, prefix: Seq<Seq<char>>) -> Option<Seq<char>>
    decreases prefix.len(),
{
    let p = from_first_name(s);
    let n = first(p, '/') as int;
    if prefix.len() == 0 {
        Some(p)
    } else if p.len() > 0 && p.take(n) == prefix[0] {
        after_names(p.skip(n), prefix.skip(1))
    } else {
        None
    }
}

/// How a path opens, before its names: with the slash of an absolute path, with the dot
/// of one that starts at the current directory, or with nothing.
pub open spec fn opening(s: Seq<char>) -> Seq<char> {
    if s.len() > 0 && (s[0] == '/' || (s[0] == '.' && (s.len() == 1 || s[1] == '/'))) {
        s.take(1)
    } else {
        seq![]
    }
}

/// A path as it is seen from the directory that it lies in. A path lies in a directory
/// that opens as it does and whose names it begins with, and every path lies in the
/// empty one.
pub open spec fn inside(dir: Seq<char>, path: Seq<char>) -> Option<Seq<char>> {
    if dir.len() == 0 {
        Some(opening(path) + to_last_name(path.skip(opening(path).len() as int)))
    } else if opening(dir) != opening(path) {
        None
    } else {
        match after_names(path, names(dir)) {
            Some(rest) => Some(to_last_name(rest)),
            None => None,
        }
    }
}

/// The last name of a path, unless it leads upwards.
pub open spec fn file_name_of(path: Seq<char>) -> Option<Seq<char>> {
    let all = names(path);
    if all.len() == 0 || all.last() == seq!['.', '.'] {
        None
    } else {
        Some(all.last())
    }
}

/// A directory with a path below it. An absolute path replaces the directory.
pub open spec fn below(dir: Seq<char>, path: Seq<char>) -> Seq<char> {
    if absolute(path) {
        path
    } else if dir.len() == 0 || dir.last() == '/' {
        dir + path
    } else {
        dir.push('/') + path
    }
}

/// Drops what stands before the first name.
pub fn skip_to_name(s: &[char]) -> (out: &[char])
    ensures
        out@ == from_first_name(s@),
{
    let mut i: usize = 0;
    proof {
        assert(s@.skip(0) == s@);
    }
    while i < s.len() && (s[i] == '/' || (s[i] == '.' && (s.len() - i == 1 || s[i + 1] == '/')))
        invariant
            i <= s@.len(),
            from_first_name(s@) == from_first_name(s@.skip(i as int)),
        decreases s.len() - i,
    {
        proof {
            assert(s@.skip(i as int)[0] == s@[i as int]);
            if s@.len() - i > 1 {
                assert(s@.skip(i as int)[1] == s@[i + 1]);
            }
            assert(s@.skip(i as int).skip(1) =~= s@.skip(i + 1));
        }
        i += 1;
    }
    proof {
        let r = s@.skip(i as int);
        assert(s@.subrange(i as int, s@.len() as int) =~= r);
        if i < s@.len() {
            assert(r[0] == s@[i as int]);
            if r.len() > 1 {
                assert(r[1] == s@[i + 1]);
            }
        }
    }
    slice_subrange(s, i, s.len())
}

/// Drops what stands behind the last name.
fn cut_to_name(s: &[char]) -> (out: &[char])
    ensures
        out@ == to_last_name(s@),
{
    let mut end: usize = s.len();
    proof {
        assert(s@.take(end as int) =~= s@);
    }
    loop
        invariant
            end <= s@.len(),
            to_last_name(s@) == to_last_name(s@.take(end as int)),
        decreases end,
    {
        let ghost t = s@.take(end as int);
        let mut n: usize = end;
        while n > 0 && s[n - 1] != '/'
            invariant
                n <= end <= s@.len(),
                t == s@.take(end as int),
                last_name_start(t) == last_name_start(s@.take(n as int)),
            decreases n,
        {
            n -= 1;
            proof {
                assert(s@.take(n + 1).drop_last() =~= s@.take(n as int));
            }
        }
        proof {
            assert(last_name_start(t) == n);
            if end - n == 1 {
                assert(t.skip(n as int) =~= seq![s@[n as int]]);
                if s@[n as int] != '.' {
                    assert(t.skip(n as int)[0] != seq!['.'][0]);
                }
            } else {
                assert(t.skip(n as int).len() != seq!['.'].len());
            }
        }
        if end > 0 && (n == end || (end - n == 1 && s[n] == '.')) {
            end = if n > 0 {
                n - 1
            } else {
                0
            };
            proof {
                assert(t.take(end as int) =~= s@.take(end as int));
            }
        } else {
            proof {
                assert(s@.subrange(0, end as int) =~= t);
            }
            return slice_subrange(s, 0, end);
        }
    }
}

/// Splits a path into its names.
pub fn split_names(s: &[char]) -> (out: Vec<&[char]>)
    ensures
        slices(out@) == names(s@),
{
    let mut out: Vec<&[char]> = Vec::new();
    let mut rest = skip_to_name(s);
    proof {
        from_first_name_shrinks(s@);
        assert(slices(out@) + names(s@) =~= names(s@));
        names_of_stripped(s@);
    }
    while rest.len() > 0
        invariant
            slices(out@) + names(rest@) == names(s@),
            rest@ == from_first_name(rest@),
            rest@.len() > 0 ==> rest@[0] != '/',
        decreases rest@.len(),
    {
        let n: usize = first_of(rest, '/');
        let name = slice_subrange(rest, 0, n);
        let tail = slice_subrange(rest, n, rest.len());
        let ghost before = out@;
        let next = skip_to_name(tail);
        proof {
            first_bounds(rest@, '/');
            assert(name@ =~= rest@.take(n as int));
            assert(tail@ =~= rest@.skip(n as int));
            from_first_name_shrinks(tail@);
            names_of_stripped(tail@);
        }
        out.push(name);
        proof {
            assert(slices(out@) =~= slices(before).push(name@));
            assert(names(rest@) == seq![name@] + names(tail@));
            assert(slices(out@) + names(next@) =~= slices(before) + names(rest@));
        }
        rest = next;
    }
    proof {
        assert(slices(out@) + names(rest@) =~= slices(out@));
    }
    out
}

proof fn names_of_stripped(s: Seq<char>)
    ensures
        from_first_name(from_first_name(s)) == from_first_name(s),
        names(from_first_name(s)) == names(s),
    decreases s.len(),
{
    stripped_stays(s);
}

proof fn stripped_stays(s: Seq<char>)
    ensures
        from_first_name(from_first_name(s)) == from_first_name(s),
    decreases s.len(),
{
    if s.len() > 0 && (s[0] == '/' || (s[0] == '.' && (s.len() == 1 || s[1] == '/'))) {
        stripped_stays(s.skip(1));
    }
}

/// How long the opening of a path is.
fn opening_of(s: &[char]) -> (n: usize)
    ensures
        n <= 1,
        n <= s@.len(),
        n == opening(s@).len(),
        opening(s@) == s@.take(n as int),
{
    if s.len() > 0 && (s[0] == '/' || (s[0] == '.' && (s.len() == 1 || s[1] == '/'))) {
        1
    } else {
        proof {
            assert(s@.take(0) =~= seq![]);
        }
        0
    }
}

/// A path as it is seen from the directory that it lies in.
pub fn strip_prefix(dir: &[char], path: &[char]) -> (out: Option<Vec<char>>)
    ensures
        inside(dir@, path@) == match out {
            Some(rest) => Some(rest@),
            None => None,
        },
{
    let n: usize = opening_of(path);
    let opened = slice_subrange(path, 0, n);
    proof {
        assert(opened@ =~= opening(path@));
    }
    if dir.len() == 0 {
        let rest = slice_subrange(path, n, path.len());
        let mut out = copy_of(opened);
        push_all(&mut out, cut_to_name(rest));
        proof {
            assert(rest@ =~= path@.skip(n as int));
        }
        return Some(out);
    }
    let m: usize = opening_of(dir);
    let dir_opened = slice_subrange(dir, 0, m);
    proof {
        assert(dir_opened@ =~= opening(dir@));
    }
    if !same(dir_opened, opened) {
        return None;
    }
    let prefix = split_names(dir);
    let ghost all = names(dir@);
    let mut rest = path;
    let mut i: usize = 0;
    proof {
        assert(all.skip(0) =~= all);
    }
    while i < prefix.len()
        invariant
            i <= prefix@.len(),
            dir@.len() > 0,
            opening(dir@) == opening(path@),
            slices(prefix@) == all,
            all == names(dir@),
            after_names(path@, all) == after_names(rest@, all.skip(i as int)),
        decreases prefix.len() - i,
    {
        let p = skip_to_name(rest);
        let n: usize = first_of(p, '/');
        let name = slice_subrange(p, 0, n);
        proof {
            assert(name@ =~= p@.take(n as int));
            assert(all.skip(i as int)[0] == prefix@[i as int]@);
            assert(all.skip(i as int).skip(1) =~= all.skip(i + 1));
        }
        if p.len() == 0 || !same(name, prefix[i]) {
            return None;
        }
        let tail = slice_subrange(p, n, p.len());
        proof {
            assert(tail@ =~= p@.skip(n as int));
        }
        rest = tail;
        i += 1;
    }
    Some(copy_of(cut_to_name(skip_to_name(rest))))
}

/// The last name of a path, unless it leads upwards.
pub fn file_name(path: &[char]) -> (out: Option<Vec<char>>)
    ensures
        file_name_of(path@) == match out {
            Some(name) => Some(name@),
            None => None,
        },
{
    let all = split_names(path);
    let n: usize = all.len();
    proof {
        assert(names(path@).len() == n);
    }
    if n == 0 {
        return None;
    }
    let last = all[n - 1];
    proof {
        assert(names(path@).last() == last@);
    }
    let upwards = last.len() == 2 && last[0] == '.' && last[1] == '.';
    proof {
        if upwards {
            assert(last@ =~= seq!['.', '.']);
        }
    }
    if upwards {
        None
    } else {
        Some(copy_of(last))
    }
}

/// A directory with a path below it.
pub fn join_path(dir: &str, path: &str) -> (out: Vec<char>)
    ensures
        out@ == below(dir@, path@),
{
    let path = chars_of(path);
    if path.len() > 0 && path[0] == '/' {
        return path;
    }
    let mut out = chars_of(dir);
    let n: usize = out.len();
    if n > 0 && out[n - 1] != '/' {
        out.push('/');
    }
    push_all(&mut out, path.as_slice());
    out
}

pub(crate) proof fn first_name_of_joined(a: Seq<char>, b: Seq<char>)
    requires
        a.len() > 0 ==> a.last() == '/' || (b.len() > 0 && b[0] == '/'),
    ensures
        from_first_name(a).len() > 0 ==> from_first_name(a + b) == from_first_name(a) + b,
        from_first_name(a).len() == 0 ==> from_first_name(a + b) == from_first_name(b),
    decreases a.len(),
{
    if a.len() == 0 {
        assert(a + b =~= b);
    } else {
        assert((a + b)[0] == a[0]);
        if a.len() > 1 {
            assert((a + b)[1] == a[1]);
        } else if b.len() > 0 {
            assert((a + b)[1] == b[0]);
        }
        if a[0] == '/' || (a[0] == '.' && (a.len() == 1 || a[1] == '/')) {
            assert((a + b).skip(1) =~= a.skip(1) + b);
            if a.len() > 1 {
                assert(a.skip(1).last() == a.last());
            }
            first_name_of_joined(a.skip(1), b);
        }
    }
}

pub(crate) proof fn suffix_keeps_last(s: Seq<char>)
    ensures
        from_first_name(s).len() > 0 ==> from_first_name(s).last() == s.last(),
    decreases s.len(),
{
    if s.len() > 0 && (s[0] == '/' || (s[0] == '.' && (s.len() == 1 || s[1] == '/'))) {
        suffix_keeps_last(s.skip(1));
    }
}

proof fn names_then_rest(a: Seq<char>, b: Seq<char>)
    requires
        a.len() > 0 ==> a.last() == '/' || (b.len() > 0 && b[0] == '/'),
    ensures
        after_names(a + b, names(a)) == Some(from_first_name(b)),
    decreases from_first_name(a).len(),
{
    let p = from_first_name(a);
    from_first_name_shrinks(a);
    first_name_of_joined(a, b);
    if p.len() > 0 {
        suffix_keeps_last(a);
        let n = first(p, '/') as int;
        first_bounds(p, '/');
        let rest = p.skip(n);
        let whole = p + b;
        assert(n > 0);
        assert(first(whole, '/') == n) by {
            assert forall|j: int| 0 <= j < n implies whole[j] != '/' by {
                assert(p[j] != '/');
            }
            if n < p.len() {
                crate::text::first_is(whole, '/', n);
            } else {
                if p.last() == '/' {
                    assert(p[p.len() - 1] != '/');
                }
                assert(whole[n] == b[0]);
                crate::text::first_is(whole, '/', n);
            }
        }
        assert(whole.take(n) =~= p.take(n));
        assert(whole.skip(n) =~= rest + b);
        assert(names(a) =~= seq![p.take(n)] + names(rest));
        assert(names(a)[0] == p.take(n));
        assert(names(a).skip(1) =~= names(rest));
        if rest.len() > 0 {
            assert(rest.last() == p.last());
        }
        from_first_name_shrinks(rest);
        names_then_rest(rest, b);
    } else {
        assert(names(a) =~= seq![]);
    }
}

/// What lies below a directory is seen from there as it was named, where the name is that
/// of a path from its first name to its last.
pub proof fn below_is_inside(dir: Seq<char>, rel: Seq<char>)
    requires
        from_first_name(rel) == rel,
        to_last_name(rel) == rel,
    ensures
        inside(dir, below(dir, rel)) == Some(rel),
{
    from_first_name_shrinks(rel);
    assert(!absolute(rel));
    let whole = below(dir, rel);
    if dir.len() == 0 {
        assert(whole =~= rel);
        from_first_name_shrinks(rel.skip(1));
        assert(opening(rel) =~= seq![]);
        assert(rel.skip(0) =~= rel);
        assert(seq![] + rel =~= rel);
    } else {
        assert(whole[0] == dir[0]);
        if dir.len() > 1 {
            assert(whole[1] == dir[1]);
        } else if dir.last() != '/' {
            assert(whole[1] == '/');
        }
        assert(opening(whole) =~= opening(dir));
        if dir.last() == '/' {
            names_then_rest(dir, rel);
        } else {
            let tail = seq!['/'] + rel;
            assert(whole =~= dir + tail);
            names_then_rest(dir, tail);
            assert(tail.skip(1) =~= rel);
        }
    }
}

} // verus!
