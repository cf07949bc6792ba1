//! Text as sequences of characters.
//!
//! The rest of the crate works on `&[char]`: positions are then character
//! positions, and every operation below has an exact meaning on `Seq<char>`.
use vstd::prelude::*;
use vstd::slice::slice_subrange;

verus! {

/// `String::push` appends the given character to the end of the string.
pub assume_specification[ String::push ](s: &mut String, c: char)
    ensures
        final(s)@ == old(s)@.push(c),
;

/// The characters of a string, in order.
pub fn chars_of(s: &str) -> (out: Vec<char>)
    ensures
        out@ == s@,
{
    let mut out: Vec<char> = Vec::new();
    for c in it: s.chars()
        invariant
            it.seq() == s@,
            out@ == s@.take(it.index() as int),
    {
        out.push(c);
    }
    proof {
        assert(s@.take(s@.len() as int) == s@);
    }
    out
}

/// The string made of the given characters.
pub fn string_of(s: &[char]) -> (out: String)
    ensures
        out@ == s@,
{
    let mut out = String::new();
    let mut i: usize = 0;
    while i < s.len()
        invariant
            i <= s@.len(),
            out@ == s@.take(i as int),
        decreases s.len() - i,
    {
        out.push(s[i]);
        i += 1;
        proof {
            assert(s@.take(i as int) == s@.take(i - 1).push(s@[i - 1]));
        }
    }
    proof {
        assert(s@.take(s@.len() as int) == s@);
    }
    out
}

/// Appends characters to a buffer.
pub fn push_all(out: &mut Vec<char>, more: &[char])
    ensures
        final(out)@ == old(out)@ + more@,
{
    let mut i: usize = 0;
    while i < more.len()
        invariant
            i <= more@.len(),
            out@ == old(out)@ + more@.take(i as int),
        decreases more.len() - i,
    {
        out.push(more[i]);
        i += 1;
        proof {
            assert(more@.take(i as int) == more@.take(i - 1).push(more@[i - 1]));
        }
    }
    proof {
        assert(more@.take(more@.len() as int) == more@);
    }
}

/// Appends a string's characters to a buffer.
pub fn push_str(out: &mut Vec<char>, more: &str)
    ensures
        final(out)@ == old(out)@ + more@,
{
    let more = chars_of(more);
    push_all(out, more.as_slice());
}

/// Unicode's `White_Space` property.
pub open spec fn white_space(c: char) -> bool {
    let n = c as int;
    ||| 0x09 <= n <= 0x0d
    ||| n == 0x20
    ||| n == 0x85
    ||| n == 0xa0
    ||| n == 0x1680
    ||| 0x2000 <= n <= 0x200a
    ||| n == 0x2028
    ||| n == 0x2029
    ||| n == 0x202f
    ||| n == 0x205f
    ||| n == 0x3000
}

/// Whether a character is white space.
pub fn is_white_space(c: char) -> (b: bool)
    ensures
        b == white_space(c),
{
    let n: u32 = c as u32;
    (0x09 <= n && n <= 0x0d) || n == 0x20 || n == 0x85 || n == 0xa0 || n == 0x1680 || (0x2000 <= n
        && n <= 0x200a) || n == 0x2028 || n == 0x2029 || n == 0x202f || n == 0x205f || n == 0x3000
}

/// A text of white space alone, the empty text included.
pub open spec fn blank(s: Seq<char>) -> bool {
    forall|i: int| 0 <= i < s.len() ==> white_space(#[trigger] s[i])
}

/// The text after its leading white space.
pub open spec fn trimmed_start(s: Seq<char>) -> Seq<char>
    decreases s.len(),
{
    if s.len() > 0 && white_space(s[0]) {
        trimmed_start(s.skip(1))
    } else {
        s
    }
}

/// The text before its trailing white space.
pub open spec fn trimmed_end(s: Seq<char>) -> Seq<char>
    decreases s.len(),
{
    if s.len() > 0 && white_space(s.last()) {
        trimmed_end(s.drop_last())
    } else {
        s
    }
}

/// The text between its leading and trailing white space.
pub open spec fn trimmed(s: Seq<char>) -> Seq<char> {
    trimmed_end(trimmed_start(s))
}

/// Drops leading white space.
pub fn trim_start(s: &[char]) -> (out: &[char])
    ensures
        out@ == trimmed_start(s@),
{
    let mut i: usize = 0;
    proof {
        assert(s@.skip(0) == s@);
    }
    while i < s.len() && is_white_space(s[i])
        invariant
            i <= s@.len(),
            trimmed_start(s@) == trimmed_start(s@.skip(i as int)),
        decreases s.len() - i,
    {
        i += 1;
        proof {
            assert(s@.skip(i - 1).skip(1) == s@.skip(i as int));
        }
    }
    proof {
        assert(s@.subrange(i as int, s@.len() as int) == s@.skip(i as int));
    }
    slice_subrange(s, i, s.len())
}

/// Drops trailing white space.
pub fn trim_end(s: &[char]) -> (out: &[char])
    ensures
        out@ == trimmed_end(s@),
{
    let mut n: usize = s.len();
    proof {
        assert(s@.take(n as int) == s@);
    }
    while n > 0 && is_white_space(s[n - 1])
        invariant
            n <= s@.len(),
            trimmed_end(s@) == trimmed_end(s@.take(n as int)),
        decreases n,
    {
        n -= 1;
        proof {
            assert(s@.take(n + 1).drop_last() == s@.take(n as int));
        }
    }
    proof {
        assert(s@.subrange(0, n as int) == s@.take(n as int));
    }
    slice_subrange(s, 0, n)
}

/// Drops leading and trailing white space.
pub fn trim(s: &[char]) -> (out: &[char])
    ensures
        out@ == trimmed(s@),
{
    trim_end(trim_start(s))
}

/// Whether a text is white space alone.
pub fn is_blank(s: &[char]) -> (b: bool)
    ensures
        b == blank(s@),
{
    let mut i: usize = 0;
    while i < s.len()
        invariant
            i <= s@.len(),
            forall|j: int| 0 <= j < i ==> white_space(#[trigger] s@[j]),
        decreases s.len() - i,
    {
        if !is_white_space(s[i]) {
            return false;
        }
        i += 1;
    }
    true
}

/// Whether two texts are the same.
pub fn same(a: &[char], b: &[char]) -> (r: bool)
    ensures
        r == (a@ == b@),
{
    if a.len() != b.len() {
        return false;
    }
    let mut i: usize = 0;
    while i < a.len()
        invariant
            i <= a@.len(),
            a@.len() == b@.len(),
            forall|j: int| 0 <= j < i ==> a@[j] == b@[j],
        decreases a.len() - i,
    {
        if a[i] != b[i] {
            return false;
        }
        i += 1;
    }
    proof {
        assert(a@ =~= b@);
    }
    true
}

/// Whether two strings are the same.
pub fn same_str(a: &str, b: &str) -> (r: bool)
    ensures
        r == (a@ == b@),
{
    let a = chars_of(a);
    let b = chars_of(b);
    same(a.as_slice(), b.as_slice())
}

/// Whether `p` stands in `s` at position `i`.
pub open spec fn stands_at(s: Seq<char>, p: Seq<char>, i: int) -> bool {
    0 <= i && i + p.len() <= s.len() && s.subrange(i, i + p.len()) == p
}

/// Whether `p` stands in `s` at position `i`.
pub fn is_at(s: &[char], p: &[char], i: usize) -> (r: bool)
    ensures
        r == stands_at(s@, p@, i as int),
{
    if i > s.len() || p.len() > s.len() - i {
        return false;
    }
    same(slice_subrange(s, i, i + p.len()), p)
}

/// Whether `s` begins with `p`.
pub fn starts_with(s: &[char], p: &str) -> (r: bool)
    ensures
        r == p@.is_prefix_of(s@),
{
    let p = chars_of(p);
    let r = is_at(s, p.as_slice(), 0);
    proof {
        if p@.len() <= s@.len() {
            assert(r == (s@.subrange(0, p@.len() as int) =~= p@));
        }
    }
    r
}

/// Whether `s` ends with `p`.
pub fn ends_with(s: &[char], p: &str) -> (r: bool)
    ensures
        r == p@.is_suffix_of(s@),
{
    let p = chars_of(p);
    if p.len() > s.len() {
        return false;
    }
    let r = is_at(s, p.as_slice(), s.len() - p.len());
    proof {
        assert(r == (s@.subrange(s@.len() - p@.len(), s@.len() as int) =~= p@));
    }
    r
}

/// The first position at or after `i` where `p` stands in `s`.
pub open spec fn found(s: Seq<char>, p: Seq<char>, i: int) -> Option<int>
    decreases s.len() + 1 - i,
{
    if i < 0 || i + p.len() > s.len() {
        None
    } else if s.subrange(i, i + p.len()) == p {
        Some(i)
    } else {
        found(s, p, i + 1)
    }
}

/// What [`found`] finds lies within the text, after the start of the search, and
/// nothing is found before it.
pub proof fn found_is_first(s: Seq<char>, p: Seq<char>, i: int)
    requires
        0 <= i,
    ensures
        found(s, p, i) matches Some(k) ==> i <= k && stands_at(s, p, k) && forall|j: int|
            i <= j < k ==> !#[trigger] stands_at(s, p, j),
        found(s, p, i) is None ==> forall|j: int| i <= j ==> !#[trigger] stands_at(s, p, j),
    decreases s.len() + 1 - i,
{
    if i + p.len() <= s.len() && s.subrange(i, i + p.len()) != p {
        found_is_first(s, p, i + 1);
    }
}

/// Searches `s` for `p` from position `from` on.
pub fn find(s: &[char], p: &[char], from: usize) -> (r: Option<usize>)
    ensures
        r matches Some(k) ==> found(s@, p@, from as int) == Some(k as int) && k + p@.len()
            <= s@.len() && from <= k,
        r is None ==> found(s@, p@, from as int) is None,
{
    let mut i: usize = from;
    while i <= s.len() && p.len() <= s.len() - i
        invariant
            from <= i,
            i <= s@.len() || i == from,
            found(s@, p@, from as int) == found(s@, p@, i as int),
        decreases s@.len() - i + 1,
    {
        if is_at(s, p, i) {
            return Some(i);
        }
        if i == s.len() {
            proof {
                assert(found(s@, p@, i + 1) is None);
            }
            return None;
        }
        i += 1;
    }
    None
}

/// The position of the first `c` in `s`, or the length of `s`.
pub open spec fn first(s: Seq<char>, c: char) -> nat
    decreases s.len(),
{
    if s.len() == 0 || s[0] == c {
        0
    } else {
        1 + first(s.skip(1), c)
    }
}

/// The position of the first `c` is the one with no `c` before it.
pub proof fn first_is(s: Seq<char>, c: char, n: int)
    requires
        0 <= n <= s.len(),
        forall|j: int| 0 <= j < n ==> s[j] != c,
        n == s.len() || s[n] == c,
    ensures
        first(s, c) == n,
    decreases n,
{
    if n > 0 {
        first_is(s.skip(1), c, n - 1);
    }
}

/// What [`first`] gives is a position or the length, with no `c` before it.
pub proof fn first_bounds(s: Seq<char>, c: char)
    ensures
        0 <= first(s, c) <= s.len(),
        first(s, c) < s.len() ==> s[first(s, c) as int] == c,
        forall|j: int| 0 <= j < first(s, c) ==> #[trigger] s[j] != c,
    decreases s.len(),
{
    if s.len() > 0 && s[0] != c {
        first_bounds(s.skip(1), c);
        assert forall|j: int| 0 <= j < first(s, c) implies #[trigger] s[j] != c by {
            if j > 0 {
                assert(s.skip(1)[j - 1] == s[j]);
            }
        }
    }
}

/// Finds the first `c`, or the length.
pub fn first_of(s: &[char], c: char) -> (n: usize)
    ensures
        n == first(s@, c),
        n <= s@.len(),
{
    let mut n: usize = 0;
    while n < s.len() && s[n] != c
        invariant
            n <= s@.len(),
            forall|j: int| 0 <= j < n ==> s@[j] != c,
        decreases s.len() - n,
    {
        n += 1;
    }
    proof {
        first_is(s@, c, n as int);
    }
    n
}

/// A line without the carriage return that stood before its line feed.
pub open spec fn without_return(line: Seq<char>) -> Seq<char> {
    if line.len() > 0 && line.last() == '\r' {
        line.drop_last()
    } else {
        line
    }
}

/// The lines of a text: each ends at a line feed, or at a carriage return and a
/// line feed, or at the end of the text. A final line ending opens no further
/// line.
pub open spec fn lines(s: Seq<char>) -> Seq<Seq<char>>
    decreases s.len(),
{
    if s.len() == 0 {
        seq![]
    } else if first(s, '\n') < s.len() {
        seq![without_return(s.take(first(s, '\n') as int))] + lines(s.skip(first(s, '\n') as int + 1))
    } else {
        seq![s]
    }
}

/// The texts that a list of slices stands for.
pub open spec fn slices(v: Seq<&[char]>) -> Seq<Seq<char>> {
    v.map_values(|x: &[char]| x@)
}

/// The texts that a list of buffers stands for.
pub open spec fn texts(v: Seq<Vec<char>>) -> Seq<Seq<char>> {
    v.map_values(|x: Vec<char>| x@)
}

/// The texts that a list of strings stands for.
pub open spec fn strings(v: Seq<String>) -> Seq<Seq<char>> {
    v.map_values(|x: String| x@)
}

/// Splits a text into its lines.
pub fn split_lines(s: &[char]) -> (out: Vec<&[char]>)
    ensures
        slices(out@) == lines(s@),
{
    let mut out: Vec<&[char]> = Vec::new();
    let mut i: usize = 0;
    proof {
        assert(s@.skip(0) == s@);
        assert(slices(out@) + lines(s@) =~= lines(s@));
    }
    while i < s.len()
        invariant
            i <= s@.len(),
            slices(out@) + lines(s@.skip(i as int)) == lines(s@),
        decreases s.len() - i,
    {
        let rest = slice_subrange(s, i, s.len());
        let n: usize = first_of(rest, '\n');
        let ghost before = out@;
        proof {
            assert(rest@ == s@.skip(i as int));
        }
        if n < rest.len() {
            let line = if n > 0 && rest[n - 1] == '\r' {
                slice_subrange(rest, 0, n - 1)
            } else {
                slice_subrange(rest, 0, n)
            };
            out.push(line);
            proof {
                assert(line@ == without_return(rest@.take(n as int)));
                assert(rest@.skip(n + 1) == s@.skip(i + n + 1));
                assert(slices(out@) =~= slices(before).push(line@));
                assert(slices(out@) + lines(s@.skip(i + n + 1)) =~= slices(before) + lines(rest@));
            }
            i = i + n + 1;
        } else {
            out.push(rest);
            proof {
                assert(slices(out@) =~= slices(before).push(rest@));
                assert(s@.skip(s@.len() as int).len() == 0);
                assert(slices(out@) + lines(s@.skip(s@.len() as int)) =~= slices(before) + lines(
                    rest@,
                ));
            }
            i = s.len();
        }
    }
    proof {
        assert(s@.skip(i as int).len() == 0);
        assert(slices(out@) + lines(s@.skip(i as int)) =~= slices(out@));
    }
    out
}

/// The pieces of a text between the places where `sep` stands.
pub open spec fn pieces(s: Seq<char>, sep: Seq<char>) -> Seq<Seq<char>>
    decreases s.len(),
{
    match found(s, sep, 0) {
        Some(k) if sep.len() > 0 && 0 <= k && k + sep.len() <= s.len() => seq![s.take(k)] + pieces(
            s.skip(k + sep.len()),
            sep,
        ),
        _ => seq![s],
    }
}

/// Splits a text at every place where `sep` stands, from the left.
pub fn split_at<'a>(s: &'a [char], sep: &[char]) -> (out: Vec<&'a [char]>)
    requires
        sep@.len() > 0,
    ensures
        slices(out@) == pieces(s@, sep@),
{
    let mut out: Vec<&'a [char]> = Vec::new();
    let mut rest: &'a [char] = s;
    proof {
        assert(slices(out@) + pieces(rest@, sep@) =~= pieces(s@, sep@));
    }
    loop
        invariant
            sep@.len() > 0,
            slices(out@) + pieces(rest@, sep@) == pieces(s@, sep@),
        decreases rest@.len(),
    {
        let ghost before = out@;
        let end: usize = rest.len();
        match find(rest, sep, 0) {
            Some(k) => {
                let piece = slice_subrange(rest, 0, k);
                let next = slice_subrange(rest, k + sep.len(), end);
                out.push(piece);
                proof {
                    assert(piece@ == rest@.take(k as int));
                    assert(next@ == rest@.skip(k + sep@.len()));
                    assert(slices(out@) =~= slices(before).push(piece@));
                    assert(slices(out@) + pieces(next@, sep@) =~= slices(before) + pieces(
                        rest@,
                        sep@,
                    ));
                }
                rest = next;
            },
            None => {
                out.push(rest);
                proof {
                    assert(slices(out@) =~= slices(before).push(rest@));
                    assert(slices(out@) =~= slices(before) + pieces(rest@, sep@));
                }
                return out;
            },
        }
    }
}

/// Texts put together, with `sep` between each two.
pub open spec fn joined(parts: Seq<Seq<char>>, sep: Seq<char>) -> Seq<char>
    decreases parts.len(),
{
    if parts.len() == 0 {
        seq![]
    } else if parts.len() == 1 {
        parts[0]
    } else {
        joined(parts.drop_last(), sep) + sep + parts.last()
    }
}

/// Puts texts together, with `sep` between each two.
pub fn join(parts: &Vec<Vec<char>>, sep: &str) -> (out: Vec<char>)
    ensures
        out@ == joined(texts(parts@), sep@),
{
    let mut out: Vec<char> = Vec::new();
    let mut i: usize = 0;
    while i < parts.len()
        invariant
            i <= parts@.len(),
            out@ == joined(texts(parts@).take(i as int), sep@),
        decreases parts.len() - i,
    {
        if i > 0 {
            push_str(&mut out, sep);
        }
        push_all(&mut out, parts[i].as_slice());
        i += 1;
        proof {
            assert(texts(parts@).take(i as int).drop_last() == texts(parts@).take(i - 1));
            assert(texts(parts@).take(i as int).last() == parts@[i - 1]@);
            assert(Seq::<char>::empty() + parts@[i - 1]@ =~= parts@[i - 1]@);
        }
    }
    proof {
        assert(texts(parts@).take(i as int) =~= texts(parts@));
    }
    out
}

/// Adds a text to the end of a list.
pub fn push_text(out: &mut Vec<Vec<char>>, text: Vec<char>)
    ensures
        texts(final(out)@) == texts(old(out)@).push(text@),
{
    out.push(text);
    proof {
        assert(texts(out@) =~= texts(old(out)@).push(text@));
    }
}

/// Adds texts to the end of a list.
pub fn push_texts(out: &mut Vec<Vec<char>>, more: Vec<Vec<char>>)
    ensures
        texts(final(out)@) == texts(old(out)@) + texts(more@),
{
    let mut rest = more;
    let ghost added = rest@;
    out.append(&mut rest);
    proof {
        assert(texts(out@) =~= texts(old(out)@) + texts(added));
    }
}

/// A buffer with the given characters.
pub fn copy_of(s: &[char]) -> (out: Vec<char>)
    ensures
        out@ == s@,
{
    let mut out: Vec<char> = Vec::new();
    push_all(&mut out, s);
    proof {
        assert(out@ =~= s@);
    }
    out
}

/// A text without the `c`s that it begins with.
pub open spec fn stripped_start(s: Seq<char>, c: char) -> Seq<char>
    decreases s.len(),
{
    if s.len() > 0 && s[0] == c {
        stripped_start(s.skip(1), c)
    } else {
        s
    }
}

/// A text without the `c`s that it ends with.
pub open spec fn stripped_end(s: Seq<char>, c: char) -> Seq<char>
    decreases s.len(),
{
    if s.len() > 0 && s.last() == c {
        stripped_end(s.drop_last(), c)
    } else {
        s
    }
}

/// A text without the `c`s that it begins and ends with.
pub open spec fn stripped(s: Seq<char>, c: char) -> Seq<char> {
    stripped_end(stripped_start(s, c), c)
}

/// Drops every `c` at the start and at the end of a text.
pub fn trim_matches(s: &[char], c: char) -> (out: &[char])
    ensures
        out@ == stripped(s@, c),
{
    let mut i: usize = 0;
    proof {
        assert(s@.skip(0) == s@);
    }
    while i < s.len() && s[i] == c
        invariant
            i <= s@.len(),
            stripped_start(s@, c) == stripped_start(s@.skip(i as int), c),
        decreases s.len() - i,
    {
        i += 1;
        proof {
            assert(s@.skip(i - 1).skip(1) == s@.skip(i as int));
        }
    }
    let mut n: usize = s.len();
    proof {
        assert(s@.subrange(i as int, n as int) == s@.skip(i as int));
    }
    while n > i && s[n - 1] == c
        invariant
            i <= n <= s@.len(),
            stripped_end(s@.skip(i as int), c) == stripped_end(s@.subrange(i as int, n as int), c),
        decreases n,
    {
        n -= 1;
        proof {
            assert(s@.subrange(i as int, n + 1).drop_last() == s@.subrange(i as int, n as int));
        }
    }
    slice_subrange(s, i, n)
}

/// The strings made of the given texts.
pub fn strings_of(list: &Vec<Vec<char>>) -> (out: Vec<String>)
    ensures
        strings(out@) == texts(list@),
{
    let mut out: Vec<String> = Vec::new();
    let mut i: usize = 0;
    while i < list.len()
        invariant
            i <= list@.len(),
            strings(out@) == texts(list@).take(i as int),
        decreases list.len() - i,
    {
        let ghost before = out@;
        out.push(string_of(list[i].as_slice()));
        i += 1;
        proof {
            assert(strings(out@) =~= strings(before).push(list@[i - 1]@));
            assert(texts(list@).take(i as int) =~= texts(list@).take(i - 1).push(list@[i - 1]@));
        }
    }
    proof {
        assert(texts(list@).take(i as int) =~= texts(list@));
    }
    out
}

} // verus!
