//! What the chunker makes of a rendered transcript.
//!
//! The safety of putting transcripts into the memory index rests on a `### Not
//! continued` heading reaching the path of every chunk of a branch that was
//! dropped. That is a property of the renderer and the chunker together, not of
//! either alone: it is stated and proved here.
use vstd::prelude::*;
use crate::chunk::{
    body_start, closed_sections, context_header, frontmatter_end, frontmatter_of, hashes,
    heading_level, heading_text, heading_texts, is_fence, next_rule, no_frontmatter, no_sections,
    note_chunks, note_sections, parents_of, path_of, read_front, read_front_line, section_drafts,
    section_line, sectioned, FrontmatterReading, FrontmatterView, Section, Sectioning,
};
use crate::chunk_laws::{every_section_reaches_a_chunk, is_chunked};
use crate::line_laws::{
    lines_closed, lines_concat, lines_hold_no_feed, lines_of_one, lines_prefixed,
    trimmed_end_ignores, trimmed_end_is, trimmed_end_keeps, trimmed_ignores, trimmed_is,
    trimmed_of_trimmed_end, whole_lines,
};
use crate::number::{decimal, decimal_digits};
use crate::text::{
    blank, first, first_bounds, first_is, joined, lines, stripped, trimmed, trimmed_end, trimmed_start,
    white_space, without_return,
};
use crate::transcript::{
    aside, aside_body, asides_of, closer_of, document, forks_of, gap_of, grouped_paragraphs,
    groups_of, label_of, marker_of, open_marker, paragraph, paragraphs, quoted, quoted_line,
    run_of, spine_group, spine_of, spine_text, title, turn_heading, untrimmed_document,
    written_text, GroupView, Spine,
};
use crate::tree::{
    children_of, path_in_tree, path_to, tree_shaped, BlockView, NodeView, Role,
};

verus! {

/// A body read on from a given state.
pub open spec fn read_on(s: Sectioning, ls: Seq<Seq<char>>) -> Sectioning
    decreases ls.len(),
{
    if ls.len() == 0 {
        s
    } else {
        section_line(read_on(s, ls.drop_last()), ls.last())
    }
}

pub(crate) proof fn sectioned_is_read_on(ls: Seq<Seq<char>>)
    ensures
        sectioned(ls) == read_on(no_sections(), ls),
    decreases ls.len(),
{
    if ls.len() > 0 {
        sectioned_is_read_on(ls.drop_last());
    }
}

pub(crate) proof fn read_on_concat(s: Sectioning, a: Seq<Seq<char>>, b: Seq<Seq<char>>)
    ensures
        read_on(s, a + b) == read_on(read_on(s, a), b),
    decreases b.len(),
{
    if b.len() == 0 {
        assert(a + b =~= a);
    } else {
        assert((a + b).drop_last() =~= a + b.drop_last());
        read_on_concat(s, a, b.drop_last());
    }
}

/// Whether a fence is open after the given lines.
pub open spec fn fenced_after(fenced: bool, ls: Seq<Seq<char>>) -> bool
    decreases ls.len(),
{
    if ls.len() == 0 {
        fenced
    } else if is_fence(ls.last()) {
        !fenced_after(fenced, ls.drop_last())
    } else {
        fenced_after(fenced, ls.drop_last())
    }
}

pub(crate) proof fn read_on_fence(s: Sectioning, ls: Seq<Seq<char>>)
    ensures
        read_on(s, ls).in_fence == fenced_after(s.in_fence, ls),
    decreases ls.len(),
{
    if ls.len() > 0 {
        read_on_fence(s, ls.drop_last());
    }
}

pub(crate) proof fn fenced_concat(fenced: bool, a: Seq<Seq<char>>, b: Seq<Seq<char>>)
    ensures
        fenced_after(fenced, a + b) == fenced_after(fenced_after(fenced, a), b),
    decreases b.len(),
{
    if b.len() == 0 {
        assert(a + b =~= a);
    } else {
        assert((a + b).drop_last() =~= a + b.drop_last());
        fenced_concat(fenced, a, b.drop_last());
    }
}

pub(crate) proof fn fenced_one(fenced: bool, l: Seq<char>)
    ensures
        fenced_after(fenced, seq![l]) == if is_fence(l) {
            !fenced
        } else {
            fenced
        },
{
    assert(seq![l].drop_last() =~= seq![]);
    assert(fenced_after(fenced, seq![l].drop_last()) == fenced);
}

/// The renderer and the chunker know the same lines as fences.
pub proof fn the_renderer_sees_the_fences_that_the_chunker_sees(line: Seq<char>)
    ensures
        marker_of(line) is Some <==> is_fence(line),
{
    reveal_strlit("```");
    reveal_strlit("~~~");
    let t = trimmed_start(line);
    run_of_three(t, '`');
    run_of_three(t, '~');
    if t.len() >= 3 {
        let h = t.subrange(0, 3);
        assert(h[0] == t[0] && h[1] == t[1] && h[2] == t[2]);
        if t[0] == '`' && t[1] == '`' && t[2] == '`' {
            assert("```"@ =~= h);
        }
        if t[0] == '~' && t[1] == '~' && t[2] == '~' {
            assert("~~~"@ =~= h);
        }
        if "```"@.is_prefix_of(t) {
            assert("```"@[0] == h[0] && "```"@[1] == h[1] && "```"@[2] == h[2]);
        }
        if "~~~"@.is_prefix_of(t) {
            assert("~~~"@[0] == h[0] && "~~~"@[1] == h[1] && "~~~"@[2] == h[2]);
        }
    }
}

proof fn run_of_three(s: Seq<char>, c: char)
    ensures
        run_of(s, c) >= 3 <==> s.len() >= 3 && s[0] == c && s[1] == c && s[2] == c,
        run_of(s, c) <= s.len(),
{
    reveal_with_fuel(run_of, 4);
    run_bound(s, c);
}

proof fn run_bound(s: Seq<char>, c: char)
    ensures
        run_of(s, c) <= s.len(),
        forall|j: int| 0 <= j < run_of(s, c) ==> s[j] == c,
    decreases s.len(),
{
    if s.len() > 0 && s[0] == c {
        run_bound(s.skip(1), c);
        assert forall|j: int| 0 <= j < run_of(s, c) implies s[j] == c by {
            if j > 0 {
                assert(s[j] == s.skip(1)[j - 1]);
            }
        }
    }
}

proof fn open_iff_fenced(ls: Seq<Seq<char>>)
    ensures
        open_marker(ls) is Some <==> fenced_after(false, ls),
    decreases ls.len(),
{
    if ls.len() > 0 {
        open_iff_fenced(ls.drop_last());
        the_renderer_sees_the_fences_that_the_chunker_sees(ls.last());
    }
}

/// Three or more of one fence character, and nothing else.
pub(crate) open(crate) spec fn is_marker(m: Seq<char>) -> bool {
    &&& m.len() >= 3
    &&& m[0] == '`' || m[0] == '~'
    &&& forall|j: int| 0 <= j < m.len() ==> #[trigger] m[j] == m[0]
}

pub(crate) proof fn open_marker_is_marker(ls: Seq<Seq<char>>)
    ensures
        open_marker(ls) matches Some(m) ==> is_marker(m),
    decreases ls.len(),
{
    if ls.len() > 0 {
        open_marker_is_marker(ls.drop_last());
        let l = trimmed_start(ls.last());
        if marker_of(ls.last()) is Some {
            run_bound(l, l[0]);
        }
    }
}

pub(crate) proof fn markers_are_fences(m: Seq<char>)
    requires
        is_marker(m),
    ensures
        is_fence(m),
        !m.contains('\n'),
        !white_space(m.last()),
        without_return(m) == m,
{
    assert(m[0] == m[1] && m[0] == m[2]);
    assert(m.last() == m[m.len() - 1]);
    assert(trimmed_start(m) == m);
    run_of_three(m, m[0]);
    the_renderer_sees_the_fences_that_the_chunker_sees(m);
}

/// Whole lines that leave no fence open.
pub open spec fn calm(s: Seq<char>) -> bool {
    whole_lines(s) && !fenced_after(false, lines(s))
}

/// Nothing, or a text whose last line is followed by one blank line.
pub open spec fn clean(s: Seq<char>) -> bool {
    s.len() == 0 || (s.len() >= 3 && s[s.len() - 1] == '\n' && s[s.len() - 2] == '\n'
        && !white_space(s[s.len() - 3]))
}

pub(crate) proof fn calm_concat(a: Seq<char>, b: Seq<char>)
    requires
        calm(a),
        calm(b),
    ensures
        calm(a + b),
        lines(a + b) == lines(a) + lines(b),
{
    lines_concat(a, b);
    fenced_concat(false, lines(a), lines(b));
    if b.len() > 0 {
        assert((a + b).last() == b.last());
    } else {
        assert(a + b =~= a);
    }
}

proof fn clean_concat(a: Seq<char>, b: Seq<char>)
    requires
        clean(a),
        clean(b),
    ensures
        clean(a + b),
{
    if b.len() == 0 {
        assert(a + b =~= a);
    }
}

/// A line that a chunker reads as plain text.
pub(crate) open(crate) spec fn plain(l: Seq<char>) -> bool {
    !is_fence(l) && heading_level(l) is None
}

/// A line that begins with something other than a fence or a heading does.
proof fn plain_by_first(l: Seq<char>)
    requires
        l.len() > 0,
        !white_space(l[0]),
        l[0] != '#',
        l[0] != '`',
        l[0] != '~',
    ensures
        plain(l),
{
    the_renderer_sees_the_fences_that_the_chunker_sees(l);
    assert(trimmed_start(l) == l);
}

pub(crate) proof fn empty_line_is_plain()
    ensures
        plain(Seq::<char>::empty()),
{
    the_renderer_sees_the_fences_that_the_chunker_sees(Seq::<char>::empty());
}

/// The label before a paragraph.
pub(crate) open(crate) spec fn labelled(role: Role) -> Seq<char> {
    "**"@ + label_of(role) + ":**"@
}

pub(crate) proof fn label_shape(role: Role)
    ensures
        labelled(role).len() > 0,
        labelled(role)[0] == '*',
        labelled(role).last() == '*',
        !labelled(role).contains('\n'),
{
    reveal_strlit("**");
    reveal_strlit(":**");
    reveal_strlit("user");
    reveal_strlit("assistant");
    let l = labelled(role);
    assert forall|j: int| 0 <= j < l.len() implies l[j] != '\n' by {
        let n = "**"@.len();
        let m = n + label_of(role).len();
        if j < n {
            assert(l[j] == "**"@[j]);
        } else if j < m {
            assert(l[j] == label_of(role)[j - n]);
        } else {
            assert(l[j] == ":**"@[j - m]);
        }
    }
}

pub(crate) proof fn feed_is_an_empty_line()
    ensures
        lines(seq!['\n']) == seq![Seq::<char>::empty()],
        calm(seq!['\n']),
{
    let e = Seq::<char>::empty();
    lines_of_one(e);
    assert(e.push('\n') =~= seq!['\n']);
    assert(without_return(e) == e);
    empty_line_is_plain();
    fenced_one(false, e);
}

/// A paragraph leaves no fence open, whatever the block's text.
pub proof fn paragraphs_leave_no_fence_open(role: Role, block: BlockView)
    ensures
        calm(paragraph(role, block)),
        clean(paragraph(role, block)),
{
    if written_text(block) is Some {
        let text = trimmed(written_text(block)->Some_0);
        trimmed_is(written_text(block)->Some_0);
        if text.len() > 0 {
            let label = labelled(role);
            let gap = gap_of(text);
            let closer = closer_of(text);
            let ls = lines(text);
            let body = text.push('\n');
            label_shape(role);
            lines_closed(text);
            let head = label.push(gap) + body;
            assert(fenced_after(false, lines(head)) == fenced_after(false, ls)) by {
                if gap == '\n' {
                    lines_of_one(label);
                    lines_concat(label.push('\n'), body);
                    fenced_concat(false, seq![label], ls);
                    fenced_one(false, label);
                    plain_by_first(label);
                } else {
                    let p = label.push(' ');
                    assert(!p.contains('\n')) by {
                        assert forall|j: int| 0 <= j < p.len() implies p[j] != '\n' by {
                            if j < label.len() {
                                assert(label.contains(label[j]));
                            }
                        }
                    }
                    lines_prefixed(p, body);
                    let l0 = p + ls[0];
                    plain_by_first(l0);
                    the_renderer_sees_the_fences_that_the_chunker_sees(ls[0]);
                    fenced_concat(false, seq![l0], ls.skip(1));
                    fenced_one(false, l0);
                    assert(ls =~= seq![ls[0]] + ls.skip(1));
                    fenced_concat(false, seq![ls[0]], ls.skip(1));
                    fenced_one(false, ls[0]);
                }
            }
            open_iff_fenced(ls);
            open_marker_is_marker(ls);
            assert(head.last() == '\n');
            let tail = closer + seq!['\n'];
            feed_is_an_empty_line();
            let e = Seq::<char>::empty();
            empty_line_is_plain();
            match open_marker(ls) {
                Some(m) => {
                    markers_are_fences(m);
                    lines_of_one(m);
                    lines_concat(closer, seq!['\n']);
                    fenced_concat(true, seq![m], seq![e]);
                    fenced_one(true, m);
                    fenced_one(false, e);
                },
                None => {
                    assert(tail =~= seq!['\n']);
                    fenced_one(false, e);
                },
            }
            lines_concat(head, tail);
            fenced_concat(false, lines(head), lines(tail));
            assert(paragraph(role, block) =~= head + tail);
        }
    }
}

proof fn paragraphs_calm(t: Seq<NodeView>, role: Role, ids: Seq<int>)
    ensures
        calm(paragraphs(t, role, ids)),
        clean(paragraphs(t, role, ids)),
    decreases ids.len(),
{
    if ids.len() > 0 {
        paragraphs_calm(t, role, ids.drop_last());
        paragraphs_leave_no_fence_open(role, t[ids.last()].block);
        let a = paragraphs(t, role, ids.drop_last());
        let b = paragraph(role, t[ids.last()].block);
        calm_concat(a, b);
        clean_concat(a, b);
    }
}

pub(crate) proof fn grouped_calm(t: Seq<NodeView>, groups: Seq<GroupView>)
    ensures
        calm(grouped_paragraphs(t, groups)),
        clean(grouped_paragraphs(t, groups)),
    decreases groups.len(),
{
    if groups.len() > 0 {
        let g = groups.last();
        grouped_calm(t, groups.drop_last());
        paragraphs_calm(t, g.role, g.ids);
        calm_concat(grouped_paragraphs(t, groups.drop_last()), paragraphs(t, g.role, g.ids));
        clean_concat(grouped_paragraphs(t, groups.drop_last()), paragraphs(t, g.role, g.ids));
    }
}

/// The lines of a text, each ended by a line feed.
pub open spec fn unlines(ls: Seq<Seq<char>>) -> Seq<char>
    decreases ls.len(),
{
    if ls.len() == 0 {
        seq![]
    } else {
        unlines(ls.drop_last()) + ls.last().push('\n')
    }
}

spec fn all_plain(ls: Seq<Seq<char>>) -> bool {
    forall|i: int| 0 <= i < ls.len() ==> plain(#[trigger] ls[i])
}

/// Plain lines lengthen the body that is being read and change nothing else.
proof fn plain_lines_lengthen_the_body(s: Sectioning, ls: Seq<Seq<char>>)
    requires
        all_plain(ls),
    ensures
        read_on(s, ls) == (Sectioning { body: s.body + unlines(ls), ..s }),
        !s.in_fence ==> !fenced_after(s.in_fence, ls),
    decreases ls.len(),
{
    read_on_fence(s, ls);
    if ls.len() == 0 {
        assert(s.body + unlines(ls) =~= s.body);
    } else {
        let rest = ls.drop_last();
        assert(all_plain(rest)) by {
            assert forall|i: int| 0 <= i < rest.len() implies plain(#[trigger] rest[i]) by {
                assert(rest[i] == ls[i]);
            }
        }
        plain_lines_lengthen_the_body(s, rest);
        assert(plain(ls[ls.len() - 1]));
        assert(s.body + unlines(rest) + ls.last().push('\n') =~= s.body + unlines(ls));
    }
}

/// The lines of a quotation.
spec fn quotation(ls: Seq<Seq<char>>) -> Seq<Seq<char>> {
    ls.map_values(|l: Seq<char>| without_return(quoted_line(l)))
}

proof fn quoted_line_shape(l: Seq<char>)
    requires
        !l.contains('\n'),
    ensures
        !quoted_line(l).contains('\n'),
        without_return(quoted_line(l)).len() > 0,
        without_return(quoted_line(l))[0] == '>',
        plain(without_return(quoted_line(l))),
        l.len() > 0 && !white_space(l.last()) ==> !white_space(
            without_return(quoted_line(l)).last(),
        ),
{
    reveal_strlit(">");
    reveal_strlit("> ");
    let q = quoted_line(l);
    assert forall|j: int| 0 <= j < q.len() implies q[j] != '\n' by {
        if l.len() > 0 && j >= 2 {
            assert(q[j] == l[j - 2]);
            assert(l.contains(l[j - 2]));
        }
    }
    assert(q[0] == '>');
    if l.len() > 0 {
        assert(q.last() == l.last());
        if q.last() == '\r' {
            assert(q.drop_last()[0] == q[0]);
        }
    }
    plain_by_first(without_return(q));
}

proof fn quoted_lines(ls: Seq<Seq<char>>)
    requires
        forall|i: int| 0 <= i < ls.len() ==> !(#[trigger] ls[i]).contains('\n'),
    ensures
        whole_lines(quoted(ls)),
        lines(quoted(ls)) == quotation(ls),
        all_plain(quotation(ls)),
    decreases ls.len(),
{
    if ls.len() == 0 {
        assert(quotation(ls) =~= seq![]);
    } else {
        let rest = ls.drop_last();
        let l = ls.last();
        assert(!ls[ls.len() - 1].contains('\n'));
        assert forall|i: int| 0 <= i < rest.len() implies !(#[trigger] rest[i]).contains('\n') by {
            assert(rest[i] == ls[i]);
        }
        quoted_lines(rest);
        quoted_line_shape(l);
        lines_of_one(quoted_line(l));
        lines_concat(quoted(rest), quoted_line(l).push('\n'));
        assert(quotation(ls) =~= quotation(rest).push(without_return(quoted_line(l))));
        assert(lines(quoted(ls)) =~= quotation(ls));
        assert(quoted(ls).last() == '\n');
        assert forall|i: int| 0 <= i < quotation(ls).len() implies plain(
            #[trigger] quotation(ls)[i],
        ) by {
            if i < rest.len() {
                assert(quotation(ls)[i] == quotation(rest)[i]);
            }
        }
    }
}

/// The last line of a text that ends in something ends in it too.
pub(crate) proof fn last_line(s: Seq<char>)
    requires
        s.len() > 0,
        !white_space(s.last()),
    ensures
        lines(s).len() > 0,
        lines(s).last().len() > 0,
        lines(s).last().last() == s.last(),
    decreases s.len(),
{
    first_bounds(s, '\n');
    let n = first(s, '\n') as int;
    if n < s.len() {
        let rest = s.skip(n + 1);
        assert(n + 1 < s.len()) by {
            if n + 1 == s.len() {
                assert(s[n] == s.last());
            }
        }
        assert(rest.last() == s.last());
        last_line(rest);
        assert(lines(s).last() == lines(rest).last());
    }
}

/// The heading of an aside, as a line.
spec fn aside_heading() -> Seq<char> {
    "### Not continued"@
}

proof fn aside_heading_shape()
    ensures
        "### Not continued\n\n"@ == aside_heading().push('\n') + seq!['\n'],
        !aside_heading().contains('\n'),
        without_return(aside_heading()) == aside_heading(),
        heading_level(aside_heading()) == Some(3int),
        heading_text(aside_heading(), 3) == "Not continued"@,
        !is_fence(aside_heading()),
{
    reveal_strlit("### Not continued\n\n");
    reveal_strlit("### Not continued");
    reveal_strlit("Not continued");
    let h = aside_heading();
    assert("### Not continued\n\n"@ =~= h.push('\n') + seq!['\n']);
    assert(trimmed_start(h) == h);
    assert(hashes(h) == 3) by {
        reveal_with_fuel(hashes, 5);
    }
    let rest = h.skip(4);
    assert(rest =~= "Not continued"@);
    assert(trimmed_start(rest) == rest);
    assert(trimmed_end(rest) == rest);
    the_renderer_sees_the_fences_that_the_chunker_sees(h);
}

/// The quotation of an aside, line by line, as it stands in the document.
pub open spec fn aside_lines(t: Seq<NodeView>, head: int) -> Seq<Seq<char>> {
    lines(quoted(lines(trimmed_end(aside_body(t, head)))))
}

proof fn aside_shape(t: Seq<NodeView>, head: int)
    requires
        !blank(aside_body(t, head)),
    ensures
        lines(aside(t, head)) == seq![aside_heading()] + (seq![Seq::<char>::empty()] + aside_lines(
            t,
            head,
        ) + seq![Seq::<char>::empty()]),
        all_plain(aside_lines(t, head)),
        aside_lines(t, head).len() > 0,
        aside_lines(t, head)[0].len() > 0,
        !white_space(aside_lines(t, head)[0][0]),
        aside_lines(t, head).last().len() > 0,
        !white_space(aside_lines(t, head).last().last()),
        calm(aside(t, head)),
        clean(aside(t, head)),
        aside(t, head).len() > 0,
        heading_first(aside(t, head)),
{
    let body = trimmed_end(aside_body(t, head));
    let ls = lines(body);
    let e = Seq::<char>::empty();
    trimmed_end_is(aside_body(t, head));
    lines_hold_no_feed(body);
    quoted_lines(ls);
    last_line(body);
    aside_heading_shape();
    feed_is_an_empty_line();
    empty_line_is_plain();
    reveal_strlit("\n");
    let h = aside_heading();
    lines_of_one(h);
    let q = quoted(ls);
    let ql = aside_lines(t, head);
    assert("\n"@ =~= seq!['\n']);
    let one = h.push('\n');
    let two = one + seq!['\n'];
    let three = two + q;
    lines_concat(one, seq!['\n']);
    lines_concat(two, q);
    assert(whole_lines(three)) by {
        if q.len() == 0 {
            assert(three =~= two);
        }
    }
    lines_concat(three, seq!['\n']);
    assert(aside(t, head) =~= three + seq!['\n']);
    assert(lines(aside(t, head)) =~= seq![h] + (seq![e] + ql + seq![e]));
    quoted_line_shape(ls[0]);
    quoted_line_shape(ls.last());
    assert(ql[0] == without_return(quoted_line(ls[0])));
    assert(ql.last() == without_return(quoted_line(ls.last())));
    let rest = seq![e] + ql + seq![e];
    assert(all_plain(rest)) by {
        assert forall|i: int| 0 <= i < rest.len() implies plain(#[trigger] rest[i]) by {
            if 1 <= i <= ql.len() {
                assert(rest[i] == ql[i - 1]);
            }
        }
    }
    plain_lines_lengthen_the_body(no_sections(), rest);
    fenced_concat(false, seq![h], rest);
    fenced_one(false, h);
    quoted_end(ls);
    assert(clean(aside(t, head)));
    assert forall|j: int| 0 <= j < h.len() implies aside(t, head)[j] != '\n' by {
        assert(aside(t, head)[j] == h[j]);
        assert(h.contains(h[j]));
    }
    first_is(aside(t, head), '\n', h.len() as int);
    assert(aside(t, head).take(h.len() as int) =~= h);
}

pub(crate) proof fn quoted_end(ls: Seq<Seq<char>>)
    requires
        ls.len() > 0,
        ls.last().len() > 0,
        !white_space(ls.last().last()),
    ensures
        quoted(ls).len() >= 2,
        quoted(ls).last() == '\n',
        !white_space(quoted(ls)[quoted(ls).len() - 2]),
{
    reveal_strlit("> ");
    let q = quoted_line(ls.last());
    assert(q.last() == ls.last().last());
}

/// A text whose first line is a heading.
pub(crate) open(crate) spec fn heading_first(b: Seq<char>) -> bool {
    let n = first(b, '\n') as int;
    let l = without_return(b.take(n));
    n < b.len() && heading_level(l) is Some && !is_fence(l)
}

proof fn heading_first_stays(a: Seq<char>, b: Seq<char>)
    requires
        heading_first(a),
    ensures
        heading_first(a + b),
{
    first_bounds(a, '\n');
    let n = first(a, '\n') as int;
    assert forall|j: int| 0 <= j < n implies (a + b)[j] != '\n' by {
        assert(a[j] != '\n');
    }
    first_is(a + b, '\n', n);
    assert((a + b).take(n) =~= a.take(n));
}

/// Nothing, or a text whose first line is a heading.
pub(crate) open(crate) spec fn heading_or_nothing(b: Seq<char>) -> bool {
    b.len() == 0 || heading_first(b)
}

proof fn heading_or_nothing_concat(a: Seq<char>, b: Seq<char>)
    requires
        heading_or_nothing(a),
        heading_or_nothing(b),
    ensures
        heading_or_nothing(a + b),
{
    if a.len() == 0 {
        assert(a + b =~= b);
    } else {
        heading_first_stays(a, b);
    }
}

/// A text that may stand among the asides of a turn.
pub(crate) open(crate) spec fn aside_like(s: Seq<char>) -> bool {
    calm(s) && clean(s) && heading_or_nothing(s)
}

proof fn aside_like_concat(a: Seq<char>, b: Seq<char>)
    requires
        aside_like(a),
        aside_like(b),
    ensures
        aside_like(a + b),
{
    calm_concat(a, b);
    clean_concat(a, b);
    heading_or_nothing_concat(a, b);
}

proof fn nothing_is_aside_like()
    ensures
        aside_like(Seq::<char>::empty()),
{
}

proof fn asides_are_aside_like(t: Seq<NodeView>, head: int)
    ensures
        aside_like(aside(t, head)),
{
    if !blank(aside_body(t, head)) {
        aside_shape(t, head);
    }
}

proof fn asides_of_shape(t: Seq<NodeView>, path: Seq<int>, children: Seq<int>)
    ensures
        aside_like(asides_of(t, path, children)),
    decreases children.len(),
{
    if children.len() > 0 {
        asides_of_shape(t, path, children.drop_last());
        asides_are_aside_like(t, children.last());
        let last: Seq<char> = if path.contains(children.last()) {
            seq![]
        } else {
            aside(t, children.last())
        };
        aside_like_concat(asides_of(t, path, children.drop_last()), last);
    }
}

proof fn forks_of_shape(t: Seq<NodeView>, path: Seq<int>, ids: Seq<int>)
    ensures
        aside_like(forks_of(t, path, ids)),
    decreases ids.len(),
{
    if ids.len() > 0 {
        forks_of_shape(t, path, ids.drop_last());
        asides_of_shape(t, path, children_of(t, ids.last()));
        aside_like_concat(
            forks_of(t, path, ids.drop_last()),
            asides_of(t, path, children_of(t, ids.last())),
        );
    }
}

/// `a` stands in `whole` after lines that leave no fence open, and is followed by
/// a heading or by nothing.
pub(crate) open(crate) spec fn placed(whole: Seq<char>, a: Seq<char>, before: Seq<char>, after: Seq<char>) -> bool {
    whole == before + a + after && calm(before) && heading_or_nothing(after)
}

pub(crate) open(crate) spec fn stands_in(whole: Seq<char>, a: Seq<char>) -> bool {
    exists|before: Seq<char>, after: Seq<char>| #[trigger] placed(whole, a, before, after)
}

proof fn stands_in_longer(x: Seq<char>, whole: Seq<char>, y: Seq<char>, a: Seq<char>)
    requires
        stands_in(whole, a),
        calm(x),
        heading_or_nothing(y),
    ensures
        stands_in(x + whole + y, a),
{
    let (before, after) = choose|before: Seq<char>, after: Seq<char>| #[trigger]
        placed(whole, a, before, after);
    calm_concat(x, before);
    heading_or_nothing_concat(after, y);
    assert(x + whole + y =~= (x + before) + a + (after + y));
    assert(placed(x + whole + y, a, x + before, after + y));
}

proof fn asides_of_has(t: Seq<NodeView>, path: Seq<int>, children: Seq<int>, child: int)
    requires
        children.contains(child),
        !path.contains(child),
    ensures
        stands_in(asides_of(t, path, children), aside(t, child)),
    decreases children.len(),
{
    let rest = children.drop_last();
    let e = Seq::<char>::empty();
    let a = aside(t, child);
    asides_of_shape(t, path, rest);
    if children.last() == child {
        assert(asides_of(t, path, children) =~= asides_of(t, path, rest) + a + e);
        assert(placed(asides_of(t, path, children), a, asides_of(t, path, rest), e));
    } else {
        let k = choose|k: int| 0 <= k < children.len() && children[k] == child;
        assert(rest[k] == child);
        asides_of_has(t, path, rest, child);
        asides_are_aside_like(t, children.last());
        let last: Seq<char> = if path.contains(children.last()) {
            seq![]
        } else {
            aside(t, children.last())
        };
        stands_in_longer(e, asides_of(t, path, rest), last, a);
        assert(e + asides_of(t, path, rest) + last =~= asides_of(t, path, children));
    }
}

proof fn forks_of_has(t: Seq<NodeView>, path: Seq<int>, ids: Seq<int>, id: int, child: int)
    requires
        ids.contains(id),
        children_of(t, id).contains(child),
        !path.contains(child),
    ensures
        stands_in(forks_of(t, path, ids), aside(t, child)),
    decreases ids.len(),
{
    let rest = ids.drop_last();
    let e = Seq::<char>::empty();
    let a = aside(t, child);
    let last = asides_of(t, path, children_of(t, ids.last()));
    forks_of_shape(t, path, rest);
    asides_of_shape(t, path, children_of(t, ids.last()));
    if ids.last() == id {
        asides_of_has(t, path, children_of(t, id), child);
        stands_in_longer(forks_of(t, path, rest), last, e, a);
        assert(forks_of(t, path, rest) + last + e =~= forks_of(t, path, ids));
    } else {
        let k = choose|k: int| 0 <= k < ids.len() && ids[k] == id;
        assert(rest[k] == id);
        forks_of_has(t, path, rest, id, child);
        stands_in_longer(e, forks_of(t, path, rest), last, a);
        assert(e + forks_of(t, path, rest) + last =~= forks_of(t, path, ids));
    }
}

pub(crate) proof fn turn_heading_shape(turn: nat)
    ensures
        calm(turn_heading(turn)),
        clean(turn_heading(turn)),
        heading_first(turn_heading(turn)),
        turn_heading(turn).len() > 0,
{
    reveal_strlit("## Turn ");
    reveal_strlit("\n\n");
    decimal_digits(turn);
    let d = decimal(turn);
    let h = "## Turn "@ + d;
    let e = Seq::<char>::empty();
    assert forall|j: int| 0 <= j < h.len() implies h[j] != '\n' by {
        if j >= 8 {
            assert(h[j] == d[j - 8]);
        }
    }
    assert(h.last() == d[d.len() - 1]);
    assert(!h.contains('\n'));
    lines_of_one(h);
    feed_is_an_empty_line();
    let th = turn_heading(turn);
    assert(th =~= h.push('\n') + seq!['\n']);
    lines_concat(h.push('\n'), seq!['\n']);
    assert(trimmed_start(h) == h);
    assert(hashes(h) == 2) by {
        reveal_with_fuel(hashes, 4);
    }
    the_renderer_sees_the_fences_that_the_chunker_sees(h);
    empty_line_is_plain();
    fenced_concat(false, seq![h], seq![e]);
    fenced_one(false, h);
    fenced_one(false, e);
    first_is(th, '\n', h.len() as int);
    assert(th.take(h.len() as int) =~= h);
    assert(th[th.len() - 3] == h.last());
}

/// What holds of the live branch while it is written.
pub(crate) open(crate) spec fn spine_sound(s: Spine) -> bool {
    calm(s.out) && clean(s.out) && aside_like(s.asides)
}

/// The aside is written, with a heading after it, or it is held back.
spec fn spine_has(s: Spine, a: Seq<char>) -> bool {
    ||| exists|before: Seq<char>, after: Seq<char>| #[trigger]
        placed(s.out, a, before, after) && after.len() > 0
    ||| stands_in(s.asides, a)
}

proof fn spine_group_sound(t: Seq<NodeView>, path: Seq<int>, s: Spine, g: GroupView)
    requires
        spine_sound(s),
    ensures
        spine_sound(spine_group(t, path, s, g)),
        spine_group(t, path, s, g).out.len() >= s.out.len(),
        g.role == Role::User ==> spine_group(t, path, s, g).out.len() > 0,
{
    let p = paragraphs(t, g.role, g.ids);
    let f = forks_of(t, path, g.ids);
    paragraphs_calm(t, g.role, g.ids);
    forks_of_shape(t, path, g.ids);
    if g.role == Role::User {
        let h = turn_heading(s.turn + 1);
        turn_heading_shape(s.turn + 1);
        calm_concat(s.out, s.asides);
        clean_concat(s.out, s.asides);
        calm_concat(s.out + s.asides, h);
        clean_concat(s.out + s.asides, h);
        calm_concat(s.out + s.asides + h, p);
        clean_concat(s.out + s.asides + h, p);
        nothing_is_aside_like();
        aside_like_concat(Seq::<char>::empty(), f);
    } else {
        calm_concat(s.out, p);
        clean_concat(s.out, p);
        aside_like_concat(s.asides, f);
    }
}

#[verifier::rlimit(30)]
proof fn spine_group_keeps(
    t: Seq<NodeView>,
    path: Seq<int>,
    s: Spine,
    g: GroupView,
    a: Seq<char>,
)
    requires
        spine_sound(s),
        spine_has(s, a),
    ensures
        spine_has(spine_group(t, path, s, g), a),
{
    let p = paragraphs(t, g.role, g.ids);
    let f = forks_of(t, path, g.ids);
    let h = turn_heading(s.turn + 1);
    let next = spine_group(t, path, s, g);
    turn_heading_shape(s.turn + 1);
    forks_of_shape(t, path, g.ids);
    if stands_in(s.asides, a) {
        if g.role == Role::User {
            let (before, after) = choose|before: Seq<char>, after: Seq<char>| #[trigger]
                placed(s.asides, a, before, after);
            calm_concat(s.out, before);
            heading_or_nothing_concat(after, h);
            heading_first_stays(after + h, p);
            assert(next.out =~= (s.out + before) + a + (after + h + p));
            assert(placed(next.out, a, s.out + before, after + h + p));
        } else {
            let e = Seq::<char>::empty();
            stands_in_longer(e, s.asides, f, a);
            assert(e + s.asides + f =~= next.asides);
        }
    } else {
        let (before, after) = choose|before: Seq<char>, after: Seq<char>| #[trigger]
            placed(s.out, a, before, after) && after.len() > 0;
        let more = if g.role == Role::User {
            s.asides + h + p
        } else {
            p
        };
        heading_first_stays(after, more);
        assert(next.out =~= before + a + (after + more));
        assert(placed(next.out, a, before, after + more));
    }
}

proof fn spine_group_gains(
    t: Seq<NodeView>,
    path: Seq<int>,
    s: Spine,
    g: GroupView,
    id: int,
    child: int,
)
    requires
        spine_sound(s),
        g.ids.contains(id),
        children_of(t, id).contains(child),
        !path.contains(child),
    ensures
        spine_has(spine_group(t, path, s, g), aside(t, child)),
{
    let f = forks_of(t, path, g.ids);
    let e = Seq::<char>::empty();
    forks_of_has(t, path, g.ids, id, child);
    nothing_is_aside_like();
    let held = if g.role == Role::User {
        e
    } else {
        s.asides
    };
    stands_in_longer(held, f, e, aside(t, child));
    assert(held + f + e =~= spine_group(t, path, s, g).asides);
}

pub(crate) proof fn spine_of_sound(t: Seq<NodeView>, path: Seq<int>, groups: Seq<GroupView>)
    ensures
        spine_sound(spine_of(t, path, groups)),
        groups.len() > 0 && groups[0].role == Role::User ==> spine_of(t, path, groups).out.len()
            > 0,
    decreases groups.len(),
{
    if groups.len() > 0 {
        spine_of_sound(t, path, groups.drop_last());
        spine_group_sound(t, path, spine_of(t, path, groups.drop_last()), groups.last());
        if groups.len() > 1 {
            assert(groups.drop_last()[0] == groups[0]);
        }
    } else {
        nothing_is_aside_like();
    }
}

proof fn spine_of_has(
    t: Seq<NodeView>,
    path: Seq<int>,
    groups: Seq<GroupView>,
    k: int,
    id: int,
    child: int,
)
    requires
        0 <= k < groups.len(),
        groups[k].ids.contains(id),
        children_of(t, id).contains(child),
        !path.contains(child),
    ensures
        spine_has(spine_of(t, path, groups), aside(t, child)),
    decreases groups.len(),
{
    let rest = groups.drop_last();
    spine_of_sound(t, path, rest);
    if k == groups.len() - 1 {
        spine_group_gains(t, path, spine_of(t, path, rest), groups.last(), id, child);
    } else {
        assert(rest[k] == groups[k]);
        spine_of_has(t, path, rest, k, id, child);
        spine_group_keeps(t, path, spine_of(t, path, rest), groups.last(), aside(t, child));
    }
}

proof fn node_is_grouped(t: Seq<NodeView>, path: Seq<int>, id: int)
    requires
        path.contains(id),
    ensures
        exists|k: int|
            0 <= k < groups_of(t, path).len() && (#[trigger] groups_of(t, path)[k]).ids.contains(
                id,
            ),
    decreases path.len(),
{
    let rest = path.drop_last();
    let all = groups_of(t, path);
    let old_groups = groups_of(t, rest);
    if path.last() == id {
        let last = all[all.len() - 1];
        assert(last.ids[last.ids.len() - 1] == id);
    } else {
        let j = choose|j: int| 0 <= j < path.len() && path[j] == id;
        assert(rest[j] == id);
        node_is_grouped(t, rest, id);
        let k = choose|k: int|
            0 <= k < old_groups.len() && (#[trigger] old_groups[k]).ids.contains(id);
        let m = choose|m: int| 0 <= m < old_groups[k].ids.len() && old_groups[k].ids[m] == id;
        assert(all[k].ids[m] == id);
    }
}

proof fn first_group_role(t: Seq<NodeView>, path: Seq<int>)
    requires
        path.len() > 0,
    ensures
        groups_of(t, path).len() > 0,
        groups_of(t, path)[0].role == t[path[0]].role,
    decreases path.len(),
{
    if path.len() > 1 {
        assert(path.drop_last()[0] == path[0]);
        first_group_role(t, path.drop_last());
    } else {
        assert(groups_of(t, path.drop_last()) =~= seq![]);
    }
}

/// The live branch is calm, ends clean and says something.
proof fn spine_text_shape(t: Seq<NodeView>, tip: int)
    requires
        tree_shaped(t),
        0 <= tip < t.len(),
    ensures
        calm(spine_text(t, path_to(t, tip))),
        clean(spine_text(t, path_to(t, tip))),
        spine_text(t, path_to(t, tip)).len() > 0,
{
    let path = path_to(t, tip);
    path_in_tree(t, tip);
    first_group_role(t, path);
    spine_of_sound(t, path, groups_of(t, path));
    let s = spine_of(t, path, groups_of(t, path));
    calm_concat(s.out, s.asides);
    clean_concat(s.out, s.asides);
}

/// Every branch that forked off the live one stands in the document.
pub(crate) proof fn spine_text_has(t: Seq<NodeView>, tip: int, id: int, child: int)
    requires
        path_to(t, tip).contains(id),
        children_of(t, id).contains(child),
        !path_to(t, tip).contains(child),
    ensures
        stands_in(spine_text(t, path_to(t, tip)), aside(t, child)),
{
    let path = path_to(t, tip);
    let groups = groups_of(t, path);
    let a = aside(t, child);
    let e = Seq::<char>::empty();
    node_is_grouped(t, path, id);
    let k = choose|k: int| 0 <= k < groups.len() && (#[trigger] groups[k]).ids.contains(id);
    spine_of_has(t, path, groups, k, id, child);
    spine_of_sound(t, path, groups);
    let s = spine_of(t, path, groups);
    if stands_in(s.asides, a) {
        stands_in_longer(s.out, s.asides, e, a);
        assert(s.out + s.asides + e =~= spine_text(t, path));
    } else {
        let (before, after) = choose|before: Seq<char>, after: Seq<char>| #[trigger]
            placed(s.out, a, before, after) && after.len() > 0;
        heading_or_nothing_concat(after, s.asides);
        assert(spine_text(t, path) =~= before + a + (after + s.asides));
        assert(placed(spine_text(t, path), a, before, after + s.asides));
    }
}

/// A path that says that its branch was not continued.
pub open spec fn says_not_continued(path: Seq<char>) -> bool {
    path == "Not continued"@ || " > Not continued"@.is_suffix_of(path)
}

proof fn aside_path_says_so(stack: Seq<(int, Seq<char>)>)
    ensures
        says_not_continued(path_of(stack.push((3, "Not continued"@)))),
{
    reveal_strlit(" > ");
    reveal_strlit("Not continued");
    reveal_strlit(" > Not continued");
    let n = "Not continued"@;
    let above = heading_texts(stack);
    let all = heading_texts(stack.push((3, n)));
    assert(all =~= above.push(n));
    assert(all.drop_last() =~= above);
    if stack.len() > 0 {
        let p = path_of(stack.push((3, n)));
        let tail = " > Not continued"@;
        assert(p =~= joined(above, " > "@) + " > "@ + n);
        assert(tail =~= " > "@ + n);
        assert(tail =~= p.subrange(p.len() - tail.len(), p.len() as int));
    }
}

/// What stands below a marked path is marked too: a text, a separator and the path say
/// so where the path does.
pub proof fn a_marked_path_marks_what_it_ends(before: Seq<char>, path: Seq<char>)
    requires
        says_not_continued(path),
    ensures
        says_not_continued(before + " > "@ + path),
        path.len() > 0,
{
    reveal_strlit(" > ");
    reveal_strlit("Not continued");
    reveal_strlit(" > Not continued");
    let whole = before + " > "@ + path;
    let mark = " > Not continued"@;
    if path == "Not continued"@ {
        assert(mark =~= whole.subrange(whole.len() - mark.len(), whole.len() as int));
    } else {
        let tail = path.subrange(path.len() - mark.len(), path.len() as int);
        assert(mark == tail);
        assert(mark =~= whole.subrange(whole.len() - mark.len(), whole.len() as int)) by {
            assert forall|i: int| 0 <= i < mark.len() implies mark[i] == whole[whole.len()
                - mark.len() + i] by {
                assert(tail[i] == path[path.len() - mark.len() + i]);
            }
        }
    }
}

/// One of the sections says that its branch was not continued, and holds the given
/// text and nothing else.
pub open spec fn marks(sections: Seq<Section>, text: Seq<char>) -> bool {
    exists|i: int|
        0 <= i < sections.len() && says_not_continued((#[trigger] sections[i]).path) && trimmed(
            sections[i].body,
        ) == text
}

proof fn marks_in_longer(a: Seq<Section>, b: Seq<Section>, text: Seq<char>)
    requires
        marks(a, text),
        a.is_prefix_of(b),
    ensures
        marks(b, text),
{
    let i = choose|i: int|
        0 <= i < a.len() && says_not_continued((#[trigger] a[i]).path) && trimmed(a[i].body)
            == text;
    assert(b.subrange(0, a.len() as int)[i] == b[i]);
    assert(b[i] == a[i]);
}

proof fn prefix_of_closed(s: Sectioning)
    ensures
        s.sections.is_prefix_of(closed_sections(s)),
{
    let c = closed_sections(s);
    assert(s.sections =~= c.subrange(0, s.sections.len() as int));
}

/// Sections that were cut stay cut.
proof fn sections_only_grow(s: Sectioning, ls: Seq<Seq<char>>)
    ensures
        s.sections.is_prefix_of(read_on(s, ls).sections),
        s.sections.is_prefix_of(closed_sections(read_on(s, ls))),
    decreases ls.len(),
{
    if ls.len() > 0 {
        sections_only_grow(s, ls.drop_last());
        prefix_of_closed(read_on(s, ls.drop_last()));
        prefix_transitive(
            s.sections,
            read_on(s, ls.drop_last()).sections,
            read_on(s, ls).sections,
        );
    }
    prefix_of_closed(read_on(s, ls));
    prefix_transitive(s.sections, read_on(s, ls).sections, closed_sections(read_on(s, ls)));
}

proof fn prefix_transitive(a: Seq<Section>, b: Seq<Section>, c: Seq<Section>)
    requires
        a.is_prefix_of(b),
        b.is_prefix_of(c),
    ensures
        a.is_prefix_of(c),
{
    assert(a =~= c.subrange(0, a.len() as int)) by {
        assert forall|i: int| 0 <= i < a.len() implies a[i] == c[i] by {
            assert(b.subrange(0, a.len() as int)[i] == b[i]);
            assert(c.subrange(0, b.len() as int)[i] == c[i]);
        }
    }
}

proof fn unlines_concat(a: Seq<Seq<char>>, b: Seq<Seq<char>>)
    ensures
        unlines(a + b) == unlines(a) + unlines(b),
    decreases b.len(),
{
    if b.len() == 0 {
        assert(a + b =~= a);
        assert(unlines(a) + unlines(b) =~= unlines(a));
    } else {
        assert((a + b).drop_last() =~= a + b.drop_last());
        unlines_concat(a, b.drop_last());
        assert(unlines(a + b) =~= unlines(a) + unlines(b));
    }
}

proof fn unlines_first(ls: Seq<Seq<char>>)
    requires
        ls.len() > 0,
        ls[0].len() > 0,
    ensures
        unlines(ls).len() > 0,
        unlines(ls)[0] == ls[0][0],
    decreases ls.len(),
{
    if ls.len() > 1 {
        unlines_first(ls.drop_last());
    } else {
        assert(unlines(ls.drop_last()) =~= seq![]);
        assert(unlines(ls) =~= ls[0].push('\n'));
    }
}

/// What an aside says, as its section holds it.
pub open spec fn aside_text(t: Seq<NodeView>, head: int) -> Seq<char> {
    trimmed(unlines(aside_lines(t, head)))
}

/// An aside that is read outside a fence becomes a section of its own.
proof fn aside_becomes_a_section(
    s: Sectioning,
    t: Seq<NodeView>,
    head: int,
    after: Seq<char>,
)
    requires
        !s.in_fence,
        !blank(aside_body(t, head)),
        heading_or_nothing(after),
    ensures
        marks(
            closed_sections(read_on(s, lines(aside(t, head) + after))),
            aside_text(t, head),
        ),
{
    let a = aside(t, head);
    let e = Seq::<char>::empty();
    let h = aside_heading();
    let ql = aside_lines(t, head);
    let rest = seq![e] + ql + seq![e];
    aside_shape(t, head);
    aside_heading_shape();
    empty_line_is_plain();
    assert(all_plain(rest)) by {
        assert forall|i: int| 0 <= i < rest.len() implies plain(#[trigger] rest[i]) by {
            if 1 <= i <= ql.len() {
                assert(rest[i] == ql[i - 1]);
            }
        }
    }
    read_on_concat(s, seq![h], rest);
    let sh = section_line(s, h);
    assert(read_on(s, seq![h]) == sh) by {
        assert(seq![h].drop_last() =~= seq![]);
        assert(read_on(s, seq![h].drop_last()) == s);
    }
    plain_lines_lengthen_the_body(sh, rest);
    let s1 = read_on(s, lines(a));
    assert(sh.body + unlines(rest) =~= unlines(rest));
    assert(unlines(seq![e]) =~= seq!['\n']) by {
        assert(seq![e].drop_last() =~= seq![]);
        assert(unlines(seq![e].drop_last()) =~= seq![]);
    }
    unlines_concat(seq![e] + ql, seq![e]);
    unlines_concat(seq![e], ql);
    trimmed_ignores(seq!['\n'], unlines(ql), seq!['\n']);
    unlines_first(ql);
    assert(!blank(s1.body)) by {
        assert(s1.body[1] == unlines(ql)[0]);
        assert(!white_space(s1.body[1]));
    }
    let stack = parents_of(s.stack, 3);
    aside_path_says_so(stack);
    let c = closed_sections(s1);
    assert(c[c.len() - 1].path == path_of(stack.push((3, "Not continued"@))));
    assert(marks(c, aside_text(t, head)));
    if after.len() == 0 {
        assert(a + after =~= a);
    } else {
        lines_concat(a, after);
        read_on_concat(s, lines(a), lines(after));
        first_bounds(after, '\n');
        let n = first(after, '\n') as int;
        let l = without_return(after.take(n));
        let tail = lines(after.skip(n + 1));
        assert(lines(after) == seq![l] + tail);
        read_on_concat(s1, seq![l], tail);
        let s2 = section_line(s1, l);
        assert(read_on(s1, seq![l]) == s2) by {
            assert(seq![l].drop_last() =~= seq![]);
            assert(read_on(s1, seq![l].drop_last()) == s1);
        }
        assert(s2.sections == c);
        sections_only_grow(s2, tail);
        marks_in_longer(c, closed_sections(read_on(s2, tail)), aside_text(t, head));
    }
}

/// The lines that open a document, before its turns.
pub(crate) open(crate) spec fn opening_lines(t: Seq<NodeView>, captured: Seq<char>) -> Seq<Seq<char>> {
    seq![
        "---"@,
        "type: transcript"@,
        without_return("captured: "@ + captured),
        "---"@,
        Seq::<char>::empty(),
        without_return("# "@ + title(t)),
        Seq::<char>::empty(),
    ]
}

/// The title as the document heads it.
pub(crate) open(crate) spec fn title_part(t: Seq<NodeView>) -> Seq<char> {
    "# "@ + title(t) + "\n\n"@
}

proof fn title_holds_no_feed(t: Seq<NodeView>)
    ensures
        !title(t).contains('\n'),
{
    reveal_strlit("untitled session");
    if written_text(t[0].block) is Some {
        lines_hold_no_feed(written_text(t[0].block)->Some_0);
    }
}

proof fn title_part_shape(t: Seq<NodeView>)
    ensures
        calm(title_part(t)),
        lines(title_part(t)) == seq![
            without_return("# "@ + title(t)),
            Seq::<char>::empty(),
        ],
{
    reveal_strlit("# ");
    reveal_strlit("\n\n");
    title_holds_no_feed(t);
    let l = "# "@ + title(t);
    let e = Seq::<char>::empty();
    assert forall|j: int| 0 <= j < l.len() implies l[j] != '\n' by {
        if j >= 2 {
            assert(title(t).contains(title(t)[j - 2]));
        }
    }
    assert(!l.contains('\n'));
    lines_of_one(l);
    feed_is_an_empty_line();
    lines_concat(l.push('\n'), seq!['\n']);
    assert(title_part(t) =~= l.push('\n') + seq!['\n']);
    let w = without_return(l);
    assert(seq![w] + seq![e] =~= seq![w, e]);
    assert(w[0] == '#') by {
        assert(l[0] == '#');
        assert(l[1] == ' ');
    }
    assert(trimmed_start(w) == w);
    the_renderer_sees_the_fences_that_the_chunker_sees(w);
    empty_line_is_plain();
    fenced_concat(false, seq![w], seq![e]);
    fenced_one(false, w);
    fenced_one(false, e);
}

proof fn front_part_shape(captured: Seq<char>)
    requires
        !captured.contains('\n'),
    ensures
        ({
            let front = "---\ntype: transcript\ncaptured: "@ + captured + "\n---\n\n"@;
            &&& whole_lines(front)
            &&& lines(front) == seq![
                "---"@,
                "type: transcript"@,
                without_return("captured: "@ + captured),
                "---"@,
                Seq::<char>::empty(),
            ]
        }),
{
    reveal_strlit("---\ntype: transcript\ncaptured: ");
    reveal_strlit("\n---\n\n");
    reveal_strlit("---");
    reveal_strlit("type: transcript");
    reveal_strlit("captured: ");
    let front = "---\ntype: transcript\ncaptured: "@ + captured + "\n---\n\n"@;
    let r = "---"@;
    let l1 = "type: transcript"@;
    let l2 = "captured: "@ + captured;
    let e = Seq::<char>::empty();
    assert forall|j: int| 0 <= j < l2.len() implies l2[j] != '\n' by {
        if j >= 10 {
            assert(captured.contains(captured[j - 10]));
        }
    }
    assert(!r.contains('\n'));
    assert(!l1.contains('\n'));
    assert(!l2.contains('\n'));
    lines_of_one(r);
    lines_of_one(l1);
    lines_of_one(l2);
    feed_is_an_empty_line();
    let a = r.push('\n');
    let b = a + l1.push('\n');
    let c = b + l2.push('\n');
    let d = c + r.push('\n');
    lines_concat(a, l1.push('\n'));
    lines_concat(b, l2.push('\n'));
    lines_concat(c, r.push('\n'));
    lines_concat(d, seq!['\n']);
    assert(front =~= d + seq!['\n']);
    assert(lines(front) =~= seq![r, l1, without_return(l2), r, e]);
}

/// A clean text whose end is trimmed to one line feed has the same lines but for a
/// blank one at the end.
pub(crate) proof fn trimmed_clean_text(u: Seq<char>)
    requires
        clean(u),
        u.len() > 0,
    ensures
        lines(u) == lines(trimmed_end(u).push('\n')).push(Seq::<char>::empty()),
        lines(trimmed_end(u).push('\n')).len() > 0,
{
    let n = u.len();
    let x = u.drop_last().drop_last();
    assert(trimmed_end(u) == x) by {
        assert(trimmed_end(u) == trimmed_end(u.drop_last()));
        assert(trimmed_end(u.drop_last()) == trimmed_end(x));
        assert(x.last() == u[n - 3]);
    }
    let d = x.push('\n');
    assert(u =~= d + seq!['\n']);
    feed_is_an_empty_line();
    lines_concat(d, seq!['\n']);
    lines_closed(x);
    assert(lines(d) + seq![Seq::<char>::empty()] =~= lines(d).push(Seq::<char>::empty()));
}

#[verifier::rlimit(30)]
proof fn untrimmed_lines(t: Seq<NodeView>, tip: int, captured: Seq<char>)
    requires
        tree_shaped(t),
        0 <= tip < t.len(),
        !captured.contains('\n'),
    ensures
        lines(untrimmed_document(t, tip, captured)) == opening_lines(t, captured) + lines(
            spine_text(t, path_to(t, tip)),
        ),
        clean(untrimmed_document(t, tip, captured)),
        untrimmed_document(t, tip, captured).len() > 0,
{
    let spine = spine_text(t, path_to(t, tip));
    let u = untrimmed_document(t, tip, captured);
    spine_text_shape(t, tip);
    front_part_shape(captured);
    title_part_shape(t);
    let front = "---\ntype: transcript\ncaptured: "@ + captured + "\n---\n\n"@;
    let tp = title_part(t);
    lines_concat(front, tp);
    assert((front + tp).last() == '\n') by {
        reveal_strlit("\n\n");
        assert((front + tp).last() == tp.last());
    }
    lines_concat(front + tp, spine);
    assert(u =~= front + tp + spine);
    assert(lines(front) + lines(tp) =~= opening_lines(t, captured));
    let n = u.len();
    assert(u[n - 1] == spine[spine.len() - 1]);
    assert(u[n - 2] == spine[spine.len() - 2]);
    assert(u[n - 3] == spine[spine.len() - 3]);
}

/// The lines of a document are those of its parts, but for the blank one at the
/// end.
pub(crate) proof fn document_lines(t: Seq<NodeView>, tip: int, captured: Seq<char>)
    requires
        tree_shaped(t),
        0 <= tip < t.len(),
        !captured.contains('\n'),
    ensures
        ({
            let spine = spine_text(t, path_to(t, tip));
            let all = opening_lines(t, captured) + lines(spine);
            &&& lines(document(t, tip, captured)) == all.drop_last()
            &&& all.last() == Seq::<char>::empty()
            &&& lines(spine).len() >= 2
        }),
{
    let spine = spine_text(t, path_to(t, tip));
    let all = opening_lines(t, captured) + lines(spine);
    untrimmed_lines(t, tip, captured);
    trimmed_clean_text(untrimmed_document(t, tip, captured));
    assert(lines(document(t, tip, captured)) =~= all.drop_last());
    spine_text_shape(t, tip);
    trimmed_clean_text(spine);
}

/// Where the body of a document starts.
proof fn document_body_start(t: Seq<NodeView>, captured: Seq<char>, ls: Seq<Seq<char>>)
    requires
        ls.len() >= 7,
        forall|i: int| 0 <= i < 7 ==> #[trigger] ls[i] == opening_lines(t, captured)[i],
    ensures
        frontmatter_end(ls) == Some(3int),
        body_start(ls) == 4,
{
    reveal_strlit("---");
    reveal_strlit("type: transcript");
    reveal_strlit("captured: ");
    let r = "---"@;
    let l1 = "type: transcript"@;
    let l2 = without_return("captured: "@ + captured);
    let o = opening_lines(t, captured);
    assert(o[0] == r && o[1] == l1 && o[2] == l2 && o[3] == r);
    assert(ls[0] == r && ls[1] == l1 && ls[2] == l2 && ls[3] == r);
    assert(trimmed_end(r) == r);
    trimmed_end_is(l1);
    assert(trimmed_end(l1)[0] == 't');
    assert(r[0] == '-');
    assert(l2[0] == 'c') by {
        assert(("captured: "@ + captured)[0] == 'c');
    }
    trimmed_end_is(l2);
    assert(next_rule(ls, 3) == Some(3int));
    assert(next_rule(ls, 2) == next_rule(ls, 3));
    assert(next_rule(ls, 1) == next_rule(ls, 2));
}

/// The part of a document that the chunker reads as its body, before the end is
/// trimmed.
pub(crate) open(crate) spec fn body_part(t: Seq<NodeView>, tip: int) -> Seq<char> {
    seq!['\n'] + title_part(t) + spine_text(t, path_to(t, tip))
}

pub(crate) proof fn body_part_lines(t: Seq<NodeView>, tip: int)
    ensures
        calm(seq!['\n'] + title_part(t)),
        lines(seq!['\n'] + title_part(t)) == seq![
            Seq::<char>::empty(),
            without_return("# "@ + title(t)),
            Seq::<char>::empty(),
        ],
        lines(body_part(t, tip)) == lines(seq!['\n'] + title_part(t)) + lines(
            spine_text(t, path_to(t, tip)),
        ),
{
    let e = Seq::<char>::empty();
    title_part_shape(t);
    feed_is_an_empty_line();
    calm_concat(seq!['\n'], title_part(t));
    lines_concat(seq!['\n'] + title_part(t), spine_text(t, path_to(t, tip)));
    let w = without_return("# "@ + title(t));
    assert(seq![e] + seq![w, e] =~= seq![e, w, e]);
}

/// The sections of a document are those of its body, but for a blank line at the
/// end.
pub(crate) proof fn document_sections(t: Seq<NodeView>, tip: int, captured: Seq<char>)
    requires
        tree_shaped(t),
        0 <= tip < t.len(),
        !captured.contains('\n'),
    ensures
        lines(body_part(t, tip)).len() > 0,
        lines(body_part(t, tip)).last() == Seq::<char>::empty(),
        note_sections(document(t, tip, captured)) == closed_sections(
            sectioned(lines(body_part(t, tip)).drop_last()),
        ),
{
    let spine = spine_text(t, path_to(t, tip));
    let opening = opening_lines(t, captured);
    let all = opening + lines(spine);
    let ls = lines(document(t, tip, captured));
    document_lines(t, tip, captured);
    assert forall|i: int| 0 <= i < 7 implies #[trigger] ls[i] == opening[i] by {
        assert(ls[i] == all[i]);
    }
    document_body_start(t, captured, ls);
    body_part_lines(t, tip);
    let body = lines(body_part(t, tip));
    assert(opening.skip(4) =~= lines(seq!['\n'] + title_part(t)));
    assert(all.skip(4) =~= body);
    assert(ls.skip(4) =~= body.drop_last());
    assert(body.last() == all.last());
}

/// A blank line at the end of a body makes no difference to what its sections say.
proof fn a_last_blank_line_is_nothing(body: Seq<Seq<char>>, text: Seq<char>)
    requires
        body.len() > 0,
        body.last() == Seq::<char>::empty(),
        marks(closed_sections(sectioned(body)), text),
    ensures
        marks(closed_sections(sectioned(body.drop_last())), text),
{
    let e = Seq::<char>::empty();
    let su = sectioned(body);
    let sd = sectioned(body.drop_last());
    empty_line_is_plain();
    assert(su.body =~= sd.body + seq!['\n']);
    assert(e + sd.body + seq!['\n'] =~= su.body);
    trimmed_ignores(e, sd.body, seq!['\n']);
    trimmed_is(sd.body);
    trimmed_is(su.body);
    let cu = closed_sections(su);
    let cd = closed_sections(sd);
    let i = choose|i: int|
        0 <= i < cu.len() && says_not_continued((#[trigger] cu[i]).path) && trimmed(cu[i].body)
            == text;
    assert(cd[i].path == cu[i].path);
    assert(trimmed(cd[i].body) == trimmed(cu[i].body));
}

/// A branch that was dropped is indexed as dropped.
///
/// Render any tree on any live branch. A branch that forked off the live one, and
/// says anything, comes back from the chunker as a section of its own: the path of
/// that section says that the branch was not continued, and the section holds the
/// whole branch and nothing else. Neither a fence that a block left open nor a
/// heading inside a block can take that away.
pub proof fn a_dropped_branch_is_a_section_that_says_so(
    t: Seq<NodeView>,
    tip: int,
    captured: Seq<char>,
    fork: int,
    head: int,
)
    requires
        tree_shaped(t),
        0 <= tip < t.len(),
        !captured.contains('\n'),
        path_to(t, tip).contains(fork),
        children_of(t, fork).contains(head),
        !path_to(t, tip).contains(head),
        !blank(aside_body(t, head)),
    ensures
        marks(note_sections(document(t, tip, captured)), aside_text(t, head)),
{
    let spine = spine_text(t, path_to(t, tip));
    let a = aside(t, head);
    document_sections(t, tip, captured);
    spine_text_has(t, tip, fork, head);
    let (before, after) = choose|before: Seq<char>, after: Seq<char>| #[trigger]
        placed(spine, a, before, after);
    let head_part = seq!['\n'] + title_part(t);
    body_part_lines(t, tip);
    calm_concat(head_part, before);
    let pre = head_part + before;
    lines_concat(pre, a + after);
    assert(body_part(t, tip) =~= pre + (a + after));
    let body = lines(body_part(t, tip));
    read_on_concat(no_sections(), lines(pre), lines(a + after));
    let s0 = read_on(no_sections(), lines(pre));
    read_on_fence(no_sections(), lines(pre));
    aside_becomes_a_section(s0, t, head, after);
    sectioned_is_read_on(body);
    a_last_blank_line_is_nothing(body, aside_text(t, head));
}

/// A branch that was dropped reaches the index, and every chunk of it says so: in its
/// heading path, and in the header of the text that is embedded and searched.
pub proof fn a_dropped_branch_is_never_retrieved_as_a_conclusion(
    note_title: Seq<char>,
    t: Seq<NodeView>,
    tip: int,
    captured: Seq<char>,
    fork: int,
    head: int,
)
    requires
        tree_shaped(t),
        0 <= tip < t.len(),
        !captured.contains('\n'),
        path_to(t, tip).contains(fork),
        children_of(t, fork).contains(head),
        !path_to(t, tip).contains(head),
        !blank(aside_body(t, head)),
    ensures
        ({
            let source = document(t, tip, captured);
            exists|section: Section| #[trigger]
                note_sections(source).contains(section) && trimmed(section.body) == aside_text(
                    t,
                    head,
                ) && says_not_continued(section.path) && says_not_continued(
                    context_header(note_title, section.path),
                ) && section_drafts(section).len() > 0 && forall|k: int|
                    0 <= k < section_drafts(section).len() ==> is_chunked(
                        note_chunks(note_title, source),
                        note_title,
                        section.path,
                        (#[trigger] section_drafts(section)[k]).piece,
                    )
        }),
{
    let source = document(t, tip, captured);
    let sections = note_sections(source);
    a_dropped_branch_is_a_section_that_says_so(t, tip, captured, fork, head);
    let i = choose|i: int|
        0 <= i < sections.len() && says_not_continued((#[trigger] sections[i]).path) && trimmed(
            sections[i].body,
        ) == aside_text(t, head);
    every_section_reaches_a_chunk(note_title, source, i);
    a_marked_path_marks_what_it_ends(note_title, sections[i].path);
    assert(sections.contains(sections[i]));
}

/// A value as the chunker's frontmatter reader reads it.
pub open spec fn unquoted(value: Seq<char>) -> Seq<char> {
    stripped(stripped(trimmed(value), '"'), '\'')
}

/// The line that says what kind of note a transcript is.
proof fn the_kind_is_read()
    ensures
        read_front_line(
            FrontmatterReading { front: no_frontmatter(), key: None },
            "type: transcript"@,
        ).front == (FrontmatterView { note_type: "transcript"@, ..no_frontmatter() }),
{
    reveal_strlit("type: transcript");
    reveal_strlit("transcript");
    reveal_strlit("type");
    reveal_strlit("- ");
    let l = "type: transcript"@;
    let e = Seq::<char>::empty();
    assert(trimmed_end(l) == l);
    assert(trimmed_start(l) == l);
    first_is(l, ':', 4);
    let name = l.take(4);
    assert(name =~= "type"@);
    assert(trimmed(name) == name);
    let kind = "transcript"@;
    assert(l.skip(5) =~= seq![' '] + kind + e);
    trimmed_ignores(seq![' '], kind, e);
    assert(trimmed(kind) == kind);
    assert(stripped(kind, '"') == kind);
    assert(stripped(kind, '\'') == kind);
    assert(!"- "@.is_prefix_of(l)) by {
        assert(l.subrange(0, 2)[0] == 't');
    }
}

/// The line of the date, once its end is trimmed: the key, and behind the colon a text
/// that trims to the date.
proof fn the_date_line(captured: Seq<char>)
    ensures
        ({
            let line = trimmed_end(without_return("captured: "@ + captured));
            &&& line.len() >= 9
            &&& line.take(9) == "captured:"@
            &&& trimmed(line.skip(9)) == trimmed(captured)
        }),
{
    reveal_strlit("captured: ");
    reveal_strlit("captured:");
    let e = Seq::<char>::empty();
    let whole = "captured: "@ + captured;
    let l = without_return(whole);
    let c = without_return(captured);
    let colon = "captured:"@;
    assert(l =~= colon + (seq![' '] + c)) by {
        if captured.len() > 0 {
            assert(whole.last() == captured.last());
        } else {
            assert(whole.last() == ' ');
        }
    }
    assert(trimmed(c) == trimmed(captured)) by {
        if captured.len() > 0 && captured.last() == '\r' {
            assert(captured =~= e + c + seq!['\r']);
            trimmed_ignores(e, c, seq!['\r']);
        }
    }
    let line = trimmed_end(l);
    if blank(c) {
        let tail = seq![' '] + c;
        assert(blank(tail)) by {
            assert forall|i: int| 0 <= i < tail.len() implies white_space(#[trigger] tail[i]) by {
                if i > 0 {
                    assert(white_space(c[i - 1]));
                }
            }
        }
        trimmed_end_ignores(colon, tail);
        assert(trimmed_end(colon) == colon);
        assert(line.skip(9) =~= e);
        assert(line.take(9) =~= colon);
        trimmed_is(c);
        trimmed_is(e);
        assert(trimmed(e) =~= trimmed(c));
    } else {
        trimmed_end_keeps(colon + seq![' '], c);
        assert(l =~= colon + seq![' '] + c);
        assert(line =~= colon + seq![' '] + trimmed_end(c));
        assert(line.take(9) =~= colon);
        assert(line.skip(9) =~= seq![' '] + trimmed_end(c) + e);
        trimmed_ignores(seq![' '], trimmed_end(c), e);
        trimmed_of_trimmed_end(c);
    }
}

/// The line that says when a transcript was taken.
proof fn the_date_is_read(r: FrontmatterReading, captured: Seq<char>)
    ensures
        read_front_line(r, without_return("captured: "@ + captured)).front == (FrontmatterView {
            captured: unquoted(captured),
            ..r.front
        }),
{
    the_date_line(captured);
    reveal_strlit("captured:");
    reveal_strlit("captured");
    reveal_strlit("type");
    reveal_strlit("- ");
    let colon = "captured:"@;
    let line = trimmed_end(without_return("captured: "@ + captured));
    assert forall|j: int| 0 <= j < 9 implies line[j] == colon[j] by {
        assert(line.take(9)[j] == line[j]);
    }
    assert(trimmed_start(line) == line);
    assert(!"- "@.is_prefix_of(line)) by {
        assert(line.subrange(0, 2)[0] == line[0]);
    }
    assert forall|j: int| 0 <= j < 8 implies line[j] != ':' by {
        assert(line[j] == colon[j]);
    }
    first_is(line, ':', 8);
    let key = line.take(8);
    assert(key =~= "captured"@);
    assert(trimmed(key) == key);
    assert("captured"@[0] != "type"@[0]);
}

/// The chunker reads back what kind of note a transcript is and when it was taken.
pub proof fn a_transcript_keeps_its_kind_and_date(
    t: Seq<NodeView>,
    tip: int,
    captured: Seq<char>,
)
    requires
        tree_shaped(t),
        0 <= tip < t.len(),
        !captured.contains('\n'),
    ensures
        frontmatter_of(lines(document(t, tip, captured))) == (FrontmatterView {
            note_type: "transcript"@,
            captured: unquoted(captured),
            tags: seq![],
        }),
{
    let ls = lines(document(t, tip, captured));
    let opening = opening_lines(t, captured);
    let all = opening + lines(spine_text(t, path_to(t, tip)));
    document_lines(t, tip, captured);
    assert forall|i: int| 0 <= i < 7 implies #[trigger] ls[i] == opening[i] by {
        assert(ls[i] == all[i]);
    }
    document_body_start(t, captured, ls);
    let l1 = "type: transcript"@;
    let l2 = without_return("captured: "@ + captured);
    let inner = ls.subrange(1, 3);
    assert(opening[1] == l1 && opening[2] == l2);
    assert(inner =~= seq![l1, l2]);
    let r0 = FrontmatterReading { front: no_frontmatter(), key: None };
    let r1 = read_front_line(r0, l1);
    the_kind_is_read();
    the_date_is_read(r1, captured);
    assert(inner.drop_last() =~= seq![l1]);
    assert(seq![l1].drop_last() =~= Seq::<Seq<char>>::empty());
    assert(read_front(Seq::<Seq<char>>::empty()) == r0);
    assert(read_front(seq![l1]) == r1);
    assert(read_front(inner) == read_front_line(r1, l2));
    assert(frontmatter_of(ls) =~= (FrontmatterView {
        note_type: "transcript"@,
        captured: unquoted(captured),
        tags: seq![],
    }));
}

} // verus!
