//! The live branch of a transcript is indexed as live.
//!
//! The other half of what the transcript design rests on: a document that quoted
//! everything would keep the heading of every dropped branch and record the wrong
//! conversation as live.
use vstd::prelude::*;
use crate::chunk::{
    closed_sections, hashes, heading_level, heading_text, heading_texts, no_sections, note_sections, path_of,
    section_line, sectioned, Section, Sectioning,
};
use crate::line_laws::{
    lines_closed, lines_concat, lines_hold_no_feed, lines_of_one, trimmed_end_is,
};
use crate::number::{decimal, decimal_digits};
use crate::text::{
    blank, joined, lines, trimmed_end, trimmed_start, white_space, without_return,
};
use crate::transcript::{
    document, groups_of, paragraph, paragraphs, spine_of, spine_text, title, turn_heading,
};
use crate::transcript_index::{
    body_part, body_part_lines, calm, calm_concat, document_lines, document_sections,
    empty_line_is_plain, feed_is_an_empty_line, fenced_after, fenced_concat, fenced_one,
    last_line, opening_lines, paragraphs_leave_no_fence_open, read_on, read_on_concat, read_on_fence,
    sectioned_is_read_on, spine_of_sound, the_renderer_sees_the_fences_that_the_chunker_sees,
    title_part, trimmed_clean_text, turn_heading_shape, unlines,
};
use crate::transcript_laws::{
    a_paragraph_shows_its_block, block_lines, one_more_paragraph_shows_one_more_block,
    shown_after_more, shown_at, shown_before_more, shows_in_order,
};
use crate::tree::{
    path_extends_ancestors, path_in_tree, path_to, tree_shaped, BlockView, NodeView, Role,
};

verus! {

/// A text that ends in the words that mark a dropped branch.
pub open spec fn ends_marked(s: Seq<char>) -> bool {
    "Not continued"@.is_suffix_of(s)
}

/// The last line that is read as a heading, from a state with or without an open fence.
/// A line that looks like a heading and stands in a fence is none.
pub open spec fn last_heading(fenced: bool, ls: Seq<Seq<char>>) -> Option<Seq<char>>
    decreases ls.len(),
{
    if ls.len() == 0 {
        None
    } else {
        match heading_level(ls.last()) {
            Some(level) if !fenced_after(fenced, ls) => Some(heading_text(ls.last(), level)),
            _ => last_heading(fenced, ls.drop_last()),
        }
    }
}

proof fn last_heading_concat(fenced: bool, a: Seq<Seq<char>>, b: Seq<Seq<char>>)
    ensures
        last_heading(fenced, a + b) == match last_heading(fenced_after(fenced, a), b) {
            Some(h) => Some(h),
            None => last_heading(fenced, a),
        },
    decreases b.len(),
{
    if b.len() == 0 {
        assert(a + b =~= a);
    } else {
        last_heading_concat(fenced, a, b.drop_last());
        fenced_concat(fenced, a, b);
        assert((a + b).drop_last() =~= a + b.drop_last());
    }
}

/// The heading in force is the last one that was read, or the one before all of them.
proof fn the_last_heading_is_in_force(s: Sectioning, ls: Seq<Seq<char>>)
    requires
        s.stack.len() > 0,
    ensures
        read_on(s, ls).stack.len() > 0,
        read_on(s, ls).stack.last().1 == match last_heading(s.in_fence, ls) {
            Some(h) => h,
            None => s.stack.last().1,
        },
    decreases ls.len(),
{
    if ls.len() > 0 {
        the_last_heading_is_in_force(s, ls.drop_last());
        read_on_fence(s, ls);
    }
}

/// Lines without a heading lengthen the body that is being read and close no section.
proof fn unheaded_lines_lengthen_the_body(s: Sectioning, ls: Seq<Seq<char>>)
    requires
        last_heading(s.in_fence, ls) is None,
    ensures
        read_on(s, ls).stack == s.stack,
        read_on(s, ls).sections == s.sections,
        read_on(s, ls).body == s.body + unlines(ls),
    decreases ls.len(),
{
    if ls.len() == 0 {
        assert(s.body + unlines(ls) =~= s.body);
    } else {
        let rest = ls.drop_last();
        let l = ls.last();
        unheaded_lines_lengthen_the_body(s, rest);
        read_on_fence(s, ls);
        read_on_fence(s, rest);
        assert(s.body + unlines(rest) + l.push('\n') =~= s.body + unlines(ls));
    }
}

/// The name of a turn.
pub open spec fn turn_name(turn: nat) -> Seq<char> {
    "Turn "@ + decimal(turn)
}

proof fn a_turn_is_not_marked(turn: nat)
    ensures
        !ends_marked(turn_name(turn)),
{
    reveal_strlit("Not continued");
    decimal_digits(turn);
    let name = turn_name(turn);
    let d = decimal(turn);
    let n = "Not continued"@;
    assert(name.last() == d[d.len() - 1]);
    if n.is_suffix_of(name) {
        assert(n =~= name.subrange(name.len() - n.len(), name.len() as int));
        assert(n[n.len() - 1] == name[name.len() - 1]);
    }
}

/// A text stands in another.
pub open spec fn stands_within(whole: Seq<char>, part: Seq<char>) -> bool {
    exists|before: Seq<char>, after: Seq<char>| whole == #[trigger] (before + part + after)
}

/// One of the sections holds the given text, and its path is not marked.
pub open spec fn holds_live(sections: Seq<Section>, part: Seq<char>) -> bool {
    exists|i: int|
        0 <= i < sections.len() && !ends_marked((#[trigger] sections[i]).path) && stands_within(
            sections[i].body,
            part,
        )
}

/// A path is marked where its last heading is.
proof fn a_path_is_marked_by_its_last_heading(stack: Seq<(int, Seq<char>)>)
    requires
        stack.len() > 0,
        !ends_marked(stack.last().1),
    ensures
        !ends_marked(path_of(stack)),
{
    reveal_strlit("Not continued");
    reveal_strlit(" > ");
    let n = "Not continued"@;
    let texts = heading_texts(stack);
    let x = texts.last();
    let p = path_of(stack);
    if stack.len() > 1 && n.is_suffix_of(p) {
        let sep = " > "@;
        let rest = joined(texts.drop_last(), sep);
        assert(p == rest + sep + x);
        let tail = p.subrange(p.len() - n.len(), p.len() as int);
        assert(n =~= tail);
        if x.len() >= n.len() {
            assert(n =~= x.subrange(x.len() - n.len(), x.len() as int)) by {
                assert forall|i: int| 0 <= i < n.len() implies n[i] == x[x.len() - n.len() + i] by {
                    assert(n[i] == tail[i]);
                }
            }
        } else if x.len() == n.len() - 1 {
            assert(n[0] == tail[0]);
            assert(p[p.len() - n.len()] == sep[2]);
        } else {
            let i = n.len() - x.len() - 2;
            assert(n[i] == tail[i]);
            assert(tail[i] == p[p.len() - n.len() + i]);
            assert(p[rest.len() as int + 1] == sep[1]);
            assert(n[i] == '>');
        }
    }
}

/// The last heading above the next line is not marked.
spec fn unmarked(s: Sectioning) -> bool {
    s.stack.len() > 0 && !ends_marked(s.stack.last().1)
}

/// Nor is it, and no fence is open.
spec fn in_turn(s: Sectioning) -> bool {
    !s.in_fence && unmarked(s)
}

proof fn live_is_kept_by_a_line(s: Sectioning, l: Seq<char>, part: Seq<char>)
    requires
        holds_live(closed_sections(s), part),
        !blank(part),
    ensures
        holds_live(closed_sections(section_line(s, l)), part),
{
    let c = closed_sections(s);
    let next = section_line(s, l);
    let d = closed_sections(next);
    let i = choose|i: int|
        0 <= i < c.len() && !ends_marked((#[trigger] c[i]).path) && stands_within(c[i].body, part);
    let (u, v) = choose|u: Seq<char>, v: Seq<char>| c[i].body == #[trigger] (u + part + v);
    if i < s.sections.len() || next.sections == c {
        assert(d[i] == c[i]);
    } else {
        let more = l.push('\n');
        assert(next.body == s.body + more);
        assert(next.body =~= u + part + (v + more));
        assert(!blank(next.body)) by {
            let k = choose|k: int| 0 <= k < part.len() && !white_space(part[k]);
            assert(next.body[u.len() + k] == part[k]);
        }
        assert(d[i].body == next.body);
        assert(d[i].path == c[i].path);
        assert(stands_within(d[i].body, part));
    }
}

proof fn live_is_kept(s: Sectioning, ls: Seq<Seq<char>>, part: Seq<char>)
    requires
        holds_live(closed_sections(s), part),
        !blank(part),
    ensures
        holds_live(closed_sections(read_on(s, ls)), part),
    decreases ls.len(),
{
    if ls.len() > 0 {
        live_is_kept(s, ls.drop_last(), part);
        live_is_kept_by_a_line(read_on(s, ls.drop_last()), ls.last(), part);
    }
}

/// What a paragraph shows, but for the blank line at its end.
pub open spec fn shown(role: Role, block: BlockView) -> Seq<char> {
    unlines(lines(paragraph(role, block)).drop_last())
}

/// A text that says something and ends in a line feed behind something.
spec fn ends_in_a_line(part: Seq<char>) -> bool {
    &&& part.len() >= 2
    &&& part.last() == '\n'
    &&& !white_space(part[part.len() - 2])
    &&& !blank(part)
}

proof fn shown_shape(role: Role, block: BlockView)
    requires
        paragraph(role, block).len() > 0,
    ensures
        unlines(lines(paragraph(role, block))) == shown(role, block).push('\n'),
        ends_in_a_line(shown(role, block)),
{
    let p = paragraph(role, block);
    let ls = lines(p);
    paragraphs_leave_no_fence_open(role, block);
    trimmed_clean_text(p);
    let x = trimmed_end(p);
    trimmed_end_is(p);
    assert(x.len() > 0) by {
        assert(!white_space(p[p.len() - 3]));
    }
    assert(ls.drop_last() =~= lines(x.push('\n')));
    lines_closed(x);
    last_line(x);
    let shorter = lines(x);
    let last = shorter.last();
    assert(unlines(shorter) == unlines(shorter.drop_last()) + last.push('\n'));
    let sh = shown(role, block);
    assert(sh == unlines(shorter));
    assert(sh[sh.len() - 2] == last.last());
    assert(unlines(ls) =~= sh.push('\n')) by {
        assert(unlines(ls) == unlines(ls.drop_last()) + ls.last().push('\n'));
        assert(ls.last().push('\n') =~= seq!['\n']);
    }
    assert(!blank(sh)) by {
        assert(!white_space(sh[sh.len() - 2]));
    }
}

/// Text that was just read in a turn is live.
proof fn just_read_is_live(s: Sectioning, start: Seq<char>, part: Seq<char>, end: Seq<char>)
    requires
        unmarked(s),
        s.body == start + part + end,
        !blank(part),
    ensures
        holds_live(closed_sections(s), part),
{
    a_path_is_marked_by_its_last_heading(s.stack);
    assert(!blank(s.body)) by {
        let k = choose|k: int| 0 <= k < part.len() && !white_space(part[k]);
        assert(s.body[start.len() + k] == part[k]);
    }
    let c = closed_sections(s);
    let i = c.len() - 1;
    assert(c[i].body == start + part + end);
    assert(stands_within(c[i].body, part));
}

/// What is to be shown live: the whole of a paragraph, or one line of it.
pub enum Piece {
    Whole,
    Line { at: int },
}

/// The text of a piece of a paragraph.
pub open spec fn piece_of(piece: Piece, role: Role, block: BlockView) -> Seq<char> {
    match piece {
        Piece::Whole => shown(role, block),
        Piece::Line { at } => lines(paragraph(role, block))[at].push('\n'),
    }
}

/// A piece that is to be shown: the whole of a paragraph without headings, or a line of
/// a paragraph that says something and is not read as a heading.
pub open spec fn is_shown(piece: Piece, role: Role, block: BlockView) -> bool {
    let ls = lines(paragraph(role, block));
    match piece {
        Piece::Whole => last_heading(false, ls) is None && ls.len() > 0,
        Piece::Line { at } => 0 <= at < ls.len() && !blank(ls[at]) && (heading_level(ls[at])
            is None || fenced_after(false, ls.take(at + 1))),
    }
}

/// A turn starts at a user's node that follows none of theirs.
pub open spec fn starts_turn(t: Seq<NodeView>, ids: Seq<int>) -> bool {
    ids.len() > 0 && t[ids.last()].role == Role::User && (ids.len() == 1 || t[ids[ids.len()
        - 2]].role != Role::User)
}

/// What the turn of the last node shows up to and with that node.
pub open spec fn turn_so_far(t: Seq<NodeView>, ids: Seq<int>) -> Seq<char>
    decreases ids.len(),
{
    if ids.len() == 0 {
        seq![]
    } else {
        let node = t[ids.last()];
        if starts_turn(t, ids) {
            paragraph(node.role, node.block)
        } else {
            turn_so_far(t, ids.drop_last()) + paragraph(node.role, node.block)
        }
    }
}

/// What the turn of the last node shows above that node.
pub open spec fn turn_above(t: Seq<NodeView>, ids: Seq<int>) -> Seq<char> {
    if starts_turn(t, ids) {
        seq![]
    } else {
        turn_so_far(t, ids.drop_last())
    }
}

/// The heading that a live block itself puts nearest above a piece, in the same turn.
pub open spec fn heading_above(t: Seq<NodeView>, id: int, piece: Piece) -> Option<Seq<char>> {
    let ls = lines(paragraph(t[id].role, t[id].block));
    last_heading(
        false,
        lines(turn_above(t, path_to(t, id))) + ls.take(
            match piece {
                Piece::Whole => 0,
                Piece::Line { at } => at,
            },
        ),
    )
}

/// The heading in force is the last of a turn's text, or it is the turn's own.
spec fn topped(s: Sectioning, text: Seq<char>) -> bool {
    &&& !s.in_fence
    &&& s.stack.len() > 0
    &&& match last_heading(false, lines(text)) {
        Some(h) => s.stack.last().1 == h,
        None => !ends_marked(s.stack.last().1),
    }
}

proof fn topped_stays(s: Sectioning, text: Seq<char>, more: Seq<char>)
    requires
        topped(s, text),
        calm(text),
        calm(more),
    ensures
        topped(read_on(s, lines(more)), text + more),
        calm(text + more),
{
    calm_concat(text, more);
    last_heading_concat(false, lines(text), lines(more));
    the_last_heading_is_in_force(s, lines(more));
    read_on_fence(s, lines(more));
}

/// A piece of a paragraph that is read in a turn is live.
proof fn a_piece_is_live_once_it_is_read(
    s: Sectioning,
    above: Seq<char>,
    role: Role,
    block: BlockView,
    piece: Piece,
)
    requires
        topped(s, above),
        calm(above),
        is_shown(piece, role, block),
        ({
            let at = match piece {
                Piece::Whole => 0,
                Piece::Line { at } => at,
            };
            last_heading(false, lines(above) + lines(paragraph(role, block)).take(at)) matches Some(
                h,
            ) ==> !ends_marked(h)
        }),
    ensures
        holds_live(
            closed_sections(read_on(s, lines(paragraph(role, block)))),
            piece_of(piece, role, block),
        ),
        !blank(piece_of(piece, role, block)),
{
    let p = paragraph(role, block);
    let ls = lines(p);
    let part = piece_of(piece, role, block);
    match piece {
        Piece::Whole => {
            assert(p.len() > 0) by {
                if p.len() == 0 {
                    assert(ls.len() == 0);
                }
            }
            assert(lines(above) + ls.take(0) =~= lines(above));
            shown_shape(role, block);
            unheaded_lines_lengthen_the_body(s, ls);
            let end = read_on(s, ls);
            assert(end.body =~= s.body + part + seq!['\n']);
            just_read_is_live(end, s.body, part, seq!['\n']);
        },
        Piece::Line { at } => {
            let l = ls[at];
            let before = ls.take(at);
            let after = ls.skip(at + 1);
            assert(ls =~= before.push(l) + after);
            last_heading_concat(false, lines(above), before);
            the_last_heading_is_in_force(s, before);
            read_on_concat(s, before.push(l), after);
            let mid = read_on(s, before);
            let end = read_on(s, before.push(l));
            assert(before.push(l).drop_last() =~= before);
            assert(end == section_line(mid, l));
            read_on_fence(s, before);
            read_on_fence(s, before.push(l));
            assert(ls.take(at + 1) =~= before.push(l));
            assert(end.body == mid.body + part);
            assert(!blank(part)) by {
                let k = choose|k: int| 0 <= k < l.len() && !white_space(l[k]);
                assert(part[k] == l[k]);
            }
            let e = Seq::<char>::empty();
            assert(end.body =~= mid.body + part + e);
            just_read_is_live(end, mid.body, part, e);
            live_is_kept(end, after, part);
        },
    }
}

/// The heading of a turn opens it, whatever was read before.
proof fn a_heading_opens_its_turn(s: Sectioning, turn: nat)
    requires
        !s.in_fence,
    ensures
        in_turn(read_on(s, lines(turn_heading(turn)))),
{
    reveal_strlit("## Turn ");
    reveal_strlit("Turn ");
    reveal_strlit("\n\n");
    decimal_digits(turn);
    let d = decimal(turn);
    let h = "## Turn "@ + d;
    let e = Seq::<char>::empty();
    assert(!h.contains('\n')) by {
        assert forall|j: int| 0 <= j < h.len() implies h[j] != '\n' by {
            if j >= 8 {
                assert(h[j] == d[j - 8]);
            }
        }
    }
    assert(h.last() == d[d.len() - 1]);
    lines_of_one(h);
    feed_is_an_empty_line();
    assert(turn_heading(turn) =~= h.push('\n') + seq!['\n']);
    lines_concat(h.push('\n'), seq!['\n']);
    assert(trimmed_start(h) == h);
    assert(hashes(h) == 2) by {
        reveal_with_fuel(hashes, 4);
    }
    the_renderer_sees_the_fences_that_the_chunker_sees(h);
    let name = turn_name(turn);
    assert(h.skip(3) =~= name);
    assert(trimmed_start(name) == name);
    assert(name.last() == d[d.len() - 1]);
    assert(trimmed_end(name) == name);
    assert(heading_text(h, 2) == name);
    let s1 = section_line(s, h);
    read_on_concat(s, seq![h], seq![e]);
    assert(read_on(s, seq![h]) == s1) by {
        assert(seq![h].drop_last() =~= seq![]);
        assert(read_on(s, seq![h].drop_last()) == s);
    }
    empty_line_is_plain();
    assert(last_heading(false, seq![e]) is None) by {
        assert(seq![e].drop_last() =~= seq![]);
        assert(last_heading(false, seq![e].drop_last()) is None);
    }
    unheaded_lines_lengthen_the_body(s1, seq![e]);
    read_on_fence(s1, seq![e]);
    fenced_one(false, e);
    assert(s1.stack.last() == (2int, turn_name(turn)));
    a_turn_is_not_marked(turn);
}

/// The document's opening and the live branch down to a node, without asides below it.
spec fn written_down_to(t: Seq<NodeView>, path: Seq<int>, ids: Seq<int>) -> Seq<char> {
    seq!['\n'] + title_part(t) + spine_of(t, path, groups_of(t, ids)).out
}

/// What is written before the paragraph of the last node.
spec fn before_node(t: Seq<NodeView>, path: Seq<int>, ids: Seq<int>) -> Seq<char> {
    let head = seq!['\n'] + title_part(t);
    let s = spine_of(t, path, groups_of(t, ids.drop_last()));
    if starts_turn(t, ids) {
        head + (s.out + s.asides + turn_heading(s.turn + 1))
    } else {
        head + s.out
    }
}

proof fn last_group_role(t: Seq<NodeView>, ids: Seq<int>)
    requires
        ids.len() > 0,
    ensures
        groups_of(t, ids).len() > 0,
        groups_of(t, ids).last().role == t[ids.last()].role,
{
}

/// A node adds its paragraph to what was written before it.
proof fn a_node_is_written_after_the_one_before(t: Seq<NodeView>, path: Seq<int>, ids: Seq<int>)
    requires
        ids.len() > 0,
    ensures
        written_down_to(t, path, ids) == before_node(t, path, ids) + paragraph(
            t[ids.last()].role,
            t[ids.last()].block,
        ),
{
    let rest = ids.drop_last();
    let id = ids.last();
    let role = t[id].role;
    let p = paragraph(role, t[id].block);
    let groups = groups_of(t, rest);
    let all = groups_of(t, ids);
    let s = spine_of(t, path, groups);
    let out = spine_of(t, path, all).out;
    if rest.len() > 0 {
        last_group_role(t, rest);
        assert(rest.last() == ids[ids.len() - 2]);
    }
    if groups.len() > 0 && groups.last().role == role {
        let g = groups.last();
        let longer = g.ids.push(id);
        assert(all.drop_last() =~= groups.drop_last());
        assert(longer.drop_last() =~= g.ids);
        assert(paragraphs(t, role, longer) == paragraphs(t, role, g.ids) + p);
        assert(out =~= s.out + p);
    } else {
        let one = seq![id];
        assert(all.drop_last() =~= groups);
        assert(one.drop_last() =~= seq![]);
        assert(paragraphs(t, role, one) =~= p) by {
            assert(paragraphs(t, role, one.drop_last()) =~= seq![]);
        }
        if role == Role::User {
            assert(out =~= s.out + s.asides + turn_heading(s.turn + 1) + p);
        } else {
            assert(out =~= s.out + p);
        }
    }
    assert(written_down_to(t, path, ids) =~= before_node(t, path, ids) + p);
}

/// A node's paragraph is read in its turn.
proof fn a_node_is_read_in_its_turn(t: Seq<NodeView>, path: Seq<int>, ids: Seq<int>)
    requires
        ids.len() > 0,
        t[ids[0]].role == Role::User,
    ensures
        calm(before_node(t, path, ids)),
        calm(turn_above(t, ids)),
        topped(
            read_on(no_sections(), lines(before_node(t, path, ids))),
            turn_above(t, ids),
        ),
    decreases ids.len(),
{
    let rest = ids.drop_last();
    let s = spine_of(t, path, groups_of(t, rest));
    let head = seq!['\n'] + title_part(t);
    let before = before_node(t, path, ids);
    body_part_lines(t, 0);
    spine_of_sound(t, path, groups_of(t, rest));
    if starts_turn(t, ids) {
        let h = turn_heading(s.turn + 1);
        turn_heading_shape(s.turn + 1);
        calm_concat(s.out, s.asides);
        let a = head + (s.out + s.asides);
        calm_concat(head, s.out + s.asides);
        calm_concat(a, h);
        assert(before =~= a + h);
        read_on_concat(no_sections(), lines(a), lines(h));
        read_on_fence(no_sections(), lines(a));
        a_heading_opens_its_turn(read_on(no_sections(), lines(a)), s.turn + 1);
        assert(lines(Seq::<char>::empty()) =~= seq![]);
    } else {
        let node = t[rest.last()];
        let p = paragraph(node.role, node.block);
        let earlier = before_node(t, path, rest);
        assert(rest[0] == ids[0]);
        a_node_is_read_in_its_turn(t, path, rest);
        a_node_is_written_after_the_one_before(t, path, rest);
        assert(before == earlier + p);
        paragraphs_leave_no_fence_open(node.role, node.block);
        calm_concat(earlier, p);
        read_on_concat(no_sections(), lines(earlier), lines(p));
        topped_stays(read_on(no_sections(), lines(earlier)), turn_above(t, rest), p);
        assert(turn_above(t, ids) =~= turn_above(t, rest) + p);
    }
}

/// What is written down to a node stays as the branch goes on.
proof fn the_branch_only_grows(t: Seq<NodeView>, path: Seq<int>, ids: Seq<int>, n: int)
    requires
        0 <= n <= ids.len(),
    ensures
        written_down_to(t, path, ids.take(n)).is_prefix_of(written_down_to(t, path, ids)),
    decreases ids.len(),
{
    let a = written_down_to(t, path, ids.take(n));
    let c = written_down_to(t, path, ids);
    if n < ids.len() {
        let rest = ids.drop_last();
        the_branch_only_grows(t, path, rest, n);
        assert(rest.take(n) =~= ids.take(n));
        let b = written_down_to(t, path, rest);
        a_node_is_written_after_the_one_before(t, path, ids);
        assert(b.is_prefix_of(before_node(t, path, ids))) by {
            let s = spine_of(t, path, groups_of(t, rest));
            assert(b =~= before_node(t, path, ids).subrange(0, b.len() as int));
        }
        assert(a =~= c.subrange(0, a.len() as int)) by {
            assert forall|i: int| 0 <= i < a.len() implies a[i] == c[i] by {
                assert(b.subrange(0, a.len() as int)[i] == b[i]);
                assert(before_node(t, path, ids).subrange(0, b.len() as int)[i]
                    == before_node(t, path, ids)[i]);
            }
        }
    } else {
        assert(ids.take(n) =~= ids);
        assert(a =~= c.subrange(0, a.len() as int));
    }
}

/// A blank line at the end of a body takes nothing from its live sections.
proof fn a_last_blank_line_takes_nothing(body: Seq<Seq<char>>, part: Seq<char>)
    requires
        body.len() > 0,
        body.last() == Seq::<char>::empty(),
        holds_live(closed_sections(sectioned(body)), part),
        !blank(part),
        part.last() == '\n',
        part.len() >= 2 ==> part[part.len() - 2] != '\n',
    ensures
        holds_live(closed_sections(sectioned(body.drop_last())), part),
{
    let su = sectioned(body);
    let sd = sectioned(body.drop_last());
    empty_line_is_plain();
    assert(su.body =~= sd.body + seq!['\n']);
    let cu = closed_sections(su);
    let cd = closed_sections(sd);
    let i = choose|i: int|
        0 <= i < cu.len() && !ends_marked((#[trigger] cu[i]).path) && stands_within(
            cu[i].body,
            part,
        );
    if i < su.sections.len() {
        assert(cd[i] == cu[i]);
    } else {
        assert(cu[i].body == su.body);
        let (u, v) = choose|u: Seq<char>, v: Seq<char>| su.body == #[trigger] (u + part + v);
        body_ends_in_a_feed(body.drop_last());
        let k = choose|k: int| 0 <= k < part.len() && !white_space(part[k]);
        assert(part.len() >= 2) by {
            assert(k != part.len() - 1);
        }
        assert(v.len() > 0) by {
            if v.len() == 0 {
                assert(su.body =~= u + part);
                assert(su.body[su.body.len() - 2] == part[part.len() - 2]);
                assert(su.body[su.body.len() - 2] == sd.body[sd.body.len() - 1]);
            }
        }
        assert(sd.body =~= su.body.drop_last());
        assert((u + part + v).drop_last() =~= u + part + v.drop_last());
        assert(!blank(sd.body)) by {
            assert(sd.body[u.len() + k] == part[k]);
        }
        assert(stands_within(sd.body, part));
        assert(cd[i].body == sd.body);
        assert(cd[i].path == cu[i].path);
    }
}

proof fn body_ends_in_a_feed(ls: Seq<Seq<char>>)
    ensures
        sectioned(ls).body.len() == 0 || sectioned(ls).body.last() == '\n',
    decreases ls.len(),
{
    if ls.len() > 0 {
        body_ends_in_a_feed(ls.drop_last());
    }
}

/// A piece of a node is live once the node was read.
proof fn a_node_is_live_once_it_is_read(
    t: Seq<NodeView>,
    path: Seq<int>,
    id: int,
    piece: Piece,
)
    requires
        path_to(t, id).len() > 0,
        path_to(t, id).last() == id,
        t[path_to(t, id)[0]].role == Role::User,
        is_shown(piece, t[id].role, t[id].block),
        heading_above(t, id, piece) matches Some(h) ==> !ends_marked(h),
    ensures
        calm(written_down_to(t, path, path_to(t, id))),
        holds_live(
            closed_sections(
                read_on(no_sections(), lines(written_down_to(t, path, path_to(t, id)))),
            ),
            piece_of(piece, t[id].role, t[id].block),
        ),
        !blank(piece_of(piece, t[id].role, t[id].block)),
{
    let ids = path_to(t, id);
    let node = t[id];
    let before = before_node(t, path, ids);
    let p = paragraph(node.role, node.block);
    a_node_is_read_in_its_turn(t, path, ids);
    a_node_is_written_after_the_one_before(t, path, ids);
    paragraphs_leave_no_fence_open(node.role, node.block);
    calm_concat(before, p);
    read_on_concat(no_sections(), lines(before), lines(p));
    a_piece_is_live_once_it_is_read(
        read_on(no_sections(), lines(before)),
        turn_above(t, ids),
        node.role,
        node.block,
        piece,
    );
}

/// What was live once a node was read is live in the whole body.
proof fn the_rest_takes_nothing(t: Seq<NodeView>, tip: int, n: int, part: Seq<char>)
    requires
        0 <= n <= path_to(t, tip).len(),
        calm(written_down_to(t, path_to(t, tip), path_to(t, tip).take(n))),
        holds_live(
            closed_sections(
                read_on(
                    no_sections(),
                    lines(written_down_to(t, path_to(t, tip), path_to(t, tip).take(n))),
                ),
            ),
            part,
        ),
        !blank(part),
    ensures
        holds_live(closed_sections(sectioned(lines(body_part(t, tip)))), part),
{
    let path = path_to(t, tip);
    let a = written_down_to(t, path, path.take(n));
    let c = written_down_to(t, path, path);
    let body = body_part(t, tip);
    let rest = body.skip(a.len() as int);
    the_branch_only_grows(t, path, path, n);
    assert(body =~= c + spine_of(t, path, groups_of(t, path)).asides);
    assert(body =~= a + rest) by {
        assert forall|i: int| 0 <= i < a.len() implies body[i] == a[i] by {
            assert(c.subrange(0, a.len() as int)[i] == c[i]);
        }
    }
    lines_concat(a, rest);
    read_on_concat(no_sections(), lines(a), lines(rest));
    live_is_kept(read_on(no_sections(), lines(a)), lines(rest), part);
    sectioned_is_read_on(lines(body));
}

proof fn piece_shape(piece: Piece, role: Role, block: BlockView)
    requires
        is_shown(piece, role, block),
        !blank(piece_of(piece, role, block)),
    ensures
        ({
            let part = piece_of(piece, role, block);
            part.last() == '\n' && (part.len() >= 2 ==> part[part.len() - 2] != '\n')
        }),
{
    let p = paragraph(role, block);
    match piece {
        Piece::Whole => {
            assert(p.len() > 0) by {
                if p.len() == 0 {
                    assert(lines(p).len() == 0);
                }
            }
            shown_shape(role, block);
        },
        Piece::Line { at } => {
            lines_hold_no_feed(p);
            let l = lines(p)[at];
            assert(!l.contains('\n'));
            if l.len() > 0 {
                assert(l.contains(l[l.len() - 1]));
            }
        },
    }
}

/// The live branch is indexed as live.
///
/// Render any tree on any live branch. Every line that a block of the live branch shows,
/// and every block without headings as a whole, stands in a section whose path does not
/// end in the words that mark a dropped branch, unless the live branch says those words
/// itself: unless the nearest heading above, in the blocks of the same turn, ends in them.
/// (A line that the chunker reads as a heading is part of the paths below it, and of no
/// section's text.)
pub proof fn the_live_branch_is_never_marked_as_dropped(
    t: Seq<NodeView>,
    tip: int,
    captured: Seq<char>,
    id: int,
    piece: Piece,
)
    requires
        tree_shaped(t),
        0 <= tip < t.len(),
        !captured.contains('\n'),
        path_to(t, tip).contains(id),
        is_shown(piece, t[id].role, t[id].block),
        heading_above(t, id, piece) matches Some(h) ==> !ends_marked(h),
    ensures
        holds_live(
            note_sections(document(t, tip, captured)),
            piece_of(piece, t[id].role, t[id].block),
        ),
{
    let path = path_to(t, tip);
    let ids = path_to(t, id);
    let part = piece_of(piece, t[id].role, t[id].block);
    path_in_tree(t, tip);
    let at = choose|k: int| 0 <= k < path.len() && path[k] == id;
    assert(0 <= path[at] <= tip);
    path_in_tree(t, id);
    path_extends_ancestors(t, id, tip);
    assert(path.take(ids.len() as int) =~= ids);
    a_node_is_live_once_it_is_read(t, path, id, piece);
    piece_shape(piece, t[id].role, t[id].block);
    the_rest_takes_nothing(t, tip, ids.len() as int, part);
    document_sections(t, tip, captured);
    a_last_blank_line_takes_nothing(lines(body_part(t, tip)), part);
}

/// The live branch as it is written shows every block down to a node whole, in order, with
/// and without the last of its lines.
proof fn what_is_written_shows_every_block(t: Seq<NodeView>, path: Seq<int>, ids: Seq<int>)
    requires
        ids.len() > 0,
        t[ids[0]].role == Role::User,
    ensures
        calm(written_down_to(t, path, ids)),
        lines(written_down_to(t, path, ids)).len() > 0,
        shows_in_order(lines(written_down_to(t, path, ids)), t, ids),
        shows_in_order(lines(written_down_to(t, path, ids)).drop_last(), t, ids),
    decreases ids.len(),
{
    let rest = ids.drop_last();
    let node = t[ids.last()];
    let p = paragraph(node.role, node.block);
    let before = before_node(t, path, ids);
    let s = spine_of(t, path, groups_of(t, rest));
    a_node_is_read_in_its_turn(t, path, ids);
    a_node_is_written_after_the_one_before(t, path, ids);
    paragraphs_leave_no_fence_open(node.role, node.block);
    calm_concat(before, p);
    let lb = lines(before);
    let earlier = written_down_to(t, path, rest);
    body_part_lines(t, 0);
    spine_of_sound(t, path, groups_of(t, rest));
    calm_concat(seq!['\n'] + title_part(t), s.out);
    if rest.len() > 0 {
        assert(rest[0] == ids[0]);
        what_is_written_shows_every_block(t, path, rest);
    }
    if starts_turn(t, ids) {
        let h = turn_heading(s.turn + 1);
        let more = s.asides + h;
        turn_heading_shape(s.turn + 1);
        calm_concat(s.asides, h);
        lines_concat(earlier, more);
        assert(before =~= earlier + more);
        assert(lines(h).len() > 0) by {
            if lines(h).len() == 0 {
                assert(h.len() == 0);
            }
        }
        assert(lb.drop_last() =~= lines(earlier) + lines(more).drop_last());
        shown_before_more(lines(earlier), lines(more), t, rest);
        shown_before_more(lines(earlier), lines(more).drop_last(), t, rest);
    } else {
        assert(rest.len() > 0);
        assert(before == earlier);
    }
    one_more_paragraph_shows_one_more_block(lb, t, ids);
    let all = lines(written_down_to(t, path, ids));
    assert(all == lb + lines(p));
    if lines(p).len() > 0 {
        assert(all.drop_last() =~= lb + lines(p).drop_last());
    } else {
        assert(all =~= lb);
    }
}

/// The live branch is in the transcript as it went: the lines of the document hold every
/// block of it, whole, behind the label of who said it, from the first to the last.
pub proof fn the_live_branch_is_written_whole(t: Seq<NodeView>, tip: int, captured: Seq<char>)
    requires
        tree_shaped(t),
        0 <= tip < t.len(),
        !captured.contains('\n'),
    ensures
        shows_in_order(lines(document(t, tip, captured)), t, path_to(t, tip)),
{
    let path = path_to(t, tip);
    let written = lines(written_down_to(t, path, path));
    let asides = spine_of(t, path, groups_of(t, path)).asides;
    let body = lines(body_part(t, tip));
    path_in_tree(t, tip);
    what_is_written_shows_every_block(t, path, path);
    body_part_lines(t, tip);
    lines_concat(written_down_to(t, path, path), asides);
    assert(body_part(t, tip) =~= written_down_to(t, path, path) + asides);
    let shown = if lines(asides).len() == 0 {
        written.drop_last()
    } else {
        written + lines(asides).drop_last()
    };
    if lines(asides).len() > 0 {
        shown_before_more(written, lines(asides).drop_last(), t, path);
    }
    assert(body.drop_last() =~= shown);
    document_lines(t, tip, captured);
    let opening = opening_lines(t, captured);
    let spine = lines(spine_text(t, path));
    assert(opening =~= opening.take(4) + lines(seq!['\n'] + title_part(t)));
    assert((opening + spine).drop_last() =~= opening.take(4) + body.drop_last());
    shown_after_more(opening.take(4), body.drop_last(), t, path);
}

/// How many turns the given nodes hold.
pub open spec fn turns_in(t: Seq<NodeView>, ids: Seq<int>) -> nat
    decreases ids.len(),
{
    if ids.len() == 0 {
        0
    } else {
        turns_in(t, ids.drop_last()) + if starts_turn(t, ids) {
            1nat
        } else {
            0nat
        }
    }
}

proof fn the_spine_counts_its_turns(t: Seq<NodeView>, path: Seq<int>, ids: Seq<int>)
    ensures
        spine_of(t, path, groups_of(t, ids)).turn == turns_in(t, ids),
    decreases ids.len(),
{
    if ids.len() > 0 {
        let rest = ids.drop_last();
        let id = ids.last();
        let role = t[id].role;
        let groups = groups_of(t, rest);
        let all = groups_of(t, ids);
        the_spine_counts_its_turns(t, path, rest);
        if rest.len() > 0 {
            last_group_role(t, rest);
            assert(rest.last() == ids[ids.len() - 2]);
        }
        if groups.len() > 0 && groups.last().role == role {
            assert(all.drop_last() =~= groups.drop_last());
        } else {
            assert(all.drop_last() =~= groups);
        }
    }
}

proof fn a_turns_heading_is_a_line(turn: nat)
    ensures
        lines(turn_heading(turn)) == seq!["## Turn "@ + decimal(turn), Seq::<char>::empty()],
{
    reveal_strlit("## Turn ");
    reveal_strlit("\n\n");
    decimal_digits(turn);
    let d = decimal(turn);
    let h = "## Turn "@ + d;
    assert(!h.contains('\n')) by {
        assert forall|j: int| 0 <= j < h.len() implies h[j] != '\n' by {
            if j >= 8 {
                assert(h[j] == d[j - 8]);
            }
        }
    }
    assert(h.last() == d[d.len() - 1]);
    lines_of_one(h);
    feed_is_an_empty_line();
    assert(turn_heading(turn) =~= h.push('\n') + seq!['\n']);
    lines_concat(h.push('\n'), seq!['\n']);
}

/// The body of the document, cut behind what is written down to a node of the live branch.
proof fn a_body_is_cut_behind_a_node(t: Seq<NodeView>, tip: int, ids: Seq<int>) -> (rest: Seq<char>)
    requires
        tree_shaped(t),
        0 <= tip < t.len(),
        0 < ids.len() <= path_to(t, tip).len(),
        ids == path_to(t, tip).take(ids.len() as int),
    ensures
        body_part(t, tip) == written_down_to(t, path_to(t, tip), ids) + rest,
{
    let path = path_to(t, tip);
    path_in_tree(t, tip);
    assert(ids[0] == path[0]);
    the_branch_only_grows(t, path, path, ids.len() as int);
    let a = written_down_to(t, path, ids);
    let c = written_down_to(t, path, path);
    let body = body_part(t, tip);
    let rest = body.skip(a.len() as int);
    assert(body =~= c + spine_of(t, path, groups_of(t, path)).asides);
    assert(body =~= a + rest) by {
        assert forall|i: int| 0 <= i < a.len() implies body[i] == a[i] by {
            assert(c.subrange(0, a.len() as int)[i] == c[i]);
        }
    }
    rest
}

/// What is written down to a node of the live branch, by its lines.
proof fn lines_down_to_a_node(t: Seq<NodeView>, tip: int, ids: Seq<int>, rest: Seq<char>)
    requires
        tree_shaped(t),
        0 <= tip < t.len(),
        0 < ids.len() <= path_to(t, tip).len(),
        ids == path_to(t, tip).take(ids.len() as int),
    ensures
        ({
            let before = before_node(t, path_to(t, tip), ids);
            let p = paragraph(t[ids.last()].role, t[ids.last()].block);
            &&& calm(before)
            &&& lines(written_down_to(t, path_to(t, tip), ids) + rest) == lines(before) + lines(p)
                + lines(rest)
        }),
{
    let path = path_to(t, tip);
    let node = t[ids.last()];
    let before = before_node(t, path, ids);
    let p = paragraph(node.role, node.block);
    path_in_tree(t, tip);
    assert(ids[0] == path[0]);
    a_node_is_read_in_its_turn(t, path, ids);
    a_node_is_written_after_the_one_before(t, path, ids);
    paragraphs_leave_no_fence_open(node.role, node.block);
    calm_concat(before, p);
    let a = written_down_to(t, path, ids);
    lines_concat(a, rest);
    assert(lines(a) == lines(before) + lines(p));
}

/// The lines of the document, cut where a node of the live branch is written.
proof fn a_document_is_cut_at_a_node(
    t: Seq<NodeView>,
    tip: int,
    captured: Seq<char>,
    ids: Seq<int>,
) -> (after: Seq<Seq<char>>)
    requires
        tree_shaped(t),
        0 <= tip < t.len(),
        !captured.contains('\n'),
        0 < ids.len() <= path_to(t, tip).len(),
        ids == path_to(t, tip).take(ids.len() as int),
    ensures
        ({
            let before = before_node(t, path_to(t, tip), ids);
            let p = paragraph(t[ids.last()].role, t[ids.last()].block);
            &&& calm(before)
            &&& lines(document(t, tip, captured)) == (opening_lines(t, captured).take(4) + lines(
                before,
            ) + lines(p) + after).drop_last()
        }),
{
    let path = path_to(t, tip);
    let before = before_node(t, path, ids);
    let p = paragraph(t[ids.last()].role, t[ids.last()].block);
    let rest = a_body_is_cut_behind_a_node(t, tip, ids);
    lines_down_to_a_node(t, tip, ids, rest);
    body_part_lines(t, tip);
    document_lines(t, tip, captured);
    let opening = opening_lines(t, captured);
    let spine = lines(spine_text(t, path));
    assert(opening =~= opening.take(4) + lines(seq!['\n'] + title_part(t)));
    let after = lines(rest);
    let whole = lines(body_part(t, tip));
    assert(whole == lines(before) + lines(p) + after);
    assert(opening + spine =~= opening.take(4) + whole);
    assert(opening.take(4) + whole =~= opening.take(4) + lines(before) + lines(p) + after);
    after
}

/// Turns are numbered from one on, without a gap: where the live branch goes over from the
/// assistant to the user, the document has a heading with the number of that turn. Above
/// it stands all that was said before, and below it, behind a blank line, what the turn
/// opens with.
pub proof fn turns_are_numbered_in_order(
    t: Seq<NodeView>,
    tip: int,
    captured: Seq<char>,
    ids: Seq<int>,
)
    requires
        tree_shaped(t),
        0 <= tip < t.len(),
        !captured.contains('\n'),
        0 < ids.len() <= path_to(t, tip).len(),
        ids == path_to(t, tip).take(ids.len() as int),
        starts_turn(t, ids),
    ensures
        ({
            let ls = lines(document(t, tip, captured));
            let node = t[ids.last()];
            exists|n: int|
                0 <= n < ls.len() && #[trigger] ls[n] == "## Turn "@ + decimal(turns_in(t, ids))
                    && shows_in_order(ls.take(n), t, ids.drop_last()) && (block_lines(
                    node.block,
                ).len() > 0 ==> exists|at: int| #[trigger]
                    shown_at(ls.skip(n + 2), node.role, block_lines(node.block), at))
        }),
{
    let node = t[ids.last()];
    let said = block_lines(node.block);
    let p = paragraph(node.role, node.block);
    let ls = lines(document(t, tip, captured));
    let after = a_document_is_cut_at_a_node(t, tip, captured, ids);
    let above = what_stands_above_a_turn(t, tip, captured, ids);
    let heading = seq!["## Turn "@ + decimal(turns_in(t, ids)), Seq::<char>::empty()];
    let all = above + heading + lines(p) + after;
    let n = above.len() as int;
    assert(ls =~= all.drop_last()) by {
        let four = opening_lines(t, captured).take(4);
        assert(four + lines(before_node(t, path_to(t, tip), ids)) == above + heading);
    }
    assert(ls.take(n) =~= above);
    assert(ls[n] == heading[0]);
    if said.len() > 0 {
        a_paragraph_shows_its_block(node.role, node.block);
        let shown = lines(p).drop_last();
        let at = choose|at: int| #[trigger] shown_at(shown, node.role, said, at);
        let below = ls.skip(n + 2);
        assert(below =~= (lines(p) + after).drop_last());
        shown_in_longer(lines(p), after, node.role, said, at);
        assert(shown_at(below, node.role, said, at));
    }
}

/// A block that is shown before the last of its lines is shown before the last of more.
proof fn shown_in_longer(
    ls: Seq<Seq<char>>,
    more: Seq<Seq<char>>,
    role: Role,
    said: Seq<Seq<char>>,
    at: int,
)
    requires
        ls.len() > 0,
        shown_at(ls.drop_last(), role, said, at),
    ensures
        shown_at((ls + more).drop_last(), role, said, at),
{
    let shown = ls.drop_last();
    let all = (ls + more).drop_last();
    assert forall|j: int| 0 <= j < shown.len() implies #[trigger] all[j] == shown[j] by {}
    assert forall|j: int| 0 < j < said.len() implies all[at + j] == #[trigger] said[j] by {
        assert(shown[at + j] == said[j]);
    }
    assert(all[at] == shown[at]);
    if at > 0 {
        assert(all[at - 1] == shown[at - 1]);
    }
}

/// The lines above the heading of a turn: they show all that was said before it.
proof fn what_stands_above_a_turn(
    t: Seq<NodeView>,
    tip: int,
    captured: Seq<char>,
    ids: Seq<int>,
) -> (above: Seq<Seq<char>>)
    requires
        tree_shaped(t),
        0 <= tip < t.len(),
        0 < ids.len() <= path_to(t, tip).len(),
        ids == path_to(t, tip).take(ids.len() as int),
        starts_turn(t, ids),
    ensures
        shows_in_order(above, t, ids.drop_last()),
        opening_lines(t, captured).take(4) + lines(before_node(t, path_to(t, tip), ids)) == above
            + seq!["## Turn "@ + decimal(turns_in(t, ids)), Seq::<char>::empty()],
{
    let path = path_to(t, tip);
    let rest = ids.drop_last();
    let s = spine_of(t, path, groups_of(t, rest));
    let h = turn_heading(s.turn + 1);
    let before = before_node(t, path, ids);
    let earlier = written_down_to(t, path, rest);
    let four = opening_lines(t, captured).take(4);
    the_spine_counts_its_turns(t, path, rest);
    a_turns_heading_is_a_line(s.turn + 1);
    body_part_lines(t, 0);
    spine_of_sound(t, path, groups_of(t, rest));
    calm_concat(seq!['\n'] + title_part(t), s.out);
    calm_concat(earlier, s.asides);
    lines_concat(earlier + s.asides, h);
    assert(before =~= earlier + s.asides + h);
    let above = four + (lines(earlier) + lines(s.asides));
    assert(four + lines(before) =~= above + lines(h));
    path_in_tree(t, tip);
    if rest.len() > 0 {
        assert(rest[0] == path[0]);
        what_is_written_shows_every_block(t, path, rest);
        shown_before_more(lines(earlier), lines(s.asides), t, rest);
        shown_after_more(four, lines(earlier) + lines(s.asides), t, rest);
    }
    above
}

/// A document opens on its frontmatter and its title.
pub proof fn a_document_opens_on_its_title(t: Seq<NodeView>, tip: int, captured: Seq<char>)
    requires
        tree_shaped(t),
        0 <= tip < t.len(),
        !captured.contains('\n'),
    ensures
        ({
            let ls = lines(document(t, tip, captured));
            &&& ls.len() > 6
            &&& ls[0] == "---"@
            &&& ls[1] == "type: transcript"@
            &&& ls[2] == without_return("captured: "@ + captured)
            &&& ls[3] == "---"@
            &&& ls[5] == without_return("# "@ + title(t))
        }),
{
    document_lines(t, tip, captured);
    let all = opening_lines(t, captured) + lines(spine_text(t, path_to(t, tip)));
    let ls = lines(document(t, tip, captured));
    assert(ls =~= all.drop_last());
    assert forall|i: int| 0 <= i < 7 implies ls[i] == opening_lines(t, captured)[i] by {}
}

} // verus!
