//! What a session said is in its transcript: the live branch as it went, and every branch
//! that was dropped, to its tip.
use vstd::prelude::*;
use crate::line_laws::{
    lines_closed, lines_concat, lines_of_one, lines_prefixed, trimmed_end_ignores, trimmed_end_is,
    trimmed_end_keeps, trimmed_is,
};
use crate::text::{blank, lines, trimmed, trimmed_end, white_space};
use crate::transcript::{
    aside, aside_body, branch_of, closer_of, document, from_node, gap_of, grouped_paragraphs,
    groups_of, leaves_below, leaves_in_tree, open_marker, paragraph, paragraphs, passing_through,
    quoted, spine_text, untrimmed_document, written_text,
};
use crate::transcript_index::{
    calm, calm_concat, feed_is_an_empty_line, grouped_calm, label_shape, labelled, last_line,
    markers_are_fences, open_marker_is_marker, paragraphs_leave_no_fence_open, placed, quoted_end,
    spine_text_has, trimmed_clean_text,
};
use crate::tree::{
    children_are, children_of, leaves_among, leaves_are_the_childless_nodes, leaves_of,
    path_in_tree, path_to, tree_shaped, BlockView, NodeView, Role,
};

verus! {

/// The lines that a block says, without the white space around it: those of its text, and
/// none for thinking.
pub open spec fn block_lines(block: BlockView) -> Seq<Seq<char>> {
    match block {
        BlockView::Text { text } => if blank(text) {
            seq![]
        } else {
            lines(trimmed(text))
        },
        BlockView::Thinking { .. } => seq![],
    }
}

/// The label of who says something.
pub open spec fn speaker(role: Role) -> Seq<char> {
    match role {
        Role::User => "**user:**"@,
        Role::Assistant => "**assistant:**"@,
    }
}

/// The lines of a block stand among others from a place on, one after the other and
/// without a gap, behind the label of who said them: on the first line, or on a line of
/// its own above it.
pub open spec fn shown_at(
    all: Seq<Seq<char>>,
    role: Role,
    said: Seq<Seq<char>>,
    at: int,
) -> bool {
    &&& 0 <= at
    &&& at + said.len() <= all.len()
    &&& said.len() > 0
    &&& all[at] == speaker(role) + " "@ + said[0] || (at > 0 && all[at - 1] == speaker(role)
        && all[at] == said[0])
    &&& forall|j: int| 0 < j < said.len() ==> all[at + j] == #[trigger] said[j]
}

/// The blocks of the given nodes stand among the lines, each whole, in order.
pub open spec fn shows_in_order(all: Seq<Seq<char>>, t: Seq<NodeView>, ids: Seq<int>) -> bool
    decreases ids.len(),
{
    if ids.len() == 0 {
        true
    } else {
        let node = t[ids.last()];
        let said = block_lines(node.block);
        if said.len() == 0 {
            shows_in_order(all, t, ids.drop_last())
        } else {
            exists|at: int| #[trigger]
                shown_at(all, node.role, said, at) && shows_in_order(
                    all.take(at),
                    t,
                    ids.drop_last(),
                )
        }
    }
}

/// What is shown stays shown when lines follow.
pub(crate) proof fn shown_before_more(
    all: Seq<Seq<char>>,
    more: Seq<Seq<char>>,
    t: Seq<NodeView>,
    ids: Seq<int>,
)
    requires
        shows_in_order(all, t, ids),
    ensures
        shows_in_order(all + more, t, ids),
    decreases ids.len(),
{
    if ids.len() > 0 {
        let node = t[ids.last()];
        let said = block_lines(node.block);
        if said.len() == 0 {
            shown_before_more(all, more, t, ids.drop_last());
        } else {
            let at = choose|at: int| #[trigger]
                shown_at(all, node.role, said, at) && shows_in_order(
                    all.take(at),
                    t,
                    ids.drop_last(),
                );
            assert((all + more).take(at) =~= all.take(at));
            assert forall|j: int| 0 < j < said.len() implies (all + more)[at + j]
                == #[trigger] said[j] by {
                assert(all[at + j] == said[j]);
            }
            assert(shown_at(all + more, node.role, said, at));
        }
    }
}

/// What is shown stays shown behind other lines.
pub(crate) proof fn shown_after_more(
    before: Seq<Seq<char>>,
    all: Seq<Seq<char>>,
    t: Seq<NodeView>,
    ids: Seq<int>,
)
    requires
        shows_in_order(all, t, ids),
    ensures
        shows_in_order(before + all, t, ids),
    decreases ids.len(),
{
    if ids.len() > 0 {
        let node = t[ids.last()];
        let said = block_lines(node.block);
        let rest = ids.drop_last();
        if said.len() == 0 {
            shown_after_more(before, all, t, rest);
        } else {
            let at = choose|at: int| #[trigger]
                shown_at(all, node.role, said, at) && shows_in_order(all.take(at), t, rest);
            let n = before.len() + at;
            shown_after_more(before, all.take(at), t, rest);
            assert((before + all).take(n) =~= before + all.take(at));
            assert forall|j: int| 0 < j < said.len() implies (before + all)[n + j]
                == #[trigger] said[j] by {
                assert(all[at + j] == said[j]);
            }
            assert(shown_at(before + all, node.role, said, n));
        }
    }
}

proof fn the_label_is_the_speaker(role: Role)
    ensures
        labelled(role) == speaker(role),
{
    reveal_strlit("**");
    reveal_strlit(":**");
    reveal_strlit("user");
    reveal_strlit("assistant");
    reveal_strlit("**user:**");
    reveal_strlit("**assistant:**");
    assert(labelled(role) =~= speaker(role));
}

/// A paragraph shows its block whole, before the blank line at its end.
pub(crate) proof fn a_paragraph_shows_its_block(role: Role, block: BlockView)
    ensures
        block_lines(block).len() == 0 <==> paragraph(role, block).len() == 0,
        block_lines(block).len() > 0 ==> ({
            let ls = lines(paragraph(role, block));
            &&& ls.len() > 0
            &&& exists|at: int| #[trigger]
                shown_at(ls.drop_last(), role, block_lines(block), at)
        }),
{
    if written_text(block) is Some {
        let whole = written_text(block)->Some_0;
        let text = trimmed(whole);
        trimmed_is(whole);
        if text.len() > 0 {
            let label = labelled(role);
            let gap = gap_of(text);
            let closer = closer_of(text);
            let ls = lines(text);
            let body = text.push('\n');
            let head = label.push(gap) + body;
            let e = Seq::<char>::empty();
            label_shape(role);
            the_label_is_the_speaker(role);
            lines_closed(text);
            feed_is_an_empty_line();
            open_marker_is_marker(ls);
            reveal_strlit(" ");
            assert(" "@ =~= seq![' ']);
            let at: int = if gap == '\n' {
                1
            } else {
                0
            };
            if gap == '\n' {
                lines_of_one(label);
                lines_concat(label.push('\n'), body);
                assert(lines(head) =~= seq![label] + ls);
            } else {
                let p = label.push(' ');
                assert(!p.contains('\n')) by {
                    assert forall|j: int| 0 <= j < p.len() implies p[j] != '\n' by {
                        if j < label.len() {
                            assert(label.contains(label[j]));
                        }
                    }
                }
                lines_prefixed(p, body);
                assert(lines(head) =~= seq![p + ls[0]] + ls.skip(1));
                assert(p + ls[0] =~= speaker(role) + " "@ + ls[0]);
            }
            let tail = closer + seq!['\n'];
            match open_marker(ls) {
                Some(m) => {
                    markers_are_fences(m);
                    lines_of_one(m);
                    lines_concat(closer, seq!['\n']);
                    assert(lines(tail) =~= seq![m, e]);
                },
                None => {
                    assert(tail =~= seq!['\n']);
                    assert(lines(tail) =~= seq![e]);
                },
            }
            assert(head.last() == '\n');
            lines_concat(head, tail);
            let p = paragraph(role, block);
            assert(p =~= head + tail);
            let all = lines(p).drop_last();
            assert(lines(p) =~= lines(head) + lines(tail));
            assert forall|j: int| 0 < j < ls.len() implies all[at + j] == #[trigger] ls[j] by {
                assert(lines(head)[at + j] == ls[j]);
            }
            assert(all[at] == lines(head)[at]);
            if at > 0 {
                assert(all[at - 1] == lines(head)[at - 1]);
            }
            assert(shown_at(all, role, ls, at));
        }
    }
}

/// The paragraphs of the given nodes, one after the other.
pub open spec fn said_by(t: Seq<NodeView>, ids: Seq<int>) -> Seq<char>
    decreases ids.len(),
{
    if ids.len() == 0 {
        seq![]
    } else {
        said_by(t, ids.drop_last()) + paragraph(t[ids.last()].role, t[ids.last()].block)
    }
}

/// Grouping nodes changes nothing about what they say.
proof fn groups_say_what_their_nodes_say(t: Seq<NodeView>, ids: Seq<int>)
    ensures
        grouped_paragraphs(t, groups_of(t, ids)) == said_by(t, ids),
    decreases ids.len(),
{
    if ids.len() > 0 {
        let rest = ids.drop_last();
        let id = ids.last();
        let role = t[id].role;
        let p = paragraph(role, t[id].block);
        let groups = groups_of(t, rest);
        let all = groups_of(t, ids);
        groups_say_what_their_nodes_say(t, rest);
        if groups.len() > 0 && groups.last().role == role {
            let longer = groups.last().ids.push(id);
            assert(all.drop_last() =~= groups.drop_last());
            assert(longer.drop_last() =~= groups.last().ids);
            assert(grouped_paragraphs(t, all) =~= said_by(t, rest) + p);
        } else {
            let one = seq![id];
            assert(all.drop_last() =~= groups);
            assert(one.drop_last() =~= seq![]);
            assert(paragraphs(t, role, one.drop_last()) =~= seq![]);
            assert(paragraphs(t, role, one) =~= p);
            assert(grouped_paragraphs(t, all) =~= said_by(t, rest) + p);
        }
    }
}

/// One more paragraph shows one more block.
pub(crate) proof fn one_more_paragraph_shows_one_more_block(
    before: Seq<Seq<char>>,
    t: Seq<NodeView>,
    ids: Seq<int>,
)
    requires
        ids.len() > 0,
        shows_in_order(before, t, ids.drop_last()),
    ensures
        ({
            let ls = lines(paragraph(t[ids.last()].role, t[ids.last()].block));
            &&& shows_in_order(before + ls, t, ids)
            &&& ls.len() > 0 ==> shows_in_order(before + ls.drop_last(), t, ids)
            &&& ls.len() == 0 ==> block_lines(t[ids.last()].block).len() == 0
        }),
{
    let rest = ids.drop_last();
    let node = t[ids.last()];
    let said = block_lines(node.block);
    let ls = lines(paragraph(node.role, node.block));
    a_paragraph_shows_its_block(node.role, node.block);
    if said.len() == 0 {
        assert(ls.len() == 0);
        assert(before + ls =~= before);
    } else {
        let all = ls.drop_last();
        let at = choose|at: int| #[trigger] shown_at(all, node.role, said, at);
        let n = before.len() + at;
        let whole = before + all;
        assert(whole.take(n) =~= before + all.take(at));
        shown_before_more(before, all.take(at), t, rest);
        assert forall|j: int| 0 < j < said.len() implies whole[n + j] == #[trigger] said[j] by {
            assert(all[at + j] == said[j]);
        }
        assert(shown_at(whole, node.role, said, n));
        shown_before_more(whole, seq![ls.last()], t, ids);
        assert(whole + seq![ls.last()] =~= before + ls);
    }
}

/// Paragraphs show every block whole, in order, before the blank line at their end.
proof fn paragraphs_show_every_block(t: Seq<NodeView>, ids: Seq<int>)
    ensures
        calm(said_by(t, ids)),
        shows_in_order(lines(said_by(t, ids)), t, ids),
        lines(said_by(t, ids)).len() > 0 ==> shows_in_order(
            lines(said_by(t, ids)).drop_last(),
            t,
            ids,
        ),
    decreases ids.len(),
{
    let all = lines(said_by(t, ids));
    if ids.len() > 0 {
        let rest = ids.drop_last();
        let node = t[ids.last()];
        let p = paragraph(node.role, node.block);
        let before = lines(said_by(t, rest));
        paragraphs_show_every_block(t, rest);
        paragraphs_leave_no_fence_open(node.role, node.block);
        calm_concat(said_by(t, rest), p);
        one_more_paragraph_shows_one_more_block(before, t, ids);
        if lines(p).len() > 0 {
            assert(all.drop_last() =~= before + lines(p).drop_last());
        } else {
            assert(all =~= before);
        }
    } else {
        feed_is_an_empty_line();
    }
}

/// Nodes of which each is the parent of the next.
pub open spec fn is_chain(t: Seq<NodeView>, ids: Seq<int>) -> bool {
    &&& ids.len() > 0
    &&& forall|k: int| 0 <= k < ids.len() ==> 0 < #[trigger] ids[k] < t.len()
    &&& forall|k: int| 0 < k < ids.len() ==> t[#[trigger] ids[k]].parent == Some(ids[k - 1])
}

/// No node that was created later stands below the given one.
pub open spec fn is_newest_below(t: Seq<NodeView>, head: int, last: int) -> bool {
    forall|x: int| last < x < t.len() ==> !(#[trigger] path_to(t, x)).contains(head)
}

proof fn a_chain_is_the_end_of_its_path(t: Seq<NodeView>, ids: Seq<int>, fork: int)
    requires
        tree_shaped(t),
        is_chain(t, ids),
        t[ids[0]].parent == Some(fork),
    ensures
        path_to(t, ids.last()) == path_to(t, fork) + ids,
    decreases ids.len(),
{
    let id = ids.last();
    let n = ids.len() - 1;
    assert(ids[n] == id);
    if n == 0 {
        assert(path_to(t, fork) + ids =~= path_to(t, fork).push(id));
    } else {
        let rest = ids.drop_last();
        assert(is_chain(t, rest)) by {
            assert forall|k: int| 0 < k < rest.len() implies t[#[trigger] rest[k]].parent == Some(
                rest[k - 1],
            ) by {
                assert(t[ids[k]].parent == Some(ids[k - 1]));
            }
            assert forall|k: int| 0 <= k < rest.len() implies 0 < #[trigger] rest[k] < t.len() by {
                assert(0 < ids[k] < t.len());
            }
        }
        assert(rest[0] == ids[0]);
        a_chain_is_the_end_of_its_path(t, rest, fork);
        assert(t[ids[n]].parent == Some(ids[n - 1]));
        assert(path_to(t, fork) + ids =~= (path_to(t, fork) + rest).push(id));
    }
}

proof fn leaves_ascend(t: Seq<NodeView>, n: int)
    requires
        0 <= n <= t.len(),
    ensures
        forall|i: int, j: int|
            0 <= i < j < leaves_among(t, n).len() ==> (#[trigger] leaves_among(t, n)[i]) < (
            #[trigger] leaves_among(t, n)[j]),
    decreases n,
{
    if n > 0 {
        leaves_ascend(t, n - 1);
        leaves_in_tree(t, n - 1);
        let before = leaves_among(t, n - 1);
        let out = leaves_among(t, n);
        assert forall|i: int, j: int| 0 <= i < j < out.len() implies (#[trigger] out[i]) < (
        #[trigger] out[j]) by {
            assert(out[i] == before[i]);
            if j < before.len() {
                assert(out[j] == before[j]);
            }
        }
    }
}

/// Passing nodes are some of the given ones, in order, and all that pass.
proof fn passing_are(t: Seq<NodeView>, nodes: Seq<int>, id: int)
    requires
        forall|i: int, j: int|
            0 <= i < j < nodes.len() ==> (#[trigger] nodes[i]) < (#[trigger] nodes[j]),
    ensures
        ({
            let out = passing_through(t, nodes, id);
            &&& forall|i: int|
                0 <= i < out.len() ==> nodes.contains(#[trigger] out[i]) && path_to(
                    t,
                    out[i],
                ).contains(id)
            &&& forall|i: int, j: int|
                0 <= i < j < out.len() ==> (#[trigger] out[i]) < (#[trigger] out[j])
            &&& forall|i: int|
                0 <= i < nodes.len() && path_to(t, #[trigger] nodes[i]).contains(id)
                    ==> out.contains(nodes[i])
        }),
    decreases nodes.len(),
{
    if nodes.len() > 0 {
        let rest = nodes.drop_last();
        let n = nodes.len() - 1;
        assert forall|i: int, j: int| 0 <= i < j < rest.len() implies (#[trigger] rest[i]) < (
        #[trigger] rest[j]) by {
            assert(nodes[i] < nodes[j]);
        }
        passing_are(t, rest, id);
        let before = passing_through(t, rest, id);
        let out = passing_through(t, nodes, id);
        assert forall|i: int| 0 <= i < out.len() implies nodes.contains(#[trigger] out[i])
            && path_to(t, out[i]).contains(id) by {
            if i < before.len() {
                assert(out[i] == before[i]);
                let k = choose|k: int| 0 <= k < rest.len() && rest[k] == before[i];
                assert(nodes[k] == out[i]);
            } else {
                assert(nodes[n] == out[i]);
            }
        }
        assert forall|i: int, j: int| 0 <= i < j < out.len() implies (#[trigger] out[i]) < (
        #[trigger] out[j]) by {
            assert(out[i] == before[i]);
            if j < before.len() {
                assert(out[j] == before[j]);
            } else {
                let k = choose|k: int| 0 <= k < rest.len() && rest[k] == before[i];
                assert(nodes[k] < nodes[n]);
            }
        }
        assert forall|i: int| 0 <= i < nodes.len() && path_to(t, #[trigger] nodes[i]).contains(
            id,
        ) implies out.contains(nodes[i]) by {
            if i < n {
                assert(rest[i] == nodes[i]);
                let k = choose|k: int| 0 <= k < before.len() && before[k] == rest[i];
                assert(out[k] == nodes[i]);
            } else {
                assert(out[before.len() as int] == nodes[n]);
            }
        }
    }
}

proof fn from_node_skips(a: Seq<int>, b: Seq<int>)
    requires
        b.len() > 0,
        !a.contains(b[0]),
    ensures
        from_node(a + b, b[0]) == b,
    decreases a.len(),
{
    if a.len() == 0 {
        assert(a + b =~= b);
    } else {
        assert(a.contains(a[0]));
        let rest = a.skip(1);
        assert(!rest.contains(b[0])) by {
            if rest.contains(b[0]) {
                let k = choose|k: int| 0 <= k < rest.len() && rest[k] == b[0];
                assert(a[k + 1] == b[0]);
            }
        }
        from_node_skips(rest, b);
        assert((a + b).skip(1) =~= rest + b);
        assert((a + b)[0] == a[0]);
    }
}

/// A dropped branch is followed to its tip: the nodes that are quoted are all those from
/// its head down to the newest node below it, each the parent of the next.
pub proof fn a_dropped_branch_is_followed_to_its_tip(t: Seq<NodeView>, ids: Seq<int>)
    requires
        tree_shaped(t),
        is_chain(t, ids),
        is_newest_below(t, ids[0], ids.last()),
    ensures
        leaves_below(t, ids[0]).len() > 0,
        branch_of(t, ids[0]) == ids,
{
    let head = ids[0];
    let last = ids.last();
    let n = t.len() as int;
    assert(ids[ids.len() - 1] == last);
    assert(0 < head < t.len());
    let fork = t[head].parent->Some_0;
    a_chain_is_the_end_of_its_path(t, ids, fork);
    path_in_tree(t, fork);
    assert(path_to(t, last).contains(head)) by {
        assert((path_to(t, fork) + ids)[path_to(t, fork).len() as int] == head);
    }
    assert(children_of(t, last).len() == 0) by {
        children_are(t, last);
        if children_of(t, last).len() > 0 {
            let c = children_of(t, last)[0];
            assert(t[c].parent == Some(last));
            assert(0 <= c < t.len());
            assert(c > 0) by {
                if c == 0 {
                    assert(t[0].parent is None);
                }
            }
            assert(last < c);
            assert(path_to(t, c) == path_to(t, last).push(c));
            let k = choose|k: int| 0 <= k < path_to(t, last).len() && path_to(t, last)[k] == head;
            assert(path_to(t, c)[k] == head);
            assert(path_to(t, c).contains(head));
        }
    }
    leaves_are_the_childless_nodes(t);
    assert(leaves_of(t).contains(last));
    leaves_ascend(t, n);
    leaves_in_tree(t, n);
    passing_are(t, leaves_of(t), head);
    let below = leaves_below(t, head);
    let i = choose|i: int| 0 <= i < leaves_of(t).len() && leaves_of(t)[i] == last;
    assert(path_to(t, leaves_of(t)[i]).contains(head));
    assert(below.contains(last));
    let k = choose|k: int| 0 <= k < below.len() && below[k] == last;
    let end = below[below.len() - 1];
    assert(leaves_of(t).contains(end) && path_to(t, end).contains(head));
    let m = choose|m: int| 0 <= m < leaves_of(t).len() && leaves_of(t)[m] == end;
    assert(0 <= end < t.len());
    if k < below.len() - 1 {
        assert(below[k] < end);
        assert(!path_to(t, end).contains(head));
    }
    assert(end == last);
    assert(!path_to(t, fork).contains(head)) by {
        if path_to(t, fork).contains(head) {
            let j = choose|j: int| 0 <= j < path_to(t, fork).len() && path_to(t, fork)[j] == head;
            assert(path_to(t, fork)[j] <= fork);
        }
    }
    from_node_skips(path_to(t, fork), ids);
}

/// Lines in quotation marks: a mark before each, and a blank between where the line says
/// anything.
pub open spec fn in_quotes(ls: Seq<Seq<char>>) -> Seq<char>
    decreases ls.len(),
{
    if ls.len() == 0 {
        seq![]
    } else if ls.last().len() == 0 {
        in_quotes(ls.drop_last()) + ">\n"@
    } else {
        in_quotes(ls.drop_last()) + "> "@ + ls.last() + "\n"@
    }
}

proof fn quoted_is_in_quotes(ls: Seq<Seq<char>>)
    ensures
        quoted(ls) == in_quotes(ls),
    decreases ls.len(),
{
    if ls.len() > 0 {
        quoted_is_in_quotes(ls.drop_last());
        reveal_strlit(">");
        reveal_strlit(">\n");
        reveal_strlit("> ");
        reveal_strlit("\n");
        assert(quoted(ls) =~= in_quotes(ls));
    }
}

/// The document quotes the given lines under the heading of a dropped branch.
pub open spec fn quotes_as_dropped(document: Seq<char>, quotation: Seq<Seq<char>>) -> bool {
    exists|before: Seq<char>, after: Seq<char>|
        document == #[trigger] (before + "### Not continued\n\n"@ + in_quotes(quotation) + after)
}

/// Every branch that was dropped is in the transcript, quoted to its tip.
///
/// Render any tree on any live branch. From a node of the live branch take any child that
/// is not on it, and from there the chain down to the newest node below it. Where the
/// chain says anything, the document quotes, under a heading that says that the branch was
/// not continued, lines in which the text of every node of the chain stands whole, behind
/// the label of who said it, from the head of the branch to its tip.
pub proof fn a_dropped_branch_is_quoted_to_its_tip(
    t: Seq<NodeView>,
    tip: int,
    captured: Seq<char>,
    fork: int,
    ids: Seq<int>,
)
    requires
        tree_shaped(t),
        0 <= tip < t.len(),
        path_to(t, tip).contains(fork),
        is_chain(t, ids),
        t[ids[0]].parent == Some(fork),
        !path_to(t, tip).contains(ids[0]),
        is_newest_below(t, ids[0], ids.last()),
        exists|k: int| 0 <= k < ids.len() && block_lines(t[#[trigger] ids[k]].block).len() > 0,
    ensures
        exists|quotation: Seq<Seq<char>>| #[trigger]
            quotes_as_dropped(document(t, tip, captured), quotation) && shows_in_order(
                quotation,
                t,
                ids,
            ),
{
    let head = ids[0];
    let quotation = lines(trimmed_end(aside_body(t, head)));
    let a = aside(t, head);
    an_aside_quotes_its_branch(t, ids);
    children_are(t, fork);
    assert(children_of(t, fork).contains(head)) by {
        assert(0 < ids[0] < t.len());
        assert(t[head].parent == Some(fork));
    }
    spine_text_has(t, tip, fork, head);
    let spine = spine_text(t, path_to(t, tip));
    let (before, after) = choose|before: Seq<char>, after: Seq<char>| #[trigger]
        placed(spine, a, before, after);
    let u = untrimmed_document(t, tip, captured);
    let start = u.take(u.len() - spine.len());
    assert(u =~= start + spine);
    let q = in_quotes(quotation);
    let first = start + before + "### Not continued\n\n"@ + q;
    let last = "\n"@ + after;
    assert(u =~= first + last) by {
        assert(a == "### Not continued\n\n"@ + q + "\n"@);
    }
    assert(first.last() == q.last());
    assert(first[first.len() - 2] == q[q.len() - 2]);
    trimming_keeps_what_ends_a_line(first, last);
    let rest = choose|rest: Seq<char>| trimmed_end(first + last).push('\n') == first + rest;
    assert(document(t, tip, captured) == (start + before) + "### Not continued\n\n"@ + q + rest);
    assert(quotes_as_dropped(document(t, tip, captured), quotation));
}

/// A text that ends in a line which says something stays when what follows is trimmed.
proof fn trimming_keeps_what_ends_a_line(first: Seq<char>, last: Seq<char>)
    requires
        first.len() >= 2,
        first.last() == '\n',
        !white_space(first[first.len() - 2]),
    ensures
        exists|rest: Seq<char>| trimmed_end(first + last).push('\n') == first + rest,
{
    if blank(last) {
        trimmed_end_ignores(first, last);
        let x = first.drop_last();
        assert(trimmed_end(first) == trimmed_end(x));
        assert(x.last() == first[first.len() - 2]);
        assert(trimmed_end(x) == x);
        let e = Seq::<char>::empty();
        assert(trimmed_end(first + last).push('\n') =~= first + e);
    } else {
        trimmed_end_keeps(first, last);
        let rest = trimmed_end(last).push('\n');
        assert(trimmed_end(first + last).push('\n') =~= first + rest);
    }
}

/// The aside of a branch quotes lines in which every block of the branch stands whole.
proof fn an_aside_quotes_its_branch(t: Seq<NodeView>, ids: Seq<int>)
    requires
        tree_shaped(t),
        is_chain(t, ids),
        is_newest_below(t, ids[0], ids.last()),
        exists|k: int| 0 <= k < ids.len() && block_lines(t[#[trigger] ids[k]].block).len() > 0,
    ensures
        ({
            let quotation = lines(trimmed_end(aside_body(t, ids[0])));
            let q = in_quotes(quotation);
            &&& shows_in_order(quotation, t, ids)
            &&& aside(t, ids[0]) == "### Not continued\n\n"@ + q + "\n"@
            &&& q.len() >= 2
            &&& q.last() == '\n'
            &&& !white_space(q[q.len() - 2])
        }),
{
    let body = aside_body(t, ids[0]);
    a_dropped_branch_is_followed_to_its_tip(t, ids);
    groups_say_what_their_nodes_say(t, ids);
    assert(body == said_by(t, ids));
    paragraphs_show_every_block(t, ids);
    grouped_calm(t, groups_of(t, ids));
    let k = choose|k: int| 0 <= k < ids.len() && block_lines(t[#[trigger] ids[k]].block).len() > 0;
    said_by_one(t, ids, k);
    let x = trimmed_end(body);
    trimmed_end_is(body);
    trimmed_clean_text(body);
    assert(!blank(body)) by {
        assert(!white_space(body[body.len() - 3]));
    }
    lines_closed(x);
    let quotation = lines(x);
    assert(quotation =~= lines(body).drop_last());
    quoted_is_in_quotes(quotation);
    last_line(x);
    quoted_end(quotation);
}

/// Nodes of which one says something say something.
proof fn said_by_one(t: Seq<NodeView>, ids: Seq<int>, k: int)
    requires
        0 <= k < ids.len(),
        block_lines(t[ids[k]].block).len() > 0,
    ensures
        said_by(t, ids).len() > 0,
    decreases ids.len(),
{
    let n = ids.len() - 1;
    a_paragraph_shows_its_block(t[ids.last()].role, t[ids.last()].block);
    if k < n {
        assert(ids.drop_last()[k] == ids[k]);
        said_by_one(t, ids.drop_last(), k);
    }
}

} // verus!
