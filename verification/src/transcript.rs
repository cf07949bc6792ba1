//! Rendering a conversation tree as markdown for the memory index.
use vstd::prelude::*;
use vstd::slice::slice_subrange;
use crate::number::{decimal, push_decimal};
use crate::text::{
    blank, chars_of, copy_of, first, first_bounds, is_blank, lines, push_all, push_str, slices,
    split_lines, string_of, stripped, stripped_end, stripped_start, trim, trim_end, trim_matches,
    trim_start, trimmed, trimmed_end, trimmed_start, without_return,
};
use crate::tree::{
    children_are, children_of, leaves_among, leaves_of, path_in_tree, path_to, positions,
    relabel_keeps_children, BlockView, ContentBlock, NodeId, NodeView, Role, Tree,
};

verus! {

/// The block's text, or `None` for a kind that is not written down.
///
/// Thinking blocks are deliberately dropped. They run several times the length
/// of a response and state every idea considered, including ones abandoned a
/// paragraph later, so indexing them would multiply the corpus while making a
/// query match mid-derivation hedging.
pub open spec fn written_text(block: BlockView) -> Option<Seq<char>> {
    match block {
        BlockView::Text { text } => Some(text),
        BlockView::Thinking { .. } => None,
    }
}

/// The text of a block that is written down.
fn text_of(block: &ContentBlock) -> (out: Option<&String>)
    ensures
        written_text(block@) == match out {
            Some(s) => Some(s@),
            None => None,
        },
{
    match block {
        ContentBlock::Text { text } => Some(text),
        ContentBlock::Thinking { .. } => None,
    }
}

/// The title: the first line of the opening user block.
pub open spec fn title(t: Seq<NodeView>) -> Seq<char> {
    match written_text(t[0].block) {
        Some(text) if lines(text).len() > 0 => lines(text)[0],
        _ => "untitled session"@,
    }
}

/// The title line: the first line of the opening user block.
fn title_of(tree: &Tree) -> (out: Vec<char>)
    requires
        tree.wf(),
    ensures
        out@ == title(tree@),
{
    proof {
        tree.wf_shape();
    }
    if let Some(block) = tree.block(tree.root()) {
        if let Some(text) = text_of(block) {
            let text = chars_of(text.as_str());
            let ls = split_lines(text.as_slice());
            if ls.len() > 0 {
                proof {
                    assert(lines(text@)[0] == slices(ls@)[0]);
                }
                return copy_of(ls[0]);
            }
            proof {
                assert(lines(text@).len() == slices(ls@).len());
            }
        }
    }
    chars_of("untitled session")
}

/// One role-grouped run of nodes on a branch.
#[verifier::ext_equal]
pub struct GroupView {
    pub role: Role,
    pub ids: Seq<int>,
}

/// Groups with one more node: in the last group where the role is the same, else
/// in a group of its own.
pub open spec fn with_node(groups: Seq<GroupView>, role: Role, id: int) -> Seq<GroupView> {
    if groups.len() > 0 && groups.last().role == role {
        groups.drop_last().push(GroupView { role, ids: groups.last().ids.push(id) })
    } else {
        groups.push(GroupView { role, ids: seq![id] })
    }
}

/// The consecutive nodes of the same role, grouped.
pub open spec fn groups_of(t: Seq<NodeView>, path: Seq<int>) -> Seq<GroupView>
    decreases path.len(),
{
    if path.len() == 0 {
        seq![]
    } else {
        with_node(groups_of(t, path.drop_last()), t[path.last()].role, path.last())
    }
}

/// One role-grouped run of blocks on a branch, and the nodes it came from.
struct Group {
    role: Role,
    ids: Vec<NodeId>,
}

spec fn group_view(g: Group) -> GroupView {
    GroupView { role: g.role, ids: positions(g.ids@) }
}

spec fn group_views(groups: Seq<Group>) -> Seq<GroupView> {
    groups.map_values(|g: Group| group_view(g))
}

/// Every position is that of a node.
pub open spec fn all_in(t: Seq<NodeView>, path: Seq<int>) -> bool {
    forall|k: int| 0 <= k < path.len() ==> 0 <= #[trigger] path[k] < t.len()
}

/// Groups consecutive same-role nodes, the way [`Tree::replay`] does, but keeping
/// the node ids so a later step can find what forked off each one.
fn group(tree: &Tree, path: &[NodeId]) -> (out: Vec<Group>)
    requires
        tree.wf(),
        all_in(tree@, positions(path@)),
    ensures
        group_views(out@) == groups_of(tree@, positions(path@)),
{
    let ghost all = positions(path@);
    let mut out: Vec<Group> = Vec::new();
    let mut k: usize = 0;
    proof {
        assert(all.take(0) =~= seq![]);
        assert(group_views(out@) =~= seq![]);
    }
    while k < path.len()
        invariant
            tree.wf(),
            k <= path@.len(),
            positions(path@) == all,
            all_in(tree@, all),
            group_views(out@) == groups_of(tree@, all.take(k as int)),
        decreases path.len() - k,
    {
        let id = path[k];
        let ghost before = out@;
        proof {
            assert(all[k as int] == id@);
            assert(all.take(k + 1).drop_last() =~= all.take(k as int));
            assert(group_views(before).len() == before.len());
            if before.len() > 0 {
                assert(group_views(before).last() == group_view(before.last()));
            }
        }
        if let Some(role) = tree.role(id) {
            let n: usize = out.len();
            if n > 0 && out[n - 1].role == role {
                out[n - 1].ids.push(id);
                proof {
                    assert(positions(out@[n - 1].ids@) =~= positions(before[n - 1].ids@).push(id@));
                    assert(group_views(out@) =~= with_node(group_views(before), role, id@));
                }
            } else {
                let mut ids: Vec<NodeId> = Vec::new();
                ids.push(id);
                let g = Group { role, ids };
                let ghost gv = group_view(g);
                out.push(g);
                proof {
                    assert(gv =~= (GroupView { role, ids: seq![id@] }));
                    assert(group_views(out@) =~= group_views(before).push(gv));
                }
            }
        }
        k += 1;
    }
    proof {
        assert(all.take(k as int) =~= all);
    }
    out
}

/// How many `c`s a text begins with.
pub open spec fn run_of(s: Seq<char>, c: char) -> nat
    decreases s.len(),
{
    if s.len() > 0 && s[0] == c {
        1 + run_of(s.skip(1), c)
    } else {
        0
    }
}

proof fn run_is(s: Seq<char>, c: char, n: int)
    requires
        0 <= n <= s.len(),
        forall|j: int| 0 <= j < n ==> s[j] == c,
        n == s.len() || s[n] != c,
    ensures
        run_of(s, c) == n,
    decreases n,
{
    if n > 0 {
        run_is(s.skip(1), c, n - 1);
    }
}

/// The run of fence characters that a line opens or closes with: three or more
/// backticks or tildes after leading white space.
pub open spec fn marker_of(line: Seq<char>) -> Option<Seq<char>> {
    let l = trimmed_start(line);
    if l.len() > 0 && (l[0] == '`' || l[0] == '~') && run_of(l, l[0]) >= 3 {
        Some(l.take(run_of(l, l[0]) as int))
    } else {
        None
    }
}

/// The run of fence characters this line opens or closes with, or `None` when the
/// line is not a fence.
///
/// The predicate has to be the chunker's, character for character: anything
/// looser or tighter here and the balancing below counts a different set of lines
/// than the reader does.
///
/// The whole run comes back rather than just three characters so that a closer
/// this module emits matches the opener it is closing.
fn fence_marker(line: &[char]) -> (out: Option<&[char]>)
    ensures
        marker_of(line@) == match out {
            Some(m) => Some(m@),
            None => None,
        },
{
    let l = trim_start(line);
    if l.len() == 0 {
        return None;
    }
    let c = l[0];
    if c != '`' && c != '~' {
        return None;
    }
    let mut n: usize = 0;
    while n < l.len() && l[n] == c
        invariant
            n <= l@.len(),
            forall|j: int| 0 <= j < n ==> l@[j] == c,
        decreases l.len() - n,
    {
        n += 1;
    }
    proof {
        run_is(l@, c, n as int);
    }
    if n < 3 {
        return None;
    }
    let out = slice_subrange(l, 0, n);
    proof {
        assert(out@ =~= l@.take(n as int));
    }
    Some(out)
}

/// The marker of the fence that is open after the given lines.
pub open spec fn open_marker(ls: Seq<Seq<char>>) -> Option<Seq<char>>
    decreases ls.len(),
{
    if ls.len() == 0 {
        None
    } else {
        match (marker_of(ls.last()), open_marker(ls.drop_last())) {
            (None, open) => open,
            (Some(marker), None) => Some(marker),
            (Some(_), Some(_)) => None,
        }
    }
}

/// The marker that would close this text's last unterminated fence, or `None`
/// when its fences already balance.
fn unclosed_fence<'a>(ls: &Vec<&'a [char]>) -> (out: Option<&'a [char]>)
    ensures
        open_marker(slices(ls@)) == match out {
            Some(m) => Some(m@),
            None => None,
        },
{
    let ghost all = slices(ls@);
    let mut open: Option<&'a [char]> = None;
    let mut k: usize = 0;
    proof {
        assert(all.take(0) =~= seq![]);
    }
    while k < ls.len()
        invariant
            k <= ls@.len(),
            all == slices(ls@),
            open_marker(all.take(k as int)) == match open {
                Some(m) => Some(m@),
                None => None,
            },
        decreases ls.len() - k,
    {
        proof {
            assert(all[k as int] == ls@[k as int]@);
            assert(all.take(k + 1).drop_last() =~= all.take(k as int));
        }
        if let Some(marker) = fence_marker(ls[k]) {
            open = match open {
                None => Some(marker),
                Some(_) => None,
            };
        }
        k += 1;
    }
    proof {
        assert(all.take(k as int) =~= all);
    }
    open
}

/// Who a block is labelled with.
pub open spec fn label_of(role: Role) -> Seq<char> {
    match role {
        Role::User => "user"@,
        Role::Assistant => "assistant"@,
    }
}

/// What stands between the label and the text: a line end where the text opens on
/// a fence, else a blank.
pub open spec fn gap_of(text: Seq<char>) -> char {
    if lines(text).len() > 0 && marker_of(lines(text)[0]) is Some {
        '\n'
    } else {
        ' '
    }
}

/// The line that closes a fence which the text left open.
pub open spec fn closer_of(text: Seq<char>) -> Seq<char> {
    match open_marker(lines(text)) {
        Some(marker) => marker.push('\n'),
        None => seq![],
    }
}

/// One block as a labelled paragraph with balanced fences, and nothing for a
/// block without text.
pub open spec fn paragraph(role: Role, block: BlockView) -> Seq<char> {
    match written_text(block) {
        Some(whole) => {
            let text = trimmed(whole);
            if text.len() == 0 {
                seq![]
            } else {
                ("**"@ + label_of(role) + ":**"@).push(gap_of(text)) + text.push('\n') + closer_of(
                    text,
                ).push('\n')
            }
        },
        None => seq![],
    }
}

/// The paragraphs of the given nodes, with one role.
pub open spec fn paragraphs(t: Seq<NodeView>, role: Role, ids: Seq<int>) -> Seq<char>
    decreases ids.len(),
{
    if ids.len() == 0 {
        seq![]
    } else {
        paragraphs(t, role, ids.drop_last()) + paragraph(role, t[ids.last()].block)
    }
}

/// The paragraphs of a list of groups.
pub open spec fn grouped_paragraphs(t: Seq<NodeView>, groups: Seq<GroupView>) -> Seq<char>
    decreases groups.len(),
{
    if groups.len() == 0 {
        seq![]
    } else {
        grouped_paragraphs(t, groups.drop_last()) + paragraphs(
            t,
            groups.last().role,
            groups.last().ids,
        )
    }
}

/// Writes one block as a labelled paragraph.
///
/// The label stays inline with the text unless the block opens on a code fence,
/// which is given its own line. The break is not typography. The chunker toggles
/// a fence flag on any line that starts with a fence and ignores headings while
/// it is set, so an opening fence swallowed into the label's line never toggles
/// while the closer on its own line does. The flag is then stuck on for the rest
/// of the file and every heading below reads as code, including the `### Not
/// continued` that is the only thing marking an abandoned branch as abandoned.
///
/// Moving the label is not sufficient on its own, which is why the block is also
/// balanced: an unterminated fence leaks into the next heading exactly the same
/// way.
fn write_block(out: &mut Vec<char>, role: Role, block: &ContentBlock)
    ensures
        final(out)@ == old(out)@ + paragraph(role, block@),
{
    let text = match text_of(block) {
        Some(text) => chars_of(text.as_str()),
        None => {
            proof {
                assert(out@ =~= old(out)@ + paragraph(role, block@));
            }
            return ;
        },
    };
    let text = trim(text.as_slice());
    if text.len() == 0 {
        proof {
            assert(out@ =~= old(out)@ + paragraph(role, block@));
        }
        return ;
    }
    let ls = split_lines(text);
    proof {
        assert(slices(ls@).len() == ls@.len());
    }
    let opens_on_fence = if ls.len() > 0 {
        proof {
            assert(slices(ls@)[0] == ls@[0]@);
        }
        fence_marker(ls[0]).is_some()
    } else {
        false
    };
    push_str(out, "**");
    match role {
        Role::User => push_str(out, "user"),
        Role::Assistant => push_str(out, "assistant"),
    }
    push_str(out, ":**");
    out.push(
        if opens_on_fence {
            '\n'
        } else {
            ' '
        },
    );
    push_all(out, text);
    out.push('\n');
    if let Some(marker) = unclosed_fence(&ls) {
        push_all(out, marker);
        out.push('\n');
    }
    out.push('\n');
    proof {
        assert(out@ =~= old(out)@ + paragraph(role, block@));
    }
}

/// Writes one group's blocks as labelled paragraphs.
fn write_group(out: &mut Vec<char>, tree: &Tree, g: &Group)
    requires
        tree.wf(),
        all_in(tree@, positions(g.ids@)),
    ensures
        final(out)@ == old(out)@ + paragraphs(tree@, g.role, positions(g.ids@)),
{
    let ghost ids = positions(g.ids@);
    let mut k: usize = 0;
    proof {
        assert(ids.take(0) =~= seq![]);
        assert(out@ =~= old(out)@ + paragraphs(tree@, g.role, ids.take(0)));
    }
    while k < g.ids.len()
        invariant
            tree.wf(),
            k <= g.ids@.len(),
            ids == positions(g.ids@),
            all_in(tree@, ids),
            out@ == old(out)@ + paragraphs(tree@, g.role, ids.take(k as int)),
        decreases g.ids.len() - k,
    {
        let ghost before = out@;
        proof {
            assert(ids[k as int] == g.ids@[k as int]@);
            assert(ids.take(k + 1).drop_last() =~= ids.take(k as int));
        }
        if let Some(block) = tree.block(g.ids[k]) {
            write_block(out, g.role, block);
        }
        k += 1;
        proof {
            assert(out@ =~= old(out)@ + paragraphs(tree@, g.role, ids.take(k as int)));
        }
    }
    proof {
        assert(ids.take(k as int) =~= ids);
    }
}

/// The nodes among the given ones whose path passes through `id`.
pub open spec fn passing_through(t: Seq<NodeView>, nodes: Seq<int>, id: int) -> Seq<int>
    decreases nodes.len(),
{
    if nodes.len() == 0 {
        seq![]
    } else {
        let rest = passing_through(t, nodes.drop_last(), id);
        if path_to(t, nodes.last()).contains(id) {
            rest.push(nodes.last())
        } else {
            rest
        }
    }
}

/// Every leaf under a node, the node itself where it is one, in creation order.
pub open spec fn leaves_below(t: Seq<NodeView>, id: int) -> Seq<int> {
    passing_through(t, leaves_of(t), id)
}

/// Where an id stands in a list of ids.
fn position_of(ids: &Vec<NodeId>, id: NodeId) -> (out: Option<usize>)
    ensures
        out is Some <==> positions(ids@).contains(id@),
        out matches Some(k) ==> k < ids@.len() && from_node(positions(ids@), id@) == positions(
            ids@,
        ).skip(k as int),
{
    let ghost all = positions(ids@);
    let mut k: usize = 0;
    proof {
        assert(all.skip(0) =~= all);
    }
    while k < ids.len()
        invariant
            k <= ids@.len(),
            all == positions(ids@),
            from_node(all, id@) == from_node(all.skip(k as int), id@),
            forall|j: int| 0 <= j < k ==> #[trigger] all[j] != id@,
        decreases ids.len() - k,
    {
        proof {
            assert(all[k as int] == ids@[k as int]@);
            assert(all.skip(k as int)[0] == all[k as int]);
            assert(all.skip(k as int).skip(1) =~= all.skip(k + 1));
        }
        if ids[k] == id {
            return Some(k);
        }
        k += 1;
    }
    None
}

/// The list from the given node on.
pub open spec fn from_node(path: Seq<int>, id: int) -> Seq<int>
    decreases path.len(),
{
    if path.len() == 0 || path[0] == id {
        path
    } else {
        from_node(path.skip(1), id)
    }
}

/// Every leaf under `id`, including `id` when it is itself a leaf.
///
/// Filtering the global leaf list by ancestry rather than walking the subtree: the
/// tree is one session, and this keeps traversal in [`Tree::path`], where the
/// termination argument already lives.
fn leaves_under(tree: &Tree, id: NodeId) -> (out: Vec<NodeId>)
    requires
        tree.wf(),
    ensures
        positions(out@) == leaves_below(tree@, id@),
        all_in(tree@, positions(out@)),
{
    let leaves = tree.leaves();
    let ghost all = leaves_of(tree@);
    let mut out: Vec<NodeId> = Vec::new();
    let mut k: usize = 0;
    proof {
        tree.wf_shape();
        leaves_in_tree(tree@, tree@.len() as int);
        assert(all.take(0) =~= seq![]);
        assert(positions(out@) =~= seq![]);
    }
    while k < leaves.len()
        invariant
            tree.wf(),
            k <= leaves@.len(),
            positions(leaves@) == all,
            all_in(tree@, all),
            positions(out@) == passing_through(tree@, all.take(k as int), id@),
            all_in(tree@, positions(out@)),
        decreases leaves.len() - k,
    {
        let leaf = leaves[k];
        proof {
            assert(all[k as int] == leaf@);
            assert(all.take(k + 1).drop_last() =~= all.take(k as int));
        }
        if let Some(path) = tree.path(leaf) {
            if position_of(&path, id).is_some() {
                let ghost before = out@;
                out.push(leaf);
                proof {
                    assert(positions(out@) =~= positions(before).push(leaf@));
                }
            }
        }
        k += 1;
    }
    proof {
        assert(all.take(k as int) =~= all);
    }
    out
}

pub proof fn leaves_in_tree(t: Seq<NodeView>, n: int)
    requires
        0 <= n <= t.len(),
    ensures
        forall|k: int|
            0 <= k < leaves_among(t, n).len() ==> 0 <= #[trigger] leaves_among(t, n)[k] < n,
    decreases n,
{
    if n > 0 {
        leaves_in_tree(t, n - 1);
        let all = leaves_among(t, n);
        assert forall|k: int| 0 <= k < all.len() implies 0 <= #[trigger] all[k] < n by {
            if k < leaves_among(t, n - 1).len() {
                assert(all[k] == leaves_among(t, n - 1)[k]);
            }
        }
    }
}

/// One line of a quotation.
pub open spec fn quoted_line(line: Seq<char>) -> Seq<char> {
    if line.len() == 0 {
        ">"@
    } else {
        "> "@ + line
    }
}

/// Lines as one quotation. A bare `>` rather than a bare line end stands for an
/// empty line, so the branch stays one blockquote instead of several.
pub open spec fn quoted(ls: Seq<Seq<char>>) -> Seq<char>
    decreases ls.len(),
{
    if ls.len() == 0 {
        seq![]
    } else {
        quoted(ls.drop_last()) + quoted_line(ls.last()).push('\n')
    }
}

/// The nodes of a branch from its head to its highest-numbered leaf.
pub open spec fn branch_of(t: Seq<NodeView>, head: int) -> Seq<int> {
    from_node(path_to(t, leaves_below(t, head).last()), head)
}

/// What an aside says, before it is quoted.
pub open spec fn aside_body(t: Seq<NodeView>, head: int) -> Seq<char> {
    if leaves_below(t, head).len() == 0 {
        seq![]
    } else {
        grouped_paragraphs(t, groups_of(t, branch_of(t, head)))
    }
}

/// One branch that was not continued, quoted under a heading that says so.
pub open spec fn aside(t: Seq<NodeView>, head: int) -> Seq<char> {
    let body = aside_body(t, head);
    if blank(body) {
        seq![]
    } else {
        "### Not continued\n\n"@ + quoted(lines(trimmed_end(body))) + "\n"@
    }
}

proof fn passing_through_passes(t: Seq<NodeView>, nodes: Seq<int>, id: int)
    ensures
        forall|k: int|
            0 <= k < passing_through(t, nodes, id).len() ==> path_to(
                t,
                #[trigger] passing_through(t, nodes, id)[k],
            ).contains(id),
    decreases nodes.len(),
{
    if nodes.len() > 0 {
        passing_through_passes(t, nodes.drop_last(), id);
        let all = passing_through(t, nodes, id);
        let rest = passing_through(t, nodes.drop_last(), id);
        assert forall|k: int| 0 <= k < all.len() implies path_to(t, #[trigger] all[k]).contains(
            id,
        ) by {
            if k < rest.len() {
                assert(all[k] == rest[k]);
            }
        }
    }
}

/// Writes the paragraphs of a path.
fn write_path(tree: &Tree, path: &[NodeId]) -> (out: Vec<char>)
    requires
        tree.wf(),
        all_in(tree@, positions(path@)),
    ensures
        out@ == grouped_paragraphs(tree@, groups_of(tree@, positions(path@))),
{
    let groups = group(tree, path);
    let ghost all = groups_of(tree@, positions(path@));
    let mut out: Vec<char> = Vec::new();
    let mut k: usize = 0;
    proof {
        groups_in_tree(tree@, positions(path@));
        assert(all.take(0) =~= seq![]);
    }
    while k < groups.len()
        invariant
            tree.wf(),
            k <= groups@.len(),
            group_views(groups@) == all,
            groups_in(tree@, all),
            out@ == grouped_paragraphs(tree@, all.take(k as int)),
        decreases groups.len() - k,
    {
        proof {
            assert(all[k as int] == group_view(groups@[k as int]));
            assert(all.take(k + 1).drop_last() =~= all.take(k as int));
        }
        write_group(&mut out, tree, &groups[k]);
        k += 1;
    }
    proof {
        assert(all.take(k as int) =~= all);
    }
    out
}

/// Every node of every group is a node of the tree.
pub open spec fn groups_in(t: Seq<NodeView>, groups: Seq<GroupView>) -> bool {
    forall|k: int| 0 <= k < groups.len() ==> all_in(t, (#[trigger] groups[k]).ids)
}

proof fn groups_in_tree(t: Seq<NodeView>, path: Seq<int>)
    requires
        all_in(t, path),
    ensures
        groups_in(t, groups_of(t, path)),
        groups_of(t, path).len() <= path.len(),
    decreases path.len(),
{
    if path.len() > 0 {
        let rest = path.drop_last();
        assert forall|k: int| 0 <= k < rest.len() implies 0 <= #[trigger] rest[k] < t.len() by {
            assert(rest[k] == path[k]);
        }
        groups_in_tree(t, rest);
        let old_groups = groups_of(t, rest);
        let all = groups_of(t, path);
        let id = path.last();
        assert(0 <= path[path.len() - 1] < t.len());
        assert forall|k: int| 0 <= k < all.len() implies all_in(t, (#[trigger] all[k]).ids) by {
            if k < old_groups.len() {
                assert(all_in(t, old_groups[k].ids));
                if all[k] != old_groups[k] {
                    assert(all[k].ids =~= old_groups[k].ids.push(id));
                }
            } else {
                assert(all[k].ids =~= seq![id]);
            }
        }
    }
}

/// Renders one abandoned branch, quoted, under its own heading.
///
/// The heading level is the safety mechanism, not decoration. The chunker turns
/// headings into a `heading_path` that every retrieval path prints verbatim, so a
/// level-3 heading here puts `Turn N > Not continued` on the chunk and no consumer
/// has to remember to say the idea was dropped.
///
/// The branch is followed to its own highest-numbered leaf, so a fork inside a
/// fork still renders as one readable run rather than stopping at the divergence.
fn write_aside(out: &mut Vec<char>, tree: &Tree, head: NodeId)
    requires
        tree.wf(),
        head@ < tree@.len(),
    ensures
        final(out)@ == old(out)@ + aside(tree@, head@),
{
    proof {
        tree.wf_shape();
    }
    let leaves = leaves_under(tree, head);
    let n: usize = leaves.len();
    proof {
        assert(positions(leaves@).len() == n);
    }
    if n == 0 {
        proof {
            assert(out@ =~= old(out)@ + aside(tree@, head@));
        }
        return ;
    }
    let tip = leaves[n - 1];
    proof {
        assert(positions(leaves@).last() == tip@);
        assert(positions(leaves@)[n - 1] == tip@);
        passing_through_passes(tree@, leaves_of(tree@), head@);
        path_in_tree(tree@, tip@);
    }
    if let Some(full) = tree.path(tip) {
        if let Some(start) = position_of(&full, head) {
            let branch = slice_subrange(full.as_slice(), start, full.len());
            proof {
                assert(positions(branch@) =~= positions(full@).skip(start as int));
                assert forall|k: int| 0 <= k < positions(branch@).len() implies 0
                    <= #[trigger] positions(branch@)[k] < tree@.len() by {
                    assert(positions(branch@)[k] == positions(full@)[k + start]);
                }
            }
            let body = write_path(tree, branch);
            if is_blank(body.as_slice()) {
                proof {
                    assert(out@ =~= old(out)@ + aside(tree@, head@));
                }
                return ;
            }
            push_str(out, "### Not continued\n\n");
            let ls = split_lines(trim_end(body.as_slice()));
            write_quoted(out, &ls);
            push_str(out, "\n");
            proof {
                assert(out@ =~= old(out)@ + aside(tree@, head@));
            }
        }
    }
}

/// Writes lines as one quotation.
fn write_quoted(out: &mut Vec<char>, ls: &Vec<&[char]>)
    ensures
        final(out)@ == old(out)@ + quoted(slices(ls@)),
{
    let ghost all = slices(ls@);
    let mut k: usize = 0;
    proof {
        assert(all.take(0) =~= seq![]);
        assert(out@ =~= old(out)@ + quoted(all.take(0)));
    }
    while k < ls.len()
        invariant
            k <= ls@.len(),
            all == slices(ls@),
            out@ == old(out)@ + quoted(all.take(k as int)),
        decreases ls.len() - k,
    {
        let line = ls[k];
        proof {
            assert(all[k as int] == line@);
            assert(all.take(k + 1).drop_last() =~= all.take(k as int));
        }
        if line.len() == 0 {
            push_str(out, ">");
        } else {
            push_str(out, "> ");
            push_all(out, line);
        }
        out.push('\n');
        k += 1;
        proof {
            assert(out@ =~= old(out)@ + quoted(all.take(k as int)));
        }
    }
    proof {
        assert(all.take(k as int) =~= all);
    }
}

/// The asides of the given children that are not on the path.
pub open spec fn asides_of(t: Seq<NodeView>, path: Seq<int>, children: Seq<int>) -> Seq<char>
    decreases children.len(),
{
    if children.len() == 0 {
        seq![]
    } else {
        asides_of(t, path, children.drop_last()) + if path.contains(children.last()) {
            seq![]
        } else {
            aside(t, children.last())
        }
    }
}

/// The asides that forked off the given nodes.
pub open spec fn forks_of(t: Seq<NodeView>, path: Seq<int>, ids: Seq<int>) -> Seq<char>
    decreases ids.len(),
{
    if ids.len() == 0 {
        seq![]
    } else {
        forks_of(t, path, ids.drop_last()) + asides_of(t, path, children_of(t, ids.last()))
    }
}

/// The live branch while it is written: the text so far, the asides of the turn
/// that is being written, and the number of that turn.
///
/// Asides are held back to the end of the turn they forked off. Emitting one the
/// moment its parent is written would drop a `### Not continued` between the user
/// block and the reply, splitting the turn it belongs to.
#[verifier::ext_equal]
pub struct Spine {
    pub out: Seq<char>,
    pub asides: Seq<char>,
    pub turn: nat,
}

/// The heading of a turn.
pub open spec fn turn_heading(turn: nat) -> Seq<char> {
    "## Turn "@ + decimal(turn) + "\n\n"@
}

/// One more group: a user's group opens the next turn.
pub open spec fn spine_group(t: Seq<NodeView>, path: Seq<int>, s: Spine, g: GroupView) -> Spine {
    let opened = if g.role == Role::User {
        Spine {
            out: s.out + s.asides + turn_heading(s.turn + 1),
            asides: seq![],
            turn: s.turn + 1,
        }
    } else {
        s
    };
    Spine {
        out: opened.out + paragraphs(t, g.role, g.ids),
        asides: opened.asides + forks_of(t, path, g.ids),
        turn: opened.turn,
    }
}

/// The groups of the live branch, written in order.
pub open spec fn spine_of(t: Seq<NodeView>, path: Seq<int>, groups: Seq<GroupView>) -> Spine
    decreases groups.len(),
{
    if groups.len() == 0 {
        Spine { out: seq![], asides: seq![], turn: 0 }
    } else {
        spine_group(t, path, spine_of(t, path, groups.drop_last()), groups.last())
    }
}

/// The live branch, numbered in turns, and every branch that forked off it.
pub open spec fn spine_text(t: Seq<NodeView>, path: Seq<int>) -> Seq<char> {
    let s = spine_of(t, path, groups_of(t, path));
    s.out + s.asides
}

/// Writes the asides that forked off a node.
fn write_forks(out: &mut Vec<char>, tree: &Tree, path: &Vec<NodeId>, id: NodeId)
    requires
        tree.wf(),
        id@ < tree@.len(),
    ensures
        final(out)@ == old(out)@ + asides_of(
            tree@,
            positions(path@),
            children_of(tree@, id@),
        ),
{
    if let Some(children) = tree.children(id) {
        let ghost all = children_of(tree@, id@);
        let mut k: usize = 0;
        proof {
            children_are(tree@, id@);
            assert(all.take(0) =~= seq![]);
            assert(out@ =~= old(out)@ + asides_of(tree@, positions(path@), all.take(0)));
        }
        while k < children.len()
            invariant
                tree.wf(),
                k <= children@.len(),
                positions(children@) == all,
                all_in(tree@, all),
                out@ == old(out)@ + asides_of(tree@, positions(path@), all.take(k as int)),
            decreases children.len() - k,
        {
            let child = children[k];
            proof {
                assert(all[k as int] == child@);
                assert(all.take(k + 1).drop_last() =~= all.take(k as int));
            }
            if position_of(path, child).is_none() {
                write_aside(out, tree, child);
            }
            k += 1;
            proof {
                assert(out@ =~= old(out)@ + asides_of(
                    tree@,
                    positions(path@),
                    all.take(k as int),
                ));
            }
        }
        proof {
            assert(all.take(k as int) =~= all);
        }
    }
}

/// Writes the live branch, numbering turns from its user blocks, and every branch
/// that forked off it as an aside.
///
/// `path` is the spine, root first, as the caller's tip resolves it.
fn write_spine(tree: &Tree, path: &Vec<NodeId>) -> (out: Vec<char>)
    requires
        tree.wf(),
        all_in(tree@, positions(path@)),
    ensures
        out@ == spine_text(tree@, positions(path@)),
{
    let groups = group(tree, path.as_slice());
    let ghost p = positions(path@);
    let ghost all = groups_of(tree@, p);
    let mut out: Vec<char> = Vec::new();
    let mut asides: Vec<char> = Vec::new();
    let mut turn: u64 = 0;
    let mut k: usize = 0;
    proof {
        groups_in_tree(tree@, p);
        assert(all.take(0) =~= seq![]);
    }
    while k < groups.len()
        invariant
            tree.wf(),
            k <= groups@.len(),
            group_views(groups@) == all,
            groups_in(tree@, all),
            p == positions(path@),
            turn <= k,
            ({
                let s = spine_of(tree@, p, all.take(k as int));
                &&& out@ == s.out
                &&& asides@ == s.asides
                &&& turn == s.turn
            }),
        decreases groups.len() - k,
    {
        let g = &groups[k];
        let ghost s = spine_of(tree@, p, all.take(k as int));
        proof {
            assert(all[k as int] == group_view(*g));
            assert(all.take(k + 1).drop_last() =~= all.take(k as int));
        }
        if g.role == Role::User {
            push_all(&mut out, asides.as_slice());
            asides = Vec::new();
            turn = turn + 1;
            push_str(&mut out, "## Turn ");
            push_decimal(&mut out, turn);
            push_str(&mut out, "\n\n");
            proof {
                assert(out@ =~= s.out + s.asides + turn_heading(s.turn + 1));
            }
        }
        let ghost opened = asides@;
        write_group(&mut out, tree, g);
        let ghost ids = positions(g.ids@);
        let mut j: usize = 0;
        proof {
            assert(ids.take(0) =~= seq![]);
            assert(asides@ =~= opened + forks_of(tree@, p, ids.take(0)));
        }
        while j < g.ids.len()
            invariant
                tree.wf(),
                j <= g.ids@.len(),
                ids == positions(g.ids@),
                all_in(tree@, ids),
                p == positions(path@),
                asides@ == opened + forks_of(tree@, p, ids.take(j as int)),
            decreases g.ids.len() - j,
        {
            proof {
                assert(ids[j as int] == g.ids@[j as int]@);
                assert(ids.take(j + 1).drop_last() =~= ids.take(j as int));
            }
            write_forks(&mut asides, tree, path, g.ids[j]);
            j += 1;
            proof {
                assert(asides@ =~= opened + forks_of(tree@, p, ids.take(j as int)));
            }
        }
        k += 1;
        proof {
            assert(ids.take(j as int) =~= ids);
        }
    }
    push_all(&mut out, asides.as_slice());
    proof {
        assert(all.take(k as int) =~= all);
    }
    out
}

/// The document before its end is trimmed.
pub open spec fn untrimmed_document(t: Seq<NodeView>, tip: int, captured: Seq<char>) -> Seq<char> {
    "---\ntype: transcript\ncaptured: "@ + captured + "\n---\n\n"@ + "# "@ + title(t) + "\n\n"@
        + spine_text(t, path_to(t, tip))
}

/// A whole tree as one markdown document.
pub open spec fn document(t: Seq<NodeView>, tip: int, captured: Seq<char>) -> Seq<char> {
    trimmed_end(untrimmed_document(t, tip, captured)).push('\n')
}

/// Renders the whole tree as one markdown document.
///
/// `captured` is an ISO date. It goes into frontmatter under the keys `type` and
/// `captured`, which are what the chunker reads.
///
/// The H1 is a heading rather than the note's title: the indexer takes the title
/// from the filename stem, and headings become the `heading_path` that every chunk
/// carries.
///
/// `tip` is the live branch, and it is an argument because the renderer cannot
/// work it out. Recency does not answer it: the harness forks and regenerates, so
/// the branch it threw away is the one holding the highest node ids.
///
/// A `tip` that is not a leaf is a legal thing to ask for and means what it says:
/// the spine ends there, and whatever hangs below it renders as an aside like any
/// other branch that was not continued.
///
/// A `tip` that is not a node of this tree returns `None`.
pub fn render(tree: &Tree, tip: NodeId, captured: &str) -> (out: Option<String>)
    requires
        tree.wf(),
    ensures
        out is Some <==> tip@ < tree@.len(),
        out matches Some(text) ==> text@ == document(tree@, tip@, captured@),
{
    let path = match tree.path(tip) {
        Some(path) => path,
        None => return None,
    };
    proof {
        tree.wf_shape();
        path_in_tree(tree@, tip@);
    }
    let mut out: Vec<char> = Vec::new();
    push_str(&mut out, "---\ntype: transcript\ncaptured: ");
    push_str(&mut out, captured);
    push_str(&mut out, "\n---\n\n");
    push_str(&mut out, "# ");
    push_all(&mut out, title_of(tree).as_slice());
    push_str(&mut out, "\n\n");
    push_all(&mut out, write_spine(tree, &path).as_slice());
    proof {
        assert(out@ =~= untrimmed_document(tree@, tip@, captured@));
    }
    let mut text: Vec<char> = copy_of(trim_end(out.as_slice()));
    text.push('\n');
    Some(string_of(text.as_slice()))
}

/// Longest slug allowed, in characters, before the date and extension.
///
/// 60 keeps the whole name well inside the 255-byte component limit every
/// filesystem this runs on enforces, with room for the date, the extension, and a
/// title whose first line is a paragraph.
pub const SLUG_CHARS: usize = 60;

/// An ASCII letter or digit.
pub open spec fn alphanumeric(c: char) -> bool {
    ||| '0' as int <= c as int <= '9' as int
    ||| 'A' as int <= c as int <= 'Z' as int
    ||| 'a' as int <= c as int <= 'z' as int
}

/// An ASCII letter in lower case; any other character as it is.
pub open spec fn lowercase(c: char) -> char {
    if 'A' as int <= c as int <= 'Z' as int {
        (c as int + 32) as char
    } else {
        c
    }
}

/// The slug of a text: letters and digits in lower case, a dash for each run of
/// anything else that does not begin the text, cut at the cap.
pub open spec fn slug_of(s: Seq<char>) -> Seq<char>
    decreases s.len(),
{
    if s.len() == 0 {
        seq![]
    } else {
        let slug = slug_of(s.drop_last());
        let c = s.last();
        if slug.len() >= SLUG_CHARS {
            slug
        } else if alphanumeric(c) {
            slug.push(lowercase(c))
        } else if slug.len() == 0 || slug.last() == '-' {
            slug
        } else {
            slug.push('-')
        }
    }
}

/// The name of a session's file.
pub open spec fn session_name(t: Seq<NodeView>, captured: Seq<char>) -> Seq<char> {
    let slug = stripped(slug_of(title(t)), '-');
    if slug.len() == 0 {
        captured + "-session.md"@
    } else {
        captured + "-"@ + slug + ".md"@
    }
}

fn is_alphanumeric(c: char) -> (r: bool)
    ensures
        r == alphanumeric(c),
{
    let n: u32 = c as u32;
    (48 <= n && n <= 57) || (65 <= n && n <= 90) || (97 <= n && n <= 122)
}

fn to_lowercase(c: char) -> (out: char)
    ensures
        out == lowercase(c),
{
    let n: u32 = c as u32;
    if 65 <= n && n <= 90 {
        (n as u8 + 32u8) as char
    } else {
        c
    }
}

/// A filesystem-safe, readable stem for this session.
///
/// The stem is not cosmetic: the indexer passes it to the chunker as the note
/// title, and the chunker prepends it to the text of every chunk in the file. A
/// session id here would put a session id in every embedding.
///
/// ASCII-only, which mangles a title in any other script down to the fallback. The
/// trade is taken for the manifest's sake rather than for portability: macOS
/// normalizes filenames to NFD while the string written here is NFC, so a
/// non-ASCII name read back off the disk is not byte-equal to the one written.
///
/// The fallback is `{captured}-session.md` rather than a bare date: the stem is a
/// chunk prefix, and a date alone reads as a date stamp on the content instead of
/// as what the file is.
///
/// Two sessions whose titles slug the same on the same day land on the same name,
/// and the second overwrites the first. It is the same property that makes the
/// caller's rewrite idempotent.
pub fn filename(tree: &Tree, captured: &str) -> (out: String)
    requires
        tree.wf(),
    ensures
        out@ == session_name(tree@, captured@),
{
    let title = title_of(tree);
    let ghost all = title@;
    let mut slug: Vec<char> = Vec::new();
    let mut k: usize = 0;
    proof {
        assert(all.take(0) =~= seq![]);
    }
    while k < title.len()
        invariant
            k <= title@.len(),
            title@ == all,
            slug@ == slug_of(all.take(k as int)),
        decreases title.len() - k,
    {
        let c = title[k];
        let n: usize = slug.len();
        proof {
            assert(all.take(k + 1).drop_last() =~= all.take(k as int));
        }
        if n < SLUG_CHARS {
            if is_alphanumeric(c) {
                slug.push(to_lowercase(c));
            } else if n > 0 && slug[n - 1] != '-' {
                slug.push('-');
            }
        }
        k += 1;
    }
    proof {
        assert(all.take(k as int) =~= all);
    }
    let stem = trim_matches(slug.as_slice(), '-');
    let mut out: Vec<char> = chars_of(captured);
    if stem.len() == 0 {
        push_str(&mut out, "-session.md");
    } else {
        push_str(&mut out, "-");
        push_all(&mut out, stem);
        push_str(&mut out, ".md");
    }
    string_of(out.as_slice())
}

/// Two trees with the same links, the same roles and the same written text.
pub open spec fn written_alike(t: Seq<NodeView>, u: Seq<NodeView>) -> bool {
    &&& t.len() == u.len()
    &&& forall|i: int|
        #![trigger t[i]]
        #![trigger u[i]]
        0 <= i < t.len() ==> t[i].parent == u[i].parent && t[i].role == u[i].role && written_text(
            t[i].block,
        ) == written_text(u[i].block)
}

proof fn alike_paths(t: Seq<NodeView>, u: Seq<NodeView>, id: int)
    requires
        written_alike(t, u),
        0 <= id < t.len(),
    ensures
        path_to(t, id) == path_to(u, id),
        all_in(t, path_to(t, id)),
    decreases id,
{
    assert(t[id].parent == u[id].parent);
    match t[id].parent {
        Some(p) if 0 <= p < id => {
            alike_paths(t, u, p);
        },
        _ => {},
    }
}

proof fn alike_leaves(t: Seq<NodeView>, u: Seq<NodeView>, n: int)
    requires
        written_alike(t, u),
    ensures
        leaves_among(t, n) == leaves_among(u, n),
    decreases n,
{
    if n > 0 {
        alike_leaves(t, u, n - 1);
        relabel_keeps_children(t, u, n - 1);
    }
}

proof fn alike_passing(t: Seq<NodeView>, u: Seq<NodeView>, nodes: Seq<int>, id: int)
    requires
        written_alike(t, u),
        all_in(t, nodes),
    ensures
        passing_through(t, nodes, id) == passing_through(u, nodes, id),
        all_in(t, passing_through(t, nodes, id)),
    decreases nodes.len(),
{
    if nodes.len() > 0 {
        all_in_rest(t, nodes);
        alike_passing(t, u, nodes.drop_last(), id);
        alike_paths(t, u, nodes.last());
    }
}

proof fn all_in_rest(t: Seq<NodeView>, nodes: Seq<int>)
    requires
        all_in(t, nodes),
        nodes.len() > 0,
    ensures
        all_in(t, nodes.drop_last()),
        0 <= nodes.last() < t.len(),
{
    let rest = nodes.drop_last();
    assert forall|k: int| 0 <= k < rest.len() implies 0 <= #[trigger] rest[k] < t.len() by {
        assert(rest[k] == nodes[k]);
    }
    assert(0 <= nodes[nodes.len() - 1] < t.len());
}

proof fn alike_groups(t: Seq<NodeView>, u: Seq<NodeView>, path: Seq<int>)
    requires
        written_alike(t, u),
        all_in(t, path),
    ensures
        groups_of(t, path) == groups_of(u, path),
    decreases path.len(),
{
    if path.len() > 0 {
        all_in_rest(t, path);
        alike_groups(t, u, path.drop_last());
        assert(t[path.last()].role == u[path.last()].role);
    }
}

proof fn alike_paragraphs(t: Seq<NodeView>, u: Seq<NodeView>, role: Role, ids: Seq<int>)
    requires
        written_alike(t, u),
        all_in(t, ids),
    ensures
        paragraphs(t, role, ids) == paragraphs(u, role, ids),
    decreases ids.len(),
{
    if ids.len() > 0 {
        all_in_rest(t, ids);
        alike_paragraphs(t, u, role, ids.drop_last());
        assert(written_text(t[ids.last()].block) == written_text(u[ids.last()].block));
    }
}

proof fn alike_grouped(t: Seq<NodeView>, u: Seq<NodeView>, groups: Seq<GroupView>)
    requires
        written_alike(t, u),
        groups_in(t, groups),
    ensures
        grouped_paragraphs(t, groups) == grouped_paragraphs(u, groups),
    decreases groups.len(),
{
    if groups.len() > 0 {
        let rest = groups.drop_last();
        assert forall|k: int| 0 <= k < rest.len() implies all_in(t, (#[trigger] rest[k]).ids) by {
            assert(rest[k] == groups[k]);
        }
        alike_grouped(t, u, rest);
        assert(all_in(t, groups[groups.len() - 1].ids));
        alike_paragraphs(t, u, groups.last().role, groups.last().ids);
    }
}

proof fn from_node_in(t: Seq<NodeView>, path: Seq<int>, id: int)
    requires
        all_in(t, path),
    ensures
        all_in(t, from_node(path, id)),
    decreases path.len(),
{
    if path.len() > 0 && path[0] != id {
        let rest = path.skip(1);
        assert forall|k: int| 0 <= k < rest.len() implies 0 <= #[trigger] rest[k] < t.len() by {
            assert(rest[k] == path[k + 1]);
        }
        from_node_in(t, rest, id);
    }
}

proof fn alike_aside(t: Seq<NodeView>, u: Seq<NodeView>, head: int)
    requires
        written_alike(t, u),
    ensures
        aside(t, head) == aside(u, head),
{
    let n = t.len() as int;
    alike_leaves(t, u, n);
    leaves_in_tree(t, n);
    alike_passing(t, u, leaves_of(t), head);
    let below = leaves_below(t, head);
    if below.len() > 0 {
        all_in_rest(t, below);
        alike_paths(t, u, below.last());
        let branch = branch_of(t, head);
        from_node_in(t, path_to(t, below.last()), head);
        alike_groups(t, u, branch);
        groups_in_tree(t, branch);
        alike_grouped(t, u, groups_of(t, branch));
    }
}

proof fn alike_asides(t: Seq<NodeView>, u: Seq<NodeView>, path: Seq<int>, children: Seq<int>)
    requires
        written_alike(t, u),
    ensures
        asides_of(t, path, children) == asides_of(u, path, children),
    decreases children.len(),
{
    if children.len() > 0 {
        alike_asides(t, u, path, children.drop_last());
        alike_aside(t, u, children.last());
    }
}

proof fn alike_forks(t: Seq<NodeView>, u: Seq<NodeView>, path: Seq<int>, ids: Seq<int>)
    requires
        written_alike(t, u),
    ensures
        forks_of(t, path, ids) == forks_of(u, path, ids),
    decreases ids.len(),
{
    if ids.len() > 0 {
        alike_forks(t, u, path, ids.drop_last());
        relabel_keeps_children(t, u, ids.last());
        alike_asides(t, u, path, children_of(t, ids.last()));
    }
}

proof fn alike_spine(t: Seq<NodeView>, u: Seq<NodeView>, path: Seq<int>, groups: Seq<GroupView>)
    requires
        written_alike(t, u),
        groups_in(t, groups),
    ensures
        spine_of(t, path, groups) == spine_of(u, path, groups),
    decreases groups.len(),
{
    if groups.len() > 0 {
        let rest = groups.drop_last();
        let g = groups.last();
        assert forall|k: int| 0 <= k < rest.len() implies all_in(t, (#[trigger] rest[k]).ids) by {
            assert(rest[k] == groups[k]);
        }
        alike_spine(t, u, path, rest);
        assert(all_in(t, groups[groups.len() - 1].ids));
        alike_paragraphs(t, u, g.role, g.ids);
        alike_forks(t, u, path, g.ids);
    }
}

/// Thinking leaves no trace in a transcript, and neither do labels: trees that
/// differ in nothing else render to the same document.
pub proof fn thinking_leaves_no_trace(
    t: Seq<NodeView>,
    u: Seq<NodeView>,
    tip: int,
    captured: Seq<char>,
)
    requires
        written_alike(t, u),
        0 <= tip < t.len(),
    ensures
        document(t, tip, captured) == document(u, tip, captured),
        session_name(t, captured) == session_name(u, captured),
{
    alike_paths(t, u, tip);
    let path = path_to(t, tip);
    alike_groups(t, u, path);
    groups_in_tree(t, path);
    alike_spine(t, u, path, groups_of(t, path));
    assert(written_text(t[0].block) == written_text(u[0].block));
}

/// A character that may stand in a session's name behind the date.
pub open spec fn name_char(c: char) -> bool {
    ||| '0' as int <= c as int <= '9' as int
    ||| 'a' as int <= c as int <= 'z' as int
    ||| c == '-'
    ||| c == '.'
}

spec fn all_name_chars(s: Seq<char>) -> bool {
    forall|i: int| 0 <= i < s.len() ==> name_char(#[trigger] s[i])
}

proof fn slug_is_safe(s: Seq<char>)
    ensures
        slug_of(s).len() <= SLUG_CHARS,
        all_name_chars(slug_of(s)),
    decreases s.len(),
{
    if s.len() > 0 {
        slug_is_safe(s.drop_last());
        let slug = slug_of(s.drop_last());
        let c = s.last();
        if slug.len() < SLUG_CHARS && alphanumeric(c) {
            assert(name_char(lowercase(c)));
        }
    }
}

proof fn stripped_is_safe(s: Seq<char>)
    requires
        all_name_chars(s),
    ensures
        all_name_chars(stripped(s, '-')),
        stripped(s, '-').len() <= s.len(),
{
    stripped_start_is_safe(s);
    stripped_end_is_safe(stripped_start(s, '-'));
}

proof fn stripped_start_is_safe(s: Seq<char>)
    requires
        all_name_chars(s),
    ensures
        all_name_chars(stripped_start(s, '-')),
        stripped_start(s, '-').len() <= s.len(),
    decreases s.len(),
{
    if s.len() > 0 && s[0] == '-' {
        assert forall|i: int| 0 <= i < s.skip(1).len() implies name_char(#[trigger] s.skip(1)[i]) by {
            assert(s.skip(1)[i] == s[i + 1]);
        }
        stripped_start_is_safe(s.skip(1));
    }
}

proof fn stripped_end_is_safe(s: Seq<char>)
    requires
        all_name_chars(s),
    ensures
        all_name_chars(stripped_end(s, '-')),
        stripped_end(s, '-').len() <= s.len(),
    decreases s.len(),
{
    if s.len() > 0 && s.last() == '-' {
        assert forall|i: int| 0 <= i < s.drop_last().len() implies name_char(
            #[trigger] s.drop_last()[i],
        ) by {
            assert(s.drop_last()[i] == s[i]);
        }
        stripped_end_is_safe(s.drop_last());
    }
}

/// A session's name is one path component of bounded length: behind the date stand
/// lower-case letters, digits, dashes and the extension, whatever the title.
pub proof fn a_session_name_is_safe_and_bounded(t: Seq<NodeView>, captured: Seq<char>)
    ensures
        captured.is_prefix_of(session_name(t, captured)),
        ".md"@.is_suffix_of(session_name(t, captured)),
        session_name(t, captured).len() <= captured.len() + SLUG_CHARS + 4,
        forall|i: int|
            captured.len() <= i < session_name(t, captured).len() ==> name_char(
                #[trigger] session_name(t, captured)[i],
            ),
{
    reveal_strlit("-session.md");
    reveal_strlit("-");
    reveal_strlit(".md");
    slug_is_safe(title(t));
    stripped_is_safe(slug_of(title(t)));
    let slug = stripped(slug_of(title(t)), '-');
    let name = session_name(t, captured);
    let n = captured.len();
    assert(captured =~= name.subrange(0, n as int));
    assert(".md"@ =~= name.subrange(name.len() - 3, name.len() as int));
    assert forall|i: int| n <= i < name.len() implies name_char(#[trigger] name[i]) by {
        if slug.len() == 0 {
            assert(name[i] == "-session.md"@[i - n]);
        } else if i == n {
            assert(name[i] == '-');
        } else if i < n + 1 + slug.len() {
            assert(name[i] == slug[i - n - 1]);
        } else {
            assert(name[i] == ".md"@[i - n - 1 - slug.len()]);
        }
    }
}

/// The letters and digits of a text, in lower case.
pub open spec fn letters_of(s: Seq<char>) -> Seq<char>
    decreases s.len(),
{
    if s.len() == 0 {
        seq![]
    } else if alphanumeric(s.last()) {
        letters_of(s.drop_last()).push(lowercase(s.last()))
    } else {
        letters_of(s.drop_last())
    }
}

proof fn letters_concat(a: Seq<char>, b: Seq<char>)
    ensures
        letters_of(a + b) == letters_of(a) + letters_of(b),
    decreases b.len(),
{
    if b.len() == 0 {
        assert(a + b =~= a);
        assert(letters_of(a) + letters_of(b) =~= letters_of(a));
    } else {
        letters_concat(a, b.drop_last());
        assert((a + b).drop_last() =~= a + b.drop_last());
        assert(letters_of(a + b) =~= letters_of(a) + letters_of(b));
    }
}

/// A slug spells its text: its letters and digits are the first ones of the text, and all
/// of them where the slug is not cut.
proof fn a_slug_spells_its_text(s: Seq<char>)
    ensures
        letters_of(slug_of(s)).is_prefix_of(letters_of(s)),
        slug_of(s).len() < SLUG_CHARS ==> letters_of(slug_of(s)) == letters_of(s),
        slug_of(s).len() <= SLUG_CHARS,
        forall|i: int|
            0 <= i < slug_of(s).len() ==> (#[trigger] slug_of(s)[i]) == '-' || (alphanumeric(
                slug_of(s)[i],
            ) && lowercase(slug_of(s)[i]) == slug_of(s)[i]),
        slug_of(s).len() > 0 ==> slug_of(s)[0] != '-',
    decreases s.len(),
{
    if s.len() > 0 {
        let rest = s.drop_last();
        let before = slug_of(rest);
        let slug = slug_of(s);
        let c = s.last();
        a_slug_spells_its_text(rest);
        assert(letters_of(before) =~= letters_of(rest).subrange(
            0,
            letters_of(before).len() as int,
        ));
        if slug.len() > before.len() {
            assert(slug.drop_last() =~= before);
        }
        assert(letters_of(slug) =~= letters_of(s).subrange(0, letters_of(slug).len() as int));
    } else {
        assert(letters_of(s).subrange(0, 0) =~= letters_of(slug_of(s)));
    }
}

proof fn stripping_dashes_keeps_letters(s: Seq<char>)
    ensures
        letters_of(stripped_end(s, '-')) == letters_of(s),
    decreases s.len(),
{
    if s.len() > 0 && s.last() == '-' {
        stripping_dashes_keeps_letters(s.drop_last());
    }
}

/// A session is named after its title: behind the date stand the letters and digits of the
/// title, in lower case and in order, all of them unless the name is cut at its cap; and
/// the fallback stands there exactly where the title has none.
pub proof fn a_session_is_named_after_its_title(t: Seq<NodeView>, captured: Seq<char>)
    ensures
        ({
            let name = session_name(t, captured);
            let letters = letters_of(title(t));
            &&& letters.len() == 0 ==> name == captured + "-session.md"@
            &&& letters.len() > 0 ==> exists|slug: Seq<char>|
                name == captured + "-"@ + slug + ".md"@ && #[trigger] letters_of(slug).len() > 0
                    && letters_of(slug).is_prefix_of(letters) && (letters_of(slug) == letters
                    || letters_of(slug_of(title(t))) == letters_of(slug) && slug_of(title(t)).len()
                    == 60)
        }),
{
    let s = title(t);
    let raw = slug_of(s);
    let slug = stripped(raw, '-');
    a_slug_spells_its_text(s);
    assert(stripped_start(raw, '-') == raw);
    stripping_dashes_keeps_letters(raw);
    assert(letters_of(slug) == letters_of(raw));
    if slug.len() == 0 {
        assert(letters_of(slug).len() == 0);
        if raw.len() > 0 {
            raw_keeps_its_first_letter(raw);
        }
    }
    if letters_of(s).len() == 0 {
        if raw.len() > 0 {
            raw_keeps_its_first_letter(raw);
        }
    } else {
        if raw.len() < SLUG_CHARS {
        } else {
            raw_keeps_its_first_letter(raw);
        }
    }
}

/// A slug that begins with a letter or digit has one.
proof fn raw_keeps_its_first_letter(raw: Seq<char>)
    requires
        raw.len() > 0,
        alphanumeric(raw[0]),
    ensures
        letters_of(raw).len() > 0,
{
    let one = raw.take(1);
    letters_concat(one, raw.skip(1));
    assert(raw =~= one + raw.skip(1));
    assert(one.drop_last() =~= seq![]);
    assert(letters_of(one.drop_last()) =~= seq![]);
    assert(letters_of(one).len() == 1);
}

/// A session is titled by its first line: the title holds no line feed, and the opening
/// text is the title alone, or goes on behind it on another line. Without an opening line
/// the title says so.
pub proof fn a_session_is_titled_by_its_first_line(t: Seq<NodeView>, text: Seq<char>)
    requires
        t.len() > 0,
        t[0].block == (BlockView::Text { text }),
    ensures
        text.len() == 0 ==> title(t) == "untitled session"@,
        text.len() > 0 ==> !title(t).contains('\n') && (text == title(t) || title(t).push(
            '\n',
        ).is_prefix_of(text) || title(t).push('\r').push('\n').is_prefix_of(text)),
{
    if text.len() > 0 {
        first_bounds(text, '\n');
        let n = first(text, '\n') as int;
        let line = text.take(n);
        assert(!line.contains('\n')) by {
            if line.contains('\n') {
                let k = choose|k: int| 0 <= k < line.len() && line[k] == '\n';
                assert(text[k] == '\n');
            }
        }
        if n < text.len() {
            let first_line = without_return(line);
            assert(title(t) == first_line);
            if first_line.len() < line.len() {
                assert(first_line.push('\r').push('\n') =~= text.subrange(
                    0,
                    first_line.len() as int + 2,
                ));
                assert(!first_line.contains('\n')) by {
                    if first_line.contains('\n') {
                        let k = choose|k: int| 0 <= k < first_line.len() && first_line[k] == '\n';
                        assert(line[k] == '\n');
                    }
                }
            } else {
                assert(first_line.push('\n') =~= text.subrange(0, first_line.len() as int + 1));
            }
        } else {
            assert(line =~= text);
            assert(title(t) == text);
        }
    }
}

/// A line opens or closes a fence exactly where, leading white space aside, it begins with
/// three or more backticks or tildes, and its mark is all of them.
pub proof fn a_fence_mark_is_the_whole_run(line: Seq<char>)
    ensures
        ({
            let l = trimmed_start(line);
            &&& marker_of(line) is Some <==> l.len() >= 3 && (l[0] == '`' || l[0] == '~') && l[1]
                == l[0] && l[2] == l[0]
            &&& marker_of(line) matches Some(mark) ==> mark.is_prefix_of(l) && (forall|j: int|
                0 <= j < mark.len() ==> #[trigger] mark[j] == l[0]) && (mark.len() == l.len()
                || l[mark.len() as int] != l[0])
        }),
{
    let l = trimmed_start(line);
    if l.len() > 0 {
        run_bounds(l, l[0]);
        let n = run_of(l, l[0]) as int;
        if l.len() >= 3 && l[1] == l[0] && l[2] == l[0] {
            if n < 3 {
                assert(l[n] != l[0]);
            }
        }
        if n >= 3 {
            assert(l[1] == l[0] && l[2] == l[0]);
            assert(l.take(n) =~= l.subrange(0, n));
        }
    }
}

proof fn run_bounds(s: Seq<char>, c: char)
    ensures
        run_of(s, c) <= s.len(),
        forall|j: int| 0 <= j < run_of(s, c) ==> #[trigger] s[j] == c,
        run_of(s, c) < s.len() ==> s[run_of(s, c) as int] != c,
    decreases s.len(),
{
    if s.len() > 0 && s[0] == c {
        run_bounds(s.skip(1), c);
        assert forall|j: int| 0 <= j < run_of(s, c) implies #[trigger] s[j] == c by {
            if j > 0 {
                assert(s.skip(1)[j - 1] == s[j]);
            }
        }
    }
}

/// How many lines of a list are fences.
pub open spec fn fence_lines(ls: Seq<Seq<char>>) -> nat
    decreases ls.len(),
{
    if ls.len() == 0 {
        0
    } else {
        fence_lines(ls.drop_last()) + if marker_of(ls.last()) is Some {
            1nat
        } else {
            0nat
        }
    }
}

/// A text leaves a fence open exactly where it has an odd number of fence lines, and the
/// open one is the last of them.
pub proof fn the_last_of_an_odd_number_of_fences_is_open(ls: Seq<Seq<char>>)
    ensures
        open_marker(ls) is Some <==> fence_lines(ls) % 2 == 1,
        open_marker(ls) matches Some(mark) ==> exists|i: int|
            0 <= i < ls.len() && marker_of(#[trigger] ls[i]) == Some(mark) && forall|j: int|
                i < j < ls.len() ==> marker_of(#[trigger] ls[j]) is None,
    decreases ls.len(),
{
    if ls.len() > 0 {
        let rest = ls.drop_last();
        let n = ls.len() - 1;
        the_last_of_an_odd_number_of_fences_is_open(rest);
        if let Some(mark) = open_marker(ls) {
            if marker_of(ls.last()) is Some {
                assert(marker_of(ls[n]) == Some(mark));
            } else {
                let i = choose|i: int|
                    0 <= i < rest.len() && marker_of(#[trigger] rest[i]) == Some(mark) && forall|
                        j: int,
                    |
                        i < j < rest.len() ==> marker_of(#[trigger] rest[j]) is None;
                assert(ls[i] == rest[i]);
                assert forall|j: int| i < j < ls.len() implies marker_of(#[trigger] ls[j]) is None by {
                    if j < n {
                        assert(rest[j] == ls[j]);
                    }
                }
            }
        }
    }
}

/// What is written of the branches that are not on a path follows the order of the nodes.
pub proof fn asides_follow_the_order_of_the_branches(
    t: Seq<NodeView>,
    path: Seq<int>,
    a: Seq<int>,
    b: Seq<int>,
)
    ensures
        asides_of(t, path, a + b) == asides_of(t, path, a) + asides_of(t, path, b),
        forks_of(t, path, a + b) == forks_of(t, path, a) + forks_of(t, path, b),
    decreases b.len(),
{
    if b.len() == 0 {
        assert(a + b =~= a);
        assert(asides_of(t, path, a) + asides_of(t, path, b) =~= asides_of(t, path, a));
        assert(forks_of(t, path, a) + forks_of(t, path, b) =~= forks_of(t, path, a));
    } else {
        asides_follow_the_order_of_the_branches(t, path, a, b.drop_last());
        assert((a + b).drop_last() =~= a + b.drop_last());
        assert((a + b).last() == b.last());
        assert(asides_of(t, path, a + b) =~= asides_of(t, path, a) + asides_of(t, path, b));
        assert(forks_of(t, path, a + b) =~= forks_of(t, path, a) + forks_of(t, path, b));
    }
}

/// What was written up to a turn of the user, with the branches that were dropped in it,
/// stays as it is whatever follows: a dropped branch stands in the turn that it left.
pub proof fn a_turn_ends_with_what_was_dropped_in_it(
    t: Seq<NodeView>,
    path: Seq<int>,
    a: Seq<GroupView>,
    b: Seq<GroupView>,
)
    requires
        b.len() > 0,
        b[0].role == Role::User,
    ensures
        (spine_of(t, path, a).out + spine_of(t, path, a).asides).is_prefix_of(
            spine_of(t, path, a + b).out,
        ),
    decreases b.len(),
{
    let one = spine_of(t, path, a);
    let done = one.out + one.asides;
    let all = spine_of(t, path, a + b);
    assert((a + b).drop_last() =~= a + b.drop_last());
    assert((a + b).last() == b.last());
    if b.len() == 1 {
        assert(a + b.drop_last() =~= a);
        assert(done =~= all.out.subrange(0, done.len() as int));
    } else {
        a_turn_ends_with_what_was_dropped_in_it(t, path, a, b.drop_last());
        let less = spine_of(t, path, a + b.drop_last());
        assert(done =~= less.out.subrange(0, done.len() as int));
        assert(less.out =~= all.out.subrange(0, less.out.len() as int));
        assert(done =~= all.out.subrange(0, done.len() as int));
    }
}

/// A session whose first block says nothing is an untitled one.
pub proof fn a_session_that_says_nothing_is_untitled(t: Seq<NodeView>)
    requires
        t[0].block is Thinking || (t[0].block matches BlockView::Text { text } && text.len() == 0),
    ensures
        title(t) == "untitled session"@,
{
    if let BlockView::Text { text } = t[0].block {
        assert(lines(text).len() == 0);
    }
}

} // verus!
