//! The branching agent harness around the tree: what a turn grows, where it forks,
//! and what is said of each branch.
use vstd::prelude::*;
use crate::chunk_cover::is_part_of;
use crate::line_laws::lines_hold_no_feed;
use crate::number::{decimal, push_decimal};
use crate::text::{
    chars_of, first, first_bounds, lines, push_all, push_str, same_str, slices, split_lines,
    string_of,
};
use crate::tree::{
    an_appended_node_extends_its_parent, block_views, leaves_of, message_views, messages_of,
    path_in_tree, path_to, positions, prompt_ends_on_a_user_turn, replay_keeps_who_said_what,
    sayings_in, strongest, tree_shaped, without_trailing_assistant, BlockView, ContentBlock,
    Message, MessageView, NodeId, NodeView, Role, Status, Tree,
};

verus! {

/// What the demo asks when the command line says nothing.
pub const DEFAULT_PROMPT: &'static str = "How should the cache expire?";

/// The root label a session is written to.
pub const TRANSCRIPT_ROOT: &'static str = "transcripts";

/// Why the harness cannot go on.
#[derive(Debug, Clone, Copy, PartialEq, Eq)]
pub enum HarnessError {
    /// A node id of another tree, or a tree without room for a node.
    RejectedId,
    /// An opening turn without a block.
    NothingToFork,
    /// A regenerated turn without a block.
    NoSecondBranch,
}

impl HarnessError {
    /// The error in words.
    pub open spec fn words(self) -> Seq<char> {
        match self {
            HarnessError::RejectedId => "a node id was rejected by the tree that minted it"@,
            HarnessError::NothingToFork => "the opening turn came back with no content blocks, so there is nothing to fork"@,
            HarnessError::NoSecondBranch => "the regenerated turn came back with no content blocks, so there is no second branch"@,
        }
    }

    /// The error in words.
    pub fn message(&self) -> (out: String)
        ensures
            out@ == self.words(),
    {
        match self {
            HarnessError::RejectedId => string_of(
                chars_of("a node id was rejected by the tree that minted it").as_slice(),
            ),
            HarnessError::NothingToFork => string_of(
                chars_of(
                    "the opening turn came back with no content blocks, so there is nothing to fork",
                ).as_slice(),
            ),
            HarnessError::NoSecondBranch => string_of(
                chars_of(
                    "the regenerated turn came back with no content blocks, so there is no second branch",
                ).as_slice(),
            ),
        }
    }
}

/// The directory of the first root with the transcripts' label.
pub open spec fn transcripts_among(roots: Seq<(&str, &str)>, i: int) -> Option<Seq<char>>
    decreases roots.len() - i,
{
    if i < 0 || i >= roots.len() {
        None
    } else if roots[i].0@ == "transcripts"@ {
        Some(roots[i].1@)
    } else {
        transcripts_among(roots, i + 1)
    }
}

/// Where to write this session, or why it is not being written.
///
/// The error is a message rather than a failure because the caller reports it and
/// carries on: a run without the root configured is a legitimate way to use the
/// harness.
pub fn transcript_dir(roots: &[(&str, &str)]) -> (out: Result<String, String>)
    ensures
        match (transcripts_among(roots@, 0), out) {
            (Some(dir), Ok(found)) => found@ == dir,
            (None, Err(why)) => why@
                == "no root labelled 'transcripts' is configured, so this session is not being recorded"@,
            _ => false,
        },
{
    let mut i: usize = 0;
    while i < roots.len()
        invariant
            i <= roots@.len(),
            transcripts_among(roots@, 0) == transcripts_among(roots@, i as int),
        decreases roots.len() - i,
    {
        let (label, dir) = roots[i];
        if same_str(label, "transcripts") {
            return Ok(string_of(chars_of(dir).as_slice()));
        }
        i += 1;
    }
    Err(
        string_of(
            chars_of(
                "no root labelled 'transcripts' is configured, so this session is not being recorded",
            ).as_slice(),
        ),
    )
}

/// The nodes of a turn: each block under the one before it, the first under
/// `parent`. The first gets position `start`.
pub open spec fn turn_nodes(start: int, parent: int, blocks: Seq<BlockView>) -> Seq<NodeView> {
    Seq::new(
        blocks.len(),
        |j: int|
            NodeView {
                parent: Some(
                    if j == 0 {
                        parent
                    } else {
                        start + j - 1
                    },
                ),
                role: Role::Assistant,
                block: blocks[j],
                status: Status::Pending,
            },
    )
}

/// How many blocks of a turn a tree takes.
pub open spec fn blocks_taken(nodes: int, parent: int, blocks: int) -> int {
    if parent >= nodes {
        0
    } else if nodes + blocks <= u32::MAX + 1 {
        blocks
    } else {
        u32::MAX + 1 - nodes
    }
}

/// Appends a whole turn under `parent`, returning the node ids in order.
///
/// A tree that refuses a block keeps those before it.
pub fn graft(tree: &mut Tree, parent: NodeId, blocks: Vec<ContentBlock>) -> (out: Result<
    Vec<NodeId>,
    HarnessError,
>)
    requires
        old(tree).wf(),
    ensures
        final(tree).wf(),
        ({
            let n = old(tree)@.len() as int;
            let all = block_views(blocks@);
            let taken = blocks_taken(n, parent@, all.len() as int);
            &&& final(tree)@ == old(tree)@ + turn_nodes(n, parent@, all).take(taken)
            &&& match out {
                Ok(ids) => taken == all.len() && positions(ids@) == Seq::new(
                    all.len(),
                    |j: int| n + j,
                ),
                Err(e) => taken < all.len() && e == HarnessError::RejectedId,
            }
        }),
{
    let ghost start = tree@.len() as int;
    let ghost all = block_views(blocks@);
    let ghost nodes = turn_nodes(start, parent@, all);
    let mut ids: Vec<NodeId> = Vec::new();
    let mut tip = parent;
    let mut i: usize = 0;
    proof {
        tree.wf_shape();
        assert(tree@ =~= old(tree)@ + nodes.take(0));
        assert(positions(ids@) =~= Seq::new(0, |j: int| start + j));
    }
    while i < blocks.len()
        invariant
            tree.wf(),
            i <= blocks@.len(),
            old(tree).wf(),
            start == old(tree)@.len(),
            all == block_views(blocks@),
            nodes == turn_nodes(start, parent@, all),
            tree@ == old(tree)@ + nodes.take(i as int),
            tip@ == if i == 0 {
                parent@
            } else {
                start + i - 1
            },
            i > 0 ==> parent@ < start && start + i <= u32::MAX + 1,
            positions(ids@) == Seq::new(i as nat, |j: int| start + j),
        decreases blocks.len() - i,
    {
        proof {
            old(tree).wf_shape();
            assert(all[i as int] == blocks@[i as int]@);
            assert(nodes.take(i as int).len() == i);
        }
        match tree.append(tip, Role::Assistant, blocks[i].copy()) {
            Some(id) => {
                let ghost before = ids@;
                ids.push(id);
                tip = id;
                i += 1;
                proof {
                    assert(nodes.take(i as int) =~= nodes.take(i - 1).push(nodes[i - 1]));
                    assert(tree@ =~= old(tree)@ + nodes.take(i as int));
                    assert(positions(ids@) =~= positions(before).push(id@));
                    assert(positions(ids@) =~= Seq::new(i as nat, |j: int| start + j));
                    tree.wf_shape();
                }
            },
            None => {
                return Err(HarnessError::RejectedId);
            },
        }
    }
    proof {
        old(tree).wf_shape();
    }
    Ok(ids)
}

/// A block that carries a signature bound to the prefix above it.
pub open spec fn is_signed(block: BlockView) -> bool {
    block is Thinking
}

/// Whether this node's block carries a signature bound to the prefix above it.
///
/// The question [`fork_point`] asks of a candidate shared block, and the one place
/// the two block kinds are not interchangeable.
pub fn signed(tree: &Tree, id: NodeId) -> (out: Result<bool, HarnessError>)
    requires
        tree.wf(),
    ensures
        out == if id@ < tree@.len() {
            Ok(is_signed(tree@[id@].block))
        } else {
            Err(HarnessError::RejectedId)
        },
{
    match tree.block(id) {
        Some(ContentBlock::Text { .. }) => Ok(false),
        Some(ContentBlock::Thinking { .. }) => Ok(true),
        None => Err(HarnessError::RejectedId),
    }
}

/// Where the second branch of a turn hangs, and where the first one parts from it.
pub open spec fn fork_of(t: Seq<NodeView>, root: int, branch: Seq<int>) -> Result<
    (int, int),
    HarnessError,
> {
    if branch.len() == 0 {
        Err(HarnessError::NothingToFork)
    } else if branch.len() == 1 {
        Ok((root, branch[0]))
    } else if branch[0] >= t.len() {
        Err(HarnessError::RejectedId)
    } else if is_signed(t[branch[0]].block) {
        Ok((root, branch[0]))
    } else {
        Ok((branch[0], branch[1]))
    }
}

/// Where to hang the second branch, and the node of the first branch that diverges
/// there.
///
/// A turn of two or more blocks has an interior boundary, so the fork can go inside
/// it: its first block becomes the shared prefix and its second is where the two
/// branches part. Otherwise the fork falls back to the root and the whole turn is
/// what differs.
///
/// The interior fork is only legal when the shared block carries no signature. A
/// shared signature was produced by the generation that also produced the rest of
/// the first branch, so a second generation hung under it replays to an assistant
/// turn whose reasoning came from two requests. So a signed shared block takes the
/// same fallback a one-block turn does, and the tree never holds a branch it cannot
/// send.
pub fn fork_point(tree: &Tree, root: NodeId, first_branch: &[NodeId]) -> (out: Result<
    (NodeId, NodeId),
    HarnessError,
>)
    requires
        tree.wf(),
    ensures
        match (fork_of(tree@, root@, positions(first_branch@)), out) {
            (Ok((at, divergence)), Ok((a, d))) => a@ == at && d@ == divergence,
            (Err(e), Err(f)) => e == f,
            _ => false,
        },
{
    let n: usize = first_branch.len();
    let ghost ids = positions(first_branch@);
    proof {
        assert(ids.len() == n);
    }
    if n == 0 {
        return Err(HarnessError::NothingToFork);
    }
    let first = first_branch[0];
    proof {
        assert(ids[0] == first@);
    }
    if n == 1 {
        return Ok((root, first));
    }
    let next = first_branch[1];
    proof {
        assert(ids[1] == next@);
    }
    match signed(tree, first) {
        Ok(true) => Ok((root, first)),
        Ok(false) => Ok((first, next)),
        Err(e) => Err(e),
    }
}

/// The node of the second branch that diverges at the fork: the first that was grafted
/// there. A regenerated turn without a block is no branch.
pub fn second_divergence(second_branch: &[NodeId]) -> (out: Result<NodeId, HarnessError>)
    ensures
        out == if second_branch@.len() > 0 {
            Ok(second_branch@[0])
        } else {
            Err(HarnessError::NoSecondBranch)
        },
{
    if second_branch.len() > 0 {
        Ok(second_branch[0])
    } else {
        Err(HarnessError::NoSecondBranch)
    }
}

/// Where a turn that was grafted under the root forks, the divergence is a child of
/// the fork on the first branch, and nothing that the branches share below the root
/// is signed.
pub proof fn a_fork_parts_the_branches_where_it_says(t: Seq<NodeView>, blocks: Seq<BlockView>)
    requires
        t.len() > 0,
        blocks.len() > 0,
    ensures
        ({
            let n = t.len() as int;
            let grown = t + turn_nodes(n, 0, blocks);
            let branch = Seq::new(blocks.len(), |j: int| n + j);
            fork_of(grown, 0, branch) matches Ok((at, divergence)) && grown[divergence].parent
                == Some(at) && (at == 0 || !is_signed(grown[at].block)) && (blocks.len() >= 2
                && !is_signed(blocks[0]) ==> at == n)
        }),
{
    let n = t.len() as int;
    let nodes = turn_nodes(n, 0, blocks);
    let grown = t + nodes;
    assert(grown[n] == nodes[0]);
    if blocks.len() >= 2 {
        assert(grown[n + 1] == nodes[1]);
    }
}

/// The name of a block's kind.
pub open spec fn kind_of(block: BlockView) -> Seq<char> {
    match block {
        BlockView::Text { .. } => "text"@,
        BlockView::Thinking { .. } => "thinking"@,
    }
}

/// What a block says.
pub open spec fn said_in(block: BlockView) -> Seq<char> {
    match block {
        BlockView::Text { text } => text,
        BlockView::Thinking { thinking, .. } => thinking,
    }
}

/// The first line of a text, or nothing.
pub open spec fn first_line(text: Seq<char>) -> Seq<char> {
    if lines(text).len() > 0 {
        lines(text)[0]
    } else {
        seq![]
    }
}

/// The first line of a block, tagged with its kind.
///
/// Only the first line, deliberately: this runs while the turn is still streaming,
/// and the point of it is to show that blocks land one at a time.
pub fn summarize(block: &ContentBlock) -> (out: String)
    ensures
        out@ == "  ["@ + kind_of(block@) + "] "@ + first_line(said_in(block@)),
{
    let mut out: Vec<char> = Vec::new();
    push_str(&mut out, "  [");
    let text = match block {
        ContentBlock::Text { text } => {
            push_str(&mut out, "text");
            chars_of(text.as_str())
        },
        ContentBlock::Thinking { thinking, .. } => {
            push_str(&mut out, "thinking");
            chars_of(thinking.as_str())
        },
    };
    push_str(&mut out, "] ");
    let ls = split_lines(text.as_slice());
    proof {
        assert(slices(ls@).len() == ls@.len());
    }
    let ghost tagged = out@;
    if ls.len() > 0 {
        proof {
            assert(slices(ls@)[0] == ls@[0]@);
        }
        push_all(&mut out, ls[0]);
    }
    proof {
        assert(out@ =~= tagged + first_line(text@));
        assert(out@ =~= "  ["@ + kind_of(block@) + "] "@ + first_line(said_in(block@)));
    }
    string_of(out.as_slice())
}

/// The note that a turn stopped on anything but its own end.
///
/// `max_tokens` is not an error: a truncated assistant turn is a legal interior
/// state for this tree, and forking is how it resumes.
pub fn stop_note(stop_reason: &str) -> (out: Option<String>)
    ensures
        match out {
            Some(note) => stop_reason@ != "end_turn"@ && note@ == "\nnote: a turn stopped on "@
                + stop_reason@,
            None => stop_reason@ == "end_turn"@,
        },
{
    if same_str(stop_reason, "end_turn") {
        return None;
    }
    let mut out: Vec<char> = chars_of("\nnote: a turn stopped on ");
    push_str(&mut out, stop_reason);
    Some(string_of(out.as_slice()))
}

/// The name of a label.
pub open spec fn status_name(status: Status) -> Seq<char> {
    match status {
        Status::Pending => "Pending"@,
        Status::Kept => "Kept"@,
        Status::Abandoned => "Abandoned"@,
    }
}

fn push_status(out: &mut Vec<char>, status: Status)
    ensures
        final(out)@ == old(out)@ + status_name(status),
{
    match status {
        Status::Pending => push_str(out, "Pending"),
        Status::Kept => push_str(out, "Kept"),
        Status::Abandoned => push_str(out, "Abandoned"),
    }
}

/// The name of a role.
pub open spec fn role_name(role: Role) -> Seq<char> {
    match role {
        Role::User => "User"@,
        Role::Assistant => "Assistant"@,
    }
}

/// One branch as it is printed: a heading, the messages it replays to, and what a
/// request would carry.
pub struct BranchReport {
    pub heading: String,
    pub messages: Vec<Message>,
    pub footing: String,
}

/// The heading of a branch.
pub open spec fn branch_heading(number: nat, own: Status, inherited: Status) -> Seq<char> {
    "\n=== branch "@ + decimal(number) + ": labeled "@ + status_name(own) + ", in force "@
        + status_name(inherited) + " ==="@
}

/// What a request for the next turn of a branch would carry.
pub open spec fn prompt_footing(prompt: Seq<MessageView>) -> Seq<char> {
    "-- prompt_for: "@ + decimal(prompt.len()) + " message(s), ending on "@ + role_name(
        if prompt.len() > 0 {
            prompt.last().role
        } else {
            Role::User
        },
    )
}

/// What a report says of the branch that ends at `tip`.
pub open spec fn reports_branch(
    t: Seq<NodeView>,
    number: nat,
    tip: int,
    report: BranchReport,
) -> bool {
    let messages = messages_of(t, path_to(t, tip));
    &&& report.heading@ == branch_heading(number, t[tip].status, strongest(t, path_to(t, tip)))
    &&& message_views(report.messages@) == messages
    &&& report.footing@ == prompt_footing(without_trailing_assistant(messages))
}

/// Reports one branch as the `messages[]` array it replays to, with the labels on
/// its leaf and in force there, and what a request would carry: the trailing
/// assistant turn is gone, because a partial final assistant turn is refused.
pub fn report_branch(tree: &Tree, number: usize, tip: NodeId) -> (out: Result<
    BranchReport,
    HarnessError,
>)
    requires
        tree.wf(),
    ensures
        match out {
            Ok(report) => tip@ < tree@.len() && reports_branch(
                tree@,
                number as nat,
                tip@,
                report,
            ),
            Err(e) => tip@ >= tree@.len() && e == HarnessError::RejectedId,
        },
{
    let (own, inherited, messages, prompt) = match (
        tree.status(tip),
        tree.effective_status(tip),
        tree.replay(tip),
        tree.prompt_for(tip),
    ) {
        (Some(own), Some(inherited), Some(messages), Some(prompt)) => (
            own,
            inherited,
            messages,
            prompt,
        ),
        _ => {
            return Err(HarnessError::RejectedId);
        },
    };
    let mut heading: Vec<char> = chars_of("\n=== branch ");
    push_decimal(&mut heading, number as u64);
    push_str(&mut heading, ": labeled ");
    push_status(&mut heading, own);
    push_str(&mut heading, ", in force ");
    push_status(&mut heading, inherited);
    push_str(&mut heading, " ===");
    let n: usize = prompt.len();
    let ghost views = message_views(prompt@);
    proof {
        assert(views.len() == n);
        if n > 0 {
            assert(views.last() == prompt@[n - 1]@);
        }
    }
    let role = if n > 0 {
        prompt[n - 1].role
    } else {
        Role::User
    };
    let mut footing: Vec<char> = chars_of("-- prompt_for: ");
    push_decimal(&mut footing, n as u64);
    push_str(&mut footing, " message(s), ending on ");
    match role {
        Role::User => push_str(&mut footing, "User"),
        Role::Assistant => push_str(&mut footing, "Assistant"),
    }
    Ok(
        BranchReport {
            heading: string_of(heading.as_slice()),
            messages,
            footing: string_of(footing.as_slice()),
        },
    )
}

/// Reports every branch, in the order in which their leaves were created.
pub fn report(tree: &Tree) -> (out: Result<Vec<BranchReport>, HarnessError>)
    requires
        tree.wf(),
    ensures
        out matches Ok(reports) && reports@.len() == leaves_of(tree@).len() && forall|k: int|
            0 <= k < reports@.len() ==> reports_branch(
                tree@,
                k as nat,
                leaves_of(tree@)[k],
                #[trigger] reports@[k],
            ),
{
    let leaves = tree.leaves();
    let ghost all = leaves_of(tree@);
    let mut out: Vec<BranchReport> = Vec::new();
    let mut k: usize = 0;
    proof {
        tree.wf_shape();
        crate::transcript::leaves_in_tree(tree@, tree@.len() as int);
    }
    while k < leaves.len()
        invariant
            tree.wf(),
            k <= leaves@.len(),
            positions(leaves@) == all,
            all == leaves_of(tree@),
            crate::transcript::all_in(tree@, all),
            out@.len() == k,
            forall|j: int|
                0 <= j < k ==> reports_branch(tree@, j as nat, all[j], #[trigger] out@[j]),
        decreases leaves.len() - k,
    {
        proof {
            assert(all[k as int] == leaves@[k as int]@);
        }
        match report_branch(tree, k, leaves[k]) {
            Ok(r) => out.push(r),
            Err(e) => {
                return Err(e);
            },
        }
        k += 1;
    }
    Ok(out)
}

proof fn a_turn_grows_block_by_block(t: Seq<NodeView>, parent: int, blocks: Seq<BlockView>)
    requires
        tree_shaped(t),
        0 <= parent < t.len(),
        blocks.len() > 0,
    ensures
        ({
            let n = t.len() as int;
            let grown = t + turn_nodes(n, parent, blocks);
            &&& tree_shaped(grown)
            &&& path_to(grown, grown.len() - 1) == path_to(t, parent) + Seq::new(
                blocks.len(),
                |j: int| n + j,
            )
        }),
    decreases blocks.len(),
{
    let n = t.len() as int;
    let rest = blocks.drop_last();
    let node = NodeView {
        parent: Some(
            if rest.len() == 0 {
                parent
            } else {
                n + rest.len() - 1
            },
        ),
        role: Role::Assistant,
        block: blocks.last(),
        status: Status::Pending,
    };
    let before = t + turn_nodes(n, parent, rest);
    let grown = t + turn_nodes(n, parent, blocks);
    let ids = Seq::new(blocks.len(), |j: int| n + j);
    assert(grown =~= before.push(node));
    if rest.len() == 0 {
        assert(before =~= t);
        assert(path_to(t, parent) + ids =~= path_to(t, parent).push(n));
    } else {
        a_turn_grows_block_by_block(t, parent, rest);
        let some = Seq::new(rest.len(), |j: int| n + j);
        assert(path_to(t, parent) + ids =~= (path_to(t, parent) + some).push(
            n + blocks.len() - 1,
        ));
    }
    an_appended_node_extends_its_parent(before, node);
    assert(tree_shaped(grown)) by {
        assert forall|i: int| #![trigger grown[i]] 0 < i < grown.len() implies (
        grown[i].parent matches Some(p) && 0 <= p < i) by {
            if i < before.len() {
                assert(grown[i] == before[i]);
            }
        }
        assert(grown[0] == before[0]);
    }
}

/// A turn is grafted whole wherever there is room for it: the branch then says what it
/// said down to the parent, and behind it every block of the turn, in order, as the
/// assistant's.
pub proof fn a_grafted_turn_is_replayed_whole(
    t: Seq<NodeView>,
    parent: int,
    blocks: Seq<BlockView>,
)
    requires
        tree_shaped(t),
        0 <= parent < t.len(),
        blocks.len() > 0,
        t.len() + blocks.len() <= u32::MAX + 1,
    ensures
        ({
            let n = t.len() as int;
            let taken = blocks_taken(n, parent, blocks.len() as int);
            let grown = t + turn_nodes(n, parent, blocks).take(taken);
            &&& taken == blocks.len()
            &&& grown.len() == n + blocks.len()
            &&& sayings_in(messages_of(grown, path_to(grown, grown.len() - 1))) == sayings_in(
                messages_of(t, path_to(t, parent)),
            ) + blocks.map_values(|b: BlockView| (Role::Assistant, b))
        }),
{
    let n = t.len() as int;
    let nodes = turn_nodes(n, parent, blocks);
    let grown = t + nodes;
    assert(nodes.take(blocks.len() as int) =~= nodes);
    a_turn_grows_block_by_block(t, parent, blocks);
    path_in_tree(t, parent);
    let last = grown.len() - 1;
    replay_keeps_who_said_what(grown, last);
    replay_keeps_who_said_what(t, parent);
    let path = path_to(t, parent);
    assert(path_to(grown, last).map_values(|i: int| (grown[i].role, grown[i].block))
        =~= path.map_values(|i: int| (t[i].role, t[i].block)) + blocks.map_values(
        |b: BlockView| (Role::Assistant, b),
    ));
}

/// Where a turn that was grafted under the root forks: inside the turn, behind its first
/// block, exactly where that block is text and another follows; else at the root. No
/// thinking is ever shared, and the first branch goes on from the fork.
pub proof fn a_fork_shares_no_thinking(t: Seq<NodeView>, blocks: Seq<BlockView>)
    requires
        t.len() > 0,
        blocks.len() > 0,
    ensures
        ({
            let n = t.len() as int;
            let grown = t + turn_nodes(n, 0, blocks);
            let branch = Seq::new(blocks.len(), |j: int| n + j);
            fork_of(grown, 0, branch) == Ok::<(int, int), HarnessError>(
                if blocks.len() >= 2 && blocks[0] is Text {
                    (n, n + 1)
                } else {
                    (0, n)
                },
            )
        }),
{
    let n = t.len() as int;
    let nodes = turn_nodes(n, 0, blocks);
    let grown = t + nodes;
    assert(grown[n] == nodes[0]);
}

proof fn transcripts_are_first(roots: Seq<(&str, &str)>, i: int)
    requires
        0 <= i,
    ensures
        transcripts_among(roots, i) is None <==> forall|j: int|
            i <= j < roots.len() ==> (#[trigger] roots[j]).0@ != "transcripts"@,
        forall|k: int|
            i <= k < roots.len() && (#[trigger] roots[k]).0@ == "transcripts"@ && (forall|j: int|
                i <= j < k ==> (#[trigger] roots[j]).0@ != "transcripts"@) ==> transcripts_among(
                roots,
                i,
            ) == Some(roots[k].1@),
    decreases roots.len() - i,
{
    if i < roots.len() && roots[i].0@ != "transcripts"@ {
        transcripts_are_first(roots, i + 1);
        assert forall|k: int|
            i <= k < roots.len() && (#[trigger] roots[k]).0@ == "transcripts"@ && (forall|j: int|
                i <= j < k ==> (#[trigger] roots[j]).0@ != "transcripts"@) implies transcripts_among(
            roots,
            i,
        ) == Some(roots[k].1@) by {
            assert(k >= i + 1);
        }
    } else if i < roots.len() {
        assert forall|k: int|
            i <= k < roots.len() && (#[trigger] roots[k]).0@ == "transcripts"@ && (forall|j: int|
                i <= j < k ==> (#[trigger] roots[j]).0@ != "transcripts"@) implies transcripts_among(
            roots,
            i,
        ) == Some(roots[k].1@) by {
            if k > i {
                assert(roots[i].0@ != "transcripts"@);
            }
        }
    }
}

/// A session goes to the directory of the first root that is labelled for transcripts, and
/// nowhere exactly where no root is.
pub proof fn a_session_goes_to_the_transcripts_root(roots: Seq<(&str, &str)>)
    ensures
        transcripts_among(roots, 0) is None <==> forall|j: int|
            0 <= j < roots.len() ==> (#[trigger] roots[j]).0@ != "transcripts"@,
        forall|k: int|
            0 <= k < roots.len() && (#[trigger] roots[k]).0@ == "transcripts"@ && (forall|j: int|
                0 <= j < k ==> (#[trigger] roots[j]).0@ != "transcripts"@) ==> transcripts_among(
                roots,
                0,
            ) == Some(roots[k].1@),
{
    transcripts_are_first(roots, 0);
}

/// A summary shows the first line of a block and no more: it holds no line feed, begins
/// with the kind of the block, and ends as the first line does.
pub proof fn a_summary_is_one_line(text: Seq<char>)
    ensures
        !first_line(text).contains('\n'),
        first_line(text).is_prefix_of(text),
        !text.contains('\n') ==> first_line(text) == text,
{
    lines_hold_no_feed(text);
    first_bounds(text, '\n');
    let n = first(text, '\n') as int;
    if text.len() > 0 {
        let line = text.take(n);
        if n < text.len() {
            assert(text.contains('\n')) by {
                assert(text[n] == '\n');
            }
            assert(first_line(text) =~= text.subrange(0, first_line(text).len() as int));
        } else {
            assert(first_line(text) =~= text);
            assert(text =~= text.subrange(0, text.len() as int));
        }
        assert(lines(text).len() > 0);
        assert(!lines(text)[0].contains('\n'));
    } else {
        assert(first_line(text) =~= text.subrange(0, 0));
    }
}

/// A branch is reported under its number with both labels, with every message of its path,
/// and with how many messages of them would be sent and who speaks last in those.
pub proof fn a_branch_is_reported_whole(
    t: Seq<NodeView>,
    number: nat,
    tip: int,
    report: BranchReport,
)
    requires
        tree_shaped(t),
        0 <= tip < t.len(),
        reports_branch(t, number, tip, report),
    ensures
        message_views(report.messages@) == messages_of(t, path_to(t, tip)),
        is_part_of("branch "@ + decimal(number), report.heading@),
        t[tip].status is Pending ==> is_part_of("labeled Pending"@, report.heading@),
        t[tip].status is Kept ==> is_part_of("labeled Kept"@, report.heading@),
        t[tip].status is Abandoned ==> is_part_of("labeled Abandoned"@, report.heading@),
        strongest(t, path_to(t, tip)) is Pending ==> is_part_of(
            "in force Pending"@,
            report.heading@,
        ),
        strongest(t, path_to(t, tip)) is Kept ==> is_part_of("in force Kept"@, report.heading@),
        strongest(t, path_to(t, tip)) is Abandoned ==> is_part_of(
            "in force Abandoned"@,
            report.heading@,
        ),
{
    let own = t[tip].status;
    let inherited = strongest(t, path_to(t, tip));
    let n = decimal(number);
    let all = report.heading@;
    let a = status_name(own);
    let b = status_name(inherited);
    reveal_strlit("\n=== branch ");
    reveal_strlit("\n=== ");
    reveal_strlit("branch ");
    reveal_strlit(": labeled ");
    reveal_strlit(": ");
    reveal_strlit("labeled ");
    reveal_strlit(", in force ");
    reveal_strlit(", ");
    reveal_strlit("in force ");
    assert("\n=== branch "@ =~= "\n=== "@ + "branch "@);
    assert(": labeled "@ =~= ": "@ + "labeled "@);
    assert(", in force "@ =~= ", "@ + "in force "@);
    let p = "branch "@ + n;
    let q = "labeled "@ + a;
    let r = "in force "@ + b;
    assert(all =~= "\n=== "@ + p + (": "@ + q + ", "@ + r + " ==="@));
    assert(all =~= ("\n=== "@ + p + ": "@) + q + (", "@ + r + " ==="@));
    assert(all =~= ("\n=== "@ + p + ": "@ + q + ", "@) + r + " ==="@);
    reveal_strlit("labeled Pending");
    reveal_strlit("labeled Kept");
    reveal_strlit("labeled Abandoned");
    reveal_strlit("in force Pending");
    reveal_strlit("in force Kept");
    reveal_strlit("in force Abandoned");
    reveal_strlit("Pending");
    reveal_strlit("Kept");
    reveal_strlit("Abandoned");
    assert("labeled "@ + "Pending"@ =~= "labeled Pending"@);
    assert("labeled "@ + "Kept"@ =~= "labeled Kept"@);
    assert("labeled "@ + "Abandoned"@ =~= "labeled Abandoned"@);
    assert("in force "@ + "Pending"@ =~= "in force Pending"@);
    assert("in force "@ + "Kept"@ =~= "in force Kept"@);
    assert("in force "@ + "Abandoned"@ =~= "in force Abandoned"@);
}

/// What is said below a branch counts the messages that would be sent, and names who speaks
/// last in them, which is the user.
pub proof fn a_footing_counts_what_would_be_sent(t: Seq<NodeView>, tip: int)
    requires
        tree_shaped(t),
        0 <= tip < t.len(),
    ensures
        ({
            let sent = without_trailing_assistant(messages_of(t, path_to(t, tip)));
            prompt_footing(sent) == "-- prompt_for: "@ + decimal(sent.len())
                + " message(s), ending on User"@
        }),
{
    let sent = without_trailing_assistant(messages_of(t, path_to(t, tip)));
    prompt_ends_on_a_user_turn(t, tip);
    reveal_strlit(" message(s), ending on ");
    reveal_strlit("User");
    reveal_strlit(" message(s), ending on User");
    assert(" message(s), ending on "@ + "User"@ =~= " message(s), ending on User"@);
    assert(prompt_footing(sent) =~= "-- prompt_for: "@ + decimal(sent.len())
        + (" message(s), ending on "@ + "User"@));
}

/// A summary begins with the kind of its block and shows what the block says.
pub proof fn a_block_is_summarized_by_its_kind(block: BlockView)
    ensures
        block matches BlockView::Text { text } ==> kind_of(block) == "text"@ && said_in(block)
            == text,
        block matches BlockView::Thinking { thinking, signature } ==> kind_of(block) == "thinking"@
            && said_in(block) == thinking,
{
}

} // verus!
