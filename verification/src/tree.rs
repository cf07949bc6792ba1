//! A conversation as a tree of content blocks.
//!
//! Nodes are content blocks rather than whole messages, and that is forced
//! rather than chosen. Assistant prefill was removed from current models:
//! supplying a partial final assistant turn returns HTTP 400. A branch cannot
//! resume a truncated turn, so it regenerates the turn from a block boundary
//! instead, and a boundary the tree cannot name is a boundary no branch can
//! start from.
//!
//! The cost is that a node no longer corresponds to anything the API accepts.
//! [`Tree::replay`] reassembles blocks into messages, and [`Tree::prompt_for`]
//! applies the prefill constraint on top.
//!
//! The model of a tree is the sequence of its nodes in creation order. Each but
//! the first names a parent that stands before it.
use vstd::prelude::*;
use crate::text::{chars_of, string_of};

verus! {

/// A handle to one node of one [`Tree`].
///
/// This is an arena index, so it is meaningful only for the tree that minted
/// it. Passing an id from another tree is the single way every lookup here can
/// fail, which is why they return [`Option`] rather than a richer error.
#[derive(Debug, Clone, Copy, PartialEq, Eq, Hash, PartialOrd, Ord, Structural)]
pub struct NodeId(pub(crate) u32);

impl View for NodeId {
    type V = int;

    /// The position of the node in creation order.
    open(crate) spec fn view(&self) -> int {
        self.0 as int
    }
}

/// Who authored the turn a block belongs to.
#[derive(Debug, Clone, Copy, PartialEq, Eq, Structural)]
pub enum Role {
    User,
    Assistant,
}

/// One content block, in the kinds that the messages API knows.
#[derive(Debug, Clone, PartialEq, Eq)]
pub enum ContentBlock {
    Text { text: String },
    /// Reasoning, with the signature that vouches for it. The API verifies the
    /// signature when the block is replayed, so neither may change.
    Thinking { thinking: String, signature: String },
}

/// The texts of a [`ContentBlock`].
pub enum BlockView {
    Text { text: Seq<char> },
    Thinking { thinking: Seq<char>, signature: Seq<char> },
}

impl View for ContentBlock {
    type V = BlockView;

    open spec fn view(&self) -> BlockView {
        match *self {
            ContentBlock::Text { text } => BlockView::Text { text: text@ },
            ContentBlock::Thinking { thinking, signature } => BlockView::Thinking {
                thinking: thinking@,
                signature: signature@,
            },
        }
    }
}

impl ContentBlock {
    /// A text block.
    pub fn text(text: &str) -> (out: Self)
        ensures
            out@ == (BlockView::Text { text: text@ }),
    {
        ContentBlock::Text { text: string_of(chars_of(text).as_slice()) }
    }

    /// A thinking block, with the signature that was issued for it.
    pub fn thinking(thinking: &str, signature: &str) -> (out: Self)
        ensures
            out@ == (BlockView::Thinking { thinking: thinking@, signature: signature@ }),
    {
        ContentBlock::Thinking {
            thinking: string_of(chars_of(thinking).as_slice()),
            signature: string_of(chars_of(signature).as_slice()),
        }
    }

    /// A copy of a block.
    pub fn copy(&self) -> (out: Self)
        ensures
            out@ == self@,
    {
        match self {
            ContentBlock::Text { text } => ContentBlock::Text { text: text.clone() },
            ContentBlock::Thinking { thinking, signature } => ContentBlock::Thinking {
                thinking: thinking.clone(),
                signature: signature.clone(),
            },
        }
    }
}

/// What a branch through a node turned out to be worth.
///
/// This is the field the whole tree exists for. Feeding a transcript into the
/// memory index is only safe if a rejection stays distinguishable from a
/// conclusion; without the label every abandoned idea becomes a retrievable
/// fact.
#[derive(Debug, Clone, Copy, PartialEq, Eq, Structural)]
pub enum Status {
    /// Undecided. The default, and the honest answer for most of a live tree.
    Pending,
    /// This block, and the reasoning under it, is a conclusion.
    Kept,
    /// This block, and everything below it, was discarded.
    Abandoned,
}

impl Default for Status {
    /// A block that nobody labelled is pending.
    fn default() -> (out: Self)
        ensures
            out == Status::Pending,
    {
        Status::Pending
    }
}

impl Status {
    /// Where a label stands: `Pending < Kept < Abandoned`.
    pub open spec fn rank(self) -> int {
        match self {
            Status::Pending => 0,
            Status::Kept => 1,
            Status::Abandoned => 2,
        }
    }

    /// The stronger of two labels.
    pub open spec fn stronger(self, other: Self) -> Self {
        if self.rank() >= other.rank() {
            self
        } else {
            other
        }
    }

    /// The stronger of two labels: `Pending < Kept < Abandoned`.
    pub fn join(self, other: Self) -> (out: Self)
        ensures
            out == self.stronger(other),
    {
        match (self, other) {
            (Status::Pending, Status::Pending) => Status::Pending,
            (Status::Pending, Status::Kept) => Status::Kept,
            (Status::Kept, Status::Pending) => Status::Kept,
            (Status::Kept, Status::Kept) => Status::Kept,
            (Status::Abandoned, _) => Status::Abandoned,
            (_, Status::Abandoned) => Status::Abandoned,
        }
    }
}

/// One message of a `messages[]` array: a role and the blocks under it.
#[derive(Debug, Clone, PartialEq, Eq)]
pub struct Message {
    pub role: Role,
    pub content: Vec<ContentBlock>,
}

/// The texts of a [`Message`].
#[verifier::ext_equal]
pub struct MessageView {
    pub role: Role,
    pub content: Seq<BlockView>,
}

/// The texts of a list of blocks.
pub open spec fn block_views(blocks: Seq<ContentBlock>) -> Seq<BlockView> {
    blocks.map_values(|b: ContentBlock| b@)
}

impl View for Message {
    type V = MessageView;

    open spec fn view(&self) -> MessageView {
        MessageView { role: self.role, content: block_views(self.content@) }
    }
}

/// The texts of a list of messages.
pub open spec fn message_views(messages: Seq<Message>) -> Seq<MessageView> {
    messages.map_values(|m: Message| m@)
}

/// One node: the position of its parent, who wrote it, what it says and how it
/// is labelled.
pub struct NodeView {
    pub parent: Option<int>,
    pub role: Role,
    pub block: BlockView,
    pub status: Status,
}

/// The shape that every tree has: the first node is the user's and has no
/// parent, and every other node has a parent that was created before it.
pub open spec fn tree_shaped(t: Seq<NodeView>) -> bool {
    &&& t.len() > 0
    &&& t[0].parent is None
    &&& t[0].role == Role::User
    &&& forall|i: int|
        #![trigger t[i]]
        0 < i < t.len() ==> (t[i].parent matches Some(p) && 0 <= p < i)
}

/// The children of a node, in creation order.
pub open spec fn children_of(t: Seq<NodeView>, id: int) -> Seq<int>
    decreases t.len(),
{
    if t.len() == 0 {
        seq![]
    } else {
        let rest = children_of(t.drop_last(), id);
        if t.last().parent == Some(id) {
            rest.push(t.len() - 1)
        } else {
            rest
        }
    }
}

/// The nodes from the root down to a node, inclusive.
pub open spec fn path_to(t: Seq<NodeView>, id: int) -> Seq<int>
    decreases id,
{
    match t[id].parent {
        Some(p) if 0 <= p < id => path_to(t, p).push(id),
        _ => seq![id],
    }
}

/// The leaves among the first `n` nodes, in creation order.
pub open spec fn leaves_among(t: Seq<NodeView>, n: int) -> Seq<int>
    decreases n,
{
    if n <= 0 {
        seq![]
    } else if children_of(t, n - 1).len() == 0 {
        leaves_among(t, n - 1).push(n - 1)
    } else {
        leaves_among(t, n - 1)
    }
}

/// Every leaf, in creation order.
pub open spec fn leaves_of(t: Seq<NodeView>) -> Seq<int> {
    leaves_among(t, t.len() as int)
}

/// The strongest label among the given nodes.
pub open spec fn strongest(t: Seq<NodeView>, path: Seq<int>) -> Status
    decreases path.len(),
{
    if path.len() == 0 {
        Status::Pending
    } else {
        strongest(t, path.drop_last()).stronger(t[path.last()].status)
    }
}

/// Messages with one more block: at the end of the last message where the role
/// is the same, else in a message of its own.
pub open spec fn with_block(
    messages: Seq<MessageView>,
    role: Role,
    block: BlockView,
) -> Seq<MessageView> {
    if messages.len() > 0 && messages.last().role == role {
        messages.drop_last().push(
            MessageView { role, content: messages.last().content.push(block) },
        )
    } else {
        messages.push(MessageView { role, content: seq![block] })
    }
}

/// The blocks of the given nodes, as messages.
pub open spec fn messages_of(t: Seq<NodeView>, path: Seq<int>) -> Seq<MessageView>
    decreases path.len(),
{
    if path.len() == 0 {
        seq![]
    } else {
        with_block(
            messages_of(t, path.drop_last()),
            t[path.last()].role,
            t[path.last()].block,
        )
    }
}

/// Messages without a trailing message of the assistant.
pub open spec fn without_trailing_assistant(messages: Seq<MessageView>) -> Seq<MessageView> {
    if messages.len() > 0 && messages.last().role == Role::Assistant {
        messages.drop_last()
    } else {
        messages
    }
}

/// The positions that a list of ids stands for.
pub open spec fn positions(ids: Seq<NodeId>) -> Seq<int> {
    ids.map_values(|id: NodeId| id@)
}

#[derive(Debug)]
struct Node {
    parent: Option<NodeId>,
    children: Vec<NodeId>,
    role: Role,
    block: ContentBlock,
    status: Status,
}

impl Node {
    spec fn model(self) -> NodeView {
        NodeView {
            parent: match self.parent {
                Some(p) => Some(p@),
                None => None,
            },
            role: self.role,
            block: self.block@,
            status: self.status,
        }
    }
}

spec fn models(nodes: Seq<Node>) -> Seq<NodeView> {
    nodes.map_values(|n: Node| n.model())
}

/// A branching conversation.
///
/// There is no `fork` operation and no branch type. [`Tree::append`] is the only
/// way the tree grows, and calling it twice on one parent *is* the fork. A branch
/// is named by its leaf and recovered by walking parent links.
#[derive(Debug)]
pub struct Tree {
    nodes: Vec<Node>,
    root: NodeId,
}

impl View for Tree {
    type V = Seq<NodeView>;

    /// The nodes in creation order.
    closed spec fn view(&self) -> Seq<NodeView> {
        models(self.nodes@)
    }
}

/// Every position of a path is that of a node.
pub proof fn path_in_tree(t: Seq<NodeView>, id: int)
    requires
        tree_shaped(t),
        0 <= id < t.len(),
    ensures
        path_to(t, id).len() > 0,
        path_to(t, id)[0] == 0,
        path_to(t, id).last() == id,
        forall|k: int|
            0 <= k < path_to(t, id).len() ==> 0 <= #[trigger] path_to(t, id)[k] <= id,
    decreases id,
{
    if id > 0 {
        let p = t[id].parent->Some_0;
        path_in_tree(t, p);
    }
}

/// The children of a node are the nodes that name it as their parent.
pub proof fn children_are(t: Seq<NodeView>, id: int)
    ensures
        forall|k: int|
            0 <= k < children_of(t, id).len() ==> 0 <= #[trigger] children_of(t, id)[k] < t.len()
                && t[children_of(t, id)[k]].parent == Some(id),
        forall|i: int|
            #![trigger t[i]]
            0 <= i < t.len() && t[i].parent == Some(id) ==> children_of(t, id).contains(i),
    decreases t.len(),
{
    if t.len() > 0 {
        let rest = t.drop_last();
        children_are(rest, id);
        let c = children_of(t, id);
        assert forall|k: int| 0 <= k < c.len() implies 0 <= #[trigger] c[k] < t.len()
            && t[c[k]].parent == Some(id) by {
            if k < children_of(rest, id).len() {
                assert(c[k] == children_of(rest, id)[k]);
                assert(rest[c[k]] == t[c[k]]);
            }
        }
        assert forall|i: int|
            #![trigger t[i]]
            0 <= i < t.len() && t[i].parent == Some(id) implies c.contains(i) by {
            if i < t.len() - 1 {
                assert(rest[i] == t[i]);
                let m = choose|m: int|
                    0 <= m < children_of(rest, id).len() && children_of(rest, id)[m] == i;
                assert(c[m] == i);
            } else {
                assert(c[c.len() - 1] == i);
            }
        }
    }
}

impl Tree {
    /// What every tree keeps: the shape of a tree, ids for all the nodes, and
    /// child lists that say what the parent links say.
    pub closed spec fn wf(&self) -> bool {
        &&& tree_shaped(self@)
        &&& self@.len() <= u32::MAX + 1
        &&& self.root@ == 0
        &&& forall|i: int|
            0 <= i < self.nodes@.len() ==> positions((#[trigger] self.nodes@[i]).children@)
                == children_of(self@, i)
    }

    /// A well-formed tree has the shape of one, and an id for every node.
    pub proof fn wf_shape(&self)
        requires
            self.wf(),
        ensures
            tree_shaped(self@),
            self@.len() <= u32::MAX + 1,
    {
    }

    /// Starts a conversation from its opening user block.
    ///
    /// The root is a user block by construction, which is what pins the role of
    /// the first message every replay produces.
    pub fn new(first_user_block: ContentBlock) -> (out: Self)
        ensures
            out.wf(),
            out@ == seq![
                NodeView {
                    parent: None,
                    role: Role::User,
                    block: first_user_block@,
                    status: Status::Pending,
                },
            ],
    {
        let root = Node {
            parent: None,
            children: Vec::new(),
            role: Role::User,
            block: first_user_block,
            status: Status::Pending,
        };
        let ghost model = root.model();
        let mut nodes: Vec<Node> = Vec::new();
        nodes.push(root);
        let out = Tree { nodes, root: NodeId(0) };
        proof {
            assert(out@ =~= seq![model]);
            assert(out@.drop_last() =~= seq![]);
            assert(children_of(out@.drop_last(), 0) =~= seq![]);
            assert(positions(out.nodes@[0].children@) =~= children_of(out@, 0));
        }
        out
    }

    /// The opening block.
    pub fn root(&self) -> (id: NodeId)
        requires
            self.wf(),
        ensures
            id@ == 0,
    {
        self.root
    }

    fn node(&self, id: NodeId) -> (out: Option<&Node>)
        ensures
            out is Some <==> id@ < self@.len(),
            out matches Some(n) ==> *n == self.nodes@[id@],
    {
        let i: usize = id.0 as usize;
        if i < self.nodes.len() {
            Some(&self.nodes[i])
        } else {
            None
        }
    }

    /// The block at a node.
    pub fn block(&self, id: NodeId) -> (out: Option<&ContentBlock>)
        requires
            self.wf(),
        ensures
            out is Some <==> id@ < self@.len(),
            out matches Some(b) ==> b@ == self@[id@].block,
    {
        match self.node(id) {
            Some(n) => Some(&n.block),
            None => None,
        }
    }

    /// The role of a node.
    pub fn role(&self, id: NodeId) -> (out: Option<Role>)
        requires
            self.wf(),
        ensures
            out == if id@ < self@.len() {
                Some(self@[id@].role)
            } else {
                None
            },
    {
        match self.node(id) {
            Some(n) => Some(n.role),
            None => None,
        }
    }

    /// The children of a node, in the order in which they were appended.
    pub fn children(&self, id: NodeId) -> (out: Option<&Vec<NodeId>>)
        requires
            self.wf(),
        ensures
            out is Some <==> id@ < self@.len(),
            out matches Some(c) ==> positions(c@) == children_of(self@, id@),
    {
        match self.node(id) {
            Some(n) => Some(&n.children),
            None => None,
        }
    }

    /// Hangs a block under `parent`, returning the new node.
    ///
    /// Called twice on the same parent, this is a fork. Called on a leaf, it
    /// extends the branch. Nothing distinguishes the two cases in the data.
    pub fn append(&mut self, parent: NodeId, role: Role, block: ContentBlock) -> (out: Option<
        NodeId,
    >)
        requires
            old(self).wf(),
        ensures
            final(self).wf(),
            out is Some <==> parent@ < old(self)@.len() && old(self)@.len() <= u32::MAX,
            out matches Some(id) ==> id@ == old(self)@.len() && final(self)@ == old(self)@.push(
                NodeView {
                    parent: Some(parent@),
                    role,
                    block: block@,
                    status: Status::Pending,
                },
            ),
            out is None ==> final(self)@ == old(self)@,
    {
        let n: usize = self.nodes.len();
        let p: usize = parent.0 as usize;
        if n as u64 > u32::MAX as u64 || p >= n {
            return None;
        }
        let id = NodeId(n as u32);
        let ghost before = self.nodes@;
        let ghost t = self@;
        self.nodes[p].children.push(id);
        let node = Node {
            parent: Some(parent),
            children: Vec::new(),
            role,
            block,
            status: Status::Pending,
        };
        let ghost model = node.model();
        self.nodes.push(node);
        proof {
            assert(self@ =~= t.push(model));
            assert(self@.drop_last() =~= t);
            assert forall|i: int| 0 <= i < self.nodes@.len() implies positions(
                (#[trigger] self.nodes@[i]).children@,
            ) == children_of(self@, i) by {
                if i == n {
                    children_are(t, i);
                    assert(children_of(t, i).len() == 0) by {
                        if children_of(t, i).len() > 0 {
                            let c = children_of(t, i)[0];
                            assert(t[c].parent == Some(i));
                            assert(c == 0 || t[c].parent->Some_0 < c);
                        }
                    }
                    assert(positions(self.nodes@[i].children@) =~= seq![]);
                } else if i == p {
                    assert(self.nodes@[i].children@ == before[i].children@.push(id));
                    assert(positions(self.nodes@[i].children@) =~= positions(
                        before[i].children@,
                    ).push(id@));
                } else {
                    assert(self.nodes@[i] == before[i]);
                }
            }
        }
        Some(id)
    }

    /// The nodes from the root down to `tip`, inclusive.
    ///
    /// This terminates because a node is pushed after its parent and never
    /// reparented, so a parent index is always lower than its child's. The arena
    /// cannot contain a cycle to walk into.
    pub fn path(&self, tip: NodeId) -> (out: Option<Vec<NodeId>>)
        requires
            self.wf(),
        ensures
            out is Some <==> tip@ < self@.len(),
            out matches Some(path) ==> positions(path@) == path_to(self@, tip@),
    {
        if self.node(tip).is_none() {
            return None;
        }
        let mut up: Vec<NodeId> = Vec::new();
        let mut cursor: NodeId = tip;
        proof {
            assert(path_to(self@, tip@) =~= path_to(self@, cursor@) + positions(up@).reverse());
        }
        loop
            invariant_except_break
                self.wf(),
                0 <= cursor@ < self@.len(),
                path_to(self@, tip@) == path_to(self@, cursor@) + positions(up@).reverse(),
            ensures
                path_to(self@, tip@) == positions(up@).reverse(),
            decreases cursor@,
        {
            let ghost before = up@;
            let i: usize = cursor.0 as usize;
            up.push(cursor);
            proof {
                assert(self@[i as int] == self.nodes@[i as int].model());
                assert(positions(up@) =~= positions(before).push(cursor@));
                assert(positions(up@).reverse() =~= seq![cursor@] + positions(before).reverse());
            }
            match self.nodes[i].parent {
                Some(p) => {
                    proof {
                        assert(path_to(self@, cursor@) == path_to(self@, p@).push(cursor@));
                        assert(path_to(self@, p@).push(cursor@) + positions(before).reverse()
                            =~= path_to(self@, p@) + positions(up@).reverse());
                    }
                    cursor = p;
                },
                None => {
                    proof {
                        assert(path_to(self@, cursor@) + positions(before).reverse()
                            =~= positions(up@).reverse());
                    }
                    break ;
                },
            }
        }
        let mut path: Vec<NodeId> = Vec::new();
        let mut k: usize = up.len();
        while k > 0
            invariant
                k <= up@.len(),
                path@.len() == up@.len() - k,
                forall|j: int| 0 <= j < path@.len() ==> path@[j] == up@[up@.len() - 1 - j],
            decreases k,
        {
            k -= 1;
            path.push(up[k]);
        }
        proof {
            assert(positions(path@) =~= positions(up@).reverse());
        }
        Some(path)
    }

    /// Every leaf, in creation order. One per branch.
    pub fn leaves(&self) -> (out: Vec<NodeId>)
        requires
            self.wf(),
        ensures
            positions(out@) == leaves_of(self@),
    {
        let mut out: Vec<NodeId> = Vec::new();
        let mut i: usize = 0;
        proof {
            assert(positions(out@) =~= seq![]);
        }
        while i < self.nodes.len()
            invariant
                self.wf(),
                i <= self.nodes@.len(),
                positions(out@) == leaves_among(self@, i as int),
            decreases self.nodes.len() - i,
        {
            proof {
                assert(positions(self.nodes@[i as int].children@) == children_of(self@, i as int));
                assert(self.nodes@[i as int].children@.len() == children_of(self@, i as int).len());
            }
            if self.nodes[i].children.len() == 0 {
                let ghost before = out@;
                let id = NodeId(i as u32);
                out.push(id);
                proof {
                    assert(positions(out@) =~= positions(before).push(i as int));
                }
            }
            i += 1;
        }
        out
    }

    /// The label placed on this node, ignoring its ancestors.
    pub fn status(&self, id: NodeId) -> (out: Option<Status>)
        requires
            self.wf(),
        ensures
            out == if id@ < self@.len() {
                Some(self@[id@].status)
            } else {
                None
            },
    {
        match self.node(id) {
            Some(n) => Some(n.status),
            None => None,
        }
    }

    /// Labels a node.
    pub fn set_status(&mut self, id: NodeId, status: Status) -> (out: Option<()>)
        requires
            old(self).wf(),
        ensures
            final(self).wf(),
            out is Some <==> id@ < old(self)@.len(),
            out is Some ==> final(self)@ == old(self)@.update(
                id@,
                NodeView { status, ..old(self)@[id@] },
            ),
            out is None ==> final(self)@ == old(self)@,
    {
        let i: usize = id.0 as usize;
        if i >= self.nodes.len() {
            return None;
        }
        let ghost t = self@;
        let ghost before = self.nodes@;
        self.nodes[i].status = status;
        proof {
            assert(self@ =~= t.update(id@, NodeView { status, ..t[id@] }));
            assert forall|k: int| 0 <= k < self.nodes@.len() implies positions(
                (#[trigger] self.nodes@[k]).children@,
            ) == children_of(self@, k) by {
                assert(self.nodes@[k].children@ == before[k].children@);
                relabel_keeps_children(t, self@, k);
            }
        }
        Some(())
    }

    /// The label in force at `id`, accounting for its ancestors.
    ///
    /// The strongest label on the path from the root wins, so an `Abandoned`
    /// ancestor poisons everything below it and an unlabeled node inherits a
    /// `Kept` ancestor.
    pub fn effective_status(&self, id: NodeId) -> (out: Option<Status>)
        requires
            self.wf(),
        ensures
            out == if id@ < self@.len() {
                Some(strongest(self@, path_to(self@, id@)))
            } else {
                None
            },
    {
        let path = match self.path(id) {
            Some(path) => path,
            None => return None,
        };
        let ghost all = path_to(self@, id@);
        let mut status = Status::Pending;
        let mut k: usize = 0;
        proof {
            path_in_tree(self@, id@);
            assert(all.take(0) =~= seq![]);
        }
        while k < path.len()
            invariant
                self.wf(),
                k <= path@.len(),
                positions(path@) == all,
                forall|j: int| 0 <= j < all.len() ==> 0 <= #[trigger] all[j] < self@.len(),
                status == strongest(self@, all.take(k as int)),
            decreases path.len() - k,
        {
            proof {
                assert(all[k as int] == path@[k as int]@);
                assert(all.take(k + 1).drop_last() =~= all.take(k as int));
            }
            let i: usize = path[k].0 as usize;
            status = status.join(self.nodes[i].status);
            k += 1;
        }
        proof {
            assert(all.take(k as int) =~= all);
        }
        Some(status)
    }

    /// The branch ending at `tip`, as a `messages[]` array.
    ///
    /// Consecutive blocks of the same role are one message, so a role change is a
    /// turn boundary. Strict alternation is therefore structural: this cannot
    /// emit two adjacent messages of the same role.
    pub fn replay(&self, tip: NodeId) -> (out: Option<Vec<Message>>)
        requires
            self.wf(),
        ensures
            out is Some <==> tip@ < self@.len(),
            out matches Some(messages) ==> message_views(messages@) == messages_of(
                self@,
                path_to(self@, tip@),
            ),
    {
        let path = match self.path(tip) {
            Some(path) => path,
            None => return None,
        };
        let ghost all = path_to(self@, tip@);
        let mut messages: Vec<Message> = Vec::new();
        let mut k: usize = 0;
        proof {
            path_in_tree(self@, tip@);
            assert(all.take(0) =~= seq![]);
            assert(message_views(messages@) =~= seq![]);
        }
        while k < path.len()
            invariant
                self.wf(),
                k <= path@.len(),
                positions(path@) == all,
                forall|j: int| 0 <= j < all.len() ==> 0 <= #[trigger] all[j] < self@.len(),
                message_views(messages@) == messages_of(self@, all.take(k as int)),
            decreases path.len() - k,
        {
            proof {
                assert(all[k as int] == path@[k as int]@);
                assert(all.take(k + 1).drop_last() =~= all.take(k as int));
            }
            let i: usize = path[k].0 as usize;
            let node = &self.nodes[i];
            push_block(&mut messages, node.role, node.block.copy());
            k += 1;
        }
        proof {
            assert(all.take(k as int) =~= all);
        }
        Some(messages)
    }

    /// What to POST to get the next assistant turn on the branch at `tip`.
    ///
    /// This is [`Tree::replay`] with a trailing assistant message dropped, which
    /// is the prefill constraint made executable: an assistant turn cannot be
    /// continued, so it is regenerated from the last user boundary.
    ///
    /// Because the root is a user block, the result always starts and ends with a
    /// user message, and is never empty.
    pub fn prompt_for(&self, tip: NodeId) -> (out: Option<Vec<Message>>)
        requires
            self.wf(),
        ensures
            out is Some <==> tip@ < self@.len(),
            out matches Some(messages) ==> message_views(messages@) == without_trailing_assistant(
                messages_of(self@, path_to(self@, tip@)),
            ),
    {
        let mut messages = match self.replay(tip) {
            Some(messages) => messages,
            None => return None,
        };
        let n: usize = messages.len();
        let ghost before = messages@;
        proof {
            assert(message_views(before).len() == before.len());
            if n > 0 {
                assert(message_views(before).last() == before[n - 1]@);
            }
        }
        if n > 0 && messages[n - 1].role == Role::Assistant {
            let _dropped = messages.pop();
            proof {
                assert(message_views(messages@) =~= message_views(before).drop_last());
            }
        }
        Some(messages)
    }
}

/// Adds a block to a list of messages.
fn push_block(messages: &mut Vec<Message>, role: Role, block: ContentBlock)
    ensures
        message_views(final(messages)@) == with_block(
            message_views(old(messages)@),
            role,
            block@,
        ),
{
    let n: usize = messages.len();
    let ghost before = messages@;
    proof {
        assert(message_views(before).len() == n);
        if n > 0 {
            assert(message_views(before).last() == before[n - 1]@);
        }
    }
    if n > 0 && messages[n - 1].role == role {
        messages[n - 1].content.push(block);
        proof {
            assert(messages@[n - 1]@ =~= (MessageView {
                role,
                content: before[n - 1]@.content.push(block@),
            }));
            assert(message_views(messages@) =~= with_block(message_views(before), role, block@));
        }
    } else {
        let mut content: Vec<ContentBlock> = Vec::new();
        content.push(block);
        let message = Message { role, content };
        let ghost model = message@;
        messages.push(message);
        proof {
            assert(model =~= (MessageView { role, content: seq![block@] }));
            assert(message_views(messages@) =~= message_views(before).push(model));
        }
    }
}

/// Trees that differ in labels alone have the same children.
pub proof fn relabel_keeps_children(t: Seq<NodeView>, u: Seq<NodeView>, id: int)
    requires
        t.len() == u.len(),
        forall|i: int| 0 <= i < t.len() ==> (#[trigger] t[i]).parent == (#[trigger] u[i]).parent,
    ensures
        children_of(t, id) == children_of(u, id),
    decreases t.len(),
{
    if t.len() > 0 {
        relabel_keeps_children(t.drop_last(), u.drop_last(), id);
    }
}

/// No two adjacent messages have the same role.
pub open spec fn alternates(messages: Seq<MessageView>) -> bool {
    forall|k: int, next: int|
        0 <= k < messages.len() - 1 && next == k + 1 ==> (#[trigger] messages[k]).role != (
        #[trigger] messages[next]).role
}

/// All the blocks of a list of messages, in order.
pub open spec fn blocks_in(messages: Seq<MessageView>) -> Seq<BlockView>
    decreases messages.len(),
{
    if messages.len() == 0 {
        seq![]
    } else {
        blocks_in(messages.drop_last()) + messages.last().content
    }
}

/// The blocks of the given nodes, in order.
pub open spec fn blocks_on(t: Seq<NodeView>, path: Seq<int>) -> Seq<BlockView> {
    path.map_values(|i: int| t[i].block)
}

proof fn messages_alternate(t: Seq<NodeView>, path: Seq<int>)
    ensures
        alternates(messages_of(t, path)),
        path.len() > 0 ==> messages_of(t, path).len() > 0 && messages_of(t, path)[0].role
            == t[path[0]].role && messages_of(t, path).last().role == t[path.last()].role,
        forall|k: int|
            0 <= k < messages_of(t, path).len() ==> (#[trigger] messages_of(
                t,
                path,
            )[k]).content.len() > 0,
    decreases path.len(),
{
    if path.len() > 0 {
        messages_alternate(t, path.drop_last());
        if path.len() > 1 {
            assert(path.drop_last()[0] == path[0]);
        }
    }
}

/// A replay alternates strictly between the roles, starts with the user and has
/// no empty message, wherever the forks sit.
pub proof fn replay_alternates_and_starts_with_user(t: Seq<NodeView>, tip: int)
    requires
        tree_shaped(t),
        0 <= tip < t.len(),
    ensures
        ({
            let messages = messages_of(t, path_to(t, tip));
            &&& messages.len() > 0
            &&& messages[0].role == Role::User
            &&& alternates(messages)
            &&& forall|k: int|
                0 <= k < messages.len() ==> (#[trigger] messages[k]).content.len() > 0
        }),
{
    path_in_tree(t, tip);
    messages_alternate(t, path_to(t, tip));
}

/// A prompt can be sent: it is not empty, starts and ends on a user turn, and
/// alternates.
pub proof fn prompt_ends_on_a_user_turn(t: Seq<NodeView>, tip: int)
    requires
        tree_shaped(t),
        0 <= tip < t.len(),
    ensures
        ({
            let prompt = without_trailing_assistant(messages_of(t, path_to(t, tip)));
            &&& prompt.len() > 0
            &&& prompt[0].role == Role::User
            &&& prompt.last().role == Role::User
            &&& alternates(prompt)
        }),
{
    replay_alternates_and_starts_with_user(t, tip);
    let messages = messages_of(t, path_to(t, tip));
    let prompt = without_trailing_assistant(messages);
    if messages.last().role == Role::Assistant {
        assert(messages.len() >= 2);
        assert(messages[messages.len() - 2].role != messages[messages.len() - 1].role);
        assert forall|k: int, next: int|
            0 <= k < prompt.len() - 1 && next == k + 1 implies (#[trigger] prompt[k]).role != (
        #[trigger] prompt[next]).role by {
            assert(prompt[k] == messages[k]);
            assert(prompt[next] == messages[next]);
        }
    }
}

proof fn messages_keep_blocks(t: Seq<NodeView>, path: Seq<int>)
    ensures
        blocks_in(messages_of(t, path)) == blocks_on(t, path),
    decreases path.len(),
{
    if path.len() == 0 {
        assert(blocks_on(t, path) =~= seq![]);
    } else {
        let rest = path.drop_last();
        messages_keep_blocks(t, rest);
        let m = messages_of(t, rest);
        let n = messages_of(t, path);
        let block = t[path.last()].block;
        if m.len() > 0 && m.last().role == t[path.last()].role {
            assert(n.drop_last() =~= m.drop_last());
            assert(blocks_in(n) =~= blocks_in(m).push(block));
        } else {
            assert(n.drop_last() =~= m);
            assert(blocks_in(n) =~= blocks_in(m).push(block));
        }
        assert(blocks_on(t, path) =~= blocks_on(t, rest).push(block));
    }
}

/// Regrouping blocks into messages loses, duplicates and reorders none of them,
/// and changes none of them: a signed thinking block comes back as it went in.
pub proof fn replay_preserves_every_block_on_the_path(t: Seq<NodeView>, tip: int)
    ensures
        blocks_in(messages_of(t, path_to(t, tip))) == blocks_on(t, path_to(t, tip)),
{
    messages_keep_blocks(t, path_to(t, tip));
}

/// The labels form a chain: joining them is commutative, associative and
/// idempotent, `Pending` gives way to everything and nothing rescues from
/// `Abandoned`.
pub proof fn labels_form_a_chain(a: Status, b: Status, c: Status)
    ensures
        a.stronger(b) == b.stronger(a),
        a.stronger(b).stronger(c) == a.stronger(b.stronger(c)),
        a.stronger(a) == a,
        Status::Pending.stronger(a) == a,
        Status::Abandoned.stronger(a) == Status::Abandoned,
{
}

/// The strongest label is at least as strong as each, and is one of them or
/// `Pending`.
pub proof fn strongest_is_the_maximum(t: Seq<NodeView>, path: Seq<int>)
    ensures
        forall|k: int|
            0 <= k < path.len() ==> t[#[trigger] path[k]].status.rank() <= strongest(
                t,
                path,
            ).rank(),
        strongest(t, path) == Status::Pending || exists|k: int|
            0 <= k < path.len() && t[#[trigger] path[k]].status == strongest(t, path),
    decreases path.len(),
{
    if path.len() > 0 {
        let rest = path.drop_last();
        strongest_is_the_maximum(t, rest);
        assert forall|k: int| 0 <= k < path.len() implies t[#[trigger] path[k]].status.rank()
            <= strongest(t, path).rank() by {
            if k < rest.len() {
                assert(rest[k] == path[k]);
            }
        }
        let out = strongest(t, path);
        if out != Status::Pending {
            if out == strongest(t, rest) {
                let k = choose|k: int| 0 <= k < rest.len() && t[#[trigger] rest[k]].status == out;
                assert(path[k] == rest[k]);
            } else {
                assert(t[path[path.len() - 1]].status == out);
            }
        }
    }
}

/// A node is abandoned exactly where it or an ancestor was labelled abandoned.
pub proof fn abandonment_reaches_exactly_the_descendants(t: Seq<NodeView>, id: int)
    ensures
        strongest(t, path_to(t, id)) == Status::Abandoned <==> exists|k: int|
            0 <= k < path_to(t, id).len() && t[#[trigger] path_to(t, id)[k]].status
                == Status::Abandoned,
{
    strongest_is_the_maximum(t, path_to(t, id));
}

/// The path to a node begins with the path to each of its ancestors.
pub proof fn path_extends_ancestors(t: Seq<NodeView>, ancestor: int, id: int)
    requires
        tree_shaped(t),
        0 <= id < t.len(),
        path_to(t, id).contains(ancestor),
    ensures
        path_to(t, ancestor).is_prefix_of(path_to(t, id)),
    decreases id,
{
    if ancestor != id {
        let p = t[id].parent->Some_0;
        let path = path_to(t, id);
        let k = choose|k: int| 0 <= k < path.len() && path[k] == ancestor;
        if id == 0 {
            assert(path == seq![0int]);
        } else {
            assert(path_to(t, p)[k] == ancestor);
            path_extends_ancestors(t, ancestor, p);
        }
    }
}

/// A descendant is never labelled weaker than its ancestor: keeping it does not
/// rescue it, and a kept ancestor is inherited.
pub proof fn a_descendant_inherits_the_label(t: Seq<NodeView>, ancestor: int, id: int)
    requires
        tree_shaped(t),
        0 <= id < t.len(),
        path_to(t, id).contains(ancestor),
    ensures
        strongest(t, path_to(t, id)).rank() >= strongest(t, path_to(t, ancestor)).rank(),
{
    path_extends_ancestors(t, ancestor, id);
    strongest_of_prefix(t, path_to(t, ancestor), path_to(t, id));
}

proof fn strongest_of_prefix(t: Seq<NodeView>, head: Seq<int>, path: Seq<int>)
    requires
        head.is_prefix_of(path),
    ensures
        strongest(t, path).rank() >= strongest(t, head).rank(),
    decreases path.len(),
{
    if head.len() == path.len() {
        assert(head =~= path);
    } else {
        assert(head.is_prefix_of(path.drop_last())) by {
            assert(path.drop_last().subrange(0, head.len() as int) =~= path.subrange(
                0,
                head.len() as int,
            ));
        }
        strongest_of_prefix(t, head, path.drop_last());
    }
}

proof fn same_nodes_same_path(t: Seq<NodeView>, u: Seq<NodeView>, id: int)
    requires
        tree_shaped(t),
        0 <= id < t.len(),
        t.len() <= u.len(),
        forall|i: int| 0 <= i < t.len() ==> (#[trigger] t[i]).parent == (#[trigger] u[i]).parent,
    ensures
        path_to(u, id) == path_to(t, id),
    decreases id,
{
    assert(t[id].parent == u[id].parent);
    if id > 0 {
        same_nodes_same_path(t, u, t[id].parent->Some_0);
    }
}

proof fn same_blocks_same_messages(t: Seq<NodeView>, u: Seq<NodeView>, path: Seq<int>)
    requires
        forall|k: int|
            0 <= k < path.len() ==> t[#[trigger] path[k]].role == u[path[k]].role && t[path[k]].block
                == u[path[k]].block,
    ensures
        messages_of(u, path) == messages_of(t, path),
    decreases path.len(),
{
    if path.len() > 0 {
        let rest = path.drop_last();
        assert forall|k: int| 0 <= k < rest.len() implies t[#[trigger] rest[k]].role
            == u[rest[k]].role && t[rest[k]].block == u[rest[k]].block by {
            assert(rest[k] == path[k]);
        }
        same_blocks_same_messages(t, u, rest);
        assert(path[path.len() - 1] == path.last());
    }
}

proof fn same_labels_same_strongest(t: Seq<NodeView>, u: Seq<NodeView>, path: Seq<int>)
    requires
        forall|k: int|
            0 <= k < path.len() ==> t[#[trigger] path[k]].status == u[path[k]].status,
    ensures
        strongest(u, path) == strongest(t, path),
    decreases path.len(),
{
    if path.len() > 0 {
        let rest = path.drop_last();
        assert forall|k: int| 0 <= k < rest.len() implies t[#[trigger] rest[k]].status
            == u[rest[k]].status by {
            assert(rest[k] == path[k]);
        }
        same_labels_same_strongest(t, u, rest);
        assert(path[path.len() - 1] == path.last());
    }
}

/// A tree only grows: appending a node, fork or not, changes no path, no replay
/// and no label of the nodes that were there.
pub proof fn appending_changes_no_branch(t: Seq<NodeView>, node: NodeView, id: int)
    requires
        tree_shaped(t),
        0 <= id < t.len(),
    ensures
        path_to(t.push(node), id) == path_to(t, id),
        messages_of(t.push(node), path_to(t, id)) == messages_of(t, path_to(t, id)),
        strongest(t.push(node), path_to(t, id)) == strongest(t, path_to(t, id)),
{
    let u = t.push(node);
    same_nodes_same_path(t, u, id);
    path_in_tree(t, id);
    same_blocks_same_messages(t, u, path_to(t, id));
    same_labels_same_strongest(t, u, path_to(t, id));
}

/// The path to a new node is its parent's path and itself, so two nodes appended
/// to one parent share everything above the fork.
pub proof fn an_appended_node_extends_its_parent(t: Seq<NodeView>, node: NodeView)
    requires
        tree_shaped(t),
        node.parent matches Some(p) && 0 <= p < t.len(),
    ensures
        path_to(t.push(node), t.len() as int) == path_to(t, node.parent->Some_0).push(
            t.len() as int,
        ),
{
    appending_changes_no_branch(t, node, node.parent->Some_0);
}

/// A label changes what no branch says, and the label in force at no node but
/// those below the one that was labelled: it does not leak across a fork.
pub proof fn labelling_reaches_only_the_descendants(
    t: Seq<NodeView>,
    labelled: int,
    status: Status,
    id: int,
)
    requires
        tree_shaped(t),
        0 <= labelled < t.len(),
        0 <= id < t.len(),
    ensures
        ({
            let u = t.update(labelled, NodeView { status, ..t[labelled] });
            &&& path_to(u, id) == path_to(t, id)
            &&& messages_of(u, path_to(t, id)) == messages_of(t, path_to(t, id))
            &&& !path_to(t, id).contains(labelled) ==> strongest(u, path_to(t, id)) == strongest(
                t,
                path_to(t, id),
            )
            &&& path_to(t, id).contains(labelled) ==> strongest(u, path_to(t, id)).rank()
                >= status.rank()
        }),
{
    let u = t.update(labelled, NodeView { status, ..t[labelled] });
    same_nodes_same_path(t, u, id);
    path_in_tree(t, id);
    let path = path_to(t, id);
    same_blocks_same_messages(t, u, path);
    if !path.contains(labelled) {
        assert forall|k: int| 0 <= k < path.len() implies t[#[trigger] path[k]].status
            == u[path[k]].status by {
            assert(path.contains(path[k]));
        }
        same_labels_same_strongest(t, u, path);
    } else {
        strongest_is_the_maximum(u, path);
        let k = choose|k: int| 0 <= k < path.len() && path[k] == labelled;
        assert(u[path[k]].status == status);
    }
}

proof fn leaves_among_are(t: Seq<NodeView>, n: int)
    requires
        0 <= n <= t.len(),
    ensures
        forall|k: int|
            0 <= k < leaves_among(t, n).len() ==> 0 <= #[trigger] leaves_among(t, n)[k] < n
                && children_of(t, leaves_among(t, n)[k]).len() == 0,
        forall|i: int|
            0 <= i < n && #[trigger] children_of(t, i).len() == 0 ==> leaves_among(t, n).contains(i),
    decreases n,
{
    if n > 0 {
        leaves_among_are(t, n - 1);
        let all = leaves_among(t, n);
        assert forall|k: int| 0 <= k < all.len() implies 0 <= #[trigger] all[k] < n && children_of(
            t,
            all[k],
        ).len() == 0 by {
            if k < leaves_among(t, n - 1).len() {
                assert(all[k] == leaves_among(t, n - 1)[k]);
            }
        }
        assert forall|i: int| 0 <= i < n && #[trigger] children_of(t, i).len() == 0 implies all.contains(i) by {
            if i < n - 1 {
                let rest = leaves_among(t, n - 1);
                let k = choose|k: int| 0 <= k < rest.len() && rest[k] == i;
                assert(all[k] == i);
            } else {
                assert(all[all.len() - 1] == i);
            }
        }
    }
}

/// The leaves are the nodes without children, and every tree has one: the node
/// that was created last.
pub proof fn leaves_are_the_childless_nodes(t: Seq<NodeView>)
    requires
        tree_shaped(t),
    ensures
        forall|i: int|
            0 <= i < t.len() ==> (#[trigger] leaves_of(t).contains(i) <==> children_of(t, i).len()
                == 0),
        leaves_of(t).len() > 0,
        leaves_of(t).contains(t.len() - 1),
{
    leaves_among_are(t, t.len() as int);
    let all = leaves_of(t);
    assert forall|i: int| 0 <= i < t.len() implies (#[trigger] all.contains(i) <==> children_of(
        t,
        i,
    ).len() == 0) by {
        if all.contains(i) {
            let k = choose|k: int| 0 <= k < all.len() && all[k] == i;
            assert(children_of(t, all[k]).len() == 0);
        }
    }
    let last = t.len() - 1;
    children_are(t, last);
    assert(children_of(t, last).len() == 0) by {
        if children_of(t, last).len() > 0 {
            let c = children_of(t, last)[0];
            assert(t[c].parent == Some(last));
            assert(c == 0 || t[c].parent->Some_0 < c);
        }
    }
    assert(all.contains(last));
}

/// Who says what in a list of messages, block by block.
pub open spec fn sayings_in(messages: Seq<MessageView>) -> Seq<(Role, BlockView)>
    decreases messages.len(),
{
    if messages.len() == 0 {
        seq![]
    } else {
        let m = messages.last();
        sayings_in(messages.drop_last()) + m.content.map_values(|b: BlockView| (m.role, b))
    }
}

proof fn messages_keep_sayings(t: Seq<NodeView>, path: Seq<int>)
    ensures
        sayings_in(messages_of(t, path)) == path.map_values(|i: int| (t[i].role, t[i].block)),
    decreases path.len(),
{
    let all = path.map_values(|i: int| (t[i].role, t[i].block));
    if path.len() == 0 {
        assert(all =~= seq![]);
    } else {
        let rest = path.drop_last();
        let node = t[path.last()];
        let m = messages_of(t, rest);
        let n = messages_of(t, path);
        messages_keep_sayings(t, rest);
        let before = rest.map_values(|i: int| (t[i].role, t[i].block));
        if m.len() > 0 && m.last().role == node.role {
            assert(n.drop_last() =~= m.drop_last());
            assert(sayings_in(n) =~= sayings_in(m).push((node.role, node.block)));
        } else {
            assert(n.drop_last() =~= m);
            assert(sayings_in(n) =~= sayings_in(m).push((node.role, node.block)));
        }
        assert(all =~= before.push((node.role, node.block)));
    }
}

/// A replay keeps who said what: block by block it is the path, each block under the role
/// of its own node.
pub proof fn replay_keeps_who_said_what(t: Seq<NodeView>, tip: int)
    ensures
        sayings_in(messages_of(t, path_to(t, tip))) == path_to(t, tip).map_values(
            |i: int| (t[i].role, t[i].block),
        ),
{
    messages_keep_sayings(t, path_to(t, tip));
}

/// A prompt is the replay, without the turn that it asks for and with nothing else left
/// out: what a replay has more than the prompt is one message of the assistant, at its
/// end.
pub proof fn a_prompt_lacks_only_the_turn_it_asks_for(t: Seq<NodeView>, tip: int)
    ensures
        ({
            let replay = messages_of(t, path_to(t, tip));
            let prompt = without_trailing_assistant(replay);
            prompt == replay || (replay.len() > 0 && replay.last().role == Role::Assistant
                && replay == prompt.push(replay.last()))
        }),
{
    let replay = messages_of(t, path_to(t, tip));
    if replay.len() > 0 {
        assert(replay =~= replay.drop_last().push(replay.last()));
    }
}

/// A path goes from the root to its node, from each node to a child of it, and repeats
/// none.
pub proof fn a_path_goes_from_parent_to_child(t: Seq<NodeView>, id: int)
    requires
        tree_shaped(t),
        0 <= id < t.len(),
    ensures
        path_to(t, id)[0] == 0,
        path_to(t, id).last() == id,
        forall|k: int|
            0 < k < path_to(t, id).len() ==> t[#[trigger] path_to(t, id)[k]].parent == Some(
                path_to(t, id)[k - 1],
            ),
    decreases id,
{
    path_in_tree(t, id);
    if id > 0 {
        let p = t[id].parent->Some_0;
        a_path_goes_from_parent_to_child(t, p);
        path_in_tree(t, p);
        let before = path_to(t, p);
        let path = path_to(t, id);
        assert(path == before.push(id));
        assert forall|k: int| 0 < k < path.len() implies t[#[trigger] path[k]].parent == Some(
            path[k - 1],
        ) by {
            assert(path[k - 1] == before[k - 1]);
            if k < before.len() {
                assert(path[k] == before[k]);
            } else {
                assert(before[k - 1] == before.last());
            }
        }
    }
}

/// Children stand in the order in which they were created, and so do leaves.
pub proof fn children_and_leaves_stand_in_creation_order(t: Seq<NodeView>, id: int)
    ensures
        forall|i: int, j: int|
            0 <= i < j < children_of(t, id).len() ==> (#[trigger] children_of(t, id)[i]) < (
            #[trigger] children_of(t, id)[j]),
        forall|i: int, j: int|
            0 <= i < j < leaves_of(t).len() ==> (#[trigger] leaves_of(t)[i]) < (
            #[trigger] leaves_of(t)[j]),
{
    children_ascend(t, id);
    leaves_among_ascend(t, t.len() as int);
}

proof fn children_ascend(t: Seq<NodeView>, id: int)
    ensures
        forall|i: int, j: int|
            0 <= i < j < children_of(t, id).len() ==> (#[trigger] children_of(t, id)[i]) < (
            #[trigger] children_of(t, id)[j]),
    decreases t.len(),
{
    if t.len() > 0 {
        children_ascend(t.drop_last(), id);
        children_are(t.drop_last(), id);
        let before = children_of(t.drop_last(), id);
        let out = children_of(t, id);
        assert forall|i: int, j: int| 0 <= i < j < out.len() implies (#[trigger] out[i]) < (
        #[trigger] out[j]) by {
            assert(out[i] == before[i]);
            if j < before.len() {
                assert(out[j] == before[j]);
            }
        }
    }
}

proof fn leaves_among_ascend(t: Seq<NodeView>, n: int)
    ensures
        forall|i: int, j: int|
            0 <= i < j < leaves_among(t, n).len() ==> (#[trigger] leaves_among(t, n)[i]) < (
            #[trigger] leaves_among(t, n)[j]),
        forall|i: int| 0 <= i < leaves_among(t, n).len() ==> (#[trigger] leaves_among(t, n)[i]) < n,
    decreases n,
{
    if n > 0 {
        leaves_among_ascend(t, n - 1);
        let before = leaves_among(t, n - 1);
        let out = leaves_among(t, n);
        assert forall|i: int| 0 <= i < out.len() implies (#[trigger] out[i]) < n by {
            if i < before.len() {
                assert(out[i] == before[i]);
            }
        }
        assert forall|i: int, j: int| 0 <= i < j < out.len() implies (#[trigger] out[i]) < (
        #[trigger] out[j]) by {
            assert(out[i] == before[i]);
            if j < before.len() {
                assert(out[j] == before[j]);
            }
        }
    }
}

} // verus!
