use sloop::tree::{ContentBlock, Message, NodeId, Role, Status, Tree};

fn transcript() -> (Tree, NodeId, NodeId, NodeId) {
    let mut tree = Tree::new(ContentBlock::text("How should the cache expire?"));
    let u1 = tree.root();
    let a1 = tree
        .append(u1, Role::Assistant, ContentBlock::text("Two options."))
        .unwrap();
    let a2 = tree
        .append(a1, Role::Assistant, ContentBlock::text("Use an LRU."))
        .unwrap();
    (tree, u1, a1, a2)
}

fn roles(messages: &[Message]) -> Vec<Role> {
    let mut out = Vec::new();
    for message in messages {
        out.push(message.role);
    }
    out
}

fn texts(messages: &[Message]) -> Vec<String> {
    let mut out = Vec::new();
    for message in messages {
        for block in &message.content {
            match block {
                ContentBlock::Text { text } => out.push(text.clone()),
                ContentBlock::Thinking { .. } => panic!("no thinking here"),
            }
        }
    }
    out
}

#[test]
fn forking_and_abandoning_yields_two_coherent_transcripts() {
    let (mut tree, _u1, a1, a2) = transcript();

    let a2_alt = tree
        .append(a1, Role::Assistant, ContentBlock::text("Use a TTL map."))
        .unwrap();

    tree.set_status(a2, Status::Kept).unwrap();
    tree.set_status(a2_alt, Status::Abandoned).unwrap();

    let kept = tree.replay(a2).unwrap();
    let abandoned = tree.replay(a2_alt).unwrap();

    assert_eq!(roles(&kept), vec![Role::User, Role::Assistant]);
    assert_eq!(roles(&abandoned), vec![Role::User, Role::Assistant]);

    assert_eq!(kept[0], abandoned[0]);
    assert_eq!(
        texts(&kept),
        vec![
            "How should the cache expire?",
            "Two options.",
            "Use an LRU.",
        ]
    );
    assert_eq!(
        texts(&abandoned),
        vec![
            "How should the cache expire?",
            "Two options.",
            "Use a TTL map.",
        ]
    );

    assert_eq!(tree.effective_status(a2).unwrap(), Status::Kept);
    assert_eq!(tree.effective_status(a2_alt).unwrap(), Status::Abandoned);
}

#[test]
fn a_fresh_tree_replays_to_a_single_user_message() {
    let tree = Tree::new(ContentBlock::text("hello"));
    let messages = tree.replay(tree.root()).unwrap();

    assert_eq!(messages.len(), 1);
    assert_eq!(messages[0].role, Role::User);
    assert_eq!(texts(&messages), vec!["hello"]);
}

#[test]
fn appending_twice_to_one_parent_is_the_fork() {
    let (mut tree, _u1, a1, a2) = transcript();
    let a2_alt = tree
        .append(a1, Role::Assistant, ContentBlock::text("Use a TTL map."))
        .unwrap();

    assert_ne!(a2, a2_alt);
    assert_eq!(tree.leaves(), vec![a2, a2_alt]);
}

#[test]
fn a_node_id_from_another_tree_is_rejected() {
    let (mut tree, ..) = transcript();
    let other = Tree::new(ContentBlock::text("a different conversation"));
    let stranger = tree
        .append(tree.root(), Role::Assistant, ContentBlock::text("x"))
        .unwrap();

    assert!(other.replay(stranger).is_none());
    assert!(other.path(stranger).is_none());
    assert!(other.effective_status(stranger).is_none());
}

#[test]
fn consecutive_same_role_blocks_become_one_message() {
    let (tree, _u1, _a1, a2) = transcript();
    let messages = tree.replay(a2).unwrap();

    assert_eq!(messages.len(), 2);
    assert_eq!(messages[1].content.len(), 2);
}

#[test]
fn a_role_change_starts_a_new_message() {
    let (mut tree, _u1, _a1, a2) = transcript();
    let u2 = tree
        .append(a2, Role::User, ContentBlock::text("Why not a TTL?"))
        .unwrap();

    assert_eq!(
        roles(&tree.replay(u2).unwrap()),
        vec![Role::User, Role::Assistant, Role::User]
    );
}

#[test]
fn prompt_for_drops_a_trailing_assistant_turn() {
    let (tree, _u1, _a1, a2) = transcript();

    assert_eq!(roles(&tree.prompt_for(a2).unwrap()), vec![Role::User]);
    assert_eq!(
        texts(&tree.prompt_for(a2).unwrap()),
        vec!["How should the cache expire?"]
    );
}

#[test]
fn prompt_for_leaves_a_user_tip_alone() {
    let (mut tree, _u1, _a1, a2) = transcript();
    let u2 = tree
        .append(a2, Role::User, ContentBlock::text("Why not a TTL?"))
        .unwrap();

    assert_eq!(tree.prompt_for(u2).unwrap(), tree.replay(u2).unwrap());
}

#[test]
fn steering_is_a_user_block_under_a_mid_turn_assistant_block() {
    let (mut tree, _u1, a1, _a2) = transcript();
    let steer = tree
        .append(a1, Role::User, ContentBlock::text("Stop, wrong file."))
        .unwrap();

    let messages = tree.replay(steer).unwrap();
    assert_eq!(
        roles(&messages),
        vec![Role::User, Role::Assistant, Role::User]
    );
    assert_eq!(messages[1].content.len(), 1);
    assert_eq!(tree.prompt_for(steer).unwrap(), messages);
}

#[test]
fn an_unlabeled_node_is_pending() {
    let (tree, _u1, _a1, a2) = transcript();

    assert_eq!(tree.status(a2).unwrap(), Status::Pending);
    assert_eq!(tree.effective_status(a2).unwrap(), Status::Pending);
}

#[test]
fn an_abandoned_ancestor_poisons_its_descendants() {
    let (mut tree, _u1, a1, a2) = transcript();
    tree.set_status(a1, Status::Abandoned).unwrap();

    assert_eq!(tree.status(a2).unwrap(), Status::Pending);
    assert_eq!(tree.effective_status(a2).unwrap(), Status::Abandoned);
}

#[test]
fn a_kept_ancestor_is_inherited_by_an_unlabeled_descendant() {
    let (mut tree, _u1, a1, a2) = transcript();
    tree.set_status(a1, Status::Kept).unwrap();

    assert_eq!(tree.effective_status(a2).unwrap(), Status::Kept);
}

#[test]
fn abandoning_a_later_step_overrides_a_kept_ancestor() {
    let (mut tree, _u1, a1, a2) = transcript();
    tree.set_status(a1, Status::Kept).unwrap();
    tree.set_status(a2, Status::Abandoned).unwrap();

    assert_eq!(tree.effective_status(a2).unwrap(), Status::Abandoned);
}

#[test]
fn a_kept_descendant_does_not_rescue_an_abandoned_ancestor() {
    let (mut tree, _u1, a1, a2) = transcript();
    tree.set_status(a1, Status::Abandoned).unwrap();
    tree.set_status(a2, Status::Kept).unwrap();

    assert_eq!(tree.effective_status(a2).unwrap(), Status::Abandoned);
}

#[test]
fn a_sibling_label_does_not_leak_across_the_fork() {
    let (mut tree, _u1, a1, a2) = transcript();
    let a2_alt = tree
        .append(a1, Role::Assistant, ContentBlock::text("Use a TTL map."))
        .unwrap();
    tree.set_status(a2_alt, Status::Abandoned).unwrap();

    assert_eq!(tree.effective_status(a2).unwrap(), Status::Pending);
}

/// Trees of every shape that four further nodes can have, in every role.
fn small_trees() -> Vec<Tree> {
    let mut out = Vec::new();
    for shape in 0..24_usize {
        for roles in 0..16_usize {
            let mut tree = Tree::new(ContentBlock::text("root"));
            let mut ids = vec![tree.root()];
            let parents = [0, shape % 2, (shape / 2) % 3, (shape / 6) % 4];
            for step in 0..4 {
                let role = if (roles >> step) & 1 == 1 { Role::Assistant } else { Role::User };
                let block = ContentBlock::text(&format!("block {step}"));
                ids.push(tree.append(ids[parents[step]], role, block).unwrap());
            }
            out.push(tree);
        }
    }
    out
}

fn alternates(messages: &[Message]) -> bool {
    messages.windows(2).all(|pair| pair[0].role != pair[1].role)
}

#[test]
fn replay_always_alternates_and_starts_with_user() {
    for tree in small_trees() {
        assert!(!tree.leaves().is_empty());
        for leaf in tree.leaves() {
            let messages = tree.replay(leaf).unwrap();
            assert_eq!(messages[0].role, Role::User);
            assert!(alternates(&messages));
            assert!(messages.iter().all(|m| !m.content.is_empty()));
        }
    }
}

#[test]
fn prompt_for_always_ends_on_a_user_turn() {
    for tree in small_trees() {
        for leaf in tree.leaves() {
            let messages = tree.prompt_for(leaf).unwrap();
            assert_eq!(messages[0].role, Role::User);
            assert_eq!(messages[messages.len() - 1].role, Role::User);
            assert!(alternates(&messages));
        }
    }
}

#[test]
fn replay_preserves_every_block_on_the_path() {
    for tree in small_trees() {
        for leaf in tree.leaves() {
            let path = tree.path(leaf).unwrap();
            let wanted: Vec<ContentBlock> =
                path.iter().map(|id| tree.block(*id).unwrap().clone()).collect();
            let got: Vec<ContentBlock> =
                tree.replay(leaf).unwrap().into_iter().flat_map(|m| m.content).collect();
            assert_eq!(got, wanted);
        }
    }
}

#[test]
fn abandonment_reaches_every_descendant() {
    for mut tree in small_trees() {
        let path = tree.path(tree.leaves()[0]).unwrap();
        let pivot = path[path.len() / 2];
        tree.set_status(pivot, Status::Abandoned).unwrap();
        for leaf in tree.leaves() {
            let below = tree.path(leaf).unwrap().contains(&pivot);
            let status = tree.effective_status(leaf).unwrap();
            assert_eq!(below, status == Status::Abandoned);
        }
    }
}

#[test]
fn children_stand_in_the_order_they_were_appended() {
    let (mut tree, u1, a1, a2) = transcript();
    let b = tree.append(u1, Role::Assistant, ContentBlock::text("b")).unwrap();
    let c = tree.append(u1, Role::User, ContentBlock::text("c")).unwrap();

    assert_eq!(tree.children(u1), Some(&vec![a1, b, c]));
    assert_eq!(tree.children(a2), Some(&vec![]));
    assert_eq!(tree.role(c), Some(Role::User));
    assert_eq!(tree.leaves(), vec![a2, b, c]);
    assert_eq!(tree.path(a2), Some(vec![u1, a1, a2]));
}

#[test]
fn appending_and_labelling_leave_other_branches_alone() {
    let (mut tree, _u1, a1, a2) = transcript();
    let before = tree.replay(a2).unwrap();
    let fork = tree.append(a1, Role::User, ContentBlock::text("fork")).unwrap();
    tree.set_status(fork, Status::Abandoned).unwrap();

    assert_eq!(tree.replay(a2).unwrap(), before);
    assert_eq!(tree.effective_status(a2), Some(Status::Pending));
    assert_eq!(tree.effective_status(fork), Some(Status::Abandoned));
}

#[test]
fn labels_join_to_the_stronger() {
    let all = [Status::Pending, Status::Kept, Status::Abandoned];
    for (i, a) in all.iter().enumerate() {
        for (j, b) in all.iter().enumerate() {
            assert_eq!(a.join(*b), all[i.max(j)]);
        }
    }
    assert_eq!(Status::default(), Status::Pending);
}

#[test]
fn a_signed_block_replays_as_it_came() {
    let mut tree = Tree::new(ContentBlock::text("q"));
    let signed = ContentBlock::thinking("weighing", "ErUBCkYIBRgCIkA=");
    let id = tree.append(tree.root(), Role::Assistant, signed.clone()).unwrap();
    assert_eq!(tree.replay(id).unwrap()[1].content, vec![signed]);
    let stranger = Tree::new(ContentBlock::text("other"));
    assert_eq!(stranger.block(id), None);
    assert_eq!(stranger.status(id), None);
}
