use sloop::harness::{
    fork_point, graft, report, second_divergence, stop_note, summarize, transcript_dir,
};
use sloop::tree::{ContentBlock, Status, Tree};

#[test]
fn a_missing_transcripts_root_is_reported_and_not_fatal() {
    let roots: Vec<(&str, &str)> = Vec::new();
    assert_eq!(
        transcript_dir(&roots),
        Err(
            "no root labelled 'transcripts' is configured, so this session is not being \
             recorded"
                .to_owned()
        )
    );
}

#[test]
fn the_transcripts_root_is_found_among_others_by_its_label() {
    let roots = vec![
        ("notes", "/roots/notes"),
        ("transcripts", "/roots/sessions"),
        ("memory", "/roots/memory"),
    ];

    assert_eq!(transcript_dir(&roots), Ok("/roots/sessions".to_owned()));
}

#[test]
fn a_summary_names_the_kind_and_keeps_only_the_first_line() {
    assert_eq!(
        summarize(&ContentBlock::text("one\ntwo")),
        "  [text] one".to_owned()
    );
    assert_eq!(
        summarize(&ContentBlock::thinking("weighing\nboth", "sig")),
        "  [thinking] weighing".to_owned()
    );
}

#[test]
fn a_summary_of_an_empty_block_is_the_tag_alone() {
    assert_eq!(summarize(&ContentBlock::text("")), "  [text] ".to_owned());
}

#[test]
fn a_multi_block_turn_forks_inside_itself() {
    let mut tree = Tree::new(ContentBlock::text("q"));
    let root = tree.root();
    let turn = graft(
        &mut tree,
        root,
        vec![
            ContentBlock::text("shared"),
            ContentBlock::text("diverges"),
            ContentBlock::text("below"),
        ],
    )
    .unwrap();

    assert_eq!(fork_point(&tree, root, &turn).unwrap(), (turn[0], turn[1]));
}

#[test]
fn a_turn_opening_on_a_thinking_block_forks_at_the_root() {
    let mut tree = Tree::new(ContentBlock::text("q"));
    let root = tree.root();
    let turn = graft(
        &mut tree,
        root,
        vec![
            ContentBlock::thinking("weighing both", "sig"),
            ContentBlock::text("expire on write"),
        ],
    )
    .unwrap();

    assert_eq!(fork_point(&tree, root, &turn).unwrap(), (root, turn[0]));
}

#[test]
fn a_thinking_block_below_the_divergence_still_forks_inside_the_turn() {
    let mut tree = Tree::new(ContentBlock::text("q"));
    let root = tree.root();
    let turn = graft(
        &mut tree,
        root,
        vec![
            ContentBlock::text("shared"),
            ContentBlock::thinking("weighing both", "sig"),
        ],
    )
    .unwrap();

    assert_eq!(fork_point(&tree, root, &turn).unwrap(), (turn[0], turn[1]));
}

#[test]
fn a_single_block_turn_forks_at_the_root() {
    let mut tree = Tree::new(ContentBlock::text("q"));
    let root = tree.root();
    let turn = graft(&mut tree, root, vec![ContentBlock::text("only")]).unwrap();

    assert_eq!(fork_point(&tree, root, &turn).unwrap(), (root, turn[0]));
}

#[test]
fn a_turn_with_no_blocks_has_nothing_to_fork() {
    let tree = Tree::new(ContentBlock::text("q"));
    let Err(error) = fork_point(&tree, tree.root(), &[]) else {
        panic!("an empty turn was accepted as a fork point");
    };

    assert!(error.message().contains("no content blocks"));
}

fn labeled(turn: Vec<ContentBlock>) -> (Tree, Vec<Status>) {
    let mut tree = Tree::new(ContentBlock::text("q"));
    let root = tree.root();

    let kept = graft(&mut tree, root, turn).unwrap();
    let (fork_at, kept_divergence) = fork_point(&tree, root, &kept).unwrap();
    let abandoned = graft(&mut tree, fork_at, vec![ContentBlock::text("other")]).unwrap();

    tree.set_status(kept_divergence, Status::Kept).unwrap();
    tree.set_status(abandoned[0], Status::Abandoned).unwrap();

    let mut effective = Vec::new();
    for leaf in tree.leaves() {
        effective.push(tree.effective_status(leaf).unwrap());
    }
    (tree, effective)
}

#[test]
fn each_branch_inherits_its_own_label_when_the_fork_is_interior() {
    let (_, effective) = labeled(vec![ContentBlock::text("a"), ContentBlock::text("b")]);

    assert_eq!(effective, vec![Status::Kept, Status::Abandoned]);
}

#[test]
fn each_branch_inherits_its_own_label_when_the_fork_is_at_the_root() {
    let (_, effective) = labeled(vec![ContentBlock::text("a")]);

    assert_eq!(effective, vec![Status::Kept, Status::Abandoned]);
}

#[test]
fn a_turn_is_grafted_block_under_block() {
    let mut tree = Tree::new(ContentBlock::text("q"));
    let root = tree.root();
    let turn = graft(&mut tree, root, vec![ContentBlock::text("a"), ContentBlock::text("b")]).unwrap();
    assert_eq!(tree.path(turn[1]).unwrap(), vec![root, turn[0], turn[1]]);

    let mut other = Tree::new(ContentBlock::text("other"));
    let error = graft(&mut other, turn[1], vec![ContentBlock::text("a")]).unwrap_err();
    assert_eq!(error.message(), "a node id was rejected by the tree that minted it");
    assert_eq!(other.leaves(), vec![other.root()]);
    assert!(graft(&mut other, turn[1], vec![]).unwrap().is_empty());
    assert_eq!(fork_point(&other, other.root(), &turn).unwrap_err(), error);
}

#[test]
fn every_branch_is_reported_with_its_labels() {
    let (tree, _) = labeled(vec![ContentBlock::text("a"), ContentBlock::text("b")]);
    let reports = report(&tree).unwrap();
    assert_eq!(reports.len(), 2);
    assert_eq!(reports[0].heading, "\n=== branch 0: labeled Kept, in force Kept ===");
    assert_eq!(reports[1].heading, "\n=== branch 1: labeled Abandoned, in force Abandoned ===");
    assert_eq!(reports[0].messages, tree.replay(tree.leaves()[0]).unwrap());
    assert_eq!(reports[0].footing, "-- prompt_for: 1 message(s), ending on User");
}

#[test]
fn only_an_early_stop_is_noted() {
    assert_eq!(stop_note("end_turn"), None);
    assert_eq!(stop_note("max_tokens").as_deref(), Some("\nnote: a turn stopped on max_tokens"));
}

#[test]
fn a_regenerated_turn_with_no_blocks_is_no_branch() {
    let mut tree = Tree::new(ContentBlock::text("u"));
    let root = tree.root();
    let ids = graft(&mut tree, root, vec![ContentBlock::text("a"), ContentBlock::text("b")]).unwrap();
    assert_eq!(second_divergence(&ids).unwrap(), ids[0]);
    assert_eq!(
        second_divergence(&[]).unwrap_err().message(),
        "the regenerated turn came back with no content blocks, so there is no second branch"
    );
}
