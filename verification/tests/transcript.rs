use sloop::chunk::{parse_note, ParsedNote};
use sloop::harness::{fork_point, graft};
use sloop::index::note_title;
use sloop::transcript::{filename, render};
use sloop::tree::{ContentBlock, NodeId, Role, Tree};

const DATE: &str = "2026-09-13";

#[test]
fn a_filename_is_the_date_and_a_slug_of_the_opening_question() {
    let tree = Tree::new(ContentBlock::text("How should the cache expire?"));

    assert_eq!(
        filename(&tree, "2026-09-13"),
        "2026-09-13-how-should-the-cache-expire.md"
    );
}

#[test]
fn punctuation_and_casing_never_reach_the_name() {
    let tree = Tree::new(ContentBlock::text("Cache/TTL: Why NOT?"));

    assert_eq!(
        filename(&tree, "2026-09-13"),
        "2026-09-13-cache-ttl-why-not.md"
    );
}

#[test]
fn a_long_title_is_cut_at_the_cap() {
    let tree = Tree::new(ContentBlock::text(
        "How should the cache expire when the process restarts and the disk fills up?",
    ));

    assert_eq!(
        filename(&tree, "2026-09-13"),
        "2026-09-13-how-should-the-cache-expire-when-the-process-restarts-and-th.md"
    );
}

#[test]
fn a_title_of_pure_punctuation_falls_back() {
    let tree = Tree::new(ContentBlock::text("!!! ???"));

    assert_eq!(filename(&tree, "2026-09-13"), "2026-09-13-session.md");
}

#[test]
fn a_non_ascii_title_falls_back_too() {
    let tree = Tree::new(ContentBlock::text("キャッシュはどう失効させるべき?"));

    assert_eq!(filename(&tree, "2026-09-13"), "2026-09-13-session.md");
}

#[test]
fn an_empty_opening_block_is_named_from_the_placeholder_title() {
    let tree = Tree::new(ContentBlock::text(""));

    assert_eq!(
        filename(&tree, "2026-09-13"),
        "2026-09-13-untitled-session.md"
    );
}

#[test]
fn a_linear_session_renders_as_turns_under_a_title() {
    let mut tree = Tree::new(ContentBlock::text("How should the cache expire?"));
    let root = tree.root();
    let reply = tree
        .append(
            root,
            Role::Assistant,
            ContentBlock::text("Expire on write."),
        )
        .unwrap();
    let tip = tree
        .append(reply, Role::User, ContentBlock::text("Why not TTL?"))
        .unwrap();

    assert_eq!(
        render(&tree, tip, "2026-09-13").unwrap(),
        "\
---
type: transcript
captured: 2026-09-13
---

# How should the cache expire?

## Turn 1

**user:** How should the cache expire?

**assistant:** Expire on write.

## Turn 2

**user:** Why not TTL?
"
    );
}

#[test]
fn a_thinking_block_leaves_no_trace() {
    let mut tree = Tree::new(ContentBlock::text("How should the cache expire?"));
    let root = tree.root();
    let thinking = tree
        .append(
            root,
            Role::Assistant,
            ContentBlock::thinking("Weighing LRU against TTL.", "ErUBCkYIBRgCIkA="),
        )
        .unwrap();
    let tip = tree
        .append(
            thinking,
            Role::Assistant,
            ContentBlock::text("Expire on write."),
        )
        .unwrap();

    assert_eq!(
        render(&tree, tip, "2026-09-13").unwrap(),
        "\
---
type: transcript
captured: 2026-09-13
---

# How should the cache expire?

## Turn 1

**user:** How should the cache expire?

**assistant:** Expire on write.
"
    );
}

#[test]
fn an_abandoned_branch_is_quoted_to_its_own_tip() {
    let mut tree = Tree::new(ContentBlock::text("How should the cache expire?"));
    let root = tree.root();
    let aside = tree
        .append(root, Role::Assistant, ContentBlock::text("TTL at 60s."))
        .unwrap();
    let question = tree
        .append(
            aside,
            Role::User,
            ContentBlock::text("Does that handle writes?"),
        )
        .unwrap();
    tree.append(
        question,
        Role::Assistant,
        ContentBlock::text("No, stale until expiry."),
    )
    .unwrap();
    let tip = tree
        .append(
            root,
            Role::Assistant,
            ContentBlock::text("Expire on write."),
        )
        .unwrap();

    assert_eq!(
        render(&tree, tip, "2026-09-13").unwrap(),
        "\
---
type: transcript
captured: 2026-09-13
---

# How should the cache expire?

## Turn 1

**user:** How should the cache expire?

**assistant:** Expire on write.

### Not continued

> **assistant:** TTL at 60s.
>
> **user:** Does that handle writes?
>
> **assistant:** No, stale until expiry.
"
    );
}

#[test]
fn the_kept_branch_is_the_spine_even_though_the_fork_is_newer() {
    let mut tree = Tree::new(ContentBlock::text("How should the cache expire?"));
    let root = tree.root();
    let kept = tree
        .append(
            root,
            Role::Assistant,
            ContentBlock::text("Expire on write."),
        )
        .unwrap();
    tree.append(root, Role::Assistant, ContentBlock::text("TTL at 60s."))
        .unwrap();

    assert_eq!(
        render(&tree, kept, "2026-09-13").unwrap(),
        "\
---
type: transcript
captured: 2026-09-13
---

# How should the cache expire?

## Turn 1

**user:** How should the cache expire?

**assistant:** Expire on write.

### Not continued

> **assistant:** TTL at 60s.
"
    );
}

#[test]
fn a_tip_that_is_not_a_leaf_ends_the_spine_there() {
    let mut tree = Tree::new(ContentBlock::text("How should the cache expire?"));
    let root = tree.root();
    let reply = tree
        .append(
            root,
            Role::Assistant,
            ContentBlock::text("Expire on write."),
        )
        .unwrap();
    tree.append(reply, Role::User, ContentBlock::text("Why not TTL?"))
        .unwrap();

    assert_eq!(
        render(&tree, reply, "2026-09-13").unwrap(),
        "\
---
type: transcript
captured: 2026-09-13
---

# How should the cache expire?

## Turn 1

**user:** How should the cache expire?

**assistant:** Expire on write.

### Not continued

> **user:** Why not TTL?
"
    );
}

#[test]
fn a_tip_this_tree_never_minted_renders_nothing() {
    let mut other = Tree::new(ContentBlock::text("A different session."));
    let root = other.root();
    let foreign = other
        .append(root, Role::Assistant, ContentBlock::text("A reply."))
        .unwrap();
    let tree = Tree::new(ContentBlock::text("How should the cache expire?"));

    assert_eq!(render(&tree, foreign, "2026-09-13"), None);
}

#[test]
fn a_branch_that_renders_to_nothing_gets_no_heading() {
    let mut tree = Tree::new(ContentBlock::text("How should the cache expire?"));
    let root = tree.root();
    tree.append(
        root,
        Role::Assistant,
        ContentBlock::thinking("Weighing LRU against TTL.", "ErUBCkYIBRgCIkA="),
    )
    .unwrap();
    let tip = tree
        .append(
            root,
            Role::Assistant,
            ContentBlock::text("Expire on write."),
        )
        .unwrap();

    assert_eq!(
        render(&tree, tip, "2026-09-13").unwrap(),
        "\
---
type: transcript
captured: 2026-09-13
---

# How should the cache expire?

## Turn 1

**user:** How should the cache expire?

**assistant:** Expire on write.
"
    );
}

#[test]
fn a_reply_opening_on_a_fence_starts_its_own_line() {
    let mut tree = Tree::new(ContentBlock::text("How should the cache expire?"));
    let root = tree.root();
    let reply = tree
        .append(
            root,
            Role::Assistant,
            ContentBlock::text(
                "```rust\nfn expire(entry: &mut Entry) {\n    entry.stale = true;\n}\n```",
            ),
        )
        .unwrap();
    let tip = tree
        .append(
            reply,
            Role::User,
            ContentBlock::text("Does that handle reads?"),
        )
        .unwrap();
    tree.append(root, Role::Assistant, ContentBlock::text("TTL at 60s."))
        .unwrap();

    assert_eq!(
        render(&tree, tip, "2026-09-13").unwrap(),
        "\
---
type: transcript
captured: 2026-09-13
---

# How should the cache expire?

## Turn 1

**user:** How should the cache expire?

**assistant:**
```rust
fn expire(entry: &mut Entry) {
    entry.stale = true;
}
```

### Not continued

> **assistant:** TTL at 60s.

## Turn 2

**user:** Does that handle reads?
"
    );
}

#[test]
fn a_prompt_opening_on_a_fence_starts_its_own_line() {
    let mut tree = Tree::new(ContentBlock::text(
        "```rust\nfn expire(entry: &mut Entry) {}\n```",
    ));
    let root = tree.root();
    let tip = tree
        .append(
            root,
            Role::Assistant,
            ContentBlock::text("That never marks the entry stale."),
        )
        .unwrap();
    tree.append(
        root,
        Role::Assistant,
        ContentBlock::text("Looks correct to me."),
    )
    .unwrap();

    assert_eq!(
        render(&tree, tip, "2026-09-13").unwrap(),
        "\
---
type: transcript
captured: 2026-09-13
---

# ```rust

## Turn 1

**user:**
```rust
fn expire(entry: &mut Entry) {}
```

**assistant:** That never marks the entry stale.

### Not continued

> **assistant:** Looks correct to me.
"
    );
}

#[test]
fn a_turn_interrupted_inside_a_fence_is_closed() {
    let mut tree = Tree::new(ContentBlock::text("How should the cache expire?"));
    let root = tree.root();
    let partial = tree
        .append(
            root,
            Role::Assistant,
            ContentBlock::text("Like this:\n```rust\nfn expire(entry: &mut Entry) {"),
        )
        .unwrap();
    let steer = tree
        .append(partial, Role::User, ContentBlock::text("Stop, wrong file."))
        .unwrap();
    let tip = tree
        .append(
            steer,
            Role::Assistant,
            ContentBlock::text("Expire on write."),
        )
        .unwrap();
    tree.append(steer, Role::Assistant, ContentBlock::text("TTL at 60s."))
        .unwrap();

    assert_eq!(
        render(&tree, tip, "2026-09-13").unwrap(),
        "\
---
type: transcript
captured: 2026-09-13
---

# How should the cache expire?

## Turn 1

**user:** How should the cache expire?

**assistant:** Like this:
```rust
fn expire(entry: &mut Entry) {
```

## Turn 2

**user:** Stop, wrong file.

**assistant:** Expire on write.

### Not continued

> **assistant:** TTL at 60s.
"
    );
}

#[test]
fn a_fence_inside_an_aside_stays_quoted() {
    let mut tree = Tree::new(ContentBlock::text("How should the cache expire?"));
    let root = tree.root();
    let reply = tree
        .append(
            root,
            Role::Assistant,
            ContentBlock::text("Expire on write."),
        )
        .unwrap();
    let tip = tree
        .append(
            reply,
            Role::User,
            ContentBlock::text("Does that handle reads?"),
        )
        .unwrap();
    tree.append(
        root,
        Role::Assistant,
        ContentBlock::text("```rust\nfn ttl() {}"),
    )
    .unwrap();

    assert_eq!(
        render(&tree, tip, "2026-09-13").unwrap(),
        "\
---
type: transcript
captured: 2026-09-13
---

# How should the cache expire?

## Turn 1

**user:** How should the cache expire?

**assistant:** Expire on write.

### Not continued

> **assistant:**
> ```rust
> fn ttl() {}
> ```

## Turn 2

**user:** Does that handle reads?
"
    );
}

#[test]
fn an_unclosed_tilde_fence_is_closed_with_tildes() {
    let mut tree = Tree::new(ContentBlock::text("How should the cache expire?"));
    let root = tree.root();
    let tip = tree
        .append(
            root,
            Role::Assistant,
            ContentBlock::text("~~~rust\nfn expire() {"),
        )
        .unwrap();

    assert_eq!(
        render(&tree, tip, "2026-09-13").unwrap(),
        "\
---
type: transcript
captured: 2026-09-13
---

# How should the cache expire?

## Turn 1

**user:** How should the cache expire?

**assistant:**
~~~rust
fn expire() {
~~~
"
    );
}

fn chunked_session(
    prompt: &str,
    kept: Vec<ContentBlock>,
    abandoned: Vec<ContentBlock>,
) -> ParsedNote {
    let mut tree = Tree::new(ContentBlock::text(prompt));
    let root = tree.root();

    let first = graft(&mut tree, root, kept).unwrap();
    let live = *first.last().unwrap();
    let (fork_at, _) = fork_point(&tree, root, &first).unwrap();
    graft(&mut tree, fork_at, abandoned).unwrap();

    recorded(&tree, live)
}

/// The session under its name, as the index reads it back.
fn recorded(tree: &Tree, live: NodeId) -> ParsedNote {
    let name = filename(tree, DATE);
    let title = note_title(&name);
    parse_note(&title, &render(tree, live, DATE).unwrap())
}

fn abandonment_survives(note: &ParsedNote) {
    let paths: Vec<&str> = note
        .chunks
        .iter()
        .map(|c| c.heading_path.as_str())
        .collect();
    assert!(
        paths.iter().any(|p| p.ends_with("Not continued")),
        "the abandoned branch lost its heading: {paths:?}"
    );
}

#[test]
fn a_dropped_branch_reaches_the_chunker_as_a_heading() {
    let note = chunked_session(
        "How should the cache expire?",
        vec![ContentBlock::text("Expire on write.")],
        vec![ContentBlock::text("TTL at 60s.")],
    );

    abandonment_survives(&note);
}

#[test]
fn a_recorded_session_carries_its_type_and_date_through_the_chunker() {
    let note = chunked_session(
        "How should the cache expire?",
        vec![ContentBlock::text("Expire on write.")],
        vec![ContentBlock::text("TTL at 60s.")],
    );

    assert_eq!(note.frontmatter.note_type, "transcript");
    assert_eq!(
        note.frontmatter.captured,
        DATE
    );
}

#[test]
fn a_reply_opening_on_a_fence_leaves_the_heading_below_it_intact() {
    let note = chunked_session(
        "How should the cache expire?",
        vec![ContentBlock::text(
            "```rust\nfn expire(entry: &mut Entry) {\n    entry.stale = true;\n}\n```",
        )],
        vec![ContentBlock::text("TTL at 60s.")],
    );

    abandonment_survives(&note);
}

#[test]
fn a_turn_interrupted_inside_a_fence_leaves_the_heading_below_it_intact() {
    let note = chunked_session(
        "How should the cache expire?",
        vec![ContentBlock::text(
            "```rust\nfn expire(entry: &mut Entry) {",
        )],
        vec![ContentBlock::text("TTL at 60s.")],
    );

    abandonment_survives(&note);
}

#[test]
fn an_interrupted_fence_does_not_swallow_the_turn_after_it() {
    let mut tree = Tree::new(ContentBlock::text("How should the cache expire?"));
    let root = tree.root();

    let first = graft(
        &mut tree,
        root,
        vec![ContentBlock::text(
            "```rust\nfn expire(entry: &mut Entry) {",
        )],
    )
    .unwrap();
    let (fork_at, _) = fork_point(&tree, root, &first).unwrap();
    graft(&mut tree, fork_at, vec![ContentBlock::text("TTL at 60s.")]).unwrap();

    let live = tree
        .append(
            *first.last().unwrap(),
            Role::User,
            ContentBlock::text("Does that handle reads?"),
        )
        .unwrap();

    let note = recorded(&tree, live);

    let paths: Vec<&str> = note
        .chunks
        .iter()
        .map(|c| c.heading_path.as_str())
        .collect();
    assert!(
        paths.iter().any(|p| p.ends_with("Turn 2")),
        "the turn after the interrupted one was swallowed: {paths:?}"
    );
}

#[test]
fn an_opening_prompt_of_pasted_code_leaves_the_heading_below_it_intact() {
    let note = chunked_session(
        "```rust\nfn expire(entry: &mut Entry) {}\n```",
        vec![ContentBlock::text("That never marks the entry stale.")],
        vec![ContentBlock::text("Looks correct to me.")],
    );

    abandonment_survives(&note);
}

#[test]
fn the_live_branch_is_not_itself_marked_not_continued() {
    let note = chunked_session(
        "How should the cache expire?",
        vec![ContentBlock::text("Expire on write.")],
        vec![ContentBlock::text("TTL at 60s.")],
    );

    let live: Vec<&str> = note
        .chunks
        .iter()
        .filter(|c| c.text.contains("Expire on write."))
        .map(|c| c.heading_path.as_str())
        .collect();
    assert!(!live.is_empty(), "the live reply reached no chunk at all");
    assert!(
        !live.iter().any(|p| p.ends_with("Not continued")),
        "the live branch was recorded as abandoned: {live:?}"
    );
}

#[test]
fn a_heading_inside_a_block_does_not_hide_the_dropped_branch() {
    let note = chunked_session(
        "# Question\n\nHow?",
        vec![ContentBlock::text("#### deep\n\nanswer\n\n## Wide\n\nmore")],
        vec![ContentBlock::text("first\n\n# loud\n\nlast")],
    );

    let dropped: Vec<&str> = note
        .chunks
        .iter()
        .filter(|c| c.heading_path.ends_with("Not continued"))
        .map(|c| c.text.as_str())
        .collect();
    assert_eq!(dropped.len(), 1);
    assert!(dropped[0].ends_with("> **assistant:** first\n>\n> # loud\n>\n> last"));
}

#[test]
fn a_fork_inside_a_fork_follows_its_newest_leaf() {
    let mut tree = Tree::new(ContentBlock::text("q"));
    let root = tree.root();
    let tip = tree.append(root, Role::Assistant, ContentBlock::text("kept")).unwrap();
    let side = tree.append(root, Role::Assistant, ContentBlock::text("side")).unwrap();
    tree.append(side, Role::Assistant, ContentBlock::text("older")).unwrap();
    tree.append(side, Role::Assistant, ContentBlock::text("newer")).unwrap();

    let text = render(&tree, tip, DATE).unwrap();
    assert!(text.ends_with("> **assistant:** side\n>\n> **assistant:** newer\n"));
    assert!(!text.contains("older"));
}

#[test]
fn the_date_is_read_back_unquoted() {
    let tree = Tree::new(ContentBlock::text("q"));
    let note = parse_note("t", &render(&tree, tree.root(), " \"2026-09-13\" \r").unwrap());
    assert_eq!(note.frontmatter.note_type, "transcript");
    assert_eq!(note.frontmatter.captured, "2026-09-13");
    assert!(note.frontmatter.tags.is_empty());
}

#[test]
fn a_closer_matches_the_run_it_closes() {
    let tree = Tree::new(ContentBlock::text("````md\n```\ninner\n```\n"));
    let text = render(&tree, tree.root(), DATE).unwrap();
    assert!(text.ends_with("**user:**\n````md\n```\ninner\n```\n```\n"), "{text}");
}

#[test]
fn a_long_title_slugs_to_a_bounded_name() {
    let tree = Tree::new(ContentBlock::text(&"a ".repeat(500)));
    let name = filename(&tree, DATE);
    assert!(name.len() <= DATE.len() + 64);
    assert!(name.chars().all(|c| c.is_ascii_lowercase() || c.is_ascii_digit() || "-.".contains(c)));
}

#[test]
fn a_heading_in_a_live_reply_is_the_last_of_its_path() {
    let note = chunked_session(
        "How should the cache expire?",
        vec![ContentBlock::text("### Not continued\n\nExpire on write.\n\n### Why\n\nFresh reads.")],
        vec![ContentBlock::text("TTL at 60s.")],
    );

    let path_of = |words: &str| {
        let chunk = note.chunks.iter().find(|c| c.text.contains(words)).unwrap();
        chunk.heading_path.clone()
    };
    assert_eq!(path_of("Expire on write."), "How should the cache expire? > Turn 1");
    assert_eq!(path_of("Fresh reads."), "How should the cache expire? > Turn 1 > Why");
    assert_eq!(
        path_of("TTL at 60s."),
        "How should the cache expire? > Turn 1 > Not continued"
    );
}
