use sloop::cli::{print_status, status_exit};
use sloop::hook::{
    hook_outcome, hook_prompt, hook_reply, hook_step, is_non_user_envelope,
    render_pointer_block, step_for, HookReply, HookStep,
    MEMORY_PREAMBLE, NOTES_PREAMBLE, TRANSCRIPT_PREAMBLE,
};
use sloop::proto::{LabelCount, Request, Response};
use sloop::recall::Pointer;
use sloop::store::RootCount;

fn pointer(source_type: &str, title: &str) -> Pointer {
    Pointer {
        title: title.to_string(),
        source_type: source_type.to_string(),
        path: String::new(),
        rel_path: format!("{title}.md"),
        heading_path: "Some Heading".to_string(),
        captured: "2026-08-01".to_string(),
        cosine: 0.42_f32.to_bits(),
    }
}

fn line(source_type: &str, title: &str) -> String {
    format!(
        "  {title}.md > Some Heading  (source {source_type}, cos 0.42, \
         captured 2026-08-01)\n"
    )
}

#[test]
fn framing_follows_the_label_not_the_content() {
    let memory_ptr = pointer("memory", "same-title");
    let notes_ptr = pointer("notes", "same-title");
    let block = render_pointer_block(&[memory_ptr, notes_ptr]);

    let memory_start = block.find(MEMORY_PREAMBLE).unwrap();
    let notes_start = block.find(NOTES_PREAMBLE).unwrap();
    let (memory_section, notes_section) = if memory_start < notes_start {
        (&block[memory_start..notes_start], &block[notes_start..])
    } else {
        (&block[memory_start..], &block[notes_start..memory_start])
    };

    assert!(!memory_section.contains("re-verify"));
    assert!(!memory_section.contains("live source"));
    assert!(notes_section.contains("re-verify"));
    assert!(notes_section.contains("live source"));
}

#[test]
fn single_root_renders_one_group() {
    let block = render_pointer_block(&[pointer("notes", "only-one")]);

    assert!(block.contains(NOTES_PREAMBLE));
    assert!(!block.contains(MEMORY_PREAMBLE));
    assert!(!block.contains(TRANSCRIPT_PREAMBLE));
}

#[test]
fn unknown_label_gets_notes_framing() {
    let block = render_pointer_block(&[pointer("scratch", "mystery-root")]);

    assert!(block.contains(NOTES_PREAMBLE));
    assert!(!block.contains(MEMORY_PREAMBLE));
    assert!(!block.contains(TRANSCRIPT_PREAMBLE));
}

#[test]
fn a_transcript_pointer_is_framed_as_a_record() {
    let mut ptr = pointer("transcripts", "2026-09-13-cache");
    ptr.heading_path = "Turn 4 > Not continued".to_string();
    let block = render_pointer_block(&[ptr]);

    let framing = "Relevant session transcript pointers -- a record of a conversation, not \
        its conclusions. Read the exact file path; do not call sloop_search for the same \
        query. Read around the hit; the surrounding turns are what give it meaning. A `Not \
        continued` heading marks an approach the session tried and dropped -- not a \
        finding.\n";
    let hit = "  2026-09-13-cache.md > Turn 4 > Not continued  (source transcripts, \
        cos 0.42, captured 2026-08-01)\n";
    assert_eq!(
        block,
        format!("<sloop-recall>\n{framing}{hit}</sloop-recall>")
    );
}

#[test]
fn all_three_roots_each_get_their_own_framing() {
    let block = render_pointer_block(&[
        pointer("notes", "debounce"),
        pointer("memory", "prefers-worktrees"),
        pointer("transcripts", "2026-09-13-cache"),
        pointer("notes", "chunking"),
    ]);

    assert_eq!(
        block,
        format!(
            "<sloop-recall>\n{NOTES_PREAMBLE}{}{}{MEMORY_PREAMBLE}{}\
             {TRANSCRIPT_PREAMBLE}{}</sloop-recall>",
            line("notes", "debounce"),
            line("notes", "chunking"),
            line("memory", "prefers-worktrees"),
            line("transcripts", "2026-09-13-cache"),
        )
    );
}

#[test]
fn group_order_follows_first_appearance_in_the_input() {
    let block = render_pointer_block(&[
        pointer("transcripts", "2026-09-13-cache"),
        pointer("memory", "prefers-worktrees"),
        pointer("notes", "debounce"),
    ]);

    assert_eq!(
        block,
        format!(
            "<sloop-recall>\n{TRANSCRIPT_PREAMBLE}{}{MEMORY_PREAMBLE}{}\
             {NOTES_PREAMBLE}{}</sloop-recall>",
            line("transcripts", "2026-09-13-cache"),
            line("memory", "prefers-worktrees"),
            line("notes", "debounce"),
        )
    );
}

#[test]
fn notes_preamble_does_not_claim_to_be_memory() {
    assert!(!NOTES_PREAMBLE.to_lowercase().contains("memory"));
}

#[test]
fn memory_preamble_does_not_frame_its_corpus_as_dated_notes() {
    let preamble = MEMORY_PREAMBLE.to_lowercase();
    assert!(!preamble.contains("dated"));
    assert!(!preamble.contains("re-verify"));
    assert!(!preamble.contains("live source"));
}

#[test]
fn skips_task_and_local_command_envelopes() {
    assert!(is_non_user_envelope("<task-notification>\nfinished"));
    assert!(is_non_user_envelope("  <task_notification>finished"));
    assert!(is_non_user_envelope("<local-command-stdout>done"));
}

#[test]
fn keeps_real_user_prompts_including_xml_discussion() {
    assert!(!is_non_user_envelope(
        "Explain <task-notification> handling"
    ));
    assert!(!is_non_user_envelope("How does the debouncer work?"));
}

#[test]
fn print_status_flags_a_root_that_failed_to_report_a_count() {
    let roots = vec![
        LabelCount {
            label: "memory".to_string(),
            count: RootCount::Error("disk read failed".into()),
        },
        LabelCount { label: "notes".to_string(), count: RootCount::Rows(0) },
    ];
    let report = print_status(&roots, "/tmp/db");
    assert!(!report.all_ok);
    assert_eq!(
        report.lines,
        vec!["memory:   ERROR -- disk read failed", "notes:   0 rows", "db:      /tmp/db"]
    );
}

#[test]
fn print_status_succeeds_when_every_root_answers() {
    let roots = vec![LabelCount { label: "notes".to_string(), count: RootCount::Rows(3) }];
    assert!(print_status(&roots, "/tmp/db").all_ok);
}

#[test]
fn status_exit_fails_the_command_when_any_root_errored() {
    assert!(status_exit(true).is_ok());
    assert!(status_exit(false).is_err());
}

#[test]
fn a_bare_pointer_says_what_it_lacks() {
    let bare = Pointer {
        title: String::new(),
        source_type: String::new(),
        path: "/roots/notes/a.md".to_string(),
        rel_path: "a.md".to_string(),
        heading_path: String::new(),
        captured: String::new(),
        cosine: 0.996_f32.to_bits(),
    };
    let block = render_pointer_block(&[bare]);
    assert_eq!(
        block,
        format!(
            "<sloop-recall>\n{NOTES_PREAMBLE}  /roots/notes/a.md  (source notes, cos 1.00, \
             captured: unknown)\n</sloop-recall>"
        )
    );
}

#[test]
fn the_prompt_is_read_from_the_payload() {
    let payload = r#"{"session_id":"s","prompt":"why \u00e9?\nnow"}"#;
    assert_eq!(hook_prompt(payload).as_deref(), Some("why \u{e9}?\nnow"));
    assert_eq!(hook_prompt(r#"{"prompt":3}"#), None);
    assert_eq!(hook_prompt(r#"{"text":"x"}"#), None);
    assert_eq!(hook_prompt(r#"["prompt"]"#), None);
    assert_eq!(hook_prompt("not json"), None);
}

#[test]
fn the_hook_never_fails_loudly() {
    let out = hook_outcome(&HookReply::Unavailable, 250);
    assert_eq!((out.outcome, out.elapsed_ms, out.context), ("unavailable", 250, None));

    let out = hook_outcome(&HookReply::Pointers { pointers: vec![], elapsed_ms: 7 }, 9);
    assert_eq!((out.outcome, out.elapsed_ms, out.context), ("miss", 7, None));

    let pointers = vec![pointer("notes", "one")];
    let block = render_pointer_block(&pointers);
    let out = hook_outcome(&HookReply::Pointers { pointers, elapsed_ms: 7 }, 9);
    assert_eq!((out.outcome, out.elapsed_ms, out.context), ("injected", 7, Some(block)));
}

#[test]
fn a_pointer_into_a_dropped_branch_shows_the_heading_that_says_so() {
    let mut dropped = pointer("transcripts", "session");
    dropped.heading_path = "How should it expire? > Turn 1 > Not continued".to_string();
    let block = render_pointer_block(&[dropped]);

    assert!(block.contains(
        "  session.md > How should it expire? > Turn 1 > Not continued  (source transcripts, "
    ));
    assert!(block.contains(TRANSCRIPT_PREAMBLE));
}

#[test]
fn pointers_of_one_framing_stand_together_in_the_order_they_came() {
    let block = render_pointer_block(&[
        pointer("notes", "a"),
        pointer("memory", "b"),
        pointer("scratch", "c"),
        pointer("memory", "d"),
    ]);

    assert_eq!(
        block,
        format!(
            "<sloop-recall>\n{NOTES_PREAMBLE}{}{}{MEMORY_PREAMBLE}{}{}</sloop-recall>",
            line("notes", "a"),
            line("scratch", "c"),
            line("memory", "b"),
            line("memory", "d"),
        )
    );
}

#[test]
fn an_envelope_is_skipped_before_anything_is_asked() {
    let envelope = "  <task-notification>done</task-notification>";
    match step_for(Some(envelope.to_string())) {
        HookStep::Skip { prompt, outcome } => {
            assert_eq!(prompt, envelope);
            assert_eq!(outcome, "skipped");
        }
        other => panic!("{other:?}"),
    }
    let payload = r#"{"prompt":"<local-command-stdout>x"}"#;
    assert!(matches!(hook_step(payload), HookStep::Skip { outcome: "skipped", .. }));
    assert!(matches!(hook_step("not json"), HookStep::Ignore));
    assert!(matches!(step_for(None), HookStep::Ignore));
    match hook_step(r#"{"prompt":"why?"}"#) {
        HookStep::Ask(Request::Recall { prompt }) => assert_eq!(prompt, "why?"),
        other => panic!("{other:?}"),
    }
}

#[test]
fn any_reply_but_pointers_is_unavailable() {
    let error = Response::Error { message: "no".to_string() };
    for reply in [None, Some(error), Some(Response::Pong { pid: 1 })] {
        let (taken, top) = hook_reply(reply);
        assert!(matches!(taken, HookReply::Unavailable));
        assert!(taken.pointers().is_empty());
        assert_eq!(top, None);
        let out = hook_outcome(&taken, 250);
        assert_eq!((out.outcome, out.elapsed_ms, out.context), ("unavailable", 250, None));
    }
    let (taken, top) = hook_reply(Some(Response::Pointers {
        pointers: vec![pointer("notes", "a")],
        elapsed_ms: 7,
        top_cosine: Some(9),
    }));
    assert_eq!(taken.pointers(), [pointer("notes", "a")]);
    assert_eq!(top, Some(9));
    assert_eq!(hook_outcome(&taken, 250).elapsed_ms, 7);
}
