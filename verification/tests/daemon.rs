use sloop::cli::{
    after_index_request, after_search_request, after_status_request, hit_lines, print_index_stats,
    AfterAsking,
};
use sloop::daemon::{
    after_opening, bad_request, check_socket_path, first_step, hook_search_limit, nothing_found,
    recall_answer, reindex_answer, search_answer, status_answer, FirstStep, TableState,
};
use sloop::embed::{
    first_tokens, flatten, intra_threads, model_batch, model_inputs, prefixed_query, windows,
    ModelInput, Tokens,
};
use sloop::index::IndexStats;
use sloop::mcp::{plan_tool, read_line, search_reply, status_reply, RpcPlan, ToolPlan};
use sloop::proto::{LabelCount, Request, Response};
use sloop::recall::Hit;
use sloop::store::{root_count, RootCount};

fn hit(rel_path: &str, cosine: f32) -> Hit {
    Hit {
        score: 0.016_67_f32.to_bits(),
        cosine: cosine.to_bits(),
        title: "t".to_owned(),
        rel_path: rel_path.to_owned(),
        heading_path: "H".to_owned(),
        captured: "2026-08-01".to_owned(),
        source_type: "notes".to_owned(),
        text: format!("text of\n{rel_path}"),
    }
}

fn error(message: &str) -> Response {
    Response::Error { message: message.to_owned() }
}

#[test]
fn a_request_says_what_it_needs() {
    assert_eq!(first_step(&Request::Ping), FirstStep::Pong);
    assert_eq!(first_step(&Request::Status), FirstStep::CountRows);
    assert_eq!(first_step(&Request::Reindex { full: true }), FirstStep::Reindex { full: true });
    let search = Request::Search { query: " ".to_owned(), k: 3, filter: None };
    assert_eq!(first_step(&search), FirstStep::OpenTable);
    let recall = |prompt: &str| first_step(&Request::Recall { prompt: prompt.to_owned() });
    assert_eq!(recall("why?"), FirstStep::OpenTable);
    assert_eq!(recall(" \n "), FirstStep::NothingFound);
}

#[test]
fn without_an_index_a_search_is_an_error_and_a_recall_finds_nothing() {
    let missing = TableState::Missing;
    assert_eq!(
        after_opening("q", false, &missing, 4).unwrap_err(),
        error("no index yet; run `sloop-memory index`")
    );
    assert_eq!(after_opening("q", true, &missing, 4).unwrap_err(), nothing_found(4));
    let failed = TableState::Failed("io".to_owned());
    assert_eq!(after_opening("q", true, &failed, 4).unwrap_err(), error("io"));
    assert_eq!(after_opening("q", false, &failed, 4).unwrap_err(), error("io"));

    // The hook searches fewer units of a paste than a caller who waits.
    let paste = "stack frame line\n".repeat(4000);
    let count = |for_hook: bool| {
        let mut search = after_opening(&paste, for_hook, &TableState::Open, 0).unwrap();
        let mut n = 0;
        while search.next_unit().is_some() {
            search.searched(Ok(vec![]));
            n += 1;
        }
        n
    };
    assert!(count(true) < count(false));
    assert_eq!(count(false), 8);
    assert_eq!(hook_search_limit(), 12);
}

#[test]
fn answers_carry_what_was_found_or_what_went_wrong() {
    let found = Ok(vec![hit("a.md", 0.8), hit("b.md", 0.9)]);
    let Response::Hits { hits, elapsed_ms } = search_answer(&found, 1, 5) else {
        panic!("no hits");
    };
    assert_eq!((hits, elapsed_ms), (vec![hit("b.md", 0.9)], 5));

    let roots = [("notes", "/roots/notes")];
    let Response::Pointers { pointers, top_cosine, .. } = recall_answer(&found, &roots, 5) else {
        panic!("no pointers");
    };
    assert_eq!(pointers[0].path, "/roots/notes/b.md");
    assert_eq!(pointers.len(), 2);
    assert_eq!(top_cosine, Some(0.9_f32.to_bits()));

    let failed = Err("wedged".to_owned());
    assert_eq!(search_answer(&failed, 1, 5), error("wedged"));
    assert_eq!(recall_answer(&failed, &roots, 5), error("wedged"));
    assert_eq!(reindex_answer(Err("disk".to_owned())), error("disk"));
    let stats = IndexStats::default();
    assert_eq!(
        reindex_answer(Ok(IndexStats::default())),
        Response::Reindexed { stats }
    );
    assert_eq!(bad_request("expected value"), error("bad request: expected value"));
}

fn count(label: &str, count: RootCount) -> LabelCount {
    LabelCount { label: label.to_owned(), count }
}

#[test]
fn counts_come_back_in_the_order_of_their_labels() {
    let counts = vec![
        count("notes", RootCount::Rows(2)),
        count("memory", RootCount::Error("io".to_owned())),
        count("a", RootCount::Rows(0)),
        count("notes", RootCount::Rows(3)),
    ];
    assert_eq!(
        status_answer(counts, "/db".to_owned()),
        Response::Status {
            roots: vec![
                count("a", RootCount::Rows(0)),
                count("memory", RootCount::Error("io".to_owned())),
                count("notes", RootCount::Rows(3)),
            ],
            db: "/db".to_owned(),
        }
    );
}

#[test]
fn a_socket_path_is_measured_in_bytes() {
    assert_eq!(check_socket_path(&"x".repeat(103)), Ok(()));
    let long = "\u{e9}".repeat(52);
    assert_eq!(
        check_socket_path(&long),
        Err(format!(
            "socket path is 104 bytes, must be under 104: {long}\nSet SLOOP_MEMORY_SOCKET (or \
             SLOOP_MEMORY_STATE) to something shorter."
        ))
    );
}

#[test]
fn commands_fall_back_to_their_own_process() {
    assert!(matches!(after_index_request(None), AfterAsking::InProcess));
    assert!(matches!(
        after_index_request(Some(Response::Pong { pid: 1 })),
        AfterAsking::InProcess
    ));
    assert!(matches!(
        after_search_request(Some(error("bad filter"))),
        AfterAsking::Failed(why) if why == "daemon: bad filter"
    ));
    let hits = vec![hit("a.md", 0.5)];
    assert!(matches!(
        after_search_request(Some(Response::Hits { hits, elapsed_ms: 1 })),
        AfterAsking::Found(found) if found.len() == 1
    ));
    assert!(matches!(after_status_request(Some(error("x"))), AfterAsking::InProcess));
}

#[test]
fn a_hit_prints_on_two_lines() {
    let mut h = hit("a.md", 0.812_34);
    let (one, two) = hit_lines(&h);
    assert_eq!(one, "rrf=0.0167 cos=0.8123  a.md > H");
    assert_eq!(two, "        text of a.md");
    h.heading_path = String::new();
    h.text = "\u{e9}".repeat(130);
    let (one, two) = hit_lines(&h);
    assert_eq!(one, "rrf=0.0167 cos=0.8123  a.md");
    assert_eq!(two, format!("        {}", "\u{e9}".repeat(120)));
}

#[test]
fn an_index_run_prints_where_the_time_went() {
    let stats = IndexStats {
        scanned: 1,
        changed: 2,
        removed: 3,
        chunks_written: 4,
        indexes: vec!["notes: fts(text)".to_owned()],
        embed_ms: 5,
        write_ms: 6,
        post_index_ms: 7,
    };
    assert_eq!(
        print_index_stats(&stats, "daemon"),
        vec![
            "scanned 1 notes, 2 changed, 3 removed, 4 chunks written (daemon)",
            "  time: embed 5ms, write 6ms, index-build 7ms",
            "  index: notes: fts(text)",
        ]
    );
}

#[test]
fn a_notification_is_not_answered() {
    for line in [
        "",
        "   ",
        "not json",
        r#"{"jsonrpc":"2.0","method":"ping"}"#,
        r#"[{"id":1,"method":"ping"}]"#,
    ] {
        assert!(matches!(read_line(line), RpcPlan::Skip), "{line}");
    }
    // An id that is null is an id.
    assert!(matches!(
        read_line(r#"{"id":null,"method":"ping"}"#),
        RpcPlan::Pong { id } if id == "null"
    ));
}

#[test]
fn a_method_is_routed_by_its_name() {
    assert!(matches!(
        read_line(r#"{"id":"a\"b","method":"tools/list"}"#),
        RpcPlan::ListTools { id } if id == r#""a\"b""#
    ));
    assert!(matches!(
        read_line(r#"{"id":1,"method":"initialize","params":{"protocolVersion":"v9"}}"#),
        RpcPlan::Initialize { id, version } if id == "1" && version == "v9"
    ));
    assert!(matches!(
        read_line(r#"{"id":1,"method":"initialize"}"#),
        RpcPlan::Initialize { version, .. } if version == "2025-06-18"
    ));
    assert!(matches!(
        read_line(r#"{"id":1,"method":"nope"}"#),
        RpcPlan::NotFound { message, .. } if message == "method not found: nope"
    ));
    assert!(matches!(
        read_line(r#"{"id":1}"#),
        RpcPlan::NotFound { message, .. } if message == "method not found: "
    ));
}

#[test]
fn a_tool_call_is_read_and_bounded() {
    let call = |arguments: &str| {
        let line = format!(
            r#"{{"id":7,"method":"tools/call","params":{{"name":"sloop_search","arguments":{arguments}}}}}"#
        );
        match read_line(&line) {
            RpcPlan::Call { plan, .. } => plan,
            _ => panic!("not a call: {line}"),
        }
    };
    assert!(matches!(
        call(r#"{"query":"q","k":99,"filter":"a = 'b'"}"#),
        ToolPlan::Search(Request::Search { query, k: 10, filter })
            if query == "q" && filter.as_deref() == Some("a = 'b'")
    ));
    assert!(matches!(
        call(r#"{"query":"q"}"#),
        ToolPlan::Search(Request::Search { k: 3, filter: None, .. })
    ));
    assert!(matches!(
        call(r#"{"query":"q","k":0}"#),
        ToolPlan::Search(Request::Search { k: 1, .. })
    ));
    // A number that is no count is none at all.
    assert!(matches!(
        call(r#"{"query":"q","k":-2}"#),
        ToolPlan::Search(Request::Search { k: 3, .. })
    ));
    for arguments in [r#"{"query":"  "}"#, r#"{"query":5}"#, "{}"] {
        assert!(matches!(
            call(arguments),
            ToolPlan::Refuse(why) if why == "query is required"
        ));
    }
    assert!(matches!(
        plan_tool("sloop_status", None, None, None),
        ToolPlan::Status(Request::Status)
    ));
    assert!(matches!(
        plan_tool("rm", Some("q"), None, None),
        ToolPlan::Refuse(why) if why == "unknown tool: rm"
    ));
}

#[test]
fn a_tool_shows_hits_in_full() {
    let mut bare = hit("b.md", 0.5);
    bare.captured = String::new();
    let reply = Ok(Response::Hits { hits: vec![hit("a.md", 0.9), bare], elapsed_ms: 1 });
    let out = search_reply(&reply);
    assert!(!out.is_error);
    assert_eq!(
        out.text,
        "## notes:a.md > H\ncosine 0.900 | captured 2026-08-01\n\ntext of\na.md\n\n---\n\n\
         ## notes:b.md > H\ncosine 0.500 | captured unknown\n\ntext of\nb.md"
    );
    let none = search_reply(&Ok(Response::Hits { hits: vec![], elapsed_ms: 1 }));
    assert_eq!((none.text.as_str(), none.is_error), ("No matching notes in the index.", false));
    let refused = search_reply(&Ok(error("bad filter")));
    assert_eq!((refused.text.as_str(), refused.is_error), ("bad filter", true));
    let odd = search_reply(&Ok(Response::Pong { pid: 1 }));
    assert_eq!((odd.text.as_str(), odd.is_error), ("unexpected response from daemon", true));
    let down = search_reply(&Err("refused".to_owned()));
    assert_eq!(
        (down.text.as_str(), down.is_error),
        ("daemon unreachable (refused). Start it with `sloop-memory daemon`.", true)
    );
}

#[test]
fn a_tool_shows_the_status() {
    let roots = vec![
        count("memory", RootCount::Error("io".to_owned())),
        count("notes", RootCount::Rows(12)),
    ];
    let out = status_reply(&Ok(Response::Status { roots, db: "/db".to_owned() }));
    assert_eq!(out.text, "memory: ERROR -- io\nnotes: 12 rows\ndb: /db");
    assert!(!out.is_error);
    let down = status_reply(&Err("refused".to_owned()));
    assert_eq!((down.text.as_str(), down.is_error), ("daemon unreachable: refused", true));
    let odd = status_reply(&Ok(Response::Pong { pid: 1 }));
    assert_eq!((odd.text.as_str(), odd.is_error), ("unexpected response from daemon", true));
    let refused = status_reply(&Ok(error("x")));
    assert_eq!((refused.text.as_str(), refused.is_error), ("x", true));
}

#[test]
fn threads_follow_the_setting_and_are_capped_without_one() {
    assert_eq!(intra_threads(Some("12"), Some(4)), 12);
    assert_eq!(intra_threads(Some("+3"), Some(4)), 3);
    for bad in ["0", "", "+", "-1", " 3", "3 ", "x", "99999999999999999999999"] {
        assert_eq!(intra_threads(Some(bad), Some(4)), 4, "{bad:?}");
        assert_eq!(bad.parse::<usize>().ok().filter(|n| *n > 0), None, "{bad:?}");
    }
    assert_eq!(intra_threads(Some(&usize::MAX.to_string()), None), usize::MAX);
    assert_eq!(intra_threads(None, Some(16)), 8);
    assert_eq!(intra_threads(None, None), 4);
}

#[test]
fn a_batch_is_laid_out_as_the_model_takes_it() {
    assert_eq!(
        prefixed_query("q"),
        "Represent this sentence for searching relevant passages: q"
    );
    assert_eq!(windows(0), vec![]);
    assert_eq!(windows(32), vec![(0, 32)]);
    assert_eq!(windows(70), vec![(0, 32), (32, 64), (64, 70)]);
    let tokens = |ids: &[u32]| Tokens {
        ids: ids.to_vec(),
        attention_mask: vec![1; ids.len()],
        type_ids: vec![0; ids.len()],
    };
    let encoded = vec![tokens(&[1, 2]), tokens(&[u32::MAX, 3])];
    assert_eq!(flatten(&encoded, ModelInput::InputIds), vec![1, 2, 4_294_967_295, 3]);
    let inputs = vec![ModelInput::AttentionMask, ModelInput::TokenTypeIds];
    let batch = model_batch(&encoded, &inputs).unwrap();
    assert_eq!((batch.texts, batch.tokens), (2, 2));
    assert_eq!(
        batch.fed,
        vec![
            (ModelInput::AttentionMask, vec![1, 1, 1, 1]),
            (ModelInput::TokenTypeIds, vec![0, 0, 0, 0]),
        ]
    );
    assert!(model_batch(&vec![], &inputs).is_none());
    assert!(model_batch(&vec![tokens(&[]), tokens(&[1])], &inputs).is_none());
    let declared = vec!["token_type_ids".to_owned(), "input_ids".to_owned()];
    assert_eq!(model_inputs(&declared), vec![ModelInput::InputIds, ModelInput::TokenTypeIds]);
    assert_eq!(ModelInput::AttentionMask.name(), "attention_mask");
    assert_eq!(first_tokens(2, 3, 4, 24), Some(vec![(0, 4), (12, 16)]));
    assert_eq!(first_tokens(2, 3, 4, 15), None);
    assert_eq!(first_tokens(0, 3, 4, 0), Some(vec![]));
    assert_eq!(first_tokens(3, usize::MAX, usize::MAX, 10), None);
}

#[test]
fn a_failure_to_count_is_never_zero_rows() {
    let why = || "locked".to_owned();
    assert_eq!(root_count(Ok(Some(Ok(7)))), RootCount::Rows(7));
    assert_eq!(root_count(Ok(None)), RootCount::Rows(0));
    assert_eq!(root_count(Ok(Some(Err(why())))), RootCount::Error(why()));
    assert_eq!(root_count(Err(why())), RootCount::Error(why()));
}
