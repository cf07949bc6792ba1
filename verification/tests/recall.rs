use sloop::chunk::split_query;
use sloop::config::{HOOK_MIN_COSINE, MAX_QUERY_UNITS};
use sloop::daemon::{recall, UnitSearch};
use sloop::recall::{
    best_k, consolidate, rank_of, take_round_robin, top_cosine, Hit, Pointer,
};

fn hit(source_type: &str, rel_path: &str, heading: &str, cosine: f32) -> Hit {
    Hit {
        score: 0,
        cosine: cosine.to_bits(),
        title: String::new(),
        rel_path: rel_path.to_string(),
        heading_path: heading.to_string(),
        captured: String::new(),
        source_type: source_type.to_string(),
        text: String::new(),
    }
}

fn pointer(source_type: &str, cosine: f32) -> Pointer {
    Pointer {
        title: String::new(),
        source_type: source_type.to_string(),
        path: String::new(),
        rel_path: String::new(),
        heading_path: String::new(),
        captured: String::new(),
        cosine: cosine.to_bits(),
    }
}

fn labelled(picked: &[Pointer]) -> Vec<(&str, f32)> {
    picked
        .iter()
        .map(|p| (p.source_type.as_str(), f32::from_bits(p.cosine)))
        .collect()
}

#[test]
fn no_single_root_takes_every_pointer_slot() {
    let hits = vec![
        pointer("transcripts", 0.95),
        pointer("transcripts", 0.94),
        pointer("transcripts", 0.93),
        pointer("notes", 0.80),
    ];

    let picked = take_round_robin(&hits, 3);
    let labels: Vec<&str> = picked.iter().map(|p| p.source_type.as_str()).collect();

    assert_eq!(labels, vec!["transcripts", "notes", "transcripts"]);
}

#[test]
fn one_root_still_fills_the_block_when_it_is_the_only_one() {
    let hits = vec![
        pointer("notes", 0.90),
        pointer("notes", 0.85),
        pointer("notes", 0.80),
    ];

    assert_eq!(take_round_robin(&hits, 3).len(), 3);
}

#[test]
fn every_root_gets_a_slot_before_any_root_gets_a_second() {
    let hits = vec![
        pointer("transcripts", 0.95),
        pointer("transcripts", 0.90),
        pointer("transcripts", 0.85),
        pointer("notes", 0.80),
        pointer("notes", 0.70),
        pointer("memory", 0.60),
    ];

    let picked = take_round_robin(&hits, 5);

    assert_eq!(
        labelled(&picked),
        vec![
            ("transcripts", 0.95),
            ("notes", 0.80),
            ("memory", 0.60),
            ("transcripts", 0.90),
            ("notes", 0.70),
        ]
    );
}

#[test]
fn a_roots_own_hits_stay_in_descending_cosine_order() {
    let hits = vec![
        pointer("notes", 0.40),
        pointer("transcripts", 0.99),
        pointer("notes", 0.90),
        pointer("transcripts", 0.10),
        pointer("notes", 0.65),
    ];

    let picked = take_round_robin(&hits, 5);

    assert_eq!(
        labelled(&picked),
        vec![
            ("transcripts", 0.99),
            ("notes", 0.90),
            ("transcripts", 0.10),
            ("notes", 0.65),
            ("notes", 0.40),
        ]
    );
}

#[test]
fn the_limit_cuts_part_way_through_a_round() {
    let hits = vec![
        pointer("transcripts", 0.95),
        pointer("notes", 0.80),
        pointer("memory", 0.60),
        pointer("transcripts", 0.90),
    ];

    let picked = take_round_robin(&hits, 2);

    assert_eq!(
        labelled(&picked),
        vec![("transcripts", 0.95), ("notes", 0.80)]
    );
}

#[test]
fn no_hits_yields_no_pointers() {
    assert_eq!(labelled(&take_round_robin(&vec![], 3)), vec![]);
}

#[test]
fn the_best_matching_unit_wins_for_a_file() {
    let hits = vec![
        hit("notes", "cache.md", "Turn 1", 0.76),
        hit("notes", "cache.md", "Turn 9", 0.91),
    ];

    let out = consolidate(&hits, &[]);

    assert_eq!(out.len(), 1, "the same file produced two pointers");
    assert!(
        (f32::from_bits(out[0].cosine) - 0.91).abs() < f32::EPSILON,
        "kept {}",
        f32::from_bits(out[0].cosine)
    );
    assert_eq!(
        out[0].heading_path, "Turn 9",
        "kept the weaker unit's heading"
    );
}

#[test]
fn the_best_matching_unit_wins_whichever_arrives_first() {
    let hits = vec![
        hit("notes", "cache.md", "Turn 9", 0.91),
        hit("notes", "cache.md", "Turn 1", 0.76),
    ];

    let out = consolidate(&hits, &[]);

    assert_eq!(out.len(), 1, "the same file produced two pointers");
    assert!(
        (f32::from_bits(out[0].cosine) - 0.91).abs() < f32::EPSILON,
        "kept {}",
        f32::from_bits(out[0].cosine)
    );
    assert_eq!(
        out[0].heading_path, "Turn 9",
        "kept the weaker unit's heading"
    );
}

#[test]
fn a_hit_below_the_gate_is_dropped() {
    let hits = vec![hit("notes", "unrelated.md", "H", 0.40)];

    assert!(consolidate(&hits, &[]).is_empty());
}

#[test]
fn a_match_in_only_the_last_unit_still_reaches_the_hits() {
    const QUESTION: &str = "why does the cache never expire?";
    let paste = "stack frame line\n".repeat(400);
    let query = format!("{paste}\n{QUESTION}");
    let units = split_query(&query, MAX_QUERY_UNITS);
    assert!(units.len() > 1, "the fixture query did not split");

    let mut searched = Vec::new();
    let mut search = UnitSearch::new(&query, MAX_QUERY_UNITS);
    while let Some(unit) = search.next_unit().map(str::to_owned) {
        searched.push(unit.clone());
        // Only the tail carries the question, so only the tail matches.
        let matched = unit.contains(QUESTION);
        search.searched(Ok(if matched {
            vec![hit("notes", "cache.md", "Expiry", 0.88)]
        } else {
            vec![]
        }));
    }
    let hits = search.outcome().unwrap();

    assert_eq!(
        searched.len(),
        units.len(),
        "searched {} of {} units",
        searched.len(),
        units.len()
    );
    assert_eq!(searched, units, "the units reached the search mangled");
    assert_eq!(hits.len(), 1, "the tail unit's only match did not survive");
    assert_eq!(hits[0].rel_path, "cache.md");
}

#[test]
fn an_empty_query_searches_nothing_and_is_not_an_error() {
    for query in ["", "   ", "\n\t\n"] {
        let search = UnitSearch::new(query, MAX_QUERY_UNITS);
        assert!(search.next_unit().is_none(), "{query:?} reached the embedder");
        assert!(search.outcome().unwrap().is_empty(), "{query:?} produced hits");
    }
}

#[test]
fn one_unit_failing_fails_the_whole_search() {
    let paste = "stack frame line\n".repeat(400);
    let query = format!("{paste}\nwhy does the cache never expire?");

    let mut calls = 0_usize;
    let mut search = UnitSearch::new(&query, MAX_QUERY_UNITS);
    while search.next_unit().is_some() {
        calls += 1;
        search.searched(Err("embedder is wedged".to_owned()));
    }

    assert_eq!(
        search.outcome().unwrap_err(),
        "embedder is wedged",
        "the unit's own error has to survive to the caller"
    );
    assert_eq!(calls, 1, "kept searching after a failure");
}

fn chunk_hit(rel_path: &str, text: &str, cosine: f32) -> Hit {
    Hit {
        text: text.to_string(),
        ..hit("notes", rel_path, "H", cosine)
    }
}

#[test]
fn a_chunk_matched_by_two_units_is_returned_once_at_its_best_cosine() {
    let hits = vec![
        chunk_hit("cache.md", "the cache entry never expires", 0.71),
        chunk_hit("cache.md", "the cache entry never expires", 0.93),
    ];

    let out = best_k(&hits, 3);

    assert_eq!(out.len(), 1, "the same chunk came back twice");
    assert!(
        (f32::from_bits(out[0].cosine) - 0.93).abs() < f32::EPSILON,
        "{}",
        f32::from_bits(out[0].cosine)
    );
}

#[test]
fn two_chunks_of_one_file_both_stand() {
    let hits = vec![
        chunk_hit("cache.md", "eviction runs hourly", 0.90),
        chunk_hit("cache.md", "the TTL is never read", 0.80),
    ];

    assert_eq!(best_k(&hits, 3).len(), 2);
}

#[test]
fn the_hits_are_cut_to_k_best_first() {
    let hits = vec![
        chunk_hit("a.md", "first unit, weak", 0.40),
        chunk_hit("b.md", "first unit, strong", 0.95),
        chunk_hit("c.md", "last unit, middling", 0.70),
    ];

    let out = best_k(&hits, 2);

    let texts: Vec<&str> = out.iter().map(|h| h.text.as_str()).collect();
    assert_eq!(texts, vec!["first unit, strong", "last unit, middling"]);
}

#[test]
fn a_tie_keeps_the_order_of_arrival() {
    let hits = vec![
        chunk_hit("a.md", "one", 0.5),
        chunk_hit("b.md", "two", 0.9),
        chunk_hit("c.md", "three", 0.5),
    ];
    let texts: Vec<String> = best_k(&hits, 3).iter().map(|h| h.text.clone()).collect();
    assert_eq!(texts, vec!["two", "one", "three"]);
    assert!(best_k(&hits, 0).is_empty());
}

#[test]
fn the_gate_is_the_gate_of_the_numbers() {
    assert_eq!(HOOK_MIN_COSINE, 0.75_f32.to_bits());
    for cosine in [
        0.75, 0.749_999_9, 0.750_000_1, 1.0, 0.0, -0.0, -0.75, -1.0, 2.5, f32::MIN_POSITIVE,
        f32::INFINITY, f32::NEG_INFINITY, f32::NAN, -f32::NAN,
    ] {
        let kept = !consolidate(&vec![hit("notes", "a.md", "H", cosine)], &[]).is_empty();
        assert_eq!(kept, cosine >= 0.75, "{cosine}");
    }
}

#[test]
fn ranks_follow_the_total_order() {
    let all = [
        f32::NAN, -f32::NAN, f32::INFINITY, f32::NEG_INFINITY, 0.0, -0.0, 1.5, -1.5, 0.3, -0.3,
        f32::MIN_POSITIVE, -f32::MIN_POSITIVE, 1.0e-42, -1.0e-42,
    ];
    for a in all {
        for b in all {
            let ours = rank_of(a.to_bits()).cmp(&rank_of(b.to_bits()));
            assert_eq!(ours, a.total_cmp(&b), "{a} {b}");
        }
    }
}

#[test]
fn the_top_cosine_is_taken_before_the_gate() {
    let hits = vec![
        hit("notes", "a.md", "H", 0.2),
        hit("notes", "b.md", "H", 0.6),
        hit("notes", "c.md", "H", -0.9),
    ];
    let out = recall(&hits, &[]);
    assert!(out.pointers.is_empty());
    assert_eq!(out.top_cosine, Some(0.6_f32.to_bits()));
    assert_eq!(top_cosine(&vec![]), None);
}

#[test]
fn a_pointer_names_the_file_below_its_root() {
    let roots = [("notes", "/roots/notes"), ("memory", "/roots/memory/")];
    let hits = vec![
        hit("memory", "facts/a.md", "H", 0.9),
        hit("notes", "b.md", "H", 0.8),
        hit("gone", "c.md", "H", 0.8),
        hit("notes", "/abs/d.md", "H", 0.8),
    ];
    let paths: Vec<String> = consolidate(&hits, &roots).iter().map(|p| p.path.clone()).collect();
    assert_eq!(
        paths,
        vec!["/roots/memory/facts/a.md", "/roots/notes/b.md", "c.md", "/abs/d.md"]
    );
}

#[test]
fn a_file_is_told_by_its_root_and_its_path() {
    let hits = vec![
        hit("notes", "a.md", "one", 0.8),
        hit("memory", "a.md", "two", 0.9),
        hit("notes", "a.md", "three", 0.85),
    ];
    let out = consolidate(&hits, &[]);
    let shown: Vec<(&str, &str)> = out
        .iter()
        .map(|p| (p.source_type.as_str(), p.heading_path.as_str()))
        .collect();
    assert_eq!(shown, vec![("notes", "three"), ("memory", "two")]);
}

#[test]
fn no_root_gets_a_third_slot_before_another_has_its_second() {
    let hits = vec![
        pointer("transcripts", 0.99),
        pointer("transcripts", 0.98),
        pointer("transcripts", 0.97),
        pointer("notes", 0.80),
        pointer("notes", 0.79),
        pointer("memory", 0.78),
    ];

    assert_eq!(
        labelled(&take_round_robin(&hits, 6)),
        vec![
            ("transcripts", 0.99),
            ("notes", 0.80),
            ("memory", 0.78),
            ("transcripts", 0.98),
            ("notes", 0.79),
            ("transcripts", 0.97),
        ]
    );
}
