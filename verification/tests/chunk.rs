use sloop::chunk::{parse_note, split_query, MAX_CHARS, TARGET_CHARS};
use sloop::config::MAX_QUERY_UNITS;

#[test]
fn table_without_blank_lines_is_split_under_cap() {
    let mut table = String::new();
    for i in 0..400 {
        table.push_str(&format!("| endpoint-{i} | POST /v1/thing/{i} | stores a record |\n"));
    }
    let note = parse_note("Big Table", &format!("# Big Table\n\n{table}"));
    assert!(note.chunks.len() > 1, "table should have been split");
    for c in &note.chunks {
        assert!(
            c.text.chars().count() <= MAX_CHARS + 200,
            "chunk of {} chars exceeds the cap",
            c.text.chars().count()
        );
    }
}

#[test]
fn a_single_unsplittable_line_is_hard_split() {
    let line = "x".repeat(MAX_CHARS * 3);
    let note = parse_note("Wall", &format!("# Wall\n\n{line}"));
    assert!(note.chunks.len() >= 3);
}

#[test]
fn heading_path_tracks_nesting_and_ignores_fences() {
    let src = "# Top\n\nintro\n\n## Middle\n\nbody\n\n```\n# not a heading\n```\n";
    let note = parse_note("Doc", src);
    let paths: Vec<&str> = note
        .chunks
        .iter()
        .map(|c| c.heading_path.as_str())
        .collect();
    assert!(paths.contains(&"Top"), "got {paths:?}");
    assert!(paths.iter().any(|p| p.contains("Middle")), "got {paths:?}");
    assert!(
        !paths.iter().any(|p| p.contains("not a heading")),
        "fence leaked: {paths:?}"
    );
}

#[test]
fn wikilinks_normalise_to_targets() {
    let note = parse_note(
        "Links",
        "# Links\n\nSee [[Payments API]], [[Rate Limiting|limits]] and [[Glossary#SLO]].\n",
    );
    let mut found: Vec<String> = note
        .chunks
        .iter()
        .flat_map(|c| c.entities.clone())
        .collect();
    found.sort();
    assert_eq!(found, vec!["Glossary", "Payments API", "Rate Limiting"]);
}

#[test]
fn frontmatter_is_parsed_and_excluded_from_body() {
    let note = parse_note(
        "FM",
        "---\ntype: system\ncaptured: 2026-04-10\ntags: [infra, caching]\n---\n\n# FM\n\nbody here\n",
    );
    assert_eq!(note.frontmatter.note_type, "system");
    assert_eq!(note.frontmatter.captured, "2026-04-10");
    assert_eq!(note.frontmatter.tags, vec!["infra", "caching"]);
    assert!(!note.chunks.iter().any(|c| c.text.contains("captured:")));
}

fn paths_of(title: &str, source: &str) -> Vec<String> {
    parse_note(title, source).chunks.iter().map(|c| c.heading_path.clone()).collect()
}

#[test]
fn a_chunk_carries_its_title_and_its_path() {
    let note = parse_note("Doc", "# Top\n\nintro\n\n## Middle\n\nbody\n");
    let texts: Vec<&str> = note.chunks.iter().map(|c| c.text.as_str()).collect();
    assert_eq!(texts, vec!["Doc > Top\n\nintro", "Doc > Top > Middle\n\nbody"]);
    let numbers: Vec<i32> = note.chunks.iter().map(|c| c.ix).collect();
    assert_eq!(numbers, vec![0, 1]);
    assert_eq!(parse_note("Doc", "no heading").chunks[0].text, "Doc\n\nno heading");
}

#[test]
fn a_heading_needs_one_to_six_hashes_and_a_blank() {
    assert_eq!(paths_of("D", "####### seven\nx"), vec![""]);
    assert_eq!(paths_of("D", "#none\nx"), vec![""]);
    assert_eq!(paths_of("D", "  ###### six  \nx"), vec!["six"]);
    // A level that was skipped leaves no gap in the path.
    assert_eq!(paths_of("D", "# a\n### c\nx\n## b\ny"), vec!["a > c", "a > b"]);
}

#[test]
fn tildes_open_a_fence_too_and_any_fence_closes_it() {
    assert_eq!(paths_of("D", "# a\n~~~\n# no\n```\n# b\nx"), vec!["a", "b"]);
}

#[test]
fn frontmatter_takes_lists_and_quotes() {
    let note = parse_note(
        "FM",
        "---\r\ntype: \"system\"\r\ntags:\r\n  - one\r\n  - \"two\"\r\nother: x\r\n  - three\r\n---\r\nbody",
    );
    assert_eq!(note.frontmatter.note_type, "system");
    assert_eq!(note.frontmatter.captured, "");
    assert_eq!(note.frontmatter.tags, vec!["one", "two"]);
    let note = parse_note("FM", "---\ntags: ['a', \"b\", , c]\n---\nbody");
    assert_eq!(note.frontmatter.tags, vec!["'a'", "b", "c"]);
}

#[test]
fn frontmatter_that_never_closes_is_body() {
    let note = parse_note("FM", "---\ntype: system\nbody");
    assert_eq!(note.frontmatter.note_type, "");
    assert_eq!(note.chunks.len(), 1);
    assert_eq!(note.chunks[0].text, "FM\n\n---\ntype: system\nbody");
}

#[test]
fn links_are_sorted_distinct_and_trimmed() {
    let note = parse_note("L", "[[b]] [[a|x]] [[ b ]] [[]] [[#h]] [[\u{e9}]] [[Z]] [[open");
    assert_eq!(note.chunks[0].entities, vec!["Z", "a", "b", "\u{e9}"]);
}

#[test]
fn a_note_of_nothing_has_no_chunks() {
    assert!(parse_note("N", "").chunks.is_empty());
    assert!(parse_note("N", "# a\n\n   \n## b\n").chunks.is_empty());
}

#[test]
fn pieces_overlap_and_none_is_too_long() {
    let para = "word ".repeat(150);
    let body = format!("{para}\n\n{para}\n\n{para}");
    let note = parse_note("N", &body);
    assert_eq!(note.chunks.len(), 3);
    for chunk in &note.chunks {
        assert!(chunk.text.chars().count() <= MAX_CHARS + 3);
    }
    // Each later piece opens with the last characters of the one before.
    let first: Vec<char> = note.chunks[0].text.chars().collect();
    let tail: String = first[first.len() - 200..].iter().collect();
    assert!(note.chunks[1].text.starts_with(&format!("N\n\n{tail}\n\n")));
}

#[test]
fn a_short_query_is_one_unit_unchanged() {
    assert_eq!(
        split_query("how should the cache expire?", MAX_QUERY_UNITS),
        vec!["how should the cache expire?".to_string()]
    );
    let two = format!("{}\n\n{}", "a".repeat(500), "b".repeat(TARGET_CHARS - 502));
    assert_eq!(split_query(&two, MAX_QUERY_UNITS), vec![two.clone()]);
    let one = "c".repeat(MAX_CHARS);
    assert_eq!(split_query(&one, MAX_QUERY_UNITS), vec![one.clone()]);
}

#[test]
fn a_long_query_keeps_its_tail() {
    let paste = "stack frame line\n".repeat(400);
    let query = format!("{paste}\nwhy does the cache never expire?");

    let units = split_query(&query, MAX_QUERY_UNITS);

    assert!(units.len() > 1, "a {}-char query did not split", query.len());
    assert!(
        units.iter().any(|u| u.contains("why does the cache never expire?")),
        "the question at the tail reached no unit"
    );
}

#[test]
fn past_the_cap_the_middle_of_a_query_is_dropped() {
    let lines: Vec<String> = (0..4000).map(|i| format!("stack frame {i}")).collect();
    let query = format!("{}\nwhy?", lines.join("\n"));
    let all = split_query(&query, usize::MAX);
    assert!(all.len() > 20);

    let units = split_query(&query, MAX_QUERY_UNITS);
    assert_eq!(units.len(), MAX_QUERY_UNITS);
    assert_eq!(units[..4], all[..4]);
    assert_eq!(units[4..], all[all.len() - 4..]);
    assert_eq!(split_query(&query, 1), vec![all[all.len() - 1].clone()]);
    assert!(split_query(&query, 0).is_empty());
}

#[test]
fn units_never_exceed_what_the_model_can_read() {
    let query = "word ".repeat(20_000);
    for unit in split_query(&query, MAX_QUERY_UNITS) {
        assert!(unit.chars().count() <= MAX_CHARS, "unit of {} chars", unit.chars().count());
    }
}

#[test]
fn a_whitespace_only_query_yields_no_units() {
    assert!(split_query("   \n\n  ", MAX_QUERY_UNITS).is_empty());
    assert!(split_query(&" ".repeat(5000), MAX_QUERY_UNITS).is_empty());
}

#[test]
fn a_line_feed_behind_the_question_does_not_lose_it() {
    let paste = "stack frame line\n".repeat(4000);
    let query = format!("{paste}\nwhy does the cache never expire?\n\n");

    let units = split_query(&query, MAX_QUERY_UNITS);
    assert_eq!(units.len(), MAX_QUERY_UNITS);
    assert!(units[0].starts_with("stack frame line\n"));
    assert!(units[units.len() - 1].trim_end().ends_with("why does the cache never expire?"));
}

#[test]
fn a_sibling_is_not_above_its_sibling() {
    let note = parse_note("N", "## B\n\nb\n\n## C\n\nc\n");
    assert_eq!(note.chunks.len(), 2);
    assert_eq!(note.chunks[0].heading_path, "B");
    assert_eq!(note.chunks[1].heading_path, "C");
    assert_eq!(note.chunks[1].text, "N > C\n\nc");
    assert_eq!(paths_of("N", "# A\n### B\nb\n### C\nc"), vec!["A > B", "A > C"]);
    assert_eq!(paths_of("N", "### B\nb\n## C\nc\n### D\nd"), vec!["B", "C", "C > D"]);
}
