use sloop::chunk::parse_note;
use sloop::config::{PathProbe, Root, Roots};
use sloop::daemon::events_for;
use sloop::hash::sha256_hex;
use sloop::index::{
    chunk_id, content_hash, orphans, read_source, source_id, survey, texts_to_embed, FileProbe,
    IndexRun, IndexStats, Source,
};
use sloop::store::{
    check_vectors, chunk_columns, index_report, label_filter, manifest_columns, source_filter,
    sql_quote, vector_index_due, Column, Row,
};
use sloop::text::string_of;

fn roots() -> Roots {
    let probes = vec![
        PathProbe::Resolved("/roots/notes".to_owned()),
        PathProbe::Resolved("/roots/memory".to_owned()),
    ];
    Roots::parse("notes=/n:memory=/m", &probes).unwrap()
}

fn root(i: usize) -> Root {
    roots().iter()[i].clone()
}

fn probe(path: &str, is_file: bool) -> FileProbe {
    FileProbe { path: path.to_owned(), resolved: None, is_file }
}

#[test]
fn digests_are_those_of_sha256() {
    assert_eq!(
        string_of(&sha256_hex(b"hello world")),
        "b94d27b9934d3e08a52e52d7da7dabfac484efe37a5380ee9088f7ace2efcde9"
    );
    // The version of the chunker stands before the content, in four bytes.
    assert_eq!(content_hash(b""), string_of(&sha256_hex(&[1, 0, 0, 0])));
    assert_eq!(content_hash(b"x"), string_of(&sha256_hex(&[1, 0, 0, 0, b'x'])));
    assert_ne!(content_hash(b"x"), string_of(&sha256_hex(b"x")));
}

#[test]
fn same_relative_path_in_two_roots_does_not_collide() {
    let rel = "notes/foo.md";
    let a = source_id(&root(0), rel);
    let b = source_id(&root(1), rel);
    assert_eq!(a, "notes:notes/foo.md");
    assert_eq!(b, "memory:notes/foo.md");
    assert_ne!(chunk_id(&a, 0), chunk_id(&b, 0));
    assert_ne!(chunk_id(&a, 0), chunk_id(&a, 1));
    assert_eq!(chunk_id(&a, 7), string_of(&sha256_hex(b"notes:notes/foo.md:7"))[..16]);
    assert_eq!(chunk_id("s", -1), string_of(&sha256_hex(b"s:-1"))[..16]);
}

#[test]
fn a_survey_tells_what_to_read_and_what_to_prune() {
    let probes = vec![
        probe("/roots/notes/a.md", true),
        probe("/roots/notes/.git/b.md", true),
        probe("/roots/notes/c.txt", true),
        probe("/roots/notes/gone.md", false),
        FileProbe {
            path: "/link/d.md".to_owned(),
            resolved: Some("/roots/notes/sub/d.md".to_owned()),
            is_file: true,
        },
    ];
    let out = survey(&root(0), &probes);
    let present: Vec<(&str, &str)> =
        out.present.iter().map(|s| (s.path.as_str(), s.id.as_str())).collect();
    assert_eq!(
        present,
        vec![("/roots/notes/a.md", "notes:a.md"), ("/link/d.md", "notes:sub/d.md")]
    );
    assert_eq!(out.gone, vec!["notes:gone.md"]);
}

fn source(rel: &str) -> Source {
    Source {
        path: format!("/roots/notes/{rel}"),
        rel: rel.to_owned(),
        id: format!("notes:{rel}"),
    }
}

#[test]
fn an_unchanged_file_is_skipped_unless_forced() {
    let raw = b"# T\n\nbody";
    let hash = content_hash(raw);
    let s = source("a.md");
    assert!(read_source(&s, raw, Some(&hash), false).is_none());
    assert!(read_source(&s, raw, Some(&hash), true).is_some());
    assert!(read_source(&s, raw, Some("other"), false).is_some());
    let changed = read_source(&s, raw, None, false).unwrap();
    assert_eq!(changed.hash, hash);
    assert_eq!(changed.note.title, "a");
    assert_eq!(changed.note.chunks[0].text, "a > T\n\nbody");
}

#[test]
fn bytes_that_are_no_text_are_replaced() {
    let changed = read_source(&source("a.md"), b"caf\xff\xc3\xa9", None, false).unwrap();
    assert_eq!(changed.note.chunks[0].text, "a\n\ncaf\u{fffd}\u{e9}");
}

#[test]
fn a_run_gathers_rows_and_entries() {
    let probes = vec![probe("/roots/notes/a.md", true), probe("/roots/notes/gone.md", false)];
    let found = survey(&root(0), &probes);
    let mut run = IndexRun::start(&found);
    assert!(!run.has_changes());
    assert!(run.needs_indexes());

    let raw = b"---\ntype: system\ncaptured: 2026-04-10\ntags: [x]\n---\n# A\n\none [[L]]\n\n# B\n\ntwo\n";
    let changed = read_source(&found.present[0], raw, None, false).unwrap();
    assert_eq!(texts_to_embed(&changed.note), vec!["a > A\n\none [[L]]", "a > B\n\ntwo"]);
    run.add(&root(0), &found.present[0], &changed, 2, 30, "now");
    assert!(run.has_changes());
    assert_eq!(run.changed_ids(), &vec!["notes:a.md".to_owned()]);
    let row = &run.rows()[0];
    assert_eq!(row.id, chunk_id("notes:a.md", 0));
    assert_eq!(row.source_type, "notes");
    assert_eq!(row.rel_path, "a.md");
    assert_eq!(row.heading_path, "A");
    assert_eq!(row.note_type, "system");
    assert_eq!(row.captured, "2026-04-10");
    assert_eq!(row.tags, vec!["x"]);
    assert_eq!(row.entities, vec!["L"]);
    assert_eq!(row.content_hash, changed.hash);
    assert_eq!(run.rows()[1].chunk_ix, 1);
    assert_eq!(run.entries()[0].n_chunks, 2);
    assert_eq!(run.entries()[0].indexed_at, "now");

    // A chunk without a vector makes no row.
    run.add(&root(0), &source("b.md"), &changed, 1, 5, "later");
    assert_eq!(run.rows().len(), 3);
    assert_eq!(run.rows()[2].source_id, "notes:b.md");

    run.written(11);
    run.indexed(vec!["fts(text)".to_owned()], 13);
    let stats = run.finish();
    assert_eq!(
        stats,
        IndexStats {
            scanned: 1,
            changed: 2,
            removed: 1,
            chunks_written: 3,
            indexes: vec!["fts(text)".to_owned()],
            embed_ms: 35,
            write_ms: 11,
            post_index_ms: 13,
        }
    );
}

#[test]
fn a_run_without_changes_writes_nothing() {
    let mut run = IndexRun::start(&survey(&root(0), &vec![probe("/roots/notes/a.md", true)]));
    run.written(2);
    assert!(!run.needs_indexes());
    let stats = run.finish();
    assert_eq!((stats.scanned, stats.changed, stats.chunks_written), (1, 0, 0));
}

#[test]
fn orphans_are_looked_for_in_their_own_root() {
    let listed = vec![
        "notes:kept.md".to_owned(),
        "notes:sub/gone.md".to_owned(),
        "memory:gone.md".to_owned(),
        "notes2:gone.md".to_owned(),
    ];
    let out = orphans(&root(0), &vec!["notes:kept.md".to_owned()], &listed);
    assert_eq!(out, vec!["/roots/notes/sub/gone.md"]);

    // And the path leads back to the id.
    let again = survey(&root(0), &vec![probe(&out[0], false)]);
    assert_eq!(again.gone, vec!["notes:sub/gone.md"]);
}

#[test]
fn statistics_are_summed_and_labeled() {
    let mut total = IndexStats::default();
    let one = IndexStats {
        scanned: 2,
        changed: 1,
        removed: 3,
        chunks_written: 4,
        indexes: vec!["fts(text)".to_owned()],
        embed_ms: 5,
        write_ms: 6,
        post_index_ms: 7,
    };
    total.absorb("notes", &one);
    total.absorb("memory", &one);
    assert_eq!((total.scanned, total.changed, total.removed, total.chunks_written), (4, 2, 6, 8));
    assert_eq!((total.embed_ms, total.write_ms, total.post_index_ms), (10, 12, 14));
    assert_eq!(total.indexes, vec!["notes: fts(text)", "memory: fts(text)"]);
}

#[test]
fn events_are_told_apart_by_their_root() {
    let events = vec![
        probe("/roots/memory/a.md", true),
        probe("/elsewhere/b.md", true),
        probe("/roots/notes/c.md", true),
        probe("/roots/memory/d.md", false),
    ];
    assert_eq!(events_for(&roots(), &events, 0), vec![2]);
    assert_eq!(events_for(&roots(), &events, 1), vec![0, 3]);
}

#[test]
fn a_quote_never_ends_the_literal_it_stands_in() {
    assert_eq!(string_of(&sql_quote("o'reilly")), "'o''reilly'");
    assert_eq!(label_filter("o'reilly"), "source_type = 'o''reilly'");
    let ids = vec!["notes:a.md".to_owned(), "notes:') OR ('".to_owned()];
    assert_eq!(source_filter(&ids), "source_id IN ('notes:a.md', 'notes:'') OR (''')");
    assert_eq!(source_filter(&Vec::new()), "source_id IN ()");
}

fn row(id: &str) -> Row {
    Row {
        id: id.to_owned(),
        text: "text".to_owned(),
        source_type: "notes".to_owned(),
        source_id: "notes:a.md".to_owned(),
        title: "a".to_owned(),
        heading_path: "H".to_owned(),
        rel_path: "a.md".to_owned(),
        note_type: "system".to_owned(),
        captured: "2026".to_owned(),
        tags: vec!["t".to_owned()],
        entities: vec![],
        content_hash: "hash".to_owned(),
        chunk_ix: 4,
    }
}

#[test]
fn columns_stand_in_the_order_of_the_schema() {
    let columns = chunk_columns(&vec![row("one"), row("two")]);
    let names: Vec<&str> = columns
        .iter()
        .map(|c| match c {
            Column::Texts { name, .. } => *name,
            Column::Lists { name, .. } => *name,
            Column::Numbers { name, .. } => *name,
            Column::Vectors { name } => *name,
        })
        .collect();
    assert_eq!(
        names,
        vec![
            "id", "text", "vector", "source_type", "source_id", "title", "heading_path",
            "rel_path", "note_type", "captured", "tags", "entities", "content_hash", "chunk_ix",
        ]
    );
    assert!(matches!(&columns[0], Column::Texts { values, .. } if values == &["one", "two"]));
    assert!(matches!(&columns[8], Column::Texts { values, .. } if values == &["system", "system"]));
    assert!(matches!(&columns[10], Column::Lists { values, .. } if values[1] == ["t"]));
    assert!(matches!(&columns[11], Column::Lists { values, .. } if values[0].is_empty()));
    assert!(matches!(&columns[13], Column::Numbers { values, .. } if values == &[4, 4]));
    assert_eq!(manifest_columns(&Vec::new()).len(), 5);
}

#[test]
fn a_vector_of_the_wrong_length_is_refused_by_name() {
    let rows = vec![row("one"), row("two")];
    assert_eq!(check_vectors(&rows, &vec![384, 384]), Ok(()));
    assert_eq!(
        check_vectors(&rows, &vec![384, 3]),
        Err("row two has vector of length 3, expected 384".to_owned())
    );
}

#[test]
fn the_report_says_what_became_of_the_indexes() {
    assert_eq!(
        index_report(true, false, true, 12),
        vec![
            "fts(text)",
            "labellist(entities)",
            "vector: flat scan (12 rows < 25000 threshold)",
        ]
    );
    assert_eq!(
        index_report(false, true, false, 25_000),
        vec!["bitmap(source_type)", "ivf_pq(vector) @ 25000 rows"]
    );
    assert!(!vector_index_due(24_999));
}

#[test]
fn a_note_is_titled_by_its_file() {
    let note = parse_note("a.b", "x");
    assert_eq!(note.title, "a.b");
}

#[test]
fn a_second_run_on_the_same_files_changes_nothing() {
    let probes = vec![probe("/roots/notes/a.md", true), probe("/roots/notes/b.md", true)];
    let contents: [&[u8]; 2] = [b"one\n", b"two\n"];
    let found = survey(&root(0), &probes);
    let mut first = IndexRun::start(&found);
    for (source, raw) in found.present.iter().zip(contents) {
        let changed = read_source(source, raw, None, false).unwrap();
        first.add(&root(0), source, &changed, 1, 1, "now");
    }

    let second = IndexRun::start(&survey(&root(0), &probes));
    for (source, raw) in found.present.iter().zip(contents) {
        let entry = first.entries().iter().find(|e| e.source_id == source.id).unwrap();
        assert!(read_source(source, raw, Some(&entry.content_hash), false).is_none());
    }
    assert!(!second.has_changes());
    assert!(!second.needs_indexes());
    assert_eq!(second.finish().changed, 0);
}
