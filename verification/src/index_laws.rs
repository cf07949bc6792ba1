//! What holds of whole indexing runs.
use vstd::prelude::*;
use vstd::utf8::{decode_utf8, encode_utf8, encode_utf8_decode_utf8, valid_utf8};
use crate::config::RootView;
use crate::chunk::{chunk_views, frontmatter_of, note_chunks, CHUNKER_VERSION};
use crate::index::{
    chunk_id_of, chunk_key, chunk_texts, content_hash_of, gone_among, hidden_name, last_dot,
    manifest_of, namespaced, only_a_collision_hides_a_change, orphans_among, present_among,
    reads_as, relative, rows_of, started, stem_of, summed, two_chunks_never_share_a_key, wanted, with_changed, Changed, FileProbe, RunView,
    SourceView, StatsView,
};
use crate::hash::{hex, hex_reads_back, le_bytes, sha256_of};
use crate::number::signed_decimal;
use crate::path::{below, file_name_of, inside, names};
use crate::store::{ManifestView, RowView};
use crate::text::{lines, strings};
use crate::text_laws::names_are_names;

verus! {

/// What a run saw of one file: the file, its content, what reading it came to, and how
/// many of its chunks were embedded in which time.
pub struct Looked {
    pub source: SourceView,
    pub raw: Seq<u8>,
    pub out: Option<Changed>,
    pub vectors: nat,
    pub embed_ms: nat,
}

/// A manifest without the given sources.
pub open spec fn pruned(manifest: Map<Seq<char>, Seq<char>>, gone: Seq<Seq<char>>) -> Map<
    Seq<char>,
    Seq<char>,
> {
    manifest.remove_keys(gone.to_set())
}

/// A manifest with the hashes of the given entries, the later ones over the earlier.
pub open spec fn told(
    manifest: Map<Seq<char>, Seq<char>>,
    entries: Seq<ManifestView>,
) -> Map<Seq<char>, Seq<char>>
    decreases entries.len(),
{
    if entries.len() == 0 {
        manifest
    } else {
        let e = entries.last();
        told(manifest, entries.drop_last()).insert(e.source_id, e.content_hash)
    }
}

/// The hash that a manifest lists for a source.
pub open spec fn listed(manifest: Map<Seq<char>, Seq<char>>, id: Seq<char>) -> Option<Seq<char>> {
    if manifest.contains_key(id) {
        Some(manifest[id])
    } else {
        None
    }
}

/// The run went over what a survey of the paths found, and read each file against the
/// manifest, from which what is gone was pruned.
pub open spec fn is_run(
    root: RootView,
    probes: Seq<FileProbe>,
    manifest: Map<Seq<char>, Seq<char>>,
    force: bool,
    files: Seq<Looked>,
) -> bool {
    let known = pruned(manifest, gone_among(root, probes));
    &&& files.len() == present_among(root, probes).len()
    &&& forall|i: int|
        0 <= i < files.len() ==> (#[trigger] files[i]).source == present_among(root, probes)[i]
            && reads_as(
            files[i].out,
            files[i].source.path,
            files[i].raw,
            listed(known, files[i].source.id),
            force,
        )
}

/// What a run has gathered once it has gone over the files: each that changed was added.
pub open spec fn gathered_from(
    run: RunView,
    label: Seq<char>,
    files: Seq<Looked>,
    now: Seq<char>,
) -> RunView
    decreases files.len(),
{
    if files.len() == 0 {
        run
    } else {
        let before = gathered_from(run, label, files.drop_last(), now);
        let f = files.last();
        match f.out {
            Some(changed) => with_changed(
                before,
                label,
                f.source,
                changed,
                f.vectors,
                f.embed_ms,
                now,
            ),
            None => before,
        }
    }
}

/// What a run over the paths has gathered.
pub open spec fn run_of(
    root: RootView,
    probes: Seq<FileProbe>,
    files: Seq<Looked>,
    now: Seq<char>,
) -> RunView {
    gathered_from(
        started(present_among(root, probes).len(), gone_among(root, probes).len()),
        root.label,
        files,
        now,
    )
}

/// The manifest that a run leaves.
pub open spec fn manifest_after(
    root: RootView,
    probes: Seq<FileProbe>,
    manifest: Map<Seq<char>, Seq<char>>,
    files: Seq<Looked>,
    now: Seq<char>,
) -> Map<Seq<char>, Seq<char>> {
    told(pruned(manifest, gone_among(root, probes)), run_of(root, probes, files, now).entries)
}

/// Some file of the list has the given id and content of the given hash.
spec fn hash_of_one(files: Seq<Looked>, id: Seq<char>, hash: Seq<char>) -> bool {
    exists|j: int|
        0 <= j < files.len() && (#[trigger] files[j]).source.id == id && hash == content_hash_of(
            files[j].raw,
        )
}

/// The manifest lists of a source what it listed before, or the hash of a file with that
/// id; and of a file that changed it lists such a hash.
proof fn the_manifest_lists_what_was_read(
    run: RunView,
    label: Seq<char>,
    known: Map<Seq<char>, Seq<char>>,
    files: Seq<Looked>,
    now: Seq<char>,
    id: Seq<char>,
)
    requires
        run.entries.len() == 0,
        forall|i: int|
            0 <= i < files.len() ==> ((#[trigger] files[i]).out matches Some(c) ==> c.hash@
                == content_hash_of(files[i].raw)),
    ensures
        ({
            let after = told(known, gathered_from(run, label, files, now).entries);
            &&& listed(after, id) == listed(known, id) || (listed(after, id) matches Some(hash)
                && hash_of_one(files, id, hash))
            &&& (exists|i: int|
                0 <= i < files.len() && (#[trigger] files[i]).source.id == id
                    && files[i].out is Some) ==> (listed(after, id) matches Some(hash)
                && hash_of_one(files, id, hash))
        }),
    decreases files.len(),
{
    if files.len() > 0 {
        let rest = files.drop_last();
        let f = files.last();
        let n = files.len() - 1;
        assert forall|i: int| 0 <= i < rest.len() implies ((#[trigger] rest[i]).out matches Some(c)
            ==> c.hash@ == content_hash_of(rest[i].raw)) by {
            assert(rest[i] == files[i]);
        }
        the_manifest_lists_what_was_read(run, label, known, rest, now, id);
        let before = gathered_from(run, label, rest, now);
        let all = gathered_from(run, label, files, now);
        let after_rest = told(known, before.entries);
        let after = told(known, all.entries);
        assert(files[n] == f);
        assert forall|hash: Seq<char>| hash_of_one(rest, id, hash) implies hash_of_one(
            files,
            id,
            hash,
        ) by {
            let j = choose|j: int|
                0 <= j < rest.len() && (#[trigger] rest[j]).source.id == id && hash
                    == content_hash_of(rest[j].raw);
            assert(files[j] == rest[j]);
        }
        if f.out is Some {
            assert(all.entries.drop_last() =~= before.entries);
            assert(after == after_rest.insert(f.source.id, content_hash_of(f.raw)));
            if f.source.id == id {
                assert(hash_of_one(files, id, content_hash_of(files[n].raw)));
            }
        }
        if exists|i: int|
            0 <= i < files.len() && (#[trigger] files[i]).source.id == id && files[i].out is Some {
            let i = choose|i: int|
                0 <= i < files.len() && (#[trigger] files[i]).source.id == id && files[i].out
                    is Some;
            if i < n {
                assert(rest[i] == files[i]);
            }
        }
    }
}

/// Entries are told of files alone.
proof fn entries_are_of_files(
    run: RunView,
    label: Seq<char>,
    known: Map<Seq<char>, Seq<char>>,
    files: Seq<Looked>,
    now: Seq<char>,
    id: Seq<char>,
)
    requires
        run.entries.len() == 0,
        forall|i: int| 0 <= i < files.len() ==> (#[trigger] files[i]).source.id != id,
    ensures
        listed(told(known, gathered_from(run, label, files, now).entries), id) == listed(known, id),
    decreases files.len(),
{
    if files.len() > 0 {
        let rest = files.drop_last();
        assert forall|i: int| 0 <= i < rest.len() implies (#[trigger] rest[i]).source.id != id by {
            assert(rest[i] == files[i]);
        }
        entries_are_of_files(run, label, known, rest, now, id);
        assert(files[files.len() - 1].source.id != id);
        let before = gathered_from(run, label, rest, now);
        let all = gathered_from(run, label, files, now);
        if files.last().out is Some {
            assert(all.entries.drop_last() =~= before.entries);
        }
    }
}

/// A run in which no file changed gathers nothing.
proof fn nothing_is_gathered(run: RunView, label: Seq<char>, files: Seq<Looked>, now: Seq<char>)
    requires
        forall|i: int| 0 <= i < files.len() ==> (#[trigger] files[i]).out is None,
    ensures
        gathered_from(run, label, files, now) == run,
    decreases files.len(),
{
    if files.len() > 0 {
        let rest = files.drop_last();
        assert forall|i: int| 0 <= i < rest.len() implies (#[trigger] rest[i]).out is None by {
            assert(rest[i] == files[i]);
        }
        assert(files[files.len() - 1].out is None);
        nothing_is_gathered(run, label, rest, now);
    }
}

/// Indexing re-embeds only what changed: a second run on the same files, with the
/// manifest that the first one left, reads no file as changed. It has no row, no manifest
/// entry and no id to write, and leaves the manifest as it is.
///
/// Two paths that lead to one id have to hold the same content, and an id that is there
/// must not also be gone: such runs undo each other.
pub proof fn a_second_run_changes_nothing(
    root: RootView,
    probes: Seq<FileProbe>,
    manifest: Map<Seq<char>, Seq<char>>,
    force: bool,
    first: Seq<Looked>,
    first_now: Seq<char>,
    second: Seq<Looked>,
    second_now: Seq<char>,
)
    requires
        is_run(root, probes, manifest, force, first),
        is_run(
            root,
            probes,
            manifest_after(root, probes, manifest, first, first_now),
            false,
            second,
        ),
        forall|i: int|
            0 <= i < first.len() ==> (#[trigger] first[i]).raw == (#[trigger] second[i]).raw,
        forall|i: int, j: int|
            0 <= i < j < first.len() && (#[trigger] first[i]).source.id == (
            #[trigger] first[j]).source.id ==> first[i].raw == first[j].raw,
        forall|i: int|
            0 <= i < first.len() ==> !gone_among(root, probes).contains(
                (#[trigger] first[i]).source.id,
            ),
    ensures
        forall|i: int| 0 <= i < second.len() ==> (#[trigger] second[i]).out is None,
        run_of(root, probes, second, second_now) == started(
            present_among(root, probes).len(),
            gone_among(root, probes).len(),
        ),
        manifest_after(
            root,
            probes,
            manifest_after(root, probes, manifest, first, first_now),
            second,
            second_now,
        ) == manifest_after(root, probes, manifest, first, first_now),
{
    let gone = gone_among(root, probes);
    let start = started(present_among(root, probes).len(), gone.len());
    let known = pruned(manifest, gone);
    let kept = manifest_after(root, probes, manifest, first, first_now);
    assert forall|i: int| 0 <= i < second.len() implies (#[trigger] second[i]).out is None by {
        let f = first[i];
        let id = f.source.id;
        let hash = content_hash_of(f.raw);
        assert(second[i].source == f.source);
        assert(second[i].raw == f.raw);
        the_manifest_lists_what_was_read(start, root.label, known, first, first_now, id);
        assert forall|h: Seq<char>| hash_of_one(first, id, h) implies h == hash by {
            let j = choose|j: int|
                0 <= j < first.len() && (#[trigger] first[j]).source.id == id && h
                    == content_hash_of(first[j].raw);
            if i < j {
                assert(first[i].raw == first[j].raw);
            } else if j < i {
                assert(first[j].raw == first[i].raw);
            }
        }
        assert(listed(kept, id) == Some(hash));
        assert(!gone.contains(id));
        assert(!gone.to_set().contains(id));
        assert(listed(pruned(kept, gone), id) == Some(hash));
    }
    nothing_is_gathered(start, root.label, second, second_now);
    assert(pruned(kept, gone) =~= kept) by {
        assert forall|id: Seq<char>| gone.to_set().contains(id) implies !kept.contains_key(id) by {
            assert(gone.contains(id));
            entries_are_of_files(start, root.label, known, first, first_now, id);
            assert(!known.contains_key(id));
        }
    }
}

/// How many of the given paths the index cares about.
pub open spec fn wanted_count(probes: Seq<FileProbe>) -> nat
    decreases probes.len(),
{
    if probes.len() == 0 {
        0
    } else {
        wanted_count(probes.drop_last()) + if wanted(probes.last().path@) {
            1nat
        } else {
            0nat
        }
    }
}

/// A survey passes over nothing: every path that the index cares about is a file to look
/// at, under its own id, where there is a file, and is pruned under that id where there is
/// none. There are no others.
pub proof fn a_survey_passes_over_nothing(root: RootView, probes: Seq<FileProbe>)
    ensures
        forall|i: int|
            0 <= i < probes.len() && wanted((#[trigger] probes[i]).path@) ==> if probes[i].is_file {
                present_among(root, probes).contains(
                    SourceView {
                        path: probes[i].path@,
                        rel: probes[i].rel(root),
                        id: namespaced(root.label, probes[i].rel(root)),
                    },
                )
            } else {
                gone_among(root, probes).contains(namespaced(root.label, probes[i].rel(root)))
            },
        present_among(root, probes).len() + gone_among(root, probes).len() == wanted_count(probes),
    decreases probes.len(),
{
    if probes.len() > 0 {
        let rest = probes.drop_last();
        let n = probes.len() - 1;
        let present = present_among(root, probes);
        let gone = gone_among(root, probes);
        let present_before = present_among(root, rest);
        let gone_before = gone_among(root, rest);
        a_survey_passes_over_nothing(root, rest);
        assert forall|i: int|
            0 <= i < probes.len() && wanted((#[trigger] probes[i]).path@) implies if probes[i].is_file {
            present.contains(
                SourceView {
                    path: probes[i].path@,
                    rel: probes[i].rel(root),
                    id: namespaced(root.label, probes[i].rel(root)),
                },
            )
        } else {
            gone.contains(namespaced(root.label, probes[i].rel(root)))
        } by {
            let source = SourceView {
                path: probes[i].path@,
                rel: probes[i].rel(root),
                id: namespaced(root.label, probes[i].rel(root)),
            };
            if i < n {
                assert(rest[i] == probes[i]);
                if probes[i].is_file {
                    let k = choose|k: int|
                        0 <= k < present_before.len() && present_before[k] == source;
                    assert(present[k] == source);
                } else {
                    let k = choose|k: int|
                        0 <= k < gone_before.len() && gone_before[k] == source.id;
                    assert(gone[k] == source.id);
                }
            } else if probes[i].is_file {
                assert(present[present_before.len() as int] == source);
            } else {
                assert(gone[gone_before.len() as int] == source.id);
            }
        }
    }
}

/// Every orphan is found: a file that the manifest lists under a root's label, and that is
/// not on disk, is looked for below the root's directory.
pub proof fn every_orphan_is_found(
    root: RootView,
    on_disk: Seq<Seq<char>>,
    manifest: Seq<Seq<char>>,
    rel: Seq<char>,
)
    requires
        manifest.contains(namespaced(root.label, rel)),
        !on_disk.contains(namespaced(root.label, rel)),
    ensures
        orphans_among(root, on_disk, manifest).contains(below(root.dir, rel)),
    decreases manifest.len(),
{
    let id = namespaced(root.label, rel);
    let rest = manifest.drop_last();
    let before = orphans_among(root, on_disk, rest);
    let out = orphans_among(root, on_disk, manifest);
    let prefix = root.label + seq![':'];
    if manifest.last() == id {
        assert(prefix =~= id.subrange(0, prefix.len() as int));
        assert(id.skip(prefix.len() as int) =~= rel);
        assert(out[before.len() as int] == below(root.dir, rel));
    } else {
        let k = choose|k: int| 0 <= k < manifest.len() && manifest[k] == id;
        assert(rest[k] == id);
        every_orphan_is_found(root, on_disk, rest, rel);
        let j = choose|j: int| 0 <= j < before.len() && before[j] == below(root.dir, rel);
        assert(out[j] == below(root.dir, rel));
    }
}

/// Every chunk that was embedded gets a row of its own, in order, with its text, its path,
/// its links and its number, under the ids of its file and of the root; and what is
/// embedded is the texts of the rows.
pub proof fn every_embedded_chunk_gets_its_row(
    label: Seq<char>,
    source: SourceView,
    changed: Changed,
    k: int,
)
    requires
        0 <= k < changed.note.chunks@.len(),
    ensures
        ({
            let chunks = chunk_views(changed.note.chunks@);
            let rows = rows_of(label, source, changed, chunks.len());
            &&& rows.len() == changed.note.chunks@.len()
            &&& chunk_texts(chunks).len() == rows.len()
            &&& rows[k].text == chunk_texts(chunks)[k]
            &&& rows[k].text == changed.note.chunks@[k].text@
            &&& rows[k].heading_path == changed.note.chunks@[k].heading_path@
            &&& rows[k].chunk_ix == changed.note.chunks@[k].ix
            &&& rows[k].entities == strings(changed.note.chunks@[k].entities@)
            &&& rows[k].id == chunk_id_of(source.id, changed.note.chunks@[k].ix as int)
            &&& rows[k].source_id == source.id
            &&& rows[k].rel_path == source.rel
            &&& rows[k].source_type == label
            &&& rows[k].title == changed.note.title@
            &&& rows[k].note_type == changed.note.frontmatter.note_type@
            &&& rows[k].captured == changed.note.frontmatter.captured@
            &&& rows[k].tags == strings(changed.note.frontmatter.tags@)
            &&& rows[k].content_hash == changed.hash@
        }),
{
}

/// A file is read as changed exactly where the manifest does not list the hash of its
/// content, and always where the run is forced.
pub proof fn a_file_is_read_exactly_where_it_changed(
    out: Option<Changed>,
    path: Seq<char>,
    raw: Seq<u8>,
    known: Option<Seq<char>>,
    force: bool,
)
    requires
        reads_as(out, path, raw, known, force),
    ensures
        force ==> out is Some,
        known is None ==> out is Some,
        known matches Some(hash) ==> !force ==> (out is None <==> hash == content_hash_of(raw)),
        out matches Some(changed) ==> changed.hash@ == content_hash_of(raw),
{
}

/// A run over changed files has a manifest entry and an id for each of them, the hash of
/// its content among it, and as many rows as they have embedded chunks.
pub proof fn a_run_writes_every_changed_file(
    run: RunView,
    label: Seq<char>,
    files: Seq<Looked>,
    now: Seq<char>,
    i: int,
)
    requires
        0 <= i < files.len(),
        files[i].out is Some,
    ensures
        ({
            let after = gathered_from(run, label, files, now);
            let c = files[i].out->Some_0;
            &&& after.changed_ids.contains(files[i].source.id)
            &&& exists|e: int|
                0 <= e < after.entries.len() && (#[trigger] after.entries[e]).source_id
                    == files[i].source.id && after.entries[e].content_hash == c.hash@
            &&& forall|k: int|
                0 <= k < files[i].vectors && k < c.note.chunks@.len()
                    ==> #[trigger] has_text_of(after.rows, files[i].source.id, c, k)
        }),
    decreases files.len(),
{
    let rest = files.drop_last();
    let f = files.last();
    let before = gathered_from(run, label, rest, now);
    let after = gathered_from(run, label, files, now);
    let c = files[i].out->Some_0;
    let id = files[i].source.id;
    if i < rest.len() {
        assert(rest[i] == files[i]);
        a_run_writes_every_changed_file(run, label, rest, now, i);
        let j = choose|j: int| 0 <= j < before.changed_ids.len() && before.changed_ids[j] == id;
        assert(after.changed_ids[j] == id);
        let e = choose|e: int|
            0 <= e < before.entries.len() && (#[trigger] before.entries[e]).source_id == id
                && before.entries[e].content_hash == c.hash@;
        assert(after.entries[e] == before.entries[e]);
        assert forall|k: int|
            0 <= k < files[i].vectors && k < c.note.chunks@.len() implies #[trigger] has_text_of(
            after.rows,
            id,
            c,
            k,
        ) by {
            assert(has_text_of(before.rows, id, c, k));
            let r = choose|r: int|
                0 <= r < before.rows.len() && (#[trigger] before.rows[r]).source_id == id
                    && before.rows[r].text == c.note.chunks@[k].text@;
            assert(after.rows[r] == before.rows[r]);
        }
    } else {
        let rows = rows_of(label, f.source, c, f.vectors);
        assert(after.changed_ids[before.changed_ids.len() as int] == id);
        let e = before.entries.len() as int;
        assert(after.entries[e].source_id == id && after.entries[e].content_hash == c.hash@);
        assert forall|k: int|
            0 <= k < files[i].vectors && k < c.note.chunks@.len() implies #[trigger] has_text_of(
            after.rows,
            id,
            c,
            k,
        ) by {
            assert(after.rows[before.rows.len() + k] == rows[k]);
        }
    }
}

/// Some row of a source holds the text of a chunk.
pub open spec fn has_text_of(rows: Seq<RowView>, id: Seq<char>, changed: Changed, k: int) -> bool {
    exists|r: int|
        0 <= r < rows.len() && (#[trigger] rows[r]).source_id == id && rows[r].text
            == changed.note.chunks@[k].text@
}

/// Statistics of several roots add up, and no line of any of them is lost.
pub proof fn sums_lose_no_line(total: StatsView, label: Seq<char>, stats: StatsView, i: int)
    requires
        0 <= i < stats.indexes.len(),
    ensures
        summed(total, label, stats).indexes.contains(label + ": "@ + stats.indexes[i]),
        total.indexes.is_prefix_of(summed(total, label, stats).indexes),
        summed(total, label, stats).indexes.len() == total.indexes.len() + stats.indexes.len(),
        summed(total, label, stats).scanned - stats.scanned == total.scanned,
        summed(total, label, stats).changed - stats.changed == total.changed,
        summed(total, label, stats).removed - stats.removed == total.removed,
        summed(total, label, stats).chunks_written - stats.chunks_written == total.chunks_written,
        summed(total, label, stats).embed_ms - stats.embed_ms == total.embed_ms,
        summed(total, label, stats).write_ms - stats.write_ms == total.write_ms,
        summed(total, label, stats).post_index_ms - stats.post_index_ms == total.post_index_ms,
{
    let out = summed(total, label, stats).indexes;
    let n = total.indexes.len() as int;
    assert(out[n + i] == label + ": "@ + stats.indexes[i]);
    assert(total.indexes =~= out.subrange(0, n));
}

/// Two contents have one digest.
pub open spec fn is_collision(x: Seq<u8>, y: Seq<u8>) -> bool {
    x != y && sha256_of(x) == sha256_of(y)
}

/// A change of content changes the hash that the manifest lists, wherever in the file it
/// is, unless SHA-256 collides.
pub proof fn a_change_anywhere_changes_the_hash(one: Seq<u8>, two: Seq<u8>)
    requires
        one != two,
        content_hash_of(one) == content_hash_of(two),
    ensures
        is_collision(le_bytes(CHUNKER_VERSION) + one, le_bytes(CHUNKER_VERSION) + two),
{
    let x = le_bytes(CHUNKER_VERSION) + one;
    let y = le_bytes(CHUNKER_VERSION) + two;
    only_a_collision_hides_a_change(CHUNKER_VERSION, one, CHUNKER_VERSION, two);
    hex_reads_back(sha256_of(x), sha256_of(y));
}

/// The digests of two inputs begin alike, in their first eight bytes.
pub open spec fn is_short_collision(x: Seq<u8>, y: Seq<u8>) -> bool {
    x != y && hex(sha256_of(x)).take(16) == hex(sha256_of(y)).take(16)
}

/// Two chunks have two ids, be they of two files or at two places of one, unless the
/// beginnings of two digests collide.
pub proof fn two_chunks_have_two_ids(
    source_one: Seq<char>,
    ix_one: i32,
    source_two: Seq<char>,
    ix_two: i32,
)
    requires
        source_one != source_two || ix_one != ix_two,
        chunk_id_of(source_one, ix_one as int) == chunk_id_of(source_two, ix_two as int),
    ensures
        is_short_collision(
            encode_utf8(source_one + seq![':'] + signed_decimal(ix_one as int)),
            encode_utf8(source_two + seq![':'] + signed_decimal(ix_two as int)),
        ),
{
    let a = chunk_key(source_one, ix_one as int);
    let b = chunk_key(source_two, ix_two as int);
    if a == b {
        two_chunks_never_share_a_key(source_one, ix_one, source_two, ix_two);
    }
    encode_utf8_decode_utf8(a);
    encode_utf8_decode_utf8(b);
}

/// A file is known below its root by the path that it has there as it is written, whatever
/// its links resolve to; where that leads out of the root, by the resolved one; and by its
/// own path where neither is in the root.
pub proof fn a_file_is_known_below_its_root(
    dir: Seq<char>,
    path: Seq<char>,
    resolved: Option<Seq<char>>,
)
    ensures
        inside(dir, path) matches Some(rel) ==> relative(dir, path, resolved) == rel,
        inside(dir, path) is None && resolved is None ==> relative(dir, path, resolved) == path,
        inside(dir, path) is None ==> (resolved matches Some(actual) ==> (inside(
            dir,
            actual,
        ) matches Some(rel) ==> relative(dir, path, resolved) == rel)),
        inside(dir, path) is None ==> (resolved matches Some(actual) ==> (inside(dir, actual) is None
            ==> relative(dir, path, resolved) == path)),
{
}

/// The index cares about exactly the files whose name is longer than its ending and ends
/// in `.md`, and that lie below no directory which is kept out.
pub proof fn the_index_cares_about_markdown(path: Seq<char>)
    ensures
        wanted(path) <==> (file_name_of(path) matches Some(name) && name.len() > 3
            && ".md"@.is_suffix_of(name)) && forall|i: int|
            0 <= i < names(path).len() ==> (#[trigger] names(path)[i]) != ".obsidian"@
                && names(path)[i] != ".git"@ && names(path)[i] != ".trash"@ && names(path)[i]
                != ".DS_Store"@,
{
    if wanted(path) {
        assert forall|i: int| 0 <= i < names(path).len() implies (#[trigger] names(path)[i])
            != ".obsidian"@ && names(path)[i] != ".git"@ && names(path)[i] != ".trash"@ && names(
            path,
        )[i] != ".DS_Store"@ by {
            assert(!hidden_name(names(path)[i]));
        }
    }
}

/// How many files of a run changed.
pub open spec fn changed_count(files: Seq<Looked>) -> nat
    decreases files.len(),
{
    if files.len() == 0 {
        0
    } else {
        changed_count(files.drop_last()) + if files.last().out is Some {
            1nat
        } else {
            0nat
        }
    }
}

/// How long the files of a run took to embed.
pub open spec fn time_embedding(files: Seq<Looked>) -> nat
    decreases files.len(),
{
    if files.len() == 0 {
        0
    } else {
        time_embedding(files.drop_last()) + if files.last().out is Some {
            files.last().embed_ms
        } else {
            0nat
        }
    }
}

/// A run counts what it did: as many changed files as were read as changed, with an entry
/// and an id for each and no more, and the time that they took to embed.
pub proof fn a_run_counts_what_it_did(
    run: RunView,
    label: Seq<char>,
    files: Seq<Looked>,
    now: Seq<char>,
)
    ensures
        ({
            let after = gathered_from(run, label, files, now);
            &&& after.stats.changed == run.stats.changed + changed_count(files)
            &&& after.entries.len() == run.entries.len() + changed_count(files)
            &&& after.changed_ids.len() == run.changed_ids.len() + changed_count(files)
            &&& after.stats.embed_ms == run.stats.embed_ms + time_embedding(files)
            &&& after.stats.scanned == run.stats.scanned
            &&& after.stats.removed == run.stats.removed
        }),
    decreases files.len(),
{
    if files.len() > 0 {
        a_run_counts_what_it_did(run, label, files.drop_last(), now);
    }
}

/// A manifest entry says of a changed file which one it is, of which root, what its
/// content hashes to, how many chunks it has and when it was indexed.
pub proof fn a_manifest_entry_says_what_was_indexed(
    label: Seq<char>,
    source: SourceView,
    changed: Changed,
    now: Seq<char>,
)
    ensures
        manifest_of(label, source, changed, now).source_id == source.id,
        manifest_of(label, source, changed, now).source_type == label,
        manifest_of(label, source, changed, now).content_hash == changed.hash@,
        changed.note.chunks@.len() <= i32::MAX ==> manifest_of(
            label,
            source,
            changed,
            now,
        ).n_chunks == changed.note.chunks@.len(),
        manifest_of(label, source, changed, now).indexed_at == now,
{
}

/// A note is chunked from the text of its file, under the name of the file without its
/// ending.
pub proof fn a_note_is_chunked_from_its_file(
    changed: Changed,
    path: Seq<char>,
    raw: Seq<u8>,
    known: Option<Seq<char>>,
    force: bool,
)
    requires
        reads_as(Some(changed), path, raw, known, force),
        valid_utf8(raw),
    ensures
        chunk_views(changed.note.chunks@) == note_chunks(changed.note.title@, decode_utf8(raw)),
        changed.note.frontmatter@ == frontmatter_of(lines(decode_utf8(raw))),
        file_name_of(path) matches Some(name) ==> changed.note.title@.is_prefix_of(name)
            && changed.note.title@.len() > 0 && (changed.note.title@ == name
            || name[changed.note.title@.len() as int] == '.') && forall|j: int|
            0 < j < name.len() && (j > changed.note.title@.len() || changed.note.title@ == name)
                ==> #[trigger] name[j] != '.',
{
    if file_name_of(path) is Some {
        let name = file_name_of(path)->Some_0;
        names_are_names(path, names(path).len() - 1);
        last_dot_is_one(name);
        let title = stem_of(path);
        assert(title =~= name.subrange(0, title.len() as int));
    }
}

proof fn last_dot_is_one(name: Seq<char>)
    ensures
        last_dot(name) matches Some(k) ==> 0 <= k < name.len() && name[k] == '.' && forall|j: int|
            k < j < name.len() ==> #[trigger] name[j] != '.',
        last_dot(name) is None ==> forall|j: int| 0 <= j < name.len() ==> #[trigger] name[j] != '.',
    decreases name.len(),
{
    if name.len() > 0 && name.last() != '.' {
        last_dot_is_one(name.drop_last());
        let from: int = match last_dot(name) {
            Some(k) => k + 1,
            None => 0,
        };
        assert forall|j: int| from <= j < name.len() implies #[trigger] name[j] != '.' by {
            if j < name.len() - 1 {
                assert(name.drop_last()[j] == name[j]);
            }
        }
    }
}

} // verus!
