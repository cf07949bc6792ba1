//! What the contracts see of a value is the value: no field is left out, cut or changed,
//! and no element of a list is.
use vstd::prelude::*;
use crate::chunk::{chunk_views, Chunk, Frontmatter};
use crate::config::{entry_views, root_views, Entry, Root};
use crate::daemon::count_views;
use crate::index::{source_views, IndexStats, Source};
use crate::proto::LabelCount;
use crate::recall::{hit_views, pointer_views, Hit, Pointer};
use crate::store::{
    column_views, manifest_views, row_views, string_lists, Column, ColumnView, ManifestEntry, Row,
};
use crate::text::{slices, strings, texts};
use crate::tree::{
    block_views, message_views, positions, BlockView, ContentBlock, Message, NodeId,
};

verus! {

/// A list of strings is seen string by string, and so are lists of buffers and of slices.
pub proof fn a_list_is_seen_text_by_text(
    a: Seq<String>,
    b: Seq<Vec<char>>,
    c: Seq<&[char]>,
    i: int,
)
    ensures
        strings(a).len() == a.len(),
        0 <= i < a.len() ==> strings(a)[i] == a[i]@,
        texts(b).len() == b.len(),
        0 <= i < b.len() ==> texts(b)[i] == b[i]@,
        slices(c).len() == c.len(),
        0 <= i < c.len() ==> slices(c)[i] == c[i]@,
{
}

/// A hit is seen whole, and so is a list of hits.
pub proof fn a_hit_is_seen_whole(hits: Seq<Hit>, i: int)
    requires
        0 <= i < hits.len(),
    ensures
        hit_views(hits).len() == hits.len(),
        hit_views(hits)[i].score == hits[i].score,
        hit_views(hits)[i].cosine == hits[i].cosine,
        hit_views(hits)[i].title == hits[i].title@,
        hit_views(hits)[i].rel_path == hits[i].rel_path@,
        hit_views(hits)[i].heading_path == hits[i].heading_path@,
        hit_views(hits)[i].captured == hits[i].captured@,
        hit_views(hits)[i].source_type == hits[i].source_type@,
        hit_views(hits)[i].text == hits[i].text@,
{
}

/// A pointer is seen whole, and so is a list of pointers.
pub proof fn a_pointer_is_seen_whole(pointers: Seq<Pointer>, i: int)
    requires
        0 <= i < pointers.len(),
    ensures
        pointer_views(pointers).len() == pointers.len(),
        pointer_views(pointers)[i].title == pointers[i].title@,
        pointer_views(pointers)[i].source_type == pointers[i].source_type@,
        pointer_views(pointers)[i].path == pointers[i].path@,
        pointer_views(pointers)[i].rel_path == pointers[i].rel_path@,
        pointer_views(pointers)[i].heading_path == pointers[i].heading_path@,
        pointer_views(pointers)[i].captured == pointers[i].captured@,
        pointer_views(pointers)[i].cosine == pointers[i].cosine,
{
}

/// A block is seen whole, and so is a list of blocks.
pub proof fn a_block_is_seen_whole(blocks: Seq<ContentBlock>, i: int)
    requires
        0 <= i < blocks.len(),
    ensures
        block_views(blocks).len() == blocks.len(),
        blocks[i] matches ContentBlock::Text { text } ==> block_views(blocks)[i] == (
        BlockView::Text { text: text@ }),
        blocks[i] matches ContentBlock::Thinking { thinking, signature } ==> block_views(blocks)[i]
            == (BlockView::Thinking { thinking: thinking@, signature: signature@ }),
{
}

/// A message is seen whole, and so is a list of messages.
pub proof fn a_message_is_seen_whole(messages: Seq<Message>, i: int, j: int)
    requires
        0 <= i < messages.len(),
    ensures
        message_views(messages).len() == messages.len(),
        message_views(messages)[i].role == messages[i].role,
        message_views(messages)[i].content.len() == messages[i].content@.len(),
        0 <= j < messages[i].content@.len() ==> message_views(messages)[i].content[j]
            == messages[i].content@[j]@,
{
}

/// A list of ids is seen id by id.
pub proof fn a_list_of_ids_is_seen_id_by_id(ids: Seq<NodeId>, i: int)
    ensures
        positions(ids).len() == ids.len(),
        0 <= i < ids.len() ==> positions(ids)[i] == ids[i]@,
{
}

/// A chunk is seen whole, and so is a list of chunks.
pub proof fn a_chunk_is_seen_whole(chunks: Seq<Chunk>, i: int)
    requires
        0 <= i < chunks.len(),
    ensures
        chunk_views(chunks).len() == chunks.len(),
        chunk_views(chunks)[i].text == chunks[i].text@,
        chunk_views(chunks)[i].heading_path == chunks[i].heading_path@,
        chunk_views(chunks)[i].ix == chunks[i].ix,
        chunk_views(chunks)[i].entities == strings(chunks[i].entities@),
{
}

/// Frontmatter is seen whole.
pub proof fn frontmatter_is_seen_whole(front: Frontmatter)
    ensures
        front@.note_type == front.note_type@,
        front@.captured == front.captured@,
        front@.tags == strings(front.tags@),
{
}

/// A row is seen whole, and so is a list of rows.
pub proof fn a_row_is_seen_whole(rows: Seq<Row>, i: int)
    requires
        0 <= i < rows.len(),
    ensures
        row_views(rows).len() == rows.len(),
        row_views(rows)[i].id == rows[i].id@,
        row_views(rows)[i].text == rows[i].text@,
        row_views(rows)[i].source_type == rows[i].source_type@,
        row_views(rows)[i].source_id == rows[i].source_id@,
        row_views(rows)[i].title == rows[i].title@,
        row_views(rows)[i].heading_path == rows[i].heading_path@,
        row_views(rows)[i].rel_path == rows[i].rel_path@,
        row_views(rows)[i].note_type == rows[i].note_type@,
        row_views(rows)[i].captured == rows[i].captured@,
        row_views(rows)[i].tags == strings(rows[i].tags@),
        row_views(rows)[i].entities == strings(rows[i].entities@),
        row_views(rows)[i].content_hash == rows[i].content_hash@,
        row_views(rows)[i].chunk_ix == rows[i].chunk_ix,
{
}

/// A manifest entry is seen whole, and so is a list of them.
pub proof fn a_manifest_entry_is_seen_whole(entries: Seq<ManifestEntry>, i: int)
    requires
        0 <= i < entries.len(),
    ensures
        manifest_views(entries).len() == entries.len(),
        manifest_views(entries)[i].source_id == entries[i].source_id@,
        manifest_views(entries)[i].source_type == entries[i].source_type@,
        manifest_views(entries)[i].content_hash == entries[i].content_hash@,
        manifest_views(entries)[i].n_chunks == entries[i].n_chunks,
        manifest_views(entries)[i].indexed_at == entries[i].indexed_at@,
{
}

/// A column is seen whole, and so is a list of columns.
pub proof fn a_column_is_seen_whole(columns: Seq<Column>, i: int, j: int)
    requires
        0 <= i < columns.len(),
    ensures
        column_views(columns).len() == columns.len(),
        columns[i] matches Column::Texts { name, values } ==> column_views(columns)[i] == (
        ColumnView::Texts { name: name@, values: strings(values@) }),
        columns[i] matches Column::Numbers { name, values } ==> column_views(columns)[i] == (
        ColumnView::Numbers { name: name@, values: values@ }),
        columns[i] matches Column::Vectors { name } ==> column_views(columns)[i] == (
        ColumnView::Vectors { name: name@ }),
        columns[i] matches Column::Lists { name, values } ==> column_views(columns)[i] == (
        ColumnView::Lists { name: name@, values: string_lists(values@) }) && string_lists(
            values@,
        ).len() == values@.len() && (0 <= j < values@.len() ==> string_lists(values@)[j] == strings(
            values@[j]@,
        )),
{
}

/// A source is seen whole, and so is a list of sources.
pub proof fn a_source_is_seen_whole(sources: Seq<Source>, i: int)
    requires
        0 <= i < sources.len(),
    ensures
        source_views(sources).len() == sources.len(),
        source_views(sources)[i].path == sources[i].path@,
        source_views(sources)[i].rel == sources[i].rel@,
        source_views(sources)[i].id == sources[i].id@,
{
}

/// Statistics are seen whole.
pub proof fn statistics_are_seen_whole(stats: IndexStats)
    ensures
        stats@.scanned == stats.scanned,
        stats@.changed == stats.changed,
        stats@.removed == stats.removed,
        stats@.chunks_written == stats.chunks_written,
        stats@.indexes == strings(stats.indexes@),
        stats@.embed_ms == stats.embed_ms,
        stats@.write_ms == stats.write_ms,
        stats@.post_index_ms == stats.post_index_ms,
{
}

/// A root, an entry and a count are seen whole, and so are lists of them.
pub proof fn roots_and_counts_are_seen_whole(
    roots: Seq<Root>,
    entries: Seq<Entry>,
    counts: Seq<LabelCount>,
    i: int,
)
    ensures
        root_views(roots).len() == roots.len(),
        0 <= i < roots.len() ==> root_views(roots)[i].label == roots[i].label@
            && root_views(roots)[i].dir == roots[i].dir@,
        entry_views(entries).len() == entries.len(),
        0 <= i < entries.len() ==> entry_views(entries)[i].label == entries[i].label@
            && entry_views(entries)[i].path == entries[i].path@,
        count_views(counts).len() == counts.len(),
        0 <= i < counts.len() ==> count_views(counts)[i].label == counts[i].label@
            && count_views(counts)[i].count == counts[i].count,
{
}

} // verus!
