//! What goes into the tables and how they are asked, without the database.
//!
//! One table, `chunks`, is shared by every configured root and distinguished by
//! `source_type`/`source_id` rather than by separate tables per root. Roots differ in
//! what they hold, not in how they are stored, so one schema and one set of indexes
//! serve all of them.
use vstd::prelude::*;
use crate::config::{EMBED_DIM, VECTOR_INDEX_MIN_ROWS};
use crate::chunk_laws::joined_front;
use crate::number::{decimal, push_decimal};
use crate::text::{
    chars_of, joined, push_all, push_str, push_text, string_of, strings, texts,
};

verus! {

/// The table of the manifest: one row per source file, rather than per chunk.
///
/// Change detection could read the hashes straight off the chunks table, but that
/// means scanning every chunk of every file to learn about the files. A separate
/// manifest keyed on the source id turns the same question into a point lookup.
pub const TABLE_MANIFEST: &'static str = "manifest";

/// One chunk as it is stored, but for its vector.
#[derive(Debug, Clone)]
pub struct Row {
    pub id: String,
    pub text: String,
    pub source_type: String,
    pub source_id: String,
    pub title: String,
    pub heading_path: String,
    pub rel_path: String,
    pub note_type: String,
    pub captured: String,
    pub tags: Vec<String>,
    pub entities: Vec<String>,
    pub content_hash: String,
    pub chunk_ix: i32,
}

/// The texts of a [`Row`].
#[verifier::ext_equal]
pub struct RowView {
    pub id: Seq<char>,
    pub text: Seq<char>,
    pub source_type: Seq<char>,
    pub source_id: Seq<char>,
    pub title: Seq<char>,
    pub heading_path: Seq<char>,
    pub rel_path: Seq<char>,
    pub note_type: Seq<char>,
    pub captured: Seq<char>,
    pub tags: Seq<Seq<char>>,
    pub entities: Seq<Seq<char>>,
    pub content_hash: Seq<char>,
    pub chunk_ix: i32,
}

impl View for Row {
    type V = RowView;

    open spec fn view(&self) -> RowView {
        RowView {
            id: self.id@,
            text: self.text@,
            source_type: self.source_type@,
            source_id: self.source_id@,
            title: self.title@,
            heading_path: self.heading_path@,
            rel_path: self.rel_path@,
            note_type: self.note_type@,
            captured: self.captured@,
            tags: strings(self.tags@),
            entities: strings(self.entities@),
            content_hash: self.content_hash@,
            chunk_ix: self.chunk_ix,
        }
    }
}

/// The texts of a list of rows.
pub open spec fn row_views(rows: Seq<Row>) -> Seq<RowView> {
    rows.map_values(|r: Row| r@)
}

/// What the manifest says of one source file.
#[derive(Debug, Clone)]
pub struct ManifestEntry {
    pub source_id: String,
    pub source_type: String,
    pub content_hash: String,
    pub n_chunks: i32,
    pub indexed_at: String,
}

/// The texts of a [`ManifestEntry`].
#[verifier::ext_equal]
pub struct ManifestView {
    pub source_id: Seq<char>,
    pub source_type: Seq<char>,
    pub content_hash: Seq<char>,
    pub n_chunks: i32,
    pub indexed_at: Seq<char>,
}

impl View for ManifestEntry {
    type V = ManifestView;

    open spec fn view(&self) -> ManifestView {
        ManifestView {
            source_id: self.source_id@,
            source_type: self.source_type@,
            content_hash: self.content_hash@,
            n_chunks: self.n_chunks,
            indexed_at: self.indexed_at@,
        }
    }
}

/// The texts of a list of manifest entries.
pub open spec fn manifest_views(entries: Seq<ManifestEntry>) -> Seq<ManifestView> {
    entries.map_values(|e: ManifestEntry| e@)
}

/// One root's number of rows. Deliberately not just a number: a query that fails must
/// render differently from a root that legitimately has zero rows, or the one
/// distinction that the status exists to preserve disappears into a silent zero.
#[derive(Debug, Clone, PartialEq, Eq)]
pub enum RootCount {
    Rows(usize),
    Error(String),
}

/// The number of rows of one root, given what came of opening the table and, where there
/// is one, of counting in it. No table yet is no rows; a failure, of either, is an error
/// and never a zero.
pub fn root_count(counted: Result<Option<Result<usize, String>>, String>) -> (out: RootCount)
    ensures
        out == match counted {
            Ok(Some(Ok(n))) => RootCount::Rows(n),
            Ok(Some(Err(why))) => RootCount::Error(why),
            Ok(None) => RootCount::Rows(0),
            Err(why) => RootCount::Error(why),
        },
{
    match counted {
        Ok(Some(Ok(n))) => RootCount::Rows(n),
        Ok(Some(Err(why))) => RootCount::Error(why),
        Ok(None) => RootCount::Rows(0),
        Err(why) => RootCount::Error(why),
    }
}

/// A text with every quote doubled.
pub open spec fn doubled(s: Seq<char>) -> Seq<char>
    decreases s.len(),
{
    if s.len() == 0 {
        seq![]
    } else if s.last() == '\'' {
        doubled(s.drop_last()).push('\'').push('\'')
    } else {
        doubled(s.drop_last()).push(s.last())
    }
}

/// A text as an SQL string literal.
pub open spec fn quoted_sql(s: Seq<char>) -> Seq<char> {
    seq!['\''] + doubled(s) + seq!['\'']
}

/// A single-quoted SQL string literal, with embedded quotes doubled per the standard
/// SQL escape: the only defense between a label like `o'reilly` and a predicate that
/// fails to parse, or worse, means something else.
pub fn sql_quote(value: &str) -> (out: Vec<char>)
    ensures
        out@ == quoted_sql(value@),
{
    let chars = chars_of(value);
    let mut out: Vec<char> = Vec::new();
    out.push('\'');
    let mut i: usize = 0;
    while i < chars.len()
        invariant
            i <= chars@.len(),
            out@ == seq!['\''] + doubled(chars@.take(i as int)),
        decreases chars.len() - i,
    {
        let c = chars[i];
        let ghost before = out@;
        if c == '\'' {
            out.push('\'');
        }
        out.push(c);
        i += 1;
        proof {
            assert(chars@.take(i as int).drop_last() =~= chars@.take(i - 1));
            assert(out@ =~= seq!['\''] + doubled(chars@.take(i as int)));
        }
    }
    out.push('\'');
    proof {
        assert(chars@.take(i as int) =~= chars@);
        assert(out@ =~= quoted_sql(value@));
    }
    out
}

/// The literals of a list of texts.
pub open spec fn quoted_all(values: Seq<Seq<char>>) -> Seq<Seq<char>> {
    values.map_values(|v: Seq<char>| quoted_sql(v))
}

/// A predicate that holds of the given sources.
pub open spec fn sources_predicate(values: Seq<Seq<char>>) -> Seq<char> {
    "source_id IN ("@ + joined(quoted_all(values), ", "@) + ")"@
}

/// The literals of a list of values, divided by commas.
pub fn sql_in_list(values: &Vec<String>) -> (out: Vec<char>)
    ensures
        out@ == joined(quoted_all(strings(values@)), ", "@),
{
    let ghost all = quoted_all(strings(values@));
    let mut list: Vec<Vec<char>> = Vec::new();
    let mut i: usize = 0;
    proof {
        assert(texts(list@) =~= all.take(0));
    }
    while i < values.len()
        invariant
            i <= values@.len(),
            all == quoted_all(strings(values@)),
            texts(list@) == all.take(i as int),
        decreases values.len() - i,
    {
        push_text(&mut list, sql_quote(values[i].as_str()));
        i += 1;
        proof {
            assert(all.take(i as int) =~= all.take(i - 1).push(all[i - 1]));
        }
    }
    proof {
        assert(all.take(i as int) =~= all);
    }
    crate::text::join(&list, ", ")
}

/// The predicate that holds of the rows of the given sources, and of no others.
pub fn source_filter(ids: &Vec<String>) -> (out: String)
    ensures
        out@ == sources_predicate(strings(ids@)),
{
    let mut out = chars_of("source_id IN (");
    push_all(&mut out, sql_in_list(ids).as_slice());
    push_str(&mut out, ")");
    string_of(out.as_slice())
}

/// The predicate that holds of the rows of one root.
pub fn label_filter(label: &str) -> (out: String)
    ensures
        out@ == "source_type = "@ + quoted_sql(label@),
{
    let mut out = chars_of("source_type = ");
    push_all(&mut out, sql_quote(label).as_slice());
    string_of(out.as_slice())
}

/// What an SQL reader reads at the start of a text, behind an opening quote: the
/// literal's value, and where the text goes on.
pub open spec fn read_literal(s: Seq<char>) -> Option<(Seq<char>, Seq<char>)>
    decreases s.len(),
{
    if s.len() == 0 {
        None
    } else if s[0] != '\'' {
        match read_literal(s.skip(1)) {
            Some((value, rest)) => Some((seq![s[0]] + value, rest)),
            None => None,
        }
    } else if s.len() > 1 && s[1] == '\'' {
        match read_literal(s.skip(2)) {
            Some((value, rest)) => Some((seq!['\''] + value, rest)),
            None => None,
        }
    } else {
        Some((seq![], s.skip(1)))
    }
}

/// A quoted value reads back as itself and ends where it was ended, whatever it
/// holds: no value can change what the predicate around it means.
pub proof fn a_quoted_value_reads_back(value: Seq<char>, rest: Seq<char>)
    requires
        rest.len() == 0 || rest[0] != '\'',
    ensures
        read_literal((quoted_sql(value) + rest).skip(1)) == Some((value, rest)),
{
    let tail = seq!['\''] + rest;
    assert((quoted_sql(value) + rest).skip(1) =~= doubled(value) + tail);
    assert(tail.skip(1) =~= rest);
    doubled_front(value, tail, rest);
}

proof fn doubled_front(value: Seq<char>, tail: Seq<char>, rest: Seq<char>)
    requires
        read_literal(tail) == Some((Seq::<char>::empty(), rest)),
    ensures
        read_literal(doubled(value) + tail) == Some((value, rest)),
    decreases value.len(),
{
    if value.len() == 0 {
        assert(doubled(value) + tail =~= tail);
        assert(value =~= seq![]);
    } else {
        let c = value[0];
        let more = value.skip(1);
        doubled_first(value);
        doubled_front(more, tail, rest);
        let s = doubled(value) + tail;
        assert(seq![c] + more =~= value);
        if c == '\'' {
            assert(s =~= seq!['\'', '\''] + (doubled(more) + tail));
            assert(s.skip(2) =~= doubled(more) + tail);
        } else {
            assert(s =~= seq![c] + (doubled(more) + tail));
            assert(s.skip(1) =~= doubled(more) + tail);
        }
    }
}

proof fn doubled_first(value: Seq<char>)
    requires
        value.len() > 0,
    ensures
        doubled(value) == (if value[0] == '\'' {
            seq!['\'', '\'']
        } else {
            seq![value[0]]
        }) + doubled(value.skip(1)),
    decreases value.len(),
{
    if value.len() == 1 {
        assert(value.drop_last() =~= seq![]);
        assert(doubled(value.drop_last()) =~= seq![]);
        assert(doubled(value.skip(1)) =~= seq![]);
        assert(doubled(value) =~= (if value[0] == '\'' {
            seq!['\'', '\'']
        } else {
            seq![value[0]]
        }) + doubled(value.skip(1)));
    } else {
        doubled_first(value.drop_last());
        assert(value.drop_last().skip(1) =~= value.skip(1).drop_last());
        assert(doubled(value) =~= (if value[0] == '\'' {
            seq!['\'', '\'']
        } else {
            seq![value[0]]
        }) + doubled(value.skip(1)));
    }
}

/// The text columns of a chunk.
#[derive(Debug, Clone, Copy, PartialEq, Eq)]
pub enum TextColumn {
    Id,
    Text,
    SourceType,
    SourceId,
    Title,
    HeadingPath,
    RelPath,
    NoteType,
    Captured,
    ContentHash,
}

impl TextColumn {
    /// The column's name.
    pub open spec fn spelled(self) -> Seq<char> {
        match self {
            TextColumn::Id => "id"@,
            TextColumn::Text => "text"@,
            TextColumn::SourceType => "source_type"@,
            TextColumn::SourceId => "source_id"@,
            TextColumn::Title => "title"@,
            TextColumn::HeadingPath => "heading_path"@,
            TextColumn::RelPath => "rel_path"@,
            TextColumn::NoteType => "note_type"@,
            TextColumn::Captured => "captured"@,
            TextColumn::ContentHash => "content_hash"@,
        }
    }

    /// What a row holds in the column.
    pub open spec fn of(self, row: RowView) -> Seq<char> {
        match self {
            TextColumn::Id => row.id,
            TextColumn::Text => row.text,
            TextColumn::SourceType => row.source_type,
            TextColumn::SourceId => row.source_id,
            TextColumn::Title => row.title,
            TextColumn::HeadingPath => row.heading_path,
            TextColumn::RelPath => row.rel_path,
            TextColumn::NoteType => row.note_type,
            TextColumn::Captured => row.captured,
            TextColumn::ContentHash => row.content_hash,
        }
    }

    fn name(self) -> (out: &'static str)
        ensures
            out@ == self.spelled(),
    {
        match self {
            TextColumn::Id => "id",
            TextColumn::Text => "text",
            TextColumn::SourceType => "source_type",
            TextColumn::SourceId => "source_id",
            TextColumn::Title => "title",
            TextColumn::HeadingPath => "heading_path",
            TextColumn::RelPath => "rel_path",
            TextColumn::NoteType => "note_type",
            TextColumn::Captured => "captured",
            TextColumn::ContentHash => "content_hash",
        }
    }

    fn value(self, row: &Row) -> (out: String)
        ensures
            out@ == self.of(row@),
    {
        match self {
            TextColumn::Id => row.id.clone(),
            TextColumn::Text => row.text.clone(),
            TextColumn::SourceType => row.source_type.clone(),
            TextColumn::SourceId => row.source_id.clone(),
            TextColumn::Title => row.title.clone(),
            TextColumn::HeadingPath => row.heading_path.clone(),
            TextColumn::RelPath => row.rel_path.clone(),
            TextColumn::NoteType => row.note_type.clone(),
            TextColumn::Captured => row.captured.clone(),
            TextColumn::ContentHash => row.content_hash.clone(),
        }
    }
}

/// One column of a table, with its name.
#[derive(Debug)]
pub enum Column {
    /// A text for every row.
    Texts { name: &'static str, values: Vec<String> },
    /// A list of texts for every row.
    Lists { name: &'static str, values: Vec<Vec<String>> },
    /// A number for every row.
    Numbers { name: &'static str, values: Vec<i32> },
    /// The embedding of every row, which the embedder holds.
    Vectors { name: &'static str },
}

/// The texts of a [`Column`].
#[verifier::ext_equal]
pub enum ColumnView {
    Texts { name: Seq<char>, values: Seq<Seq<char>> },
    Lists { name: Seq<char>, values: Seq<Seq<Seq<char>>> },
    Numbers { name: Seq<char>, values: Seq<i32> },
    Vectors { name: Seq<char> },
}

/// The texts of a list of lists.
pub open spec fn string_lists(v: Seq<Vec<String>>) -> Seq<Seq<Seq<char>>> {
    v.map_values(|x: Vec<String>| strings(x@))
}

impl View for Column {
    type V = ColumnView;

    open spec fn view(&self) -> ColumnView {
        match *self {
            Column::Texts { name, values } => ColumnView::Texts {
                name: name@,
                values: strings(values@),
            },
            Column::Lists { name, values } => ColumnView::Lists {
                name: name@,
                values: string_lists(values@),
            },
            Column::Numbers { name, values } => ColumnView::Numbers { name: name@, values: values@ },
            Column::Vectors { name } => ColumnView::Vectors { name: name@ },
        }
    }
}

/// The texts of a list of columns.
pub open spec fn column_views(columns: Seq<Column>) -> Seq<ColumnView> {
    columns.map_values(|c: Column| c@)
}

/// A text column of the given rows.
pub open spec fn texts_of(rows: Seq<RowView>, column: TextColumn) -> ColumnView {
    ColumnView::Texts {
        name: column.spelled(),
        values: rows.map_values(|r: RowView| column.of(r)),
    }
}

/// The columns of the chunks table, in the order of its schema.
pub open spec fn columns_of(rows: Seq<RowView>) -> Seq<ColumnView> {
    seq![
        texts_of(rows, TextColumn::Id),
        texts_of(rows, TextColumn::Text),
        ColumnView::Vectors { name: "vector"@ },
        texts_of(rows, TextColumn::SourceType),
        texts_of(rows, TextColumn::SourceId),
        texts_of(rows, TextColumn::Title),
        texts_of(rows, TextColumn::HeadingPath),
        texts_of(rows, TextColumn::RelPath),
        texts_of(rows, TextColumn::NoteType),
        texts_of(rows, TextColumn::Captured),
        ColumnView::Lists { name: "tags"@, values: rows.map_values(|r: RowView| r.tags) },
        ColumnView::Lists { name: "entities"@, values: rows.map_values(|r: RowView| r.entities) },
        texts_of(rows, TextColumn::ContentHash),
        ColumnView::Numbers { name: "chunk_ix"@, values: rows.map_values(|r: RowView| r.chunk_ix) },
    ]
}

fn text_column(rows: &Vec<Row>, column: TextColumn) -> (out: Column)
    ensures
        out@ == texts_of(row_views(rows@), column),
{
    let ghost all = row_views(rows@).map_values(|r: RowView| column.of(r));
    let mut values: Vec<String> = Vec::new();
    let mut i: usize = 0;
    proof {
        assert(strings(values@) =~= all.take(0));
    }
    while i < rows.len()
        invariant
            i <= rows@.len(),
            all == row_views(rows@).map_values(|r: RowView| column.of(r)),
            strings(values@) == all.take(i as int),
        decreases rows.len() - i,
    {
        let ghost before = values@;
        let value = column.value(&rows[i]);
        let ghost v = value@;
        values.push(value);
        i += 1;
        proof {
            assert(strings(values@) =~= strings(before).push(v));
            assert(all.take(i as int) =~= all.take(i - 1).push(all[i - 1]));
        }
    }
    proof {
        assert(all.take(i as int) =~= all);
    }
    Column::Texts { name: column.name(), values }
}

/// A copy of a list of strings.
pub fn copy_strings(list: &Vec<String>) -> (out: Vec<String>)
    ensures
        strings(out@) == strings(list@),
{
    let mut out: Vec<String> = Vec::new();
    let mut i: usize = 0;
    proof {
        assert(strings(out@) =~= strings(list@).take(0));
    }
    while i < list.len()
        invariant
            i <= list@.len(),
            strings(out@) == strings(list@).take(i as int),
        decreases list.len() - i,
    {
        let ghost before = out@;
        out.push(list[i].clone());
        i += 1;
        proof {
            assert(strings(out@) =~= strings(before).push(list@[i - 1]@));
            assert(strings(list@).take(i as int) =~= strings(list@).take(i - 1).push(
                list@[i - 1]@,
            ));
        }
    }
    proof {
        assert(strings(list@).take(i as int) =~= strings(list@));
    }
    out
}

fn list_column(rows: &Vec<Row>, entities: bool) -> (out: Column)
    ensures
        entities ==> out@ == (ColumnView::Lists {
            name: "entities"@,
            values: row_views(rows@).map_values(|r: RowView| r.entities),
        }),
        !entities ==> out@ == (ColumnView::Lists {
            name: "tags"@,
            values: row_views(rows@).map_values(|r: RowView| r.tags),
        }),
{
    let ghost all = row_views(rows@).map_values(
        |r: RowView|
            if entities {
                r.entities
            } else {
                r.tags
            },
    );
    let mut values: Vec<Vec<String>> = Vec::new();
    let mut i: usize = 0;
    proof {
        assert(string_lists(values@) =~= all.take(0));
    }
    while i < rows.len()
        invariant
            i <= rows@.len(),
            all == row_views(rows@).map_values(
                |r: RowView|
                    if entities {
                        r.entities
                    } else {
                        r.tags
                    },
            ),
            string_lists(values@) == all.take(i as int),
        decreases rows.len() - i,
    {
        let ghost before = values@;
        let value = if entities {
            copy_strings(&rows[i].entities)
        } else {
            copy_strings(&rows[i].tags)
        };
        let ghost v = strings(value@);
        values.push(value);
        i += 1;
        proof {
            assert(string_lists(values@) =~= string_lists(before).push(v));
            assert(all.take(i as int) =~= all.take(i - 1).push(all[i - 1]));
        }
    }
    proof {
        assert(all.take(i as int) =~= all);
        assert(entities ==> all =~= row_views(rows@).map_values(|r: RowView| r.entities));
        assert(!entities ==> all =~= row_views(rows@).map_values(|r: RowView| r.tags));
    }
    if entities {
        Column::Lists { name: "entities", values }
    } else {
        Column::Lists { name: "tags", values }
    }
}

fn number_column(rows: &Vec<Row>) -> (out: Column)
    ensures
        out@ == (ColumnView::Numbers {
            name: "chunk_ix"@,
            values: row_views(rows@).map_values(|r: RowView| r.chunk_ix),
        }),
{
    let ghost all = row_views(rows@).map_values(|r: RowView| r.chunk_ix);
    let mut values: Vec<i32> = Vec::new();
    let mut i: usize = 0;
    proof {
        assert(values@ =~= all.take(0));
    }
    while i < rows.len()
        invariant
            i <= rows@.len(),
            all == row_views(rows@).map_values(|r: RowView| r.chunk_ix),
            values@ == all.take(i as int),
        decreases rows.len() - i,
    {
        values.push(rows[i].chunk_ix);
        i += 1;
        proof {
            assert(all.take(i as int) =~= all.take(i - 1).push(all[i - 1]));
        }
    }
    proof {
        assert(all.take(i as int) =~= all);
    }
    Column::Numbers { name: "chunk_ix", values }
}

/// Lays rows out as the columns of the chunks table, in the order of its schema.
pub fn chunk_columns(rows: &Vec<Row>) -> (out: Vec<Column>)
    ensures
        column_views(out@) == columns_of(row_views(rows@)),
{
    let mut out: Vec<Column> = Vec::new();
    out.push(text_column(rows, TextColumn::Id));
    out.push(text_column(rows, TextColumn::Text));
    out.push(Column::Vectors { name: "vector" });
    out.push(text_column(rows, TextColumn::SourceType));
    out.push(text_column(rows, TextColumn::SourceId));
    out.push(text_column(rows, TextColumn::Title));
    out.push(text_column(rows, TextColumn::HeadingPath));
    out.push(text_column(rows, TextColumn::RelPath));
    out.push(text_column(rows, TextColumn::NoteType));
    out.push(text_column(rows, TextColumn::Captured));
    out.push(list_column(rows, false));
    out.push(list_column(rows, true));
    out.push(text_column(rows, TextColumn::ContentHash));
    out.push(number_column(rows));
    proof {
        assert(column_views(out@) =~= columns_of(row_views(rows@)));
    }
    out
}

/// The columns of the manifest, in the order of its schema.
pub open spec fn manifest_columns_of(entries: Seq<ManifestView>) -> Seq<ColumnView> {
    seq![
        ColumnView::Texts {
            name: "source_id"@,
            values: entries.map_values(|e: ManifestView| e.source_id),
        },
        ColumnView::Texts {
            name: "source_type"@,
            values: entries.map_values(|e: ManifestView| e.source_type),
        },
        ColumnView::Texts {
            name: "content_hash"@,
            values: entries.map_values(|e: ManifestView| e.content_hash),
        },
        ColumnView::Numbers {
            name: "n_chunks"@,
            values: entries.map_values(|e: ManifestView| e.n_chunks),
        },
        ColumnView::Texts {
            name: "indexed_at"@,
            values: entries.map_values(|e: ManifestView| e.indexed_at),
        },
    ]
}

/// Lays manifest entries out as the columns of the manifest, in the order of its
/// schema.
pub fn manifest_columns(entries: &Vec<ManifestEntry>) -> (out: Vec<Column>)
    ensures
        column_views(out@) == manifest_columns_of(manifest_views(entries@)),
{
    let ghost all = manifest_views(entries@);
    let mut ids: Vec<String> = Vec::new();
    let mut types: Vec<String> = Vec::new();
    let mut hashes: Vec<String> = Vec::new();
    let mut counts: Vec<i32> = Vec::new();
    let mut times: Vec<String> = Vec::new();
    let mut i: usize = 0;
    while i < entries.len()
        invariant
            i <= entries@.len(),
            all == manifest_views(entries@),
            ids@.len() == i && types@.len() == i && hashes@.len() == i && counts@.len() == i
                && times@.len() == i,
            forall|j: int| 0 <= j < i ==> (#[trigger] ids@[j])@ == all[j].source_id,
            forall|j: int| 0 <= j < i ==> (#[trigger] types@[j])@ == all[j].source_type,
            forall|j: int| 0 <= j < i ==> (#[trigger] hashes@[j])@ == all[j].content_hash,
            forall|j: int| 0 <= j < i ==> #[trigger] counts@[j] == all[j].n_chunks,
            forall|j: int| 0 <= j < i ==> (#[trigger] times@[j])@ == all[j].indexed_at,
        decreases entries.len() - i,
    {
        let entry = &entries[i];
        proof {
            assert(all[i as int] == entry@);
        }
        ids.push(entry.source_id.clone());
        types.push(entry.source_type.clone());
        hashes.push(entry.content_hash.clone());
        counts.push(entry.n_chunks);
        times.push(entry.indexed_at.clone());
        i += 1;
    }
    proof {
        assert(strings(ids@) =~= all.map_values(|e: ManifestView| e.source_id));
        assert(strings(types@) =~= all.map_values(|e: ManifestView| e.source_type));
        assert(strings(hashes@) =~= all.map_values(|e: ManifestView| e.content_hash));
        assert(counts@ =~= all.map_values(|e: ManifestView| e.n_chunks));
        assert(strings(times@) =~= all.map_values(|e: ManifestView| e.indexed_at));
    }
    let mut out: Vec<Column> = Vec::new();
    out.push(Column::Texts { name: "source_id", values: ids });
    out.push(Column::Texts { name: "source_type", values: types });
    out.push(Column::Texts { name: "content_hash", values: hashes });
    out.push(Column::Numbers { name: "n_chunks", values: counts });
    out.push(Column::Texts { name: "indexed_at", values: times });
    proof {
        assert(column_views(out@) =~= manifest_columns_of(all));
    }
    out
}

/// The complaint about a row whose vector has the wrong length.
pub open spec fn wrong_length_words(id: Seq<char>, length: nat) -> Seq<char> {
    "row "@ + id + " has vector of length "@ + decimal(length) + ", expected "@ + decimal(
        EMBED_DIM as nat,
    )
}

/// The first row at or after position `i` whose vector has the wrong length.
pub open spec fn wrong_length_at(lengths: Seq<usize>, i: int) -> Option<int>
    decreases lengths.len() - i,
{
    if i < 0 || i >= lengths.len() {
        None
    } else if lengths[i] != EMBED_DIM {
        Some(i)
    } else {
        wrong_length_at(lengths, i + 1)
    }
}

/// Checks that every row's vector has the length that the table was made with.
pub fn check_vectors(rows: &Vec<Row>, lengths: &Vec<usize>) -> (out: Result<(), String>)
    requires
        rows@.len() == lengths@.len(),
    ensures
        match (wrong_length_at(lengths@, 0), out) {
            (None, Ok(_)) => true,
            (Some(k), Err(why)) => why@ == wrong_length_words(rows@[k].id@, lengths@[k] as nat),
            _ => false,
        },
{
    let mut i: usize = 0;
    while i < lengths.len()
        invariant
            i <= lengths@.len(),
            rows@.len() == lengths@.len(),
            wrong_length_at(lengths@, 0) == wrong_length_at(lengths@, i as int),
        decreases lengths.len() - i,
    {
        if lengths[i] != EMBED_DIM as usize {
            let mut out = chars_of("row ");
            push_str(&mut out, rows[i].id.as_str());
            push_str(&mut out, " has vector of length ");
            push_decimal(&mut out, lengths[i] as u64);
            push_str(&mut out, ", expected ");
            push_decimal(&mut out, EMBED_DIM as u64);
            return Err(string_of(out.as_slice()));
        }
        i += 1;
    }
    Ok(())
}

/// Whether a vector index is worth having: below the threshold a flat scan beats it
/// and training would fail for want of rows.
pub fn vector_index_due(rows: usize) -> (due: bool)
    ensures
        due == (rows >= VECTOR_INDEX_MIN_ROWS),
{
    rows >= VECTOR_INDEX_MIN_ROWS
}

/// What is said of the vector index.
pub open spec fn vector_line(rows: nat) -> Seq<char> {
    if rows >= VECTOR_INDEX_MIN_ROWS {
        "ivf_pq(vector) @ "@ + decimal(rows) + " rows"@
    } else {
        "vector: flat scan ("@ + decimal(rows) + " rows < "@ + decimal(VECTOR_INDEX_MIN_ROWS as nat) + " threshold)"@
    }
}

/// What is said of the indexes: those of the scalar ones that were built, in order,
/// and what became of the vector index.
pub open spec fn index_lines(fts: bool, bitmap: bool, labels: bool, rows: nat) -> Seq<Seq<char>> {
    let one: Seq<Seq<char>> = if fts {
        seq!["fts(text)"@]
    } else {
        seq![]
    };
    let two = if bitmap {
        one.push("bitmap(source_type)"@)
    } else {
        one
    };
    let three = if labels {
        two.push("labellist(entities)"@)
    } else {
        two
    };
    three.push(vector_line(rows))
}

/// Adds a string to a list.
pub fn push_string(out: &mut Vec<String>, chars: &[char])
    ensures
        strings(final(out)@) == strings(old(out)@).push(chars@),
{
    out.push(string_of(chars));
    proof {
        assert(strings(out@) =~= strings(old(out)@).push(chars@));
    }
}

/// Says what became of the indexes.
///
/// Scalar indexes are cheap and always worth having. The vector index is not, so it is
/// skipped below the threshold, and the report says so rather than failing opaquely.
pub fn index_report(fts: bool, bitmap: bool, labels: bool, rows: usize) -> (out: Vec<String>)
    ensures
        strings(out@) == index_lines(fts, bitmap, labels, rows as nat),
{
    let mut out: Vec<String> = Vec::new();
    proof {
        assert(strings(out@) =~= seq![]);
    }
    if fts {
        push_string(&mut out, chars_of("fts(text)").as_slice());
        proof {
            assert(strings(out@) =~= seq!["fts(text)"@]);
        }
    }
    if bitmap {
        push_string(&mut out, chars_of("bitmap(source_type)").as_slice());
    }
    if labels {
        push_string(&mut out, chars_of("labellist(entities)").as_slice());
    }
    let line = if vector_index_due(rows) {
        let mut line = chars_of("ivf_pq(vector) @ ");
        push_decimal(&mut line, rows as u64);
        push_str(&mut line, " rows");
        line
    } else {
        let mut line = chars_of("vector: flat scan (");
        push_decimal(&mut line, rows as u64);
        push_str(&mut line, " rows < ");
        push_decimal(&mut line, VECTOR_INDEX_MIN_ROWS as u64);
        push_str(&mut line, " threshold)");
        line
    };
    push_string(&mut out, line.as_slice());
    out
}

/// A column has a value for every row.
pub open spec fn has_values(c: ColumnView, rows: nat) -> bool {
    match c {
        ColumnView::Texts { values, .. } => values.len() == rows,
        ColumnView::Lists { values, .. } => values.len() == rows,
        ColumnView::Numbers { values, .. } => values.len() == rows,
        ColumnView::Vectors { .. } => true,
    }
}

/// Every row has a value in every column, and its own: the texts of row `i` are those at
/// place `i` of the columns that are named after them.
pub proof fn every_row_is_in_every_column(rows: Seq<RowView>, i: int)
    requires
        0 <= i < rows.len(),
    ensures
        forall|c: int|
            0 <= c < columns_of(rows).len() ==> has_values(
                #[trigger] columns_of(rows)[c],
                rows.len(),
            ),
        columns_of(rows).len() == 14,
        columns_of(rows)[0] matches ColumnView::Texts { name, values } && name == "id"@ && values[i]
            == rows[i].id,
        columns_of(rows)[1] matches ColumnView::Texts { name, values } && name == "text"@
            && values[i] == rows[i].text,
        columns_of(rows)[3] matches ColumnView::Texts { name, values } && name == "source_type"@
            && values[i] == rows[i].source_type,
        columns_of(rows)[4] matches ColumnView::Texts { name, values } && name == "source_id"@
            && values[i] == rows[i].source_id,
        columns_of(rows)[5] matches ColumnView::Texts { name, values } && name == "title"@
            && values[i] == rows[i].title,
        columns_of(rows)[6] matches ColumnView::Texts { name, values } && name == "heading_path"@
            && values[i] == rows[i].heading_path,
        columns_of(rows)[7] matches ColumnView::Texts { name, values } && name == "rel_path"@
            && values[i] == rows[i].rel_path,
        columns_of(rows)[8] matches ColumnView::Texts { name, values } && name == "note_type"@
            && values[i] == rows[i].note_type,
        columns_of(rows)[9] matches ColumnView::Texts { name, values } && name == "captured"@
            && values[i] == rows[i].captured,
        columns_of(rows)[10] matches ColumnView::Lists { name, values } && name == "tags"@
            && values[i] == rows[i].tags,
        columns_of(rows)[11] matches ColumnView::Lists { name, values } && name == "entities"@
            && values[i] == rows[i].entities,
        columns_of(rows)[12] matches ColumnView::Texts { name, values } && name == "content_hash"@
            && values[i] == rows[i].content_hash,
        columns_of(rows)[13] matches ColumnView::Numbers { name, values } && name == "chunk_ix"@
            && values[i] == rows[i].chunk_ix,
{
}

/// What an SQL reader reads of a list of literals: their values, up to the bracket that
/// closes it.
pub open spec fn read_list(s: Seq<char>) -> Option<Seq<Seq<char>>>
    decreases s.len(),
{
    if s.len() == 0 || s[0] != '\'' {
        None
    } else {
        match read_literal(s.skip(1)) {
            Some((value, rest)) if rest.len() < s.len() => if rest == ")"@ {
                Some(seq![value])
            } else if rest.len() > 2 && rest[0] == ',' && rest[1] == ' ' {
                match read_list(rest.skip(2)) {
                    Some(more) => Some(seq![value] + more),
                    None => None,
                }
            } else {
                None
            },
            _ => None,
        }
    }
}

/// A predicate names exactly the sources it is for: read as SQL, its list is the ids that
/// it was made of, all of them and in order, whatever they hold.
pub proof fn a_list_of_sources_reads_back(values: Seq<Seq<char>>)
    requires
        values.len() > 0,
    ensures
        read_list(joined(quoted_all(values), ", "@) + ")"@) == Some(values),
        sources_predicate(values) == "source_id IN ("@ + (joined(quoted_all(values), ", "@) + ")"@),
    decreases values.len(),
{
    let list = quoted_all(values);
    let v = values[0];
    let s = joined(list, ", "@) + ")"@;
    reveal_strlit(")");
    reveal_strlit(", ");
    let q = quoted_sql(v);
    assert(list[0] == q);
    if values.len() == 1 {
        assert(joined(list, ", "@) == q);
        a_quoted_value_reads_back(v, ")"@);
        assert(values =~= seq![v]);
    } else {
        let rest = values.skip(1);
        let more = joined(quoted_all(rest), ", "@) + ")"@;
        a_list_of_sources_reads_back(rest);
        assert(list =~= seq![q] + quoted_all(rest));
        joined_front(q, quoted_all(rest), ", "@);
        let tail = ", "@ + more;
        assert(s =~= q + tail);
        a_quoted_value_reads_back(v, tail);
        assert(tail.skip(2) =~= more);
        assert(tail[0] == ',' && tail[1] == ' ');
        assert(tail.len() != ")"@.len()) by {
            assert(more.len() > 0);
        }
        assert(values =~= seq![v] + rest);
    }
    assert(sources_predicate(values) =~= "source_id IN ("@ + s);
}

proof fn a_wrong_length_is_found(lengths: Seq<usize>, i: int)
    requires
        0 <= i,
    ensures
        wrong_length_at(lengths, i) is None <==> forall|j: int|
            i <= j < lengths.len() ==> (#[trigger] lengths[j]) == 384,
        wrong_length_at(lengths, i) matches Some(k) ==> i <= k < lengths.len() && lengths[k] != 384
            && forall|j: int| i <= j < k ==> (#[trigger] lengths[j]) == 384,
    decreases lengths.len() - i,
{
    if i < lengths.len() && lengths[i] == 384 {
        a_wrong_length_is_found(lengths, i + 1);
    }
}

/// Vectors pass exactly where every one of them has the length that the table was made
/// with, and the first that has not is the one that is named.
pub proof fn every_vector_is_checked(lengths: Seq<usize>)
    ensures
        wrong_length_at(lengths, 0) is None <==> forall|j: int|
            0 <= j < lengths.len() ==> (#[trigger] lengths[j]) == 384,
        wrong_length_at(lengths, 0) matches Some(k) ==> 0 <= k < lengths.len() && lengths[k] != 384
            && forall|j: int| 0 <= j < k ==> (#[trigger] lengths[j]) == 384,
{
    a_wrong_length_is_found(lengths, 0);
}

/// A report names exactly the indexes that were built, and says of the vector index
/// whether it was or how far the table is from it.
pub proof fn a_report_names_what_was_built(fts: bool, bitmap: bool, labels: bool, rows: nat)
    ensures
        index_lines(fts, bitmap, labels, rows).len() == 1 + (if fts {
            1nat
        } else {
            0
        }) + (if bitmap {
            1nat
        } else {
            0
        }) + (if labels {
            1nat
        } else {
            0
        }),
        fts ==> index_lines(fts, bitmap, labels, rows).contains("fts(text)"@),
        bitmap ==> index_lines(fts, bitmap, labels, rows).contains("bitmap(source_type)"@),
        labels ==> index_lines(fts, bitmap, labels, rows).contains("labellist(entities)"@),
        index_lines(fts, bitmap, labels, rows).last() == if rows >= 25_000 {
            "ivf_pq(vector) @ "@ + decimal(rows) + " rows"@
        } else {
            "vector: flat scan ("@ + decimal(rows) + " rows < "@ + decimal(25_000) + " threshold)"@
        },
{
    let all = index_lines(fts, bitmap, labels, rows);
    let n = all.len();
    if fts {
        assert(all[0] == "fts(text)"@);
    }
    if bitmap {
        assert(all[if fts {
            1
        } else {
            0
        }] == "bitmap(source_type)"@);
    }
    if labels {
        assert(all[n - 2] == "labellist(entities)"@);
    }
}

/// Every manifest entry is in every column of its table, at its place and under its name.
pub proof fn every_entry_is_in_every_column(entries: Seq<ManifestView>, i: int)
    requires
        0 <= i < entries.len(),
    ensures
        ({
            let columns = manifest_columns_of(entries);
            &&& columns.len() == 5
            &&& forall|c: int| 0 <= c < 5 ==> has_values(#[trigger] columns[c], entries.len())
            &&& columns[0] matches ColumnView::Texts { name, values } && name == "source_id"@
                && values[i] == entries[i].source_id
            &&& columns[1] matches ColumnView::Texts { name, values } && name == "source_type"@
                && values[i] == entries[i].source_type
            &&& columns[2] matches ColumnView::Texts { name, values } && name == "content_hash"@
                && values[i] == entries[i].content_hash
            &&& columns[3] matches ColumnView::Numbers { name, values } && name == "n_chunks"@
                && values[i] == entries[i].n_chunks
            &&& columns[4] matches ColumnView::Texts { name, values } && name == "indexed_at"@
                && values[i] == entries[i].indexed_at
        }),
{
}

} // verus!
