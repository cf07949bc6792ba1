//! Ingestion.
//!
//! Re-embedding is the expensive step, so files are content-hashed and only changed
//! ones are touched. What is on disk and what the tables hold is handed in; what is to
//! be read, embedded, written and removed comes out.
use vstd::prelude::*;
use vstd::utf8::{decode_utf8, valid_utf8};
use crate::chunk::{
    chunk_views, frontmatter_of, note_chunks, parse_note, ChunkView, FrontmatterView,
    ParsedNote, CHUNKER_VERSION,
};
use crate::config::{Root, RootView};
use crate::hash::{hex, le_bytes, sha256_hex, sha256_of, versioned_hash};
use crate::number::{push_signed, signed_decimal};
use crate::path::{
    below, file_name, file_name_of, inside, join_path, names, split_names, strip_prefix,
};
use crate::store::{
    copy_strings, manifest_views, row_views, ManifestEntry, ManifestView, Row, RowView,
};
use crate::text::{
    chars_of, ends_with, lines, push_str, same, same_str, slices, starts_with,
    string_of, strings,
};

verus! {

/// The hash of a file's content, with the chunker's version.
pub open spec fn content_hash_of(raw: Seq<u8>) -> Seq<char> {
    hex(sha256_of(le_bytes(CHUNKER_VERSION) + raw))
}

/// File content plus the chunker version, so that changing how notes are split
/// invalidates the manifest without anyone having to remember it.
pub fn content_hash(raw: &[u8]) -> (out: String)
    ensures
        out@ == content_hash_of(raw@),
{
    versioned_hash(CHUNKER_VERSION, raw)
}

/// Two contents are hashed from different bytes, and so are one content and itself
/// under two versions of the chunker: only a collision of the digest can hide a
/// change.
pub proof fn only_a_collision_hides_a_change(
    one: u32,
    raw_one: Seq<u8>,
    two: u32,
    raw_two: Seq<u8>,
)
    requires
        one != two || raw_one != raw_two,
    ensures
        le_bytes(one) + raw_one != le_bytes(two) + raw_two,
{
    let a = le_bytes(one) + raw_one;
    let b = le_bytes(two) + raw_two;
    if a == b {
        assert(a.take(4) =~= le_bytes(one));
        assert(b.take(4) =~= le_bytes(two));
        assert(a.skip(4) =~= raw_one);
        assert(b.skip(4) =~= raw_two);
        let l = le_bytes(one);
        let m = le_bytes(two);
        assert(l[0] == m[0] && l[1] == m[1] && l[2] == m[2] && l[3] == m[3]);
        assert(one % 256 == two % 256);
        assert(one / 256 % 256 == two / 256 % 256);
        assert(one / 65536 % 256 == two / 65536 % 256);
        assert(one / 16777216 % 256 == two / 16777216 % 256);
        assert(one == two);
    }
}

/// A markdown file, by its name.
pub open spec fn indexable(path: Seq<char>) -> bool {
    file_name_of(path) matches Some(name) && name.len() > 3 && ".md"@.is_suffix_of(name)
}

/// Whether a path names a markdown file: its extension is `md`.
pub fn is_indexable(path: &str) -> (r: bool)
    ensures
        r == indexable(path@),
{
    match file_name(chars_of(path).as_slice()) {
        Some(name) => name.len() > 3 && ends_with(name.as_slice(), ".md"),
        None => false,
    }
}

/// A name that keeps everything below it out of the index.
pub open spec fn hidden_name(name: Seq<char>) -> bool {
    name == ".obsidian"@ || name == ".git"@ || name == ".trash"@ || name == ".DS_Store"@
}

/// A path with such a name in it.
pub open spec fn excluded(path: Seq<char>) -> bool {
    exists|i: int| 0 <= i < names(path).len() && hidden_name(#[trigger] names(path)[i])
}

fn is_str(s: &[char], literal: &str) -> (r: bool)
    ensures
        r == (s@ == literal@),
{
    same(s, chars_of(literal).as_slice())
}

/// Paths that must never reach the indexer or the watcher.
///
/// `.obsidian` is the important one: the editor rewrites its workspace file on every
/// pane change, so without this the watcher would reindex continuously.
pub fn is_excluded(path: &str) -> (r: bool)
    ensures
        r == excluded(path@),
{
    let chars = chars_of(path);
    let all = split_names(chars.as_slice());
    let mut i: usize = 0;
    while i < all.len()
        invariant
            i <= all@.len(),
            slices(all@) == names(path@),
            forall|j: int| 0 <= j < i ==> !hidden_name(#[trigger] names(path@)[j]),
        decreases all.len() - i,
    {
        let name = all[i];
        proof {
            assert(names(path@)[i as int] == name@);
        }
        if is_str(name, ".obsidian") || is_str(name, ".git") || is_str(name, ".trash") || is_str(
            name,
            ".DS_Store",
        ) {
            return true;
        }
        i += 1;
    }
    proof {
        assert(names(path@).len() == all@.len());
    }
    false
}

/// A path that the indexer and the watcher care about.
pub open spec fn wanted(path: Seq<char>) -> bool {
    indexable(path) && !excluded(path)
}

/// Whether the indexer and the watcher care about a path.
pub fn is_wanted(path: &str) -> (r: bool)
    ensures
        r == wanted(path@),
{
    !is_excluded(path) && is_indexable(path)
}

/// A path as the index knows it: as it is seen from its root where it lies in it as it
/// is written, else as its resolved form is seen, else as it is.
pub open spec fn relative(
    dir: Seq<char>,
    path: Seq<char>,
    resolved: Option<Seq<char>>,
) -> Seq<char> {
    match (inside(dir, path), resolved) {
        (Some(rel), _) => rel,
        (None, Some(actual)) => match inside(dir, actual) {
            Some(rel) => rel,
            None => path,
        },
        (None, None) => path,
    }
}

/// The id of a file below its root. `resolved` is the path with its links resolved,
/// where that can be done: a second chance for a path that is not yet resolved.
pub fn rel_id(dir: &str, path: &str, resolved: Option<&str>) -> (out: String)
    ensures
        out@ == relative(
            dir@,
            path@,
            match resolved {
                Some(actual) => Some(actual@),
                None => None,
            },
        ),
{
    let dir = chars_of(dir);
    let path = chars_of(path);
    if let Some(rel) = strip_prefix(dir.as_slice(), path.as_slice()) {
        return string_of(rel.as_slice());
    }
    if let Some(actual) = resolved {
        if let Some(rel) = strip_prefix(dir.as_slice(), chars_of(actual).as_slice()) {
            return string_of(rel.as_slice());
        }
    }
    string_of(path.as_slice())
}

/// A relative path namespaced by a root's label.
pub open spec fn namespaced(label: Seq<char>, rel: Seq<char>) -> Seq<char> {
    label + seq![':'] + rel
}

/// Namespaces a root-relative path by the root's label.
///
/// Two roots can legitimately contain the same relative path, so the relative path
/// alone cannot be an identity: indexing one root would overwrite the other's chunks.
/// The label prefix is what keeps the chunk id, the source id and the manifest key
/// distinct per root.
pub fn source_id(root: &Root, rel: &str) -> (out: String)
    ensures
        out@ == namespaced(root.label@, rel@),
{
    let mut out = chars_of(root.label.as_str());
    out.push(':');
    push_str(&mut out, rel);
    proof {
        assert(out@ =~= namespaced(root.label@, rel@));
    }
    string_of(out.as_slice())
}

/// Files of two roots never share an id: the id tells the label and the path apart.
pub proof fn two_roots_never_share_an_id(
    label_one: Seq<char>,
    rel_one: Seq<char>,
    label_two: Seq<char>,
    rel_two: Seq<char>,
)
    requires
        !label_one.contains(':'),
        !label_two.contains(':'),
        namespaced(label_one, rel_one) == namespaced(label_two, rel_two),
    ensures
        label_one == label_two,
        rel_one == rel_two,
{
    let a = namespaced(label_one, rel_one);
    let b = namespaced(label_two, rel_two);
    let n = label_one.len() as int;
    let m = label_two.len() as int;
    assert(a[n] == ':');
    assert(b[m] == ':');
    if n < m {
        assert(b[n] == label_two[n]);
        assert(label_two.contains(label_two[n]));
    }
    if m < n {
        assert(a[m] == label_one[m]);
        assert(label_one.contains(label_one[m]));
    }
    assert(a.take(n) =~= label_one);
    assert(b.take(m) =~= label_two);
    assert(a.skip(n + 1) =~= rel_one);
    assert(b.skip(m + 1) =~= rel_two);
}

/// What a chunk's id is hashed from.
pub open spec fn chunk_key(source_id: Seq<char>, ix: int) -> Seq<char> {
    source_id + seq![':'] + signed_decimal(ix)
}

/// The id of a chunk: the first sixteen digits of the hash of its key.
pub open spec fn chunk_id_of(source_id: Seq<char>, ix: int) -> Seq<char> {
    hex(sha256_of(vstd::utf8::encode_utf8(chunk_key(source_id, ix)))).take(16)
}

/// The id of the chunk at a position of a source.
pub fn chunk_id(source_id: &str, chunk_ix: i32) -> (out: String)
    ensures
        out@ == chunk_id_of(source_id@, chunk_ix as int),
        out@.len() == 16,
{
    let mut key = chars_of(source_id);
    key.push(':');
    push_signed(&mut key, chunk_ix);
    proof {
        assert(key@ =~= chunk_key(source_id@, chunk_ix as int));
    }
    let text = string_of(key.as_slice());
    let digits = sha256_hex(text.as_str().as_bytes());
    let head = vstd::slice::slice_subrange(digits.as_slice(), 0, 16);
    proof {
        assert(head@ =~= digits@.take(16));
    }
    string_of(head)
}

/// Two chunks are identified by different keys: only a collision of the digest can
/// give them one id.
pub proof fn two_chunks_never_share_a_key(
    source_one: Seq<char>,
    ix_one: i32,
    source_two: Seq<char>,
    ix_two: i32,
)
    requires
        chunk_key(source_one, ix_one as int) == chunk_key(source_two, ix_two as int),
    ensures
        source_one == source_two,
        ix_one == ix_two,
{
    let a = chunk_key(source_one, ix_one as int);
    let b = chunk_key(source_two, ix_two as int);
    let da = signed_decimal(ix_one as int);
    let db = signed_decimal(ix_two as int);
    signed_holds_no_colon(ix_one as int);
    signed_holds_no_colon(ix_two as int);
    let n = source_one.len() as int;
    let m = source_two.len() as int;
    assert(a[n] == ':');
    assert(b[m] == ':');
    assert(a.len() == n + 1 + da.len());
    assert(b.len() == m + 1 + db.len());
    if n < m {
        assert(a[m] == da[m - n - 1]);
    }
    if m < n {
        assert(b[n] == db[n - m - 1]);
    }
    assert(a.take(n) =~= source_one);
    assert(b.take(m) =~= source_two);
    assert(a.skip(n + 1) =~= da);
    assert(b.skip(m + 1) =~= db);
    signed_is_injective(ix_one as int, ix_two as int);
}

proof fn signed_holds_no_colon(n: int)
    ensures
        signed_decimal(n).len() > 0,
        forall|j: int| 0 <= j < signed_decimal(n).len() ==> #[trigger] signed_decimal(n)[j] != ':',
        (signed_decimal(n)[0] == '-') == (n < 0),
{
    let m = if n < 0 {
        (-n) as nat
    } else {
        n as nat
    };
    crate::number::decimal_digits(m);
    let d = crate::number::decimal(m);
    assert forall|j: int| 0 <= j < signed_decimal(n).len() implies #[trigger] signed_decimal(
        n,
    )[j] != ':' by {
        if n < 0 {
            if j > 0 {
                assert(signed_decimal(n)[j] == d[j - 1]);
            }
        } else {
            assert(signed_decimal(n)[j] == d[j]);
        }
    }
    if n >= 0 {
        assert(signed_decimal(n)[0] == d[0]);
    }
}

proof fn signed_is_injective(a: int, b: int)
    requires
        signed_decimal(a) == signed_decimal(b),
    ensures
        a == b,
{
    signed_holds_no_colon(a);
    signed_holds_no_colon(b);
    let m = if a < 0 {
        -a
    } else {
        a
    };
    let n = if b < 0 {
        -b
    } else {
        b
    };
    crate::number::decimal_reads_back(m as nat);
    crate::number::decimal_reads_back(n as nat);
    if a < 0 {
        assert(signed_decimal(a).skip(1) =~= crate::number::decimal(m as nat));
        assert(signed_decimal(b).skip(1) =~= crate::number::decimal(n as nat));
    }
}

/// What the filesystem says of a path.
#[derive(Debug, Clone)]
pub struct FileProbe {
    pub path: String,
    /// The path with its links resolved, where that can be done.
    pub resolved: Option<String>,
    /// Whether there is a file.
    pub is_file: bool,
}

impl FileProbe {
    /// The path's id below the directory of its root.
    pub open spec fn rel(&self, root: RootView) -> Seq<char> {
        relative(
            root.dir,
            self.path@,
            match self.resolved {
                Some(actual) => Some(actual@),
                None => None,
            },
        )
    }

    /// The id of the source at the path.
    pub open spec fn id(&self, root: RootView) -> Seq<char> {
        namespaced(root.label, self.rel(root))
    }
}

/// A file to look at: where it is, and what it is called.
#[derive(Debug, Clone)]
pub struct Source {
    pub path: String,
    pub rel: String,
    pub id: String,
}

/// The texts of a [`Source`].
#[verifier::ext_equal]
pub struct SourceView {
    pub path: Seq<char>,
    pub rel: Seq<char>,
    pub id: Seq<char>,
}

impl View for Source {
    type V = SourceView;

    open spec fn view(&self) -> SourceView {
        SourceView { path: self.path@, rel: self.rel@, id: self.id@ }
    }
}

/// The texts of a list of sources.
pub open spec fn source_views(sources: Seq<Source>) -> Seq<SourceView> {
    sources.map_values(|s: Source| s@)
}

/// The files among the given paths that are there, in order.
pub open spec fn present_among(root: RootView, probes: Seq<FileProbe>) -> Seq<SourceView>
    decreases probes.len(),
{
    if probes.len() == 0 {
        seq![]
    } else {
        let p = probes.last();
        let before = present_among(root, probes.drop_last());
        if wanted(p.path@) && p.is_file {
            before.push(SourceView { path: p.path@, rel: p.rel(root), id: p.id(root) })
        } else {
            before
        }
    }
}

/// The ids of the files among the given paths that are gone, in order.
pub open spec fn gone_among(root: RootView, probes: Seq<FileProbe>) -> Seq<Seq<char>>
    decreases probes.len(),
{
    if probes.len() == 0 {
        seq![]
    } else {
        let p = probes.last();
        let before = gone_among(root, probes.drop_last());
        if wanted(p.path@) && !p.is_file {
            before.push(p.id(root))
        } else {
            before
        }
    }
}

/// What is to be done about a list of paths: the files to look at, and the ids of
/// those to prune.
#[derive(Debug, Clone)]
pub struct Survey {
    pub present: Vec<Source>,
    pub gone: Vec<String>,
}

/// Sorts paths of one root into files to look at and files to prune. A path that the
/// index does not care about is neither.
pub fn survey(root: &Root, probes: &Vec<FileProbe>) -> (out: Survey)
    ensures
        source_views(out.present@) == present_among(root@, probes@),
        strings(out.gone@) == gone_among(root@, probes@),
{
    let mut present: Vec<Source> = Vec::new();
    let mut gone: Vec<String> = Vec::new();
    let mut i: usize = 0;
    proof {
        assert(probes@.take(0) =~= seq![]);
        assert(source_views(present@) =~= seq![]);
        assert(strings(gone@) =~= seq![]);
    }
    while i < probes.len()
        invariant
            i <= probes@.len(),
            source_views(present@) == present_among(root@, probes@.take(i as int)),
            strings(gone@) == gone_among(root@, probes@.take(i as int)),
        decreases probes.len() - i,
    {
        let probe = &probes[i];
        proof {
            assert(probes@.take(i + 1).drop_last() =~= probes@.take(i as int));
            assert(probes@.take(i + 1).last() == *probe);
        }
        i += 1;
        if !is_wanted(probe.path.as_str()) {
            continue ;
        }
        let resolved: Option<&str> = match &probe.resolved {
            Some(actual) => Some(actual.as_str()),
            None => None,
        };
        let rel = rel_id(root.dir.as_path(), probe.path.as_str(), resolved);
        let id = source_id(root, rel.as_str());
        proof {
            assert(rel@ == probe.rel(root@));
            assert(id@ == probe.id(root@));
        }
        if probe.is_file {
            let source = Source { path: probe.path.clone(), rel, id };
            let ghost before = present@;
            present.push(source);
            proof {
                assert(source_views(present@) =~= source_views(before).push(source@));
            }
        } else {
            let ghost before = gone@;
            gone.push(id);
            proof {
                assert(strings(gone@) =~= strings(before).push(id@));
            }
        }
    }
    proof {
        assert(probes@.take(i as int) =~= probes@);
    }
    Survey { present, gone }
}

/// Nothing that the index does not care about is ever read or pruned, and every id
/// that a survey gives is namespaced by the label of its root.
pub proof fn a_survey_keeps_to_its_root(root: RootView, probes: Seq<FileProbe>)
    ensures
        forall|i: int|
            0 <= i < present_among(root, probes).len() ==> wanted(
                (#[trigger] present_among(root, probes)[i]).path,
            ) && present_among(root, probes)[i].id == namespaced(
                root.label,
                present_among(root, probes)[i].rel,
            ),
        forall|i: int|
            0 <= i < gone_among(root, probes).len() ==> exists|rel: Seq<char>|
                #[trigger] gone_among(root, probes)[i] == #[trigger] namespaced(root.label, rel),
        present_among(root, probes).len() + gone_among(root, probes).len() <= probes.len(),
    decreases probes.len(),
{
    if probes.len() > 0 {
        let rest = probes.drop_last();
        let p = probes.last();
        a_survey_keeps_to_its_root(root, rest);
        let here = present_among(root, probes);
        let gone = gone_among(root, probes);
        assert forall|i: int| 0 <= i < here.len() implies wanted((#[trigger] here[i]).path)
            && here[i].id == namespaced(root.label, here[i].rel) by {
            if i < present_among(root, rest).len() {
                assert(here[i] == present_among(root, rest)[i]);
            }
        }
        assert forall|i: int| 0 <= i < gone.len() implies exists|rel: Seq<char>|
            #[trigger] gone[i] == #[trigger] namespaced(root.label, rel) by {
            if i < gone_among(root, rest).len() {
                assert(gone[i] == gone_among(root, rest)[i]);
                let rel = choose|rel: Seq<char>|
                    gone_among(root, rest)[i] == #[trigger] namespaced(root.label, rel);
                assert(gone[i] == namespaced(root.label, rel));
            } else {
                assert(gone[i] == namespaced(root.label, p.rel(root)));
            }
        }
    }
}

/// The text of bytes that may not all be UTF-8.
pub uninterp spec fn lossy_text(bytes: Seq<u8>) -> Seq<char>;

/// `String::from_utf8_lossy`: the text that the bytes encode, with a replacement
/// character for what is not UTF-8. The contract names the text as a function of the
/// bytes alone, and says what it is where all of them are UTF-8.
#[verifier::external_body]
fn from_utf8_lossy(bytes: &[u8]) -> (out: String)
    ensures
        out@ == lossy_text(bytes@),
        valid_utf8(bytes@) ==> out@ == decode_utf8(bytes@),
{
    String::from_utf8_lossy(bytes).into_owned()
}

/// Where the last dot of a name stands.
pub open spec fn last_dot(name: Seq<char>) -> Option<int>
    decreases name.len(),
{
    if name.len() == 0 {
        None
    } else if name.last() == '.' {
        Some(name.len() - 1)
    } else {
        last_dot(name.drop_last())
    }
}

/// The name of a file without its extension, or nothing where there is no name.
pub open spec fn stem_of(path: Seq<char>) -> Seq<char> {
    match file_name_of(path) {
        Some(name) => match last_dot(name) {
            Some(k) if k > 0 => name.take(k),
            _ => name,
        },
        None => seq![],
    }
}

/// The title of a note: the name of its file without the extension.
pub fn note_title(path: &str) -> (out: String)
    ensures
        out@ == stem_of(path@),
{
    let name = match file_name(chars_of(path).as_slice()) {
        Some(name) => name,
        None => {
            let out = String::new();
            proof {
                assert(out@ =~= stem_of(path@));
            }
            return out;
        },
    };
    let mut n: usize = name.len();
    proof {
        assert(name@.take(n as int) =~= name@);
    }
    while n > 0 && name[n - 1] != '.'
        invariant
            n <= name@.len(),
            last_dot(name@) == last_dot(name@.take(n as int)),
        decreases n,
    {
        n -= 1;
        proof {
            assert(name@.take(n + 1).drop_last() =~= name@.take(n as int));
        }
    }
    if n > 1 {
        let stem = vstd::slice::slice_subrange(name.as_slice(), 0, n - 1);
        proof {
            assert(stem@ =~= name@.take(n - 1));
        }
        string_of(stem)
    } else {
        string_of(name.as_slice())
    }
}

/// A file whose content the index does not hold yet: its hash, and the note it is.
#[derive(Debug)]
pub struct Changed {
    pub hash: String,
    pub note: ParsedNote,
}

/// What a changed file comes to.
pub open spec fn is_note_of(changed: Changed, path: Seq<char>, raw: Seq<u8>, text: Seq<char>) -> bool {
    &&& changed.hash@ == content_hash_of(raw)
    &&& changed.note.title@ == stem_of(path)
    &&& changed.note.frontmatter@ == frontmatter_of(lines(text))
    &&& chunk_views(changed.note.chunks@) == note_chunks(stem_of(path), text)
}

/// Whether the manifest knows this content already.
pub open spec fn is_known(raw: Seq<u8>, known: Option<Seq<char>>, force: bool) -> bool {
    !force && known == Some(content_hash_of(raw))
}

/// What comes of looking at the content of a file: nothing where the manifest knows it
/// already, else the note that it is.
pub open spec fn reads_as(
    out: Option<Changed>,
    path: Seq<char>,
    raw: Seq<u8>,
    known: Option<Seq<char>>,
    force: bool,
) -> bool {
    match out {
        Some(changed) => !is_known(raw, known, force) && is_note_of(
            changed,
            path,
            raw,
            lossy_text(raw),
        ) && (valid_utf8(raw) ==> is_note_of(changed, path, raw, decode_utf8(raw))),
        None => is_known(raw, known, force),
    }
}

/// Looks at the content of a file: nothing where the manifest knows it already, unless
/// `force`; else the note, chunked. Bytes that are not UTF-8 are read as replacement
/// characters.
pub fn read_source(source: &Source, raw: &[u8], known: Option<&str>, force: bool) -> (out: Option<
    Changed,
>)
    ensures
        reads_as(
            out,
            source.path@,
            raw@,
            match known {
                Some(hash) => Some(hash@),
                None => None,
            },
            force,
        ),
{
    let hash = content_hash(raw);
    if !force {
        if let Some(known) = known {
            if same_str(known, hash.as_str()) {
                return None;
            }
        }
    }
    let text = from_utf8_lossy(raw);
    let title = note_title(source.path.as_str());
    let note = parse_note(title.as_str(), text.as_str());
    Some(Changed { hash, note })
}

/// The texts of a note's chunks, in order: what is handed to the embedder.
pub open spec fn chunk_texts(chunks: Seq<ChunkView>) -> Seq<Seq<char>> {
    chunks.map_values(|c: ChunkView| c.text)
}

/// The texts to embed.
pub fn texts_to_embed(note: &ParsedNote) -> (out: Vec<String>)
    ensures
        strings(out@) == chunk_texts(chunk_views(note.chunks@)),
{
    let ghost all = chunk_texts(chunk_views(note.chunks@));
    let mut out: Vec<String> = Vec::new();
    let mut i: usize = 0;
    proof {
        assert(strings(out@) =~= all.take(0));
    }
    while i < note.chunks.len()
        invariant
            i <= note.chunks@.len(),
            all == chunk_texts(chunk_views(note.chunks@)),
            strings(out@) == all.take(i as int),
        decreases note.chunks.len() - i,
    {
        let ghost before = out@;
        out.push(note.chunks[i].text.clone());
        i += 1;
        proof {
            assert(strings(out@) =~= strings(before).push(note.chunks@[i - 1].text@));
            assert(all.take(i as int) =~= all.take(i - 1).push(all[i - 1]));
        }
    }
    proof {
        assert(all.take(i as int) =~= all);
    }
    out
}

/// The row of one chunk.
pub open spec fn row_of(
    label: Seq<char>,
    source: SourceView,
    hash: Seq<char>,
    title: Seq<char>,
    front: FrontmatterView,
    chunk: ChunkView,
) -> RowView {
    RowView {
        id: chunk_id_of(source.id, chunk.ix as int),
        text: chunk.text,
        source_type: label,
        source_id: source.id,
        title,
        heading_path: chunk.heading_path,
        rel_path: source.rel,
        note_type: front.note_type,
        captured: front.captured,
        tags: front.tags,
        entities: chunk.entities,
        content_hash: hash,
        chunk_ix: chunk.ix,
    }
}

/// The rows of a note: one for each chunk that has a vector.
pub open spec fn rows_of(
    label: Seq<char>,
    source: SourceView,
    changed: Changed,
    vectors: nat,
) -> Seq<RowView> {
    let chunks = chunk_views(changed.note.chunks@);
    Seq::new(
        if vectors < chunks.len() {
            vectors
        } else {
            chunks.len()
        },
        |k: int|
            row_of(
                label,
                source,
                changed.hash@,
                changed.note.title@,
                changed.note.frontmatter@,
                chunks[k],
            ),
    )
}

/// What the manifest is told of a note.
pub open spec fn manifest_of(
    label: Seq<char>,
    source: SourceView,
    changed: Changed,
    now: Seq<char>,
) -> ManifestView {
    ManifestView {
        source_id: source.id,
        source_type: label,
        content_hash: changed.hash@,
        n_chunks: changed.note.chunks@.len() as i32,
        indexed_at: now,
    }
}

/// What an indexing run came to.
#[derive(Debug, Clone, PartialEq, Eq)]
pub struct IndexStats {
    pub scanned: usize,
    pub changed: usize,
    pub removed: usize,
    pub chunks_written: usize,
    pub indexes: Vec<String>,
    /// Where the wall clock actually went. Reported rather than guessed at: the split
    /// between embedding and writing is not what you would assume from the code.
    pub embed_ms: u64,
    pub write_ms: u64,
    pub post_index_ms: u64,
}

/// The numbers and lines of an [`IndexStats`].
#[verifier::ext_equal]
pub struct StatsView {
    pub scanned: nat,
    pub changed: nat,
    pub removed: nat,
    pub chunks_written: nat,
    pub indexes: Seq<Seq<char>>,
    pub embed_ms: nat,
    pub write_ms: nat,
    pub post_index_ms: nat,
}

impl View for IndexStats {
    type V = StatsView;

    open spec fn view(&self) -> StatsView {
        StatsView {
            scanned: self.scanned as nat,
            changed: self.changed as nat,
            removed: self.removed as nat,
            chunks_written: self.chunks_written as nat,
            indexes: strings(self.indexes@),
            embed_ms: self.embed_ms as nat,
            write_ms: self.write_ms as nat,
            post_index_ms: self.post_index_ms as nat,
        }
    }
}

/// Nothing was done.
pub open spec fn no_stats() -> StatsView {
    StatsView {
        scanned: 0,
        changed: 0,
        removed: 0,
        chunks_written: 0,
        indexes: seq![],
        embed_ms: 0,
        write_ms: 0,
        post_index_ms: 0,
    }
}

impl Default for IndexStats {
    /// Nothing was done.
    fn default() -> (out: Self)
        ensures
            out@ == no_stats(),
    {
        let out = IndexStats {
            scanned: 0,
            changed: 0,
            removed: 0,
            chunks_written: 0,
            indexes: Vec::new(),
            embed_ms: 0,
            write_ms: 0,
            post_index_ms: 0,
        };
        proof {
            assert(out@ =~= no_stats());
        }
        out
    }
}

/// An indexing run while it goes on: what it has done, and what it will write.
#[derive(Debug)]
pub struct IndexRun {
    stats: IndexStats,
    rows: Vec<Row>,
    entries: Vec<ManifestEntry>,
    changed_ids: Vec<String>,
}

/// What an [`IndexRun`] has gathered.
#[verifier::ext_equal]
pub struct RunView {
    pub stats: StatsView,
    pub rows: Seq<RowView>,
    pub entries: Seq<ManifestView>,
    pub changed_ids: Seq<Seq<char>>,
}

impl View for IndexRun {
    type V = RunView;

    closed spec fn view(&self) -> RunView {
        RunView {
            stats: self.stats@,
            rows: row_views(self.rows@),
            entries: manifest_views(self.entries@),
            changed_ids: strings(self.changed_ids@),
        }
    }
}

/// A run that has found files to look at and files to prune, and nothing changed yet.
pub open spec fn started(present: nat, gone: nat) -> RunView {
    RunView {
        stats: StatsView { scanned: present, removed: gone, ..no_stats() },
        rows: seq![],
        entries: seq![],
        changed_ids: seq![],
    }
}

/// A run with one more changed file.
pub open spec fn with_changed(
    run: RunView,
    label: Seq<char>,
    source: SourceView,
    changed: Changed,
    vectors: nat,
    embed_ms: nat,
    now: Seq<char>,
) -> RunView {
    RunView {
        stats: StatsView {
            changed: run.stats.changed + 1,
            embed_ms: run.stats.embed_ms + embed_ms,
            ..run.stats
        },
        rows: run.rows + rows_of(label, source, changed, vectors),
        entries: run.entries.push(manifest_of(label, source, changed, now)),
        changed_ids: run.changed_ids.push(source.id),
    }
}

impl IndexRun {
    /// What every run keeps: one manifest entry and one id for each changed file, and
    /// the entry is that of the id.
    pub open spec fn wf(&self) -> bool {
        let run = self@;
        &&& run.entries.len() == run.changed_ids.len()
        &&& run.stats.changed == run.changed_ids.len()
        &&& forall|i: int|
            0 <= i < run.entries.len() ==> (#[trigger] run.entries[i]).source_id
                == run.changed_ids[i]
    }

    /// Starts a run on what a survey found.
    pub fn start(survey: &Survey) -> (out: Self)
        ensures
            out.wf(),
            out@ == started(survey.present@.len(), survey.gone@.len()),
    {
        let mut stats = IndexStats::default();
        stats.scanned = survey.present.len();
        stats.removed = survey.gone.len();
        let out = IndexRun {
            stats,
            rows: Vec::new(),
            entries: Vec::new(),
            changed_ids: Vec::new(),
        };
        proof {
            assert(out@ =~= (RunView {
                stats: StatsView {
                    scanned: survey.present@.len(),
                    removed: survey.gone@.len(),
                    ..no_stats()
                },
                rows: seq![],
                entries: seq![],
                changed_ids: seq![],
            }));
        }
        out
    }

    /// Adds a changed file, of whose chunks `vectors` were embedded, in order.
    pub fn add(
        &mut self,
        root: &Root,
        source: &Source,
        changed: &Changed,
        vectors: usize,
        embed_ms: u64,
        now: &str,
    )
        requires
            old(self).wf(),
            old(self)@.stats.embed_ms + embed_ms <= u64::MAX,
        ensures
            final(self).wf(),
            final(self)@ == with_changed(
                old(self)@,
                root.label@,
                source@,
                *changed,
                vectors as nat,
                embed_ms as nat,
                now@,
            ),
    {
        let ghost before = self@;
        let note = &changed.note;
        let n: usize = note.chunks.len();
        let limit: usize = if vectors < n {
            vectors
        } else {
            n
        };
        let ghost added = rows_of(root.label@, source@, *changed, vectors as nat);
        let label = string_of(chars_of(root.label.as_str()).as_slice());
        let mut k: usize = 0;
        proof {
            assert(chunk_views(note.chunks@).len() == n);
            assert(before.rows + added.take(0) =~= before.rows);
        }
        while k < limit
            invariant
                k <= limit <= note.chunks@.len(),
                *note == changed.note,
                label@ == root.label@,
                added == rows_of(root.label@, source@, *changed, vectors as nat),
                added.len() == limit,
                row_views(self.rows@) == before.rows + added.take(k as int),
                self.stats == old(self).stats,
                self.entries == old(self).entries,
                self.changed_ids == old(self).changed_ids,
                before == old(self)@,
            decreases limit - k,
        {
            let chunk = &note.chunks[k];
            proof {
                assert(chunk_views(note.chunks@)[k as int] == chunk@);
            }
            let row = Row {
                id: chunk_id(source.id.as_str(), chunk.ix),
                text: chunk.text.clone(),
                source_type: label.clone(),
                source_id: source.id.clone(),
                title: note.title.clone(),
                heading_path: chunk.heading_path.clone(),
                rel_path: source.rel.clone(),
                note_type: note.frontmatter.note_type.clone(),
                captured: note.frontmatter.captured.clone(),
                tags: copy_strings(&note.frontmatter.tags),
                entities: copy_strings(&chunk.entities),
                content_hash: changed.hash.clone(),
                chunk_ix: chunk.ix,
            };
            let ghost rows = self.rows@;
            self.rows.push(row);
            proof {
                assert(row@ =~= added[k as int]);
                assert(row_views(self.rows@) =~= row_views(rows).push(row@));
                assert(added.take(k + 1) =~= added.take(k as int).push(added[k as int]));
                assert(before.rows + added.take(k + 1) =~= (before.rows + added.take(
                    k as int,
                )).push(row@));
            }
            k += 1;
        }
        proof {
            assert(added.take(k as int) =~= added);
        }
        let entry = ManifestEntry {
            source_id: source.id.clone(),
            source_type: label,
            content_hash: changed.hash.clone(),
            n_chunks: #[verifier::truncate] (n as i32),
            indexed_at: string_of(chars_of(now).as_slice()),
        };
        let ghost entries = self.entries@;
        let ghost ids = self.changed_ids@;
        let ghost made = entry@;
        self.entries.push(entry);
        self.changed_ids.push(source.id.clone());
        proof {
            assert(made =~= manifest_of(root.label@, source@, *changed, now@));
            assert(manifest_views(self.entries@) =~= manifest_views(entries).push(made));
            assert(strings(self.changed_ids@) =~= strings(ids).push(source.id@));
        }
        proof {
            // A file of which nothing was counted yet: the count is that of the ids.
            assert(self.stats.changed == ids.len()) by {
                assert(before.changed_ids.len() == ids.len());
            }
            assert(self.changed_ids@.len() == ids.len() + 1);
        }
        let counted: usize = self.changed_ids.len();
        self.stats.changed = counted;
        self.stats.embed_ms = self.stats.embed_ms + embed_ms;
        proof {
            let after = with_changed(
                before,
                root.label@,
                source@,
                *changed,
                vectors as nat,
                embed_ms as nat,
                now@,
            );
            assert(self@ =~= after);
            assert forall|i: int| 0 <= i < after.entries.len() implies (
            #[trigger] after.entries[i]).source_id == after.changed_ids[i] by {
                if i < before.entries.len() {
                    assert(after.entries[i] == before.entries[i]);
                }
            }
        }
    }

    /// Whether there is anything to write.
    pub fn has_changes(&self) -> (out: bool)
        ensures
            out == (self@.changed_ids.len() > 0),
    {
        self.changed_ids.len() > 0
    }

    /// The rows to write.
    pub fn rows(&self) -> (out: &Vec<Row>)
        ensures
            row_views(out@) == self@.rows,
    {
        &self.rows
    }

    /// The manifest entries to write.
    pub fn entries(&self) -> (out: &Vec<ManifestEntry>)
        ensures
            manifest_views(out@) == self@.entries,
    {
        &self.entries
    }

    /// The sources whose chunks the rows replace.
    pub fn changed_ids(&self) -> (out: &Vec<String>)
        ensures
            strings(out@) == self@.changed_ids,
    {
        &self.changed_ids
    }

    /// Notes that the changes, if any, were written.
    pub fn written(&mut self, write_ms: u64)
        requires
            old(self).wf(),
        ensures
            final(self).wf(),
            final(self)@ == (RunView {
                stats: StatsView {
                    chunks_written: if old(self)@.changed_ids.len() > 0 {
                        old(self)@.rows.len()
                    } else {
                        old(self)@.stats.chunks_written
                    },
                    write_ms: write_ms as nat,
                    ..old(self)@.stats
                },
                ..old(self)@
            }),
    {
        if self.changed_ids.len() > 0 {
            self.stats.chunks_written = self.rows.len();
        }
        self.stats.write_ms = write_ms;
    }

    /// Whether the table's indexes have to be brought up to date.
    pub fn needs_indexes(&self) -> (out: bool)
        ensures
            out == (self@.stats.changed > 0 || self@.stats.removed > 0),
    {
        self.stats.changed > 0 || self.stats.removed > 0
    }

    /// Notes what became of the indexes.
    pub fn indexed(&mut self, lines: Vec<String>, post_index_ms: u64)
        requires
            old(self).wf(),
        ensures
            final(self).wf(),
            final(self)@ == (RunView {
                stats: StatsView {
                    indexes: strings(lines@),
                    post_index_ms: post_index_ms as nat,
                    ..old(self)@.stats
                },
                ..old(self)@
            }),
    {
        self.stats.indexes = lines;
        self.stats.post_index_ms = post_index_ms;
    }

    /// What the run came to.
    pub fn finish(self) -> (out: IndexStats)
        ensures
            out@ == self@.stats,
    {
        self.stats
    }
}

/// The paths of a root's files that the manifest lists and the disk does not hold, in
/// the order of the manifest.
pub open spec fn orphans_among(
    root: RootView,
    on_disk: Seq<Seq<char>>,
    listed: Seq<Seq<char>>,
) -> Seq<Seq<char>>
    decreases listed.len(),
{
    if listed.len() == 0 {
        seq![]
    } else {
        let id = listed.last();
        let prefix = root.label + seq![':'];
        let before = orphans_among(root, on_disk, listed.drop_last());
        if prefix.is_prefix_of(id) && !on_disk.contains(id) {
            before.push(below(root.dir, id.skip(prefix.len() as int)))
        } else {
            before
        }
    }
}

fn holds_string(list: &Vec<String>, s: &str) -> (r: bool)
    ensures
        r == strings(list@).contains(s@),
{
    let mut i: usize = 0;
    while i < list.len()
        invariant
            i <= list@.len(),
            forall|j: int| 0 <= j < i ==> (#[trigger] list@[j])@ != s@,
        decreases list.len() - i,
    {
        if same_str(list[i].as_str(), s) {
            proof {
                assert(strings(list@)[i as int] == s@);
            }
            return true;
        }
        i += 1;
    }
    proof {
        if strings(list@).contains(s@) {
            let j = choose|j: int| 0 <= j < strings(list@).len() && strings(list@)[j] == s@;
            assert(list@[j]@ == s@);
        }
    }
    false
}

/// Finds what the manifest still lists for a root and the disk no longer holds.
///
/// The manifest is shared across every root, so only this root's own entries are
/// considered: otherwise another root's id would be misread as a stale path under this
/// one and queued for deletion.
pub fn orphans(root: &Root, on_disk: &Vec<String>, listed: &Vec<String>) -> (out: Vec<String>)
    ensures
        strings(out@) == orphans_among(root@, strings(on_disk@), strings(listed@)),
{
    let ghost all = strings(listed@);
    let mut prefix = chars_of(root.label.as_str());
    prefix.push(':');
    let n: usize = prefix.len();
    let mark = string_of(prefix.as_slice());
    let mut out: Vec<String> = Vec::new();
    let mut i: usize = 0;
    proof {
        assert(prefix@ =~= root.label@ + seq![':']);
        assert(all.take(0) =~= seq![]);
        assert(strings(out@) =~= seq![]);
    }
    while i < listed.len()
        invariant
            i <= listed@.len(),
            all == strings(listed@),
            mark@ == root.label@ + seq![':'],
            n == mark@.len(),
            strings(out@) == orphans_among(root@, strings(on_disk@), all.take(i as int)),
        decreases listed.len() - i,
    {
        let id = chars_of(listed[i].as_str());
        proof {
            assert(all[i as int] == id@);
            assert(all.take(i + 1).drop_last() =~= all.take(i as int));
        }
        if starts_with(id.as_slice(), mark.as_str()) && !holds_string(on_disk, listed[i].as_str()) {
            let rest = vstd::slice::slice_subrange(id.as_slice(), n, id.len());
            proof {
                assert(rest@ =~= id@.skip(n as int));
            }
            let path = join_path(root.dir.as_path(), string_of(rest).as_str());
            let ghost before = out@;
            out.push(string_of(path.as_slice()));
            proof {
                assert(strings(out@) =~= strings(before).push(path@));
            }
        }
        i += 1;
    }
    proof {
        assert(all.take(i as int) =~= all);
    }
    out
}

/// An orphan is pruned under the id that the manifest lists: the path it is looked up
/// at leads back to that id.
pub proof fn an_orphan_is_pruned_under_its_own_id(root: RootView, rel: Seq<char>, probe: FileProbe)
    requires
        crate::path::from_first_name(rel) == rel,
        crate::path::to_last_name(rel) == rel,
        probe.path@ == below(root.dir, rel),
    ensures
        probe.id(root) == namespaced(root.label, rel),
{
    crate::path::below_is_inside(root.dir, rel);
}

/// A path below a root's directory whose id the manifest lists, under the root's own
/// label, and the disk does not hold.
pub open spec fn is_orphan(
    root: RootView,
    on_disk: Seq<Seq<char>>,
    listed: Seq<Seq<char>>,
    path: Seq<char>,
) -> bool {
    exists|rel: Seq<char>|
        path == below(root.dir, rel) && listed.contains(#[trigger] namespaced(root.label, rel))
            && !on_disk.contains(namespaced(root.label, rel))
}

/// A root's sweep never reaches another root's files: what it finds missing bears its
/// own label, and is not on disk.
pub proof fn orphans_keep_to_their_root(
    root: RootView,
    on_disk: Seq<Seq<char>>,
    listed: Seq<Seq<char>>,
)
    ensures
        forall|i: int|
            0 <= i < orphans_among(root, on_disk, listed).len() ==> is_orphan(
                root,
                on_disk,
                listed,
                #[trigger] orphans_among(root, on_disk, listed)[i],
            ),
    decreases listed.len(),
{
    if listed.len() > 0 {
        let rest = listed.drop_last();
        let id = listed.last();
        let prefix = root.label + seq![':'];
        orphans_keep_to_their_root(root, on_disk, rest);
        let all = orphans_among(root, on_disk, listed);
        let before = orphans_among(root, on_disk, rest);
        assert forall|i: int| 0 <= i < all.len() implies is_orphan(
            root,
            on_disk,
            listed,
            #[trigger] all[i],
        ) by {
            if i < before.len() {
                assert(all[i] == before[i]);
                let rel = choose|rel: Seq<char>|
                    before[i] == below(root.dir, rel) && rest.contains(
                        #[trigger] namespaced(root.label, rel),
                    ) && !on_disk.contains(namespaced(root.label, rel));
                let k = choose|k: int|
                    0 <= k < rest.len() && rest[k] == namespaced(root.label, rel);
                assert(listed[k] == namespaced(root.label, rel));
            } else {
                let rel = id.skip(prefix.len() as int);
                assert(id =~= namespaced(root.label, rel)) by {
                    assert(id.subrange(0, prefix.len() as int) =~= prefix);
                    assert(id =~= prefix + rel);
                }
                assert(listed[listed.len() - 1] == id);
                assert(listed.contains(namespaced(root.label, rel)));
            }
        }
    }
}

/// The lines of a root, each behind its label.
pub open spec fn labeled_lines(label: Seq<char>, list: Seq<Seq<char>>) -> Seq<Seq<char>> {
    list.map_values(|line: Seq<char>| label + ": "@ + line)
}

/// Statistics summed with those of one more root.
pub open spec fn summed(total: StatsView, label: Seq<char>, stats: StatsView) -> StatsView {
    StatsView {
        scanned: total.scanned + stats.scanned,
        changed: total.changed + stats.changed,
        removed: total.removed + stats.removed,
        chunks_written: total.chunks_written + stats.chunks_written,
        indexes: total.indexes + labeled_lines(label, stats.indexes),
        embed_ms: total.embed_ms + stats.embed_ms,
        write_ms: total.write_ms + stats.write_ms,
        post_index_ms: total.post_index_ms + stats.post_index_ms,
    }
}

/// The sums of two statistics can be held.
pub open spec fn can_sum(total: StatsView, stats: StatsView) -> bool {
    &&& total.scanned + stats.scanned <= usize::MAX
    &&& total.changed + stats.changed <= usize::MAX
    &&& total.removed + stats.removed <= usize::MAX
    &&& total.chunks_written + stats.chunks_written <= usize::MAX
    &&& total.embed_ms + stats.embed_ms <= u64::MAX
    &&& total.write_ms + stats.write_ms <= u64::MAX
    &&& total.post_index_ms + stats.post_index_ms <= u64::MAX
}

impl IndexStats {
    /// Adds the statistics of one more root: numbers are summed, and every line says
    /// which root it is about.
    pub fn absorb(&mut self, label: &str, stats: &IndexStats)
        requires
            can_sum(old(self)@, stats@),
        ensures
            final(self)@ == summed(old(self)@, label@, stats@),
    {
        let ghost before = self@;
        self.scanned = self.scanned + stats.scanned;
        self.changed = self.changed + stats.changed;
        self.removed = self.removed + stats.removed;
        self.chunks_written = self.chunks_written + stats.chunks_written;
        self.embed_ms = self.embed_ms + stats.embed_ms;
        self.write_ms = self.write_ms + stats.write_ms;
        self.post_index_ms = self.post_index_ms + stats.post_index_ms;
        let ghost all = labeled_lines(label@, strings(stats.indexes@));
        let mut i: usize = 0;
        proof {
            assert(strings(self.indexes@) =~= before.indexes + all.take(0));
        }
        while i < stats.indexes.len()
            invariant
                i <= stats.indexes@.len(),
                all == labeled_lines(label@, strings(stats.indexes@)),
                strings(self.indexes@) == before.indexes + all.take(i as int),
                self.scanned == before.scanned + stats.scanned,
                self.changed == before.changed + stats.changed,
                self.removed == before.removed + stats.removed,
                self.chunks_written == before.chunks_written + stats.chunks_written,
                self.embed_ms == before.embed_ms + stats.embed_ms,
                self.write_ms == before.write_ms + stats.write_ms,
                self.post_index_ms == before.post_index_ms + stats.post_index_ms,
                before == old(self)@,
            decreases stats.indexes.len() - i,
        {
            let mut line = chars_of(label);
            push_str(&mut line, ": ");
            push_str(&mut line, stats.indexes[i].as_str());
            let ghost so_far = self.indexes@;
            self.indexes.push(string_of(line.as_slice()));
            i += 1;
            proof {
                assert(line@ == all[i - 1]);
                assert(strings(self.indexes@) =~= strings(so_far).push(line@));
                assert(all.take(i as int) =~= all.take(i - 1).push(all[i - 1]));
                assert(before.indexes + all.take(i as int) =~= (before.indexes + all.take(
                    i - 1,
                )).push(line@));
            }
        }
        proof {
            assert(all.take(i as int) =~= all);
            assert(self@ =~= summed(before, label@, stats@));
        }
    }
}

} // verus!
