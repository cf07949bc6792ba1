//! Runtime configuration. Every path can be set from the environment, so the daemon,
//! the CLI and the hook can all be pointed at a scratch copy during testing.
use vstd::prelude::*;
use vstd::slice::slice_subrange;
use crate::path::{below, inside, join_path, strip_prefix};
use crate::text::{
    chars_of, first, first_bounds, first_of, pieces, push_str, same_str,
    slices, split_at, string_of,
};

verus! {

/// How many numbers an embedding has.
pub const EMBED_DIM: i32 = 384;

/// How many tokens the model reads of one text.
pub const MAX_SEQ_LEN: usize = 512;

/// The model is trained asymmetrically: the prefix goes on queries only. Putting it
/// on documents too measurably hurts retrieval.
pub const QUERY_PREFIX: &'static str = "Represent this sentence for searching relevant passages: ";

/// The only chunk table. This indexes markdown that lives on this machine, in one or
/// more labeled roots, distinguished from each other by `source_type`/`source_id`
/// rather than by separate tables.
pub const TABLE_CHUNKS: &'static str = "chunks";

/// Below this, the store brute-forces faster than a vector index can be trained, and
/// with too few rows training fails outright.
pub const VECTOR_INDEX_MIN_ROWS: usize = 25_000;

/// File events are legitimately coalesced and dropped across sleep and volume
/// remounts, so the watcher alone will drift eventually. A slow full sweep is the
/// backstop, and it is cheap because unchanged files are skipped on a hash.
pub const SWEEP_INTERVAL_SECS: u64 = 3600;

/// Editors autosave every few seconds while typing, and any bulk import writes many
/// files at once. Both want coalescing.
pub const WATCH_DEBOUNCE_SECS: u64 = 4;

/// The hook sits in front of the user's turn, so this is a ceiling, not a target.
pub const HOOK_MAX_HITS: usize = 3;

/// The bits of three quarters, as a single-precision number.
///
/// Decide on cosine, not on the fused score. Measured over technical markdown notes,
/// this is where "the note is actually about this" starts; unrelated prose sits near
/// three tenths.
pub const HOOK_MIN_COSINE: u32 = 0x3f40_0000;

/// How many units a long query searches before the middle of it is dropped.
///
/// A unit advances `TARGET_CHARS` less `OVERLAP_CHARS` of new text, since each split
/// carries its predecessor's tail forward, so eight is roughly 8,000 characters of
/// distinct query. Past that a paste carries less intent than the searches cost.
pub const MAX_QUERY_UNITS: usize = 8;

/// How many units the hook searches. Fewer than a deliberate search, because the
/// hook sits in front of the user's turn.
pub const HOOK_MAX_QUERY_UNITS: usize = 4;

/// What is wrong with the configuration.
#[derive(Debug, Clone, PartialEq, Eq)]
pub enum ConfigError {
    ModelUnset,
    RootsUnset,
    NoEntries,
    EmptyEntry { spec: String },
    NotAPair { entry: String },
    EmptyLabel,
    ColonInLabel { label: String },
    EqualsInLabel { label: String },
    MissingPath { path: String },
    NotADirectory { path: String },
    Unresolved { path: String },
    DuplicateLabel { label: String },
}

/// The texts of a [`ConfigError`].
pub enum Problem {
    ModelUnset,
    RootsUnset,
    NoEntries,
    EmptyEntry { spec: Seq<char> },
    NotAPair { entry: Seq<char> },
    EmptyLabel,
    ColonInLabel { label: Seq<char> },
    EqualsInLabel { label: Seq<char> },
    MissingPath { path: Seq<char> },
    NotADirectory { path: Seq<char> },
    Unresolved { path: Seq<char> },
    DuplicateLabel { label: Seq<char> },
}

impl View for ConfigError {
    type V = Problem;

    open spec fn view(&self) -> Problem {
        match *self {
            ConfigError::ModelUnset => Problem::ModelUnset,
            ConfigError::RootsUnset => Problem::RootsUnset,
            ConfigError::NoEntries => Problem::NoEntries,
            ConfigError::EmptyEntry { spec } => Problem::EmptyEntry { spec: spec@ },
            ConfigError::NotAPair { entry } => Problem::NotAPair { entry: entry@ },
            ConfigError::EmptyLabel => Problem::EmptyLabel,
            ConfigError::ColonInLabel { label } => Problem::ColonInLabel { label: label@ },
            ConfigError::EqualsInLabel { label } => Problem::EqualsInLabel { label: label@ },
            ConfigError::MissingPath { path } => Problem::MissingPath { path: path@ },
            ConfigError::NotADirectory { path } => Problem::NotADirectory { path: path@ },
            ConfigError::Unresolved { path } => Problem::Unresolved { path: path@ },
            ConfigError::DuplicateLabel { label } => Problem::DuplicateLabel { label: label@ },
        }
    }
}

/// A text as `std` prints it for a programmer: in double quotes, with what cannot be
/// printed escaped.
pub uninterp spec fn debug_text(s: Seq<char>) -> Seq<char>;

/// The `Debug` form of a string, as `format!` writes it with `{:?}`. The contract
/// names it, and claims no more than that it depends on the string alone.
#[verifier::external_body]
fn debug_string(s: &str) -> (out: String)
    ensures
        out@ == debug_text(s@),
{
    format!("{:?}", s)
}

impl Problem {
    /// What is wrong, in words.
    pub open spec fn words(self) -> Seq<char> {
        match self {
            Problem::ModelUnset => "SLOOP_MEMORY_MODEL is unset -- run the nix-wrapped binary, not the raw cargo one"@,
            Problem::RootsUnset => "SLOOP_MEMORY_ROOTS is not set. Expected colon-separated label=path pairs, e.g. \"notes=/path/to/notes:memory=/path/to/memory\"."@,
            Problem::NoEntries => "SLOOP_MEMORY_ROOTS is empty -- provide at least one `label=path` entry"@,
            Problem::EmptyEntry { spec } => "SLOOP_MEMORY_ROOTS has an empty entry in "@
                + debug_text(spec)
                + " -- entries are colon-separated `label=path` pairs, so a leading, trailing or doubled ':' is a typo, not an empty root"@,
            Problem::NotAPair { entry } => "SLOOP_MEMORY_ROOTS entry "@ + debug_text(entry)
                + " is not `label=path` -- either the label is missing, or a root path contains ':', which SLOOP_MEMORY_ROOTS uses to separate entries. A path containing ':' cannot be expressed here: rename the directory or point a colon-free symlink at it"@,
            Problem::EmptyLabel => "root label is empty -- SLOOP_MEMORY_ROOTS entries are `label=path`, and the label cannot be blank"@,
            Problem::ColonInLabel { label } => "root label "@ + debug_text(label)
                + " contains ':', which SLOOP_MEMORY_ROOTS uses to separate entries -- rename the root"@,
            Problem::EqualsInLabel { label } => "root label "@ + debug_text(label)
                + " contains '=', which SLOOP_MEMORY_ROOTS uses to separate a label from its path -- rename the root"@,
            Problem::MissingPath { path } => "root path "@ + path + " does not exist"@,
            Problem::NotADirectory { path } => "root path "@ + path + " is not a directory"@,
            Problem::Unresolved { path } => "canonicalizing root path "@ + path,
            Problem::DuplicateLabel { label } => "duplicate root label "@ + debug_text(label)
                + " -- every root needs a unique label"@,
        }
    }
}

fn quoted_between(before: &str, quoted: &str, after: &str) -> (out: Vec<char>)
    ensures
        out@ == before@ + debug_text(quoted@) + after@,
{
    let mut out: Vec<char> = chars_of(before);
    push_str(&mut out, debug_string(quoted).as_str());
    push_str(&mut out, after);
    out
}

fn plain_between(before: &str, plain: &str, after: &str) -> (out: Vec<char>)
    ensures
        out@ == before@ + plain@ + after@,
{
    let mut out: Vec<char> = chars_of(before);
    push_str(&mut out, plain);
    push_str(&mut out, after);
    out
}

impl ConfigError {
    /// What is wrong, in words.
    pub fn message(&self) -> (out: String)
        ensures
            out@ == self@.words(),
    {
        let out: Vec<char> = match self {
            ConfigError::ModelUnset => chars_of(
                "SLOOP_MEMORY_MODEL is unset -- run the nix-wrapped binary, not the raw cargo one",
            ),
            ConfigError::RootsUnset => chars_of(
                "SLOOP_MEMORY_ROOTS is not set. Expected colon-separated label=path pairs, e.g. \"notes=/path/to/notes:memory=/path/to/memory\".",
            ),
            ConfigError::NoEntries => chars_of(
                "SLOOP_MEMORY_ROOTS is empty -- provide at least one `label=path` entry",
            ),
            ConfigError::EmptyEntry { spec } => quoted_between(
                "SLOOP_MEMORY_ROOTS has an empty entry in ",
                spec.as_str(),
                " -- entries are colon-separated `label=path` pairs, so a leading, trailing or doubled ':' is a typo, not an empty root",
            ),
            ConfigError::NotAPair { entry } => quoted_between(
                "SLOOP_MEMORY_ROOTS entry ",
                entry.as_str(),
                " is not `label=path` -- either the label is missing, or a root path contains ':', which SLOOP_MEMORY_ROOTS uses to separate entries. A path containing ':' cannot be expressed here: rename the directory or point a colon-free symlink at it",
            ),
            ConfigError::EmptyLabel => chars_of(
                "root label is empty -- SLOOP_MEMORY_ROOTS entries are `label=path`, and the label cannot be blank",
            ),
            ConfigError::ColonInLabel { label } => quoted_between(
                "root label ",
                label.as_str(),
                " contains ':', which SLOOP_MEMORY_ROOTS uses to separate entries -- rename the root",
            ),
            ConfigError::EqualsInLabel { label } => quoted_between(
                "root label ",
                label.as_str(),
                " contains '=', which SLOOP_MEMORY_ROOTS uses to separate a label from its path -- rename the root",
            ),
            ConfigError::MissingPath { path } => plain_between(
                "root path ",
                path.as_str(),
                " does not exist",
            ),
            ConfigError::NotADirectory { path } => plain_between(
                "root path ",
                path.as_str(),
                " is not a directory",
            ),
            ConfigError::Unresolved { path } => {
                let mut out = chars_of("canonicalizing root path ");
                push_str(&mut out, path.as_str());
                out
            },
            ConfigError::DuplicateLabel { label } => quoted_between(
                "duplicate root label ",
                label.as_str(),
                " -- every root needs a unique label",
            ),
        };
        string_of(out.as_slice())
    }
}

/// What is wrong with a label, if anything is.
pub open spec fn label_problem(s: Seq<char>) -> Option<Problem> {
    if s.len() == 0 {
        Some(Problem::EmptyLabel)
    } else if s.contains(':') {
        Some(Problem::ColonInLabel { label: s })
    } else if s.contains('=') {
        Some(Problem::EqualsInLabel { label: s })
    } else {
        None
    }
}

/// A root's label. Cannot contain `:` or `=`: both are delimiters of the variable
/// that names the roots, and either would corrupt parsing or, worse, corrupt the
/// injectivity of the namespaced source id without any parse error to catch it: label
/// "a" plus path "b:c" would collide with label "a:b" plus path "c". Cannot be empty
/// either.
#[derive(Debug, PartialEq, Eq, Hash)]
pub struct RootLabel(String);

impl View for RootLabel {
    type V = Seq<char>;

    closed spec fn view(&self) -> Seq<char> {
        self.0@
    }
}

/// Whether a character stands in a text.
fn holds(s: &[char], c: char) -> (r: bool)
    ensures
        r == s@.contains(c),
{
    let n: usize = first_of(s, c);
    proof {
        first_bounds(s@, c);
        if n < s@.len() {
            assert(s@[n as int] == c);
        } else if s@.contains(c) {
            let j = choose|j: int| 0 <= j < s@.len() && s@[j] == c;
            assert(s@[j] != c);
        }
    }
    n < s.len()
}

impl RootLabel {
    #[verifier::type_invariant]
    closed spec fn valid(self) -> bool {
        label_problem(self.0@) is None
    }

    /// Checks a label.
    pub fn new(s: &str) -> (out: Result<Self, ConfigError>)
        ensures
            match (label_problem(s@), out) {
                (None, Ok(label)) => label@ == s@,
                (Some(problem), Err(e)) => e@ == problem,
                _ => false,
            },
    {
        let chars = chars_of(s);
        if chars.len() == 0 {
            return Err(ConfigError::EmptyLabel);
        }
        let label = string_of(chars.as_slice());
        if holds(chars.as_slice(), ':') {
            return Err(ConfigError::ColonInLabel { label });
        }
        if holds(chars.as_slice(), '=') {
            return Err(ConfigError::EqualsInLabel { label });
        }
        Ok(RootLabel(label))
    }

    /// The label's text.
    pub fn as_str(&self) -> (out: &str)
        ensures
            out@ == self@,
            label_problem(self@) is None,
    {
        proof {
            use_type_invariant(self);
        }
        self.0.as_str()
    }
}

impl Clone for RootLabel {
    fn clone(&self) -> (out: Self)
        ensures
            out@ == self@,
    {
        proof {
            use_type_invariant(self);
        }
        RootLabel(self.0.clone())
    }
}

impl std::str::FromStr for RootLabel {
    type Err = ConfigError;

    fn from_str(s: &str) -> (out: Result<Self, ConfigError>)
        ensures
            match (label_problem(s@), out) {
                (None, Ok(label)) => label@ == s@,
                (Some(problem), Err(e)) => e@ == problem,
                _ => false,
            },
    {
        RootLabel::new(s)
    }
}

/// An existing directory, with every link in its path resolved.
///
/// Resolving is not cosmetic: file events name resolved paths, and an unresolved
/// prefix fails to strip, so that every relative id silently becomes an absolute
/// path, which then becomes the manifest key.
///
/// This says that the directory existed when the configuration was read, nothing
/// more. The daemon is long-lived, and a root can be deleted or unmounted later.
#[derive(Debug, Clone)]
pub struct RootDir(String);

impl View for RootDir {
    type V = Seq<char>;

    closed spec fn view(&self) -> Seq<char> {
        self.0@
    }
}

/// What the filesystem says of the path of an entry.
#[derive(Debug, Clone)]
pub enum PathProbe {
    /// There is nothing at the path.
    Missing,
    /// There is something, and it is not a directory.
    NotADirectory,
    /// There is a directory, and its path could not be resolved.
    Unresolved,
    /// There is a directory, with this resolved path.
    Resolved(String),
}

/// The directory that a probe found, or what is wrong with the path.
pub open spec fn probed(path: Seq<char>, probe: PathProbe) -> Result<Seq<char>, Problem> {
    match probe {
        PathProbe::Missing => Err(Problem::MissingPath { path }),
        PathProbe::NotADirectory => Err(Problem::NotADirectory { path }),
        PathProbe::Unresolved => Err(Problem::Unresolved { path }),
        PathProbe::Resolved(dir) => Ok(dir@),
    }
}

impl RootDir {
    /// The directory's path.
    pub fn as_path(&self) -> (out: &str)
        ensures
            out@ == self@,
    {
        self.0.as_str()
    }

    /// The directory that a probe of `path` found.
    pub fn parse(path: &str, probe: &PathProbe) -> (out: Result<Self, ConfigError>)
        ensures
            match (probed(path@, *probe), out) {
                (Ok(dir), Ok(root)) => root@ == dir,
                (Err(problem), Err(e)) => e@ == problem,
                _ => false,
            },
    {
        let named = string_of(chars_of(path).as_slice());
        match probe {
            PathProbe::Missing => Err(ConfigError::MissingPath { path: named }),
            PathProbe::NotADirectory => Err(ConfigError::NotADirectory { path: named }),
            PathProbe::Unresolved => Err(ConfigError::Unresolved { path: named }),
            PathProbe::Resolved(dir) => Ok(RootDir(dir.clone())),
        }
    }
}

/// A labeled indexing root. The label namespaces every id derived from files under
/// it, so that two roots holding the same relative path never collide on identity.
#[derive(Debug, Clone)]
pub struct Root {
    pub label: RootLabel,
    pub dir: RootDir,
}

/// The texts of a [`Root`].
#[verifier::ext_equal]
pub struct RootView {
    pub label: Seq<char>,
    pub dir: Seq<char>,
}

impl View for Root {
    type V = RootView;

    open spec fn view(&self) -> RootView {
        RootView { label: self.label@, dir: self.dir@ }
    }
}

/// The texts of a list of roots.
pub open spec fn root_views(roots: Seq<Root>) -> Seq<RootView> {
    roots.map_values(|r: Root| r@)
}

/// One `label=path` entry.
#[verifier::ext_equal]
pub struct EntryView {
    pub label: Seq<char>,
    pub path: Seq<char>,
}

/// The pieces of a specification as entries, or what is wrong with the first that is
/// none.
pub open spec fn pairs_of(spec: Seq<char>, list: Seq<Seq<char>>) -> Result<Seq<EntryView>, Problem>
    decreases list.len(),
{
    if list.len() == 0 {
        Ok(seq![])
    } else {
        let entry = list.last();
        let cut = first(entry, '=') as int;
        match pairs_of(spec, list.drop_last()) {
            Err(problem) => Err(problem),
            Ok(before) => if entry.len() == 0 {
                Err(Problem::EmptyEntry { spec })
            } else if cut >= entry.len() {
                Err(Problem::NotAPair { entry })
            } else {
                Ok(before.push(EntryView { label: entry.take(cut), path: entry.skip(cut + 1) }))
            },
        }
    }
}

/// The entries of a specification, or what is wrong with its form.
pub open spec fn entries_of(spec: Seq<char>) -> Result<Seq<EntryView>, Problem> {
    if spec.len() == 0 {
        Err(Problem::NoEntries)
    } else {
        pairs_of(spec, pieces(spec, seq![':']))
    }
}

/// The roots that the entries name, or what is wrong with the first that names none.
pub open spec fn roots_named(entries: Seq<EntryView>, probes: Seq<PathProbe>) -> Result<
    Seq<RootView>,
    Problem,
>
    decreases entries.len(),
{
    if entries.len() == 0 {
        Ok(seq![])
    } else {
        let n = entries.len() - 1;
        let entry = entries[n];
        match roots_named(entries.drop_last(), probes) {
            Err(problem) => Err(problem),
            Ok(before) => match (label_problem(entry.label), probed(entry.path, probes[n])) {
                (Some(problem), _) => Err(problem),
                (None, Err(problem)) => Err(problem),
                (None, Ok(dir)) => Ok(before.push(RootView { label: entry.label, dir })),
            },
        }
    }
}

/// Some root before position `i` has the same label as the root at `i`.
pub open spec fn repeats(roots: Seq<RootView>, i: int) -> bool {
    exists|j: int| 0 <= j < i && (#[trigger] roots[j]).label == roots[i].label
}

/// The first label at or after position `i` that stands before it already.
pub open spec fn repeated_label(roots: Seq<RootView>, i: int) -> Option<Seq<char>>
    decreases roots.len() - i,
{
    if i < 0 || i >= roots.len() {
        None
    } else if repeats(roots, i) {
        Some(roots[i].label)
    } else {
        repeated_label(roots, i + 1)
    }
}

/// The roots of a specification, or what is wrong with it.
pub open spec fn roots_of(spec: Seq<char>, probes: Seq<PathProbe>) -> Result<
    Seq<RootView>,
    Problem,
> {
    match entries_of(spec) {
        Err(problem) => Err(problem),
        Ok(entries) => match roots_named(entries, probes) {
            Err(problem) => Err(problem),
            Ok(roots) => match repeated_label(roots, 0) {
                Some(label) => Err(Problem::DuplicateLabel { label }),
                None => Ok(roots),
            },
        },
    }
}

/// One `label=path` entry.
#[derive(Debug, Clone)]
pub struct Entry {
    pub label: String,
    pub path: String,
}

/// The texts of a list of entries.
pub open spec fn entry_views(entries: Seq<Entry>) -> Seq<EntryView> {
    entries.map_values(|e: Entry| EntryView { label: e.label@, path: e.path@ })
}

/// Every configured indexing root. Non-empty, and every label unique: both are
/// properties of the whole set, not of any single root.
#[derive(Debug, Clone)]
pub struct Roots(Vec<Root>);

impl View for Roots {
    type V = Seq<RootView>;

    closed spec fn view(&self) -> Seq<RootView> {
        root_views(self.0@)
    }
}

impl Roots {
    /// What every set of roots keeps: there is a root, every label is valid, and no
    /// two are the same.
    pub open spec fn wf(&self) -> bool {
        &&& self@.len() > 0
        &&& forall|i: int|
            0 <= i < self@.len() ==> label_problem((#[trigger] self@[i]).label) is None
        &&& forall|i: int, j: int|
            0 <= i < j < self@.len() ==> (#[trigger] self@[i]).label != (#[trigger] self@[j]).label
    }

    /// Splits a specification into its entries: colon-separated `label=path` pairs.
    ///
    /// An empty entry, from a leading, trailing or doubled `:`, is rejected rather
    /// than skipped. Skipping it means that a mistyped second entry starts clean and
    /// indexes fewer roots than the operator wrote.
    ///
    /// The separator constrains the *path* as well as the label: a path with a `:` in
    /// it cannot be expressed. Its tail carries no `=`, which is the detectable
    /// signature. That is why every entry is split before any path is resolved:
    /// checking as we go would resolve the truncated head first, and report a path
    /// the operator never wrote, or silently index the wrong directory.
    pub fn entries(spec: &str) -> (out: Result<Vec<Entry>, ConfigError>)
        ensures
            match (entries_of(spec@), out) {
                (Ok(entries), Ok(list)) => entry_views(list@) == entries,
                (Err(problem), Err(e)) => e@ == problem,
                _ => false,
            },
    {
        let chars = chars_of(spec);
        if chars.len() == 0 {
            return Err(ConfigError::NoEntries);
        }
        let sep: [char; 1] = [':'];
        let list = split_at(chars.as_slice(), sep.as_slice());
        let ghost all = pieces(spec@, seq![':']);
        let mut out: Vec<Entry> = Vec::new();
        let mut i: usize = 0;
        proof {
            assert(sep@ =~= seq![':']);
            assert(entry_views(out@) =~= seq![]);
            assert(all.take(0) =~= seq![]);
        }
        while i < list.len()
            invariant
                i <= list@.len(),
                chars@ == spec@,
                spec@.len() > 0,
                slices(list@) == all,
                all == pieces(spec@, seq![':']),
                pairs_of(spec@, all.take(i as int)) == Ok::<Seq<EntryView>, Problem>(
                    entry_views(out@),
                ),
            decreases list.len() - i,
        {
            let entry = list[i];
            proof {
                assert(all[i as int] == entry@);
                assert(all.take(i + 1).drop_last() =~= all.take(i as int));
            }
            if entry.len() == 0 {
                proof {
                    first_problem_stands(spec@, all, i + 1);
                }
                return Err(ConfigError::EmptyEntry { spec: string_of(chars.as_slice()) });
            }
            let cut: usize = first_of(entry, '=');
            if cut >= entry.len() {
                proof {
                    first_problem_stands(spec@, all, i + 1);
                }
                return Err(ConfigError::NotAPair { entry: string_of(entry) });
            }
            let label = slice_subrange(entry, 0, cut);
            let path = slice_subrange(entry, cut + 1, entry.len());
            proof {
                assert(label@ =~= entry@.take(cut as int));
                assert(path@ =~= entry@.skip(cut + 1));
            }
            let made = Entry { label: string_of(label), path: string_of(path) };
            let ghost before = out@;
            out.push(made);
            i += 1;
            proof {
                assert(entry_views(out@) =~= entry_views(before).push(
                    EntryView { label: label@, path: path@ },
                ));
            }
        }
        proof {
            assert(all.take(i as int) =~= all);
        }
        Ok(out)
    }

    /// The roots of a specification. `probes` says what the filesystem holds at the
    /// path of each entry, in the order of the entries.
    pub fn parse(spec: &str, probes: &Vec<PathProbe>) -> (out: Result<Self, ConfigError>)
        requires
            entries_of(spec@) matches Ok(entries) ==> entries.len() == probes@.len(),
        ensures
            match (roots_of(spec@, probes@), out) {
                (Ok(views), Ok(roots)) => roots@ == views && roots.wf(),
                (Err(problem), Err(e)) => e@ == problem,
                _ => false,
            },
    {
        let entries = match Roots::entries(spec) {
            Ok(entries) => entries,
            Err(e) => {
                return Err(e);
            },
        };
        let ghost all = entry_views(entries@);
        let mut roots: Vec<Root> = Vec::new();
        let mut i: usize = 0;
        proof {
            assert(all.take(0) =~= seq![]);
            assert(root_views(roots@) =~= seq![]);
        }
        while i < entries.len()
            invariant
                i <= entries@.len(),
                entries@.len() == probes@.len(),
                all == entry_views(entries@),
                entries_of(spec@) == Ok::<Seq<EntryView>, Problem>(all),
                roots_named(all.take(i as int), probes@) == Ok::<Seq<RootView>, Problem>(
                    root_views(roots@),
                ),
                forall|k: int|
                    0 <= k < roots@.len() ==> label_problem((#[trigger] roots@[k]).label@) is None,
                roots@.len() == i,
            decreases entries.len() - i,
        {
            let entry = &entries[i];
            proof {
                assert(all[i as int] == (EntryView { label: entry.label@, path: entry.path@ }));
                assert(all.take(i + 1).drop_last() =~= all.take(i as int));
                assert(all.take(i + 1)[i as int] == all[i as int]);
            }
            let label = match RootLabel::new(entry.label.as_str()) {
                Ok(label) => label,
                Err(e) => {
                    proof {
                        first_unnamed_stands(all, probes@, i + 1);
                    }
                    return Err(e);
                },
            };
            let dir = match RootDir::parse(entry.path.as_str(), &probes[i]) {
                Ok(dir) => dir,
                Err(e) => {
                    proof {
                        first_unnamed_stands(all, probes@, i + 1);
                    }
                    return Err(e);
                },
            };
            let root = Root { label, dir };
            let ghost before = roots@;
            roots.push(root);
            i += 1;
            proof {
                assert(root_views(roots@) =~= root_views(before).push(root@));
                assert(root@ =~= (RootView { label: entry.label@, dir: dir@ }));
            }
        }
        proof {
            assert(all.take(i as int) =~= all);
        }
        let ghost views = root_views(roots@);
        let mut k: usize = 0;
        while k < roots.len()
            invariant
                k <= roots@.len(),
                views == root_views(roots@),
                repeated_label(views, 0) == repeated_label(views, k as int),
                roots_of(spec@, probes@) == match repeated_label(views, 0) {
                    Some(label) => Err(Problem::DuplicateLabel { label }),
                    None => Ok::<Seq<RootView>, Problem>(views),
                },
                forall|i: int, j: int|
                    0 <= i < j < k ==> (#[trigger] views[i]).label != (#[trigger] views[j]).label,
            decreases roots.len() - k,
        {
            let mut j: usize = 0;
            while j < k
                invariant
                    j <= k < roots@.len(),
                    views == root_views(roots@),
                    repeated_label(views, 0) == repeated_label(views, k as int),
                    roots_of(spec@, probes@) == match repeated_label(views, 0) {
                        Some(label) => Err(Problem::DuplicateLabel { label }),
                        None => Ok::<Seq<RootView>, Problem>(views),
                    },
                    forall|m: int|
                        0 <= m < j ==> (#[trigger] views[m]).label != views[k as int].label,
                decreases k - j,
            {
                proof {
                    assert(views[j as int] == roots@[j as int]@);
                    assert(views[k as int] == roots@[k as int]@);
                }
                if same_str(roots[j].label.as_str(), roots[k].label.as_str()) {
                    proof {
                        assert(repeats(views, k as int));
                    }
                    return Err(
                        ConfigError::DuplicateLabel {
                            label: string_of(chars_of(roots[k].label.as_str()).as_slice()),
                        },
                    );
                }
                j += 1;
            }
            k += 1;
        }
        proof {
            assert forall|i: int| 0 <= i < views.len() implies label_problem(
                (#[trigger] views[i]).label,
            ) is None by {
                assert(views[i] == roots@[i]@);
            }
            assert(views.len() > 0) by {
                entries_are_some(spec@);
            }
        }
        Ok(Roots(roots))
    }

    /// The roots, in the order in which they were named.
    pub fn iter(&self) -> (out: &Vec<Root>)
        ensures
            root_views(out@) == self@,
    {
        &self.0
    }
}

proof fn first_problem_stands(spec: Seq<char>, list: Seq<Seq<char>>, k: int)
    requires
        0 <= k <= list.len(),
        pairs_of(spec, list.take(k)) is Err,
    ensures
        pairs_of(spec, list) == pairs_of(spec, list.take(k)),
    decreases list.len() - k,
{
    if k < list.len() {
        let more = list.take(k + 1);
        assert(more.drop_last() =~= list.take(k));
        first_problem_stands(spec, list, k + 1);
    } else {
        assert(list.take(k) =~= list);
    }
}

proof fn first_unnamed_stands(entries: Seq<EntryView>, probes: Seq<PathProbe>, k: int)
    requires
        0 <= k <= entries.len(),
        roots_named(entries.take(k), probes) is Err,
    ensures
        roots_named(entries, probes) == roots_named(entries.take(k), probes),
    decreases entries.len() - k,
{
    if k < entries.len() {
        let more = entries.take(k + 1);
        assert(more.drop_last() =~= entries.take(k));
        first_unnamed_stands(entries, probes, k + 1);
    } else {
        assert(entries.take(k) =~= entries);
    }
}

proof fn entries_are_some(spec: Seq<char>)
    ensures
        entries_of(spec) matches Ok(entries) ==> entries.len() > 0,
{
    if spec.len() > 0 {
        pairs_count(spec, pieces(spec, seq![':']));
    }
}

proof fn pairs_count(spec: Seq<char>, list: Seq<Seq<char>>)
    ensures
        pairs_of(spec, list) matches Ok(entries) ==> entries.len() == list.len(),
    decreases list.len(),
{
    if list.len() > 0 {
        pairs_count(spec, list.drop_last());
    }
}

/// The roots that the environment names.
///
/// The variable is required: there is no default root, because guessing one indexes
/// the wrong directory silently, which is worse than not starting.
pub fn roots_from(spec: Option<&str>, probes: &Vec<PathProbe>) -> (out: Result<
    Roots,
    ConfigError,
>)
    requires
        spec matches Some(s) ==> (entries_of(s@) matches Ok(entries) ==> entries.len()
            == probes@.len()),
    ensures
        match spec {
            None => out matches Err(e) && e@ == Problem::RootsUnset,
            Some(s) => match (roots_of(s@, probes@), out) {
                (Ok(views), Ok(roots)) => roots@ == views && roots.wf(),
                (Err(problem), Err(e)) => e@ == problem,
                _ => false,
            },
        },
{
    match spec {
        Some(s) => Roots::parse(s, probes),
        None => Err(ConfigError::RootsUnset),
    }
}

/// The first root at or after position `i` that a path lies in.
pub open spec fn root_holding(roots: Seq<RootView>, path: Seq<char>, i: int) -> Option<int>
    decreases roots.len() - i,
{
    if i < 0 || i >= roots.len() {
        None
    } else if inside(roots[i].dir, path) is Some {
        Some(i)
    } else {
        root_holding(roots, path, i + 1)
    }
}

/// The root that a path belongs to: the first that it lies in as it is written, else
/// the first that it lies in once it is resolved.
pub open spec fn owning_root(
    roots: Seq<RootView>,
    path: Seq<char>,
    resolved: Option<Seq<char>>,
) -> Option<int> {
    match (root_holding(roots, path, 0), resolved) {
        (Some(i), _) => Some(i),
        (None, Some(actual)) => root_holding(roots, actual, 0),
        (None, None) => None,
    }
}

fn find_root(roots: &Roots, path: &str) -> (out: Option<usize>)
    ensures
        root_holding(roots@, path@, 0) == match out {
            Some(i) => Some(i as int),
            None => None,
        },
        out matches Some(i) ==> i < roots@.len(),
{
    let list = roots.iter();
    let chars = chars_of(path);
    let mut i: usize = 0;
    while i < list.len()
        invariant
            i <= list@.len(),
            chars@ == path@,
            root_views(list@) == roots@,
            root_holding(roots@, path@, 0) == root_holding(roots@, path@, i as int),
        decreases list.len() - i,
    {
        proof {
            assert(roots@[i as int] == list@[i as int]@);
        }
        let dir = chars_of(list[i].dir.as_path());
        if strip_prefix(dir.as_slice(), chars.as_slice()).is_some() {
            return Some(i);
        }
        i += 1;
    }
    None
}

/// Which root (if any) a file event's path belongs to. Needed because the watcher
/// shares one debouncer across every root and emits paths without saying which root
/// they came from.
///
/// `resolved` is the path with its links resolved, where that can be done.
pub fn root_for_path<'a>(roots: &'a Roots, path: &str, resolved: Option<&str>) -> (out: Option<
    &'a Root,
>)
    ensures
        ({
            let found = owning_root(
                roots@,
                path@,
                match resolved {
                    Some(actual) => Some(actual@),
                    None => None,
                },
            );
            match (found, out) {
                (Some(i), Some(root)) => 0 <= i < roots@.len() && root@ == roots@[i],
                (None, None) => true,
                _ => false,
            }
        }),
{
    let found = match find_root(roots, path) {
        Some(i) => Some(i),
        None => match resolved {
            Some(actual) => find_root(roots, actual),
            None => None,
        },
    };
    match found {
        Some(i) => {
            let list = roots.iter();
            proof {
                assert(roots@.len() == list@.len());
                assert(roots@[i as int] == list@[i as int]@);
            }
            Some(&list[i])
        },
        None => None,
    }
}

/// The variables of the environment that paths are read from.
#[derive(Debug, Clone)]
pub struct Environment {
    /// `SLOOP_MEMORY_MODEL`.
    pub model: Option<String>,
    /// `SLOOP_MEMORY_STATE`.
    pub state: Option<String>,
    /// `XDG_STATE_HOME`.
    pub xdg_state_home: Option<String>,
    /// `HOME`.
    pub home: Option<String>,
    /// `SLOOP_MEMORY_SOCKET`.
    pub socket: Option<String>,
    /// `SLOOP_MEMORY_INJECTION_LOG`.
    pub injection_log: Option<String>,
}

impl Environment {
    /// Where state is kept can be told. An unset home directory means that the
    /// environment itself is broken; there is no sane fallback.
    pub open spec fn has_state_dir(&self) -> bool {
        self.state is Some || self.xdg_state_home is Some || self.home is Some
    }

    /// Where state is kept.
    pub open spec fn state_path(&self) -> Seq<char> {
        match (self.state, self.xdg_state_home, self.home) {
            (Some(state), _, _) => state@,
            (None, Some(xdg), _) => below(xdg@, "sloop-memory"@),
            (None, None, Some(home)) => below(below(home@, ".local/state"@), "sloop-memory"@),
            (None, None, None) => seq![],
        }
    }
}

/// Model weights are pinned; there is deliberately no fallback, because the failure
/// mode we are avoiding is a silent network fetch.
pub fn model_dir(env: &Environment) -> (out: Result<String, ConfigError>)
    ensures
        match (env.model, out) {
            (Some(dir), Ok(path)) => path@ == dir@,
            (None, Err(e)) => e@ == Problem::ModelUnset,
            _ => false,
        },
{
    match &env.model {
        Some(dir) => Ok(dir.clone()),
        None => Err(ConfigError::ModelUnset),
    }
}

/// Where state is kept.
pub fn state_dir(env: &Environment) -> (out: String)
    requires
        env.has_state_dir(),
    ensures
        out@ == env.state_path(),
{
    match (&env.state, &env.xdg_state_home, &env.home) {
        (Some(state), _, _) => state.clone(),
        (None, Some(xdg), _) => string_of(join_path(xdg.as_str(), "sloop-memory").as_slice()),
        (None, None, Some(home)) => {
            let local = string_of(join_path(home.as_str(), ".local/state").as_slice());
            string_of(join_path(local.as_str(), "sloop-memory").as_slice())
        },
        (None, None, None) => String::new(),
    }
}

/// Where the tables are kept.
pub fn db_dir(env: &Environment) -> (out: String)
    requires
        env.has_state_dir(),
    ensures
        out@ == below(env.state_path(), "lancedb"@),
{
    string_of(join_path(state_dir(env).as_str(), "lancedb").as_slice())
}

/// Where the daemon listens.
pub fn socket_path(env: &Environment) -> (out: String)
    requires
        env.socket is Some || env.has_state_dir(),
    ensures
        out@ == match env.socket {
            Some(path) => path@,
            None => below(env.state_path(), "daemon.sock"@),
        },
{
    match &env.socket {
        Some(path) => path.clone(),
        None => string_of(join_path(state_dir(env).as_str(), "daemon.sock").as_slice()),
    }
}

/// Every hook injection is appended here. Without this, a hook that silently feeds
/// stale pointers into the prompt is undetectable; with it, the failure mode is at
/// least auditable after the fact.
pub fn injection_log_path(env: &Environment) -> (out: String)
    requires
        env.injection_log is Some || env.has_state_dir(),
    ensures
        out@ == match env.injection_log {
            Some(path) => path@,
            None => below(env.state_path(), "injections.jsonl"@),
        },
{
    match &env.injection_log {
        Some(path) => path.clone(),
        None => string_of(join_path(state_dir(env).as_str(), "injections.jsonl").as_slice()),
    }
}

} // verus!
