//! The resident daemon's decisions: what each request needs, and what is answered.
//!
//! The daemon itself exists for one reason: loading the model costs a second, and a
//! query costs milliseconds. What it opens, embeds and searches is handed in here as
//! plain values.
use vstd::prelude::*;
use crate::chunk_cover::is_part_of;
use vstd::utf8::encode_utf8;
use crate::chunk::{query_units, split_query};
use crate::config::{
    owning_root, root_for_path, root_views, RootView, Roots, HOOK_MAX_HITS, HOOK_MAX_QUERY_UNITS,
    MAX_QUERY_UNITS,
};
use crate::index::{FileProbe, IndexStats};
use crate::number::{decimal, push_decimal};
use crate::order::{ascending, before, inserted, inserted_keeps_order, is_before};
use crate::proto::{LabelCount, Request, Response};
use crate::recall::{
    best_k, best_of, consolidate, consolidated, hit_views, is_best, one_pointer_per_file_at_its_best,
    pointer_views, points_at, rank, round_robin, slots_go_to_pointers_that_are_there,
    take_round_robin, the_first_slot_goes_to_the_highest_cosine, the_threshold_is_three_quarters,
    top_cosine, top_of, Hit, HitView, Pointer, };
use crate::store::RootCount;
use crate::text::{
    blank, chars_of, is_blank, push_str, same, same_str, string_of, strings,
};

verus! {

/// A search over the units of a query while it goes on: the units, how many were
/// searched, what they found, and what went wrong.
#[verifier::ext_equal]
pub struct SearchView {
    pub units: Seq<Seq<char>>,
    pub searched: nat,
    pub hits: Seq<HitView>,
    pub failed: Option<Seq<char>>,
}

/// A search over the units of a query.
///
/// The truncating tokenizer keeps the first tokens of whatever it is handed, so a single
/// embedding of a pasted log reads the boilerplate and never reaches the question
/// underneath it. Splitting first means every part of the query gets its own search. A
/// unit that fails to embed or search fails the whole request rather than quietly
/// returning the other units' hits: a short answer is indistinguishable from a complete
/// one to the caller.
#[derive(Debug)]
pub struct UnitSearch {
    units: Vec<String>,
    searched: usize,
    hits: Vec<Hit>,
    failed: Option<String>,
}

impl View for UnitSearch {
    type V = SearchView;

    closed spec fn view(&self) -> SearchView {
        SearchView {
            units: strings(self.units@),
            searched: self.searched as nat,
            hits: hit_views(self.hits@),
            failed: match self.failed {
                Some(why) => Some(why@),
                None => None,
            },
        }
    }
}

/// The unit to search next: the first that was not searched, unless one failed.
pub open spec fn next_of(s: SearchView) -> Option<Seq<char>> {
    if s.failed is None && s.searched < s.units.len() {
        Some(s.units[s.searched as int])
    } else {
        None
    }
}

impl UnitSearch {
    /// What every search keeps: no more was searched than there is.
    pub open spec fn wf(&self) -> bool {
        self@.searched <= self@.units.len()
    }

    /// Starts a search. A blank query has no units, and asks nothing.
    pub fn new(query: &str, max_units: usize) -> (out: Self)
        ensures
            out.wf(),
            out@ == (SearchView {
                units: query_units(query@, max_units as nat),
                searched: 0,
                hits: seq![],
                failed: None,
            }),
    {
        let out = UnitSearch {
            units: split_query(query, max_units),
            searched: 0,
            hits: Vec::new(),
            failed: None,
        };
        proof {
            assert(out@.hits =~= seq![]);
        }
        out
    }

    /// The unit to search next, if the search goes on.
    pub fn next_unit(&self) -> (out: Option<&str>)
        requires
            self.wf(),
        ensures
            next_of(self@) == match out {
                Some(unit) => Some(unit@),
                None => None,
            },
    {
        proof {
            assert(self@.units.len() == self.units@.len());
        }
        if self.failed.is_some() || self.searched >= self.units.len() {
            return None;
        }
        Some(self.units[self.searched].as_str())
    }

    /// Notes what came of searching the next unit.
    pub fn searched(&mut self, result: Result<Vec<Hit>, String>)
        requires
            old(self).wf(),
            next_of(old(self)@) is Some,
        ensures
            final(self).wf(),
            final(self)@ == match result {
                Ok(found) => SearchView {
                    searched: old(self)@.searched + 1,
                    hits: old(self)@.hits + hit_views(found@),
                    ..old(self)@
                },
                Err(why) => SearchView { failed: Some(why@), ..old(self)@ },
            },
    {
        let n: usize = self.units.len();
        proof {
            assert(self@.units.len() == n);
        }
        match result {
            Ok(found) => {
                let mut more = found;
                let ghost added = more@;
                let ghost kept = self.hits@;
                self.hits.append(&mut more);
                self.searched = self.searched + 1;
                proof {
                    assert(hit_views(self.hits@) =~= hit_views(kept) + hit_views(added));
                }
            },
            Err(why) => {
                self.failed = Some(why);
            },
        }
    }

    /// What the search came to: every hit of every unit, in the order of the units, or
    /// the failure that ended it.
    pub fn outcome(self) -> (out: Result<Vec<Hit>, String>)
        requires
            next_of(self@) is None,
        ensures
            match (self@.failed, out) {
                (None, Ok(hits)) => hit_views(hits@) == self@.hits,
                (Some(why), Err(message)) => message@ == why,
                _ => false,
            },
    {
        match self.failed {
            Some(why) => Err(why),
            None => Ok(self.hits),
        }
    }
}

/// What recall comes to: the pointers to show, and the best candidate before the threshold.
#[derive(Debug)]
pub struct RecallResult {
    pub pointers: Vec<Pointer>,
    pub top_cosine: Option<u32>,
}

/// Pointers for the prompt hook.
///
/// Decided on cosine rather than the fusion score, and deduplicated to one pointer per
/// note: three chunks from the same file is one piece of information to the reader, and
/// spending the whole budget on a single note would crowd out everything else.
pub fn recall(hits: &Vec<Hit>, roots: &[(&str, &str)]) -> (out: RecallResult)
    ensures
        pointer_views(out.pointers@) == round_robin(
            consolidated(hit_views(hits@), roots@),
            HOOK_MAX_HITS as nat,
        ),
        out.top_cosine == top_of(hit_views(hits@)),
{
    let best = consolidate(hits, roots);
    RecallResult {
        pointers: take_round_robin(&best, HOOK_MAX_HITS),
        top_cosine: top_cosine(hits),
    }
}

/// What a request needs first.
#[derive(Debug, Clone, Copy, PartialEq, Eq, Structural)]
pub enum FirstStep {
    /// The process id, and nothing else.
    Pong,
    /// The number of rows of every root.
    CountRows,
    /// The table of chunks.
    OpenTable,
    /// Nothing: the answer is that nothing was found.
    NothingFound,
    /// An index run over every root.
    Reindex { full: bool },
}

/// What a request needs first.
pub open spec fn first_step_of(request: Request) -> FirstStep {
    match request {
        Request::Ping => FirstStep::Pong,
        Request::Status => FirstStep::CountRows,
        Request::Search { .. } => FirstStep::OpenTable,
        Request::Recall { prompt } => if blank(prompt@) {
            FirstStep::NothingFound
        } else {
            FirstStep::OpenTable
        },
        Request::Reindex { full } => FirstStep::Reindex { full },
    }
}

/// Decides what a request needs first. A blank prompt recalls nothing, and needs
/// nothing for it.
pub fn first_step(request: &Request) -> (out: FirstStep)
    ensures
        out == first_step_of(*request),
{
    match request {
        Request::Ping => FirstStep::Pong,
        Request::Status => FirstStep::CountRows,
        Request::Search { .. } => FirstStep::OpenTable,
        Request::Recall { prompt } => if is_blank(chars_of(prompt.as_str()).as_slice()) {
            FirstStep::NothingFound
        } else {
            FirstStep::OpenTable
        },
        Request::Reindex { full } => FirstStep::Reindex { full: *full },
    }
}

/// What became of opening the table of chunks.
#[derive(Debug, Clone)]
pub enum TableState {
    Open,
    /// There is none yet.
    Missing,
    Failed(String),
}

/// An answer without pointers.
pub open spec fn answers_nothing(response: Response, elapsed_ms: u64) -> bool {
    response matches Response::Pointers { pointers, elapsed_ms: ms, top_cosine } && pointers@.len()
        == 0 && ms == elapsed_ms && top_cosine is None
}

/// An answer that is an error with the given words.
pub open spec fn answers_error(response: Response, words: Seq<char>) -> bool {
    response matches Response::Error { message } && message@ == words
}

/// The answer of a recall that found nothing.
pub fn nothing_found(elapsed_ms: u64) -> (out: Response)
    ensures
        answers_nothing(out, elapsed_ms),
{
    Response::Pointers { pointers: Vec::new(), elapsed_ms, top_cosine: None }
}

/// How a search or a recall goes on once the table was opened, or the answer where it
/// does not.
///
/// A search without an index is an error that says how to get one; a recall without one
/// finds nothing, because nothing on the prompt path fails loudly. A search gets the
/// larger number of units: its caller waits for it.
pub fn after_opening(query: &str, for_hook: bool, table: &TableState, elapsed_ms: u64) -> (out:
    Result<UnitSearch, Response>)
    ensures
        match (*table, out) {
            (TableState::Open, Ok(search)) => search.wf() && search@ == (SearchView {
                units: query_units(
                    query@,
                    if for_hook {
                        HOOK_MAX_QUERY_UNITS as nat
                    } else {
                        MAX_QUERY_UNITS as nat
                    },
                ),
                searched: 0,
                hits: seq![],
                failed: None,
            }),
            (TableState::Missing, Err(response)) => if for_hook {
                answers_nothing(response, elapsed_ms)
            } else {
                answers_error(response, "no index yet; run `sloop-memory index`"@)
            },
            (TableState::Failed(why), Err(response)) => answers_error(response, why@),
            _ => false,
        },
{
    match table {
        TableState::Open => if for_hook {
            Ok(UnitSearch::new(query, HOOK_MAX_QUERY_UNITS))
        } else {
            Ok(UnitSearch::new(query, MAX_QUERY_UNITS))
        },
        TableState::Missing => if for_hook {
            Err(nothing_found(elapsed_ms))
        } else {
            Err(
                Response::Error {
                    message: string_of(
                        chars_of("no index yet; run `sloop-memory index`").as_slice(),
                    ),
                },
            )
        },
        TableState::Failed(why) => Err(Response::Error { message: why.clone() }),
    }
}

/// How many hits the hook's searches are for: more than it shows, so that one file's
/// chunks do not use them up.
pub fn hook_search_limit() -> (out: usize)
    ensures
        out == HOOK_MAX_HITS * 4,
{
    HOOK_MAX_HITS * 4
}

/// The answer to a search.
pub fn search_answer(outcome: &Result<Vec<Hit>, String>, k: usize, elapsed_ms: u64) -> (out:
    Response)
    ensures
        match *outcome {
            Ok(found) => out matches Response::Hits { hits, elapsed_ms: ms } && hit_views(hits@)
                == best_of(hit_views(found@), k as nat) && ms == elapsed_ms,
            Err(why) => answers_error(out, why@),
        },
{
    match outcome {
        Ok(found) => Response::Hits { hits: best_k(found, k), elapsed_ms },
        Err(why) => Response::Error { message: why.clone() },
    }
}

/// The answer to a recall.
pub fn recall_answer(
    outcome: &Result<Vec<Hit>, String>,
    roots: &[(&str, &str)],
    elapsed_ms: u64,
) -> (out: Response)
    ensures
        match *outcome {
            Ok(found) => out matches Response::Pointers {
                pointers,
                elapsed_ms: ms,
                top_cosine,
            } && pointer_views(pointers@) == round_robin(
                consolidated(hit_views(found@), roots@),
                HOOK_MAX_HITS as nat,
            ) && ms == elapsed_ms && top_cosine == top_of(hit_views(found@)),
            Err(why) => answers_error(out, why@),
        },
{
    match outcome {
        Ok(found) => {
            let result = recall(found, roots);
            Response::Pointers {
                pointers: result.pointers,
                elapsed_ms,
                top_cosine: result.top_cosine,
            }
        },
        Err(why) => Response::Error { message: why.clone() },
    }
}

/// The answer to an index run.
pub fn reindex_answer(outcome: Result<IndexStats, String>) -> (out: Response)
    ensures
        match outcome {
            Ok(done) => out matches Response::Reindexed { stats } && stats@ == done@,
            Err(why) => answers_error(out, why@),
        },
{
    match outcome {
        Ok(stats) => Response::Reindexed { stats },
        Err(why) => Response::Error { message: why },
    }
}

/// The answer to a line that is no request.
pub fn bad_request(why: &str) -> (out: Response)
    ensures
        answers_error(out, "bad request: "@ + why@),
{
    let mut message = chars_of("bad request: ");
    push_str(&mut message, why);
    Response::Error { message: string_of(message.as_slice()) }
}

/// What one root reported.
#[verifier::ext_equal]
pub struct CountView {
    pub label: Seq<char>,
    pub count: RootCount,
}

impl View for LabelCount {
    type V = CountView;

    open spec fn view(&self) -> CountView {
        CountView { label: self.label@, count: self.count }
    }
}

/// What a list of roots reported.
pub open spec fn count_views(counts: Seq<LabelCount>) -> Seq<CountView> {
    counts.map_values(|c: LabelCount| c@)
}

/// Counts in ascending order of their labels with one more: at its place, or in the
/// place of an earlier one with the same label.
pub open spec fn count_inserted(list: Seq<CountView>, x: CountView) -> Seq<CountView>
    decreases list.len(),
{
    if list.len() == 0 || before(x.label, list[0].label) {
        seq![x] + list
    } else if list[0].label == x.label {
        seq![x] + list.skip(1)
    } else {
        seq![list[0]] + count_inserted(list.skip(1), x)
    }
}

/// Counts, in ascending order of their labels.
pub open spec fn counts_sorted(list: Seq<CountView>) -> Seq<CountView>
    decreases list.len(),
{
    if list.len() == 0 {
        seq![]
    } else {
        count_inserted(counts_sorted(list.drop_last()), list.last())
    }
}

proof fn count_inserted_at(list: Seq<CountView>, x: CountView, k: int)
    requires
        0 <= k <= list.len(),
        forall|j: int|
            0 <= j < k ==> !before(x.label, (#[trigger] list[j]).label) && list[j].label != x.label,
        k == list.len() || before(x.label, list[k].label) || list[k].label == x.label,
    ensures
        count_inserted(list, x) == if k < list.len() && !before(x.label, list[k].label) {
            list.update(k, x)
        } else {
            list.insert(k, x)
        },
    decreases k,
{
    if k > 0 {
        let rest = list.skip(1);
        assert(!before(x.label, list[0].label) && list[0].label != x.label);
        assert forall|j: int| 0 <= j < k - 1 implies !before(x.label, (#[trigger] rest[j]).label)
            && rest[j].label != x.label by {
            assert(rest[j] == list[j + 1]);
        }
        count_inserted_at(rest, x, k - 1);
        assert(count_inserted(list, x) =~= if k < list.len() && !before(x.label, list[k].label) {
            list.update(k, x)
        } else {
            list.insert(k, x)
        });
    } else {
        assert(count_inserted(list, x) =~= if k < list.len() && !before(x.label, list[k].label) {
            list.update(k, x)
        } else {
            list.insert(k, x)
        });
    }
}

/// Puts counts in ascending order of their labels, so that what is printed of them is
/// the same on every run.
pub fn sort_counts(counts: Vec<LabelCount>) -> (out: Vec<LabelCount>)
    ensures
        count_views(out@) == counts_sorted(count_views(counts@)),
{
    let ghost all = count_views(counts@);
    let mut out: Vec<LabelCount> = Vec::new();
    let mut i: usize = 0;
    proof {
        assert(all.take(0) =~= seq![]);
        assert(count_views(out@) =~= seq![]);
    }
    while i < counts.len()
        invariant
            i <= counts@.len(),
            all == count_views(counts@),
            count_views(out@) == counts_sorted(all.take(i as int)),
        decreases counts.len() - i,
    {
        let x = &counts[i];
        let label = chars_of(x.label.as_str());
        let ghost list = count_views(out@);
        proof {
            assert(all[i as int] == x@);
            assert(all.take(i + 1).drop_last() =~= all.take(i as int));
        }
        let mut k: usize = 0;
        let mut replaces = false;
        while k < out.len()
            invariant_except_break
                k <= out@.len(),
                label@ == x.label@,
                list == count_views(out@),
                !replaces,
                forall|j: int|
                    0 <= j < k ==> !before(label@, (#[trigger] list[j]).label) && list[j].label
                        != label@,
            ensures
                k <= out@.len(),
                list == count_views(out@),
                forall|j: int|
                    0 <= j < k ==> !before(label@, (#[trigger] list[j]).label) && list[j].label
                        != label@,
                k == out@.len() || before(label@, list[k as int].label) || list[k as int].label
                    == label@,
                replaces == (k < out@.len() && !before(label@, list[k as int].label)),
            decreases out.len() - k,
        {
            proof {
                assert(list[k as int] == out@[k as int]@);
            }
            let other = chars_of(out[k].label.as_str());
            if is_before(label.as_slice(), other.as_slice()) {
                break ;
            }
            if same(label.as_slice(), other.as_slice()) {
                replaces = true;
                break ;
            }
            k += 1;
        }
        proof {
            assert(list.len() == out@.len());
            count_inserted_at(list, x@, k as int);
        }
        let made = LabelCount {
            label: x.label.clone(),
            count: match &x.count {
                RootCount::Rows(n) => RootCount::Rows(*n),
                RootCount::Error(why) => RootCount::Error(why.clone()),
            },
        };
        let ghost v = made@;
        if replaces {
            out[k] = made;
            proof {
                assert(count_views(out@) =~= list.update(k as int, v));
            }
        } else {
            out.insert(k, made);
            proof {
                assert(count_views(out@) =~= list.insert(k as int, v));
            }
        }
        i += 1;
    }
    proof {
        assert(all.take(i as int) =~= all);
    }
    out
}

/// The answer to a status request.
pub fn status_answer(counts: Vec<LabelCount>, db: String) -> (out: Response)
    ensures
        out matches Response::Status { roots, db: dir } && count_views(roots@) == counts_sorted(
            count_views(counts@),
        ) && dir@ == db@,
{
    Response::Status { roots: sort_counts(counts), db }
}

/// The length that a socket's path must stay under, in bytes.
pub const SUN_LEN: usize = 104;

/// What is said of a socket path that is too long.
pub open spec fn socket_words(path: Seq<char>) -> Seq<char> {
    "socket path is "@ + decimal(encode_utf8(path).len()) + " bytes, must be under "@ + decimal(
        SUN_LEN as nat,
    ) + ": "@ + path
        + "\nSet SLOOP_MEMORY_SOCKET (or SLOOP_MEMORY_STATE) to something shorter."@
}

/// Checks that a socket can be bound at a path: some systems cap its length in bytes and
/// report an overflow opaquely.
pub fn check_socket_path(path: &str) -> (out: Result<(), String>)
    ensures
        match out {
            Ok(_) => encode_utf8(path@).len() < SUN_LEN,
            Err(why) => encode_utf8(path@).len() >= SUN_LEN && why@ == socket_words(path@),
        },
{
    let n: usize = path.as_bytes().len();
    if n < SUN_LEN {
        return Ok(());
    }
    let mut why = chars_of("socket path is ");
    push_decimal(&mut why, n as u64);
    push_str(&mut why, " bytes, must be under ");
    push_decimal(&mut why, SUN_LEN as u64);
    push_str(&mut why, ": ");
    push_str(&mut why, path);
    push_str(&mut why, "\nSet SLOOP_MEMORY_SOCKET (or SLOOP_MEMORY_STATE) to something shorter.");
    Err(string_of(why.as_slice()))
}

/// The root that a changed path belongs to.
pub open spec fn root_of_event(roots: Seq<RootView>, event: FileProbe) -> Option<int> {
    owning_root(
        roots,
        event.path@,
        match event.resolved {
            Some(actual) => Some(actual@),
            None => None,
        },
    )
}

/// The positions of the events that belong to a root, in order.
pub open spec fn events_of(roots: Seq<RootView>, events: Seq<FileProbe>, root: int) -> Seq<int>
    decreases events.len(),
{
    if events.len() == 0 {
        seq![]
    } else {
        let rest = events_of(roots, events.drop_last(), root);
        if root_of_event(roots, events.last()) == Some(root) {
            rest.push(events.len() - 1)
        } else {
            rest
        }
    }
}

/// Finds the events of a batch that belong to a root.
///
/// One debouncer watches every root, so a single batch of paths can span more than one
/// of them, and each has to be indexed in the right identity namespace.
pub fn events_for(roots: &Roots, events: &Vec<FileProbe>, root: usize) -> (out: Vec<usize>)
    requires
        roots.wf(),
        root < roots@.len(),
    ensures
        out@.map_values(|i: usize| i as int) == events_of(roots@, events@, root as int),
{
    let list = roots.iter();
    let mut out: Vec<usize> = Vec::new();
    let mut i: usize = 0;
    let ghost f = |i: usize| i as int;
    proof {
        assert(list@.len() == root_views(list@).len());
        assert(roots@[root as int] == list@[root as int]@);
        assert(events@.take(0) =~= seq![]);
        assert(out@.map_values(f) =~= seq![]);
    }
    while i < events.len()
        invariant
            i <= events@.len(),
            roots.wf(),
            root < roots@.len(),
            root_views(list@) == roots@,
            list@.len() == roots@.len(),
            roots@[root as int] == list@[root as int]@,
            f == (|i: usize| i as int),
            out@.map_values(f) == events_of(roots@, events@.take(i as int), root as int),
        decreases events.len() - i,
    {
        let event = &events[i];
        let resolved: Option<&str> = match &event.resolved {
            Some(actual) => Some(actual.as_str()),
            None => None,
        };
        proof {
            assert(events@.take(i + 1).drop_last() =~= events@.take(i as int));
            assert(events@.take(i + 1).last() == *event);
        }
        if let Some(found) = root_for_path(roots, event.path.as_str(), resolved) {
            let mine = same_str(found.label.as_str(), list[root].label.as_str());
            proof {
                let k = root_of_event(roots@, *event)->Some_0;
                if mine && k != root {
                    if k < root {
                        assert(roots@[k].label != roots@[root as int].label);
                    } else {
                        assert(roots@[root as int].label != roots@[k].label);
                    }
                }
            }
            if mine {
                let ghost before = out@;
                out.push(i);
                proof {
                    assert(out@.map_values(f) =~= before.map_values(f).push(i as int));
                }
            }
        }
        i += 1;
    }
    proof {
        assert(events@.take(i as int) =~= events@);
    }
    out
}

/// The labels of a list of counts.
pub open spec fn labels_of(list: Seq<CountView>) -> Seq<Seq<char>> {
    list.map_values(|c: CountView| c.label)
}

proof fn inserted_labels(list: Seq<CountView>, x: CountView)
    ensures
        labels_of(count_inserted(list, x)) == inserted(labels_of(list), x.label),
    decreases list.len(),
{
    let labels = labels_of(list);
    let out = count_inserted(list, x);
    if list.len() == 0 || before(x.label, list[0].label) {
        assert(labels_of(out) =~= seq![x.label] + labels);
    } else if list[0].label == x.label {
        assert(labels_of(out) =~= labels);
    } else {
        inserted_labels(list.skip(1), x);
        assert(labels_of(list.skip(1)) =~= labels.skip(1));
        assert(labels_of(out) =~= seq![labels[0]] + inserted(labels.skip(1), x.label));
    }
}

/// Counts are reported in strictly ascending order of their labels, and every root that
/// reported is there.
pub proof fn counts_are_reported_in_order(list: Seq<CountView>)
    ensures
        ascending(labels_of(counts_sorted(list))),
        forall|i: int|
            0 <= i < list.len() ==> labels_of(counts_sorted(list)).contains(
                (#[trigger] list[i]).label,
            ),
    decreases list.len(),
{
    if list.len() > 0 {
        let rest = list.drop_last();
        counts_are_reported_in_order(rest);
        let before_labels = labels_of(counts_sorted(rest));
        inserted_labels(counts_sorted(rest), list.last());
        inserted_keeps_order(before_labels, list.last().label);
        assert forall|i: int| 0 <= i < list.len() implies labels_of(counts_sorted(list)).contains(
            (#[trigger] list[i]).label,
        ) by {
            if i < rest.len() {
                assert(rest[i] == list[i]);
            }
        }
    }
}

/// A search of several units, of which each found something or failed.
pub open spec fn search_after(s: SearchView, results: Seq<Result<Seq<HitView>, Seq<char>>>) -> SearchView
    decreases results.len(),
{
    if results.len() == 0 {
        s
    } else {
        let before = search_after(s, results.drop_last());
        match results.last() {
            Ok(found) => SearchView {
                searched: before.searched + 1,
                hits: before.hits + found,
                ..before
            },
            Err(why) => SearchView { failed: Some(why), ..before },
        }
    }
}

/// A unit that fails ends the search: no further unit is searched, and the failure is
/// what the search comes to.
pub proof fn a_failed_unit_fails_the_search(
    s: SearchView,
    results: Seq<Result<Seq<HitView>, Seq<char>>>,
)
    requires
        results.len() > 0,
        results.last() is Err,
    ensures
        next_of(search_after(s, results)) is None,
        search_after(s, results).failed == Some(results.last()->Err_0),
{
}

/// A search whose units all answered goes through them in order and keeps every hit.
pub proof fn a_search_keeps_every_hit(
    s: SearchView,
    results: Seq<Result<Seq<HitView>, Seq<char>>>,
)
    requires
        s.failed is None,
        s.searched + results.len() <= s.units.len(),
        forall|i: int| 0 <= i < results.len() ==> (#[trigger] results[i]) is Ok,
    ensures
        ({
            let after = search_after(s, results);
            &&& after.failed is None
            &&& after.searched == s.searched + results.len()
            &&& after.units == s.units
            &&& after.hits == s.hits + results.map_values(
                |r: Result<Seq<HitView>, Seq<char>>| r->Ok_0,
            ).flatten()
            &&& next_of(after) == if after.searched < s.units.len() {
                Some(s.units[after.searched as int])
            } else {
                None
            }
        }),
    decreases results.len(),
{
    let oks = results.map_values(|r: Result<Seq<HitView>, Seq<char>>| r->Ok_0);
    if results.len() == 0 {
        assert(oks =~= seq![]);
        assert(s.hits + oks.flatten() =~= s.hits);
    } else {
        let rest = results.drop_last();
        assert forall|i: int| 0 <= i < rest.len() implies (#[trigger] rest[i]) is Ok by {
            assert(rest[i] == results[i]);
        }
        a_search_keeps_every_hit(s, rest);
        assert(results[results.len() - 1] is Ok);
        let before_oks = rest.map_values(|r: Result<Seq<HitView>, Seq<char>>| r->Ok_0);
        assert(oks.drop_last() =~= before_oks);
        assert(oks =~= before_oks.push(results.last()->Ok_0));
        oks.lemma_flatten_and_flatten_alt_are_equivalent();
        before_oks.lemma_flatten_and_flatten_alt_are_equivalent();
        assert(oks.flatten_alt() == before_oks.flatten_alt() + results.last()->Ok_0);
        assert(search_after(s, results).hits =~= s.hits + oks.flatten());
    }
}

/// Every changed path is handed to the root that it belongs to and to no other, and one
/// that belongs to none to none.
pub proof fn an_event_goes_to_its_root(
    roots: Seq<RootView>,
    events: Seq<FileProbe>,
    root: int,
    i: int,
)
    requires
        0 <= i < events.len(),
    ensures
        events_of(roots, events, root).contains(i) <==> root_of_event(roots, events[i]) == Some(
            root,
        ),
        forall|k: int|
            0 <= k < events_of(roots, events, root).len() ==> 0 <= (#[trigger] events_of(
                roots,
                events,
                root,
            )[k]) < events.len(),
    decreases events.len(),
{
    let rest = events.drop_last();
    let n = events.len() - 1;
    let before = events_of(roots, rest, root);
    let out = events_of(roots, events, root);
    if rest.len() > 0 {
        an_event_goes_to_its_root(
            roots,
            rest,
            root,
            if i < n {
                i
            } else {
                0
            },
        );
    }
    assert forall|k: int| 0 <= k < out.len() implies 0 <= (#[trigger] out[k]) < events.len() by {
        if k < before.len() {
            assert(out[k] == before[k]);
        }
    }
    if i < n {
        assert(rest[i] == events[i]);
        if before.contains(i) {
            let k = choose|k: int| 0 <= k < before.len() && before[k] == i;
            assert(out[k] == i);
        }
        if out.contains(i) {
            let k = choose|k: int| 0 <= k < out.len() && out[k] == i;
            assert(k < before.len());
            assert(before[k] == i);
        }
    } else {
        if root_of_event(roots, events[i]) == Some(root) {
            assert(out[before.len() as int] == n);
        } else if out.contains(i) {
            let k = choose|k: int| 0 <= k < out.len() && out[k] == i;
            assert(before[k] == n);
        }
    }
}

/// Every count is reported as it came in: where no label comes twice, what a root said is
/// in the report, and nothing else is.
pub proof fn counts_are_reported_as_they_came(list: Seq<CountView>)
    requires
        forall|i: int, j: int|
            0 <= i < j < list.len() ==> (#[trigger] list[i]).label != (#[trigger] list[j]).label,
    ensures
        counts_sorted(list).len() == list.len(),
        forall|c: CountView| #[trigger] counts_sorted(list).contains(c) <==> list.contains(c),
    decreases list.len(),
{
    if list.len() > 0 {
        let rest = list.drop_last();
        let x = list.last();
        let before = counts_sorted(rest);
        let out = counts_sorted(list);
        assert forall|i: int, j: int| 0 <= i < j < rest.len() implies (#[trigger] rest[i]).label
            != (#[trigger] rest[j]).label by {
            assert(list[i].label != list[j].label);
        }
        counts_are_reported_as_they_came(rest);
        assert forall|i: int| 0 <= i < before.len() implies (#[trigger] before[i]).label
            != x.label by {
            assert(before.contains(before[i]));
            let k = choose|k: int| 0 <= k < rest.len() && rest[k] == before[i];
            assert(list[k].label != list[list.len() - 1].label);
        }
        inserted_is_one_more(before, x);
        assert forall|c: CountView| #[trigger] out.contains(c) <==> list.contains(c) by {
            if rest.contains(c) {
                let k = choose|k: int| 0 <= k < rest.len() && rest[k] == c;
                assert(list[k] == c);
            }
            if list.contains(c) {
                let k = choose|k: int| 0 <= k < list.len() && list[k] == c;
                if k < rest.len() {
                    assert(rest[k] == c);
                    assert(before.contains(c));
                }
            }
            if c == x {
                assert(list[list.len() - 1] == c);
            }
        }
    }
}

proof fn inserted_is_one_more(list: Seq<CountView>, x: CountView)
    requires
        forall|i: int| 0 <= i < list.len() ==> (#[trigger] list[i]).label != x.label,
    ensures
        count_inserted(list, x).len() == list.len() + 1,
        forall|c: CountView| #[trigger]
            count_inserted(list, x).contains(c) <==> list.contains(c) || c == x,
    decreases list.len(),
{
    let out = count_inserted(list, x);
    if list.len() == 0 || before(x.label, list[0].label) {
        assert(out[0] == x);
        assert forall|c: CountView| #[trigger] out.contains(c) <==> list.contains(c) || c
            == x by {
            if list.contains(c) {
                let k = choose|k: int| 0 <= k < list.len() && list[k] == c;
                assert(out[k + 1] == c);
            }
            if out.contains(c) {
                let k = choose|k: int| 0 <= k < out.len() && out[k] == c;
                if k > 0 {
                    assert(list[k - 1] == c);
                }
            }
        }
    } else {
        let rest = list.skip(1);
        assert(list[0].label != x.label);
        assert forall|i: int| 0 <= i < rest.len() implies (#[trigger] rest[i]).label
            != x.label by {
            assert(rest[i] == list[i + 1]);
        }
        inserted_is_one_more(rest, x);
        let tail = count_inserted(rest, x);
        assert(out == seq![list[0]] + tail);
        assert forall|c: CountView| #[trigger] out.contains(c) <==> list.contains(c) || c
            == x by {
            if out.contains(c) {
                let k = choose|k: int| 0 <= k < out.len() && out[k] == c;
                if k > 0 {
                    assert(tail[k - 1] == c);
                    assert(tail.contains(c));
                    if rest.contains(c) {
                        let j = choose|j: int| 0 <= j < rest.len() && rest[j] == c;
                        assert(list[j + 1] == c);
                    }
                } else {
                    assert(list[0] == c);
                }
            }
            if list.contains(c) {
                let k = choose|k: int| 0 <= k < list.len() && list[k] == c;
                if k > 0 {
                    assert(rest[k - 1] == c);
                    assert(tail.contains(c));
                    let j = choose|j: int| 0 <= j < tail.len() && tail[j] == c;
                    assert(out[j + 1] == c);
                } else {
                    assert(out[0] == c);
                }
            }
            if c == x {
                assert(tail.contains(c));
                let j = choose|j: int| 0 <= j < tail.len() && tail[j] == c;
                assert(out[j + 1] == c);
            }
        }
    }
}

/// The hook is shown at most three pointers, and nothing below the threshold: each clears
/// it, and is at the file of a hit that has its cosine.
pub proof fn the_hook_is_shown_little_and_only_what_clears_the_threshold(
    hits: Seq<HitView>,
    roots: Seq<(&str, &str)>,
    i: int,
)
    requires
        0 <= i < round_robin(consolidated(hits, roots), HOOK_MAX_HITS as nat).len(),
    ensures
        ({
            let out = round_robin(consolidated(hits, roots), HOOK_MAX_HITS as nat);
            &&& out.len() <= 3
            &&& rank(0x3f40_0000) <= rank(out[i].cosine)
            &&& exists|m: int|
                0 <= m < hits.len() && (#[trigger] hits[m]).source_type == out[i].source_type
                    && hits[m].rel_path == out[i].rel_path && hits[m].cosine == out[i].cosine
                    && hits[m].heading_path == out[i].heading_path
        }),
{
    let best = consolidated(hits, roots);
    let out = round_robin(best, HOOK_MAX_HITS as nat);
    one_pointer_per_file_at_its_best(hits, roots);
    the_first_slot_goes_to_the_highest_cosine(best, HOOK_MAX_HITS as nat);
    slots_go_to_pointers_that_are_there(best, HOOK_MAX_HITS as nat, out[i]);
    assert(out.contains(out[i]));
    let k = choose|k: int| 0 <= k < best.len() && best[k] == out[i];
    the_threshold_is_three_quarters(best[k].cosine);
    assert(is_best(hits, best[k]));
    let m = choose|m: int|
        0 <= m < hits.len() && points_at(best[k], #[trigger] hits[m]) && hits[m].cosine
            == best[k].cosine && hits[m].heading_path == best[k].heading_path;
    assert(hits[m].source_type == out[i].source_type);
}

/// What a request needs first follows from its kind; a recall needs the table exactly where
/// its prompt says something.
pub proof fn a_request_needs_what_its_kind_needs(request: Request)
    ensures
        request is Ping <==> first_step_of(request) == FirstStep::Pong,
        request is Status <==> first_step_of(request) == FirstStep::CountRows,
        request is Search ==> first_step_of(request) == FirstStep::OpenTable,
        request matches Request::Recall { prompt } ==> (first_step_of(request)
            == FirstStep::OpenTable <==> !blank(prompt@)) && (first_step_of(request)
            == FirstStep::NothingFound <==> blank(prompt@)),
        request matches Request::Reindex { full } ==> first_step_of(request) == (
        FirstStep::Reindex { full }),
{
}

/// An answer of nothing holds no pointer and no cosine, and says how long it took; an error
/// says the words and nothing else.
pub proof fn an_answer_says_what_happened(response: Response, elapsed_ms: u64, words: Seq<char>)
    ensures
        answers_nothing(response, elapsed_ms) <==> (response matches Response::Pointers {
            pointers,
            elapsed_ms: ms,
            top_cosine: None,
        } && pointers@ == Seq::<Pointer>::empty() && ms == elapsed_ms),
        answers_error(response, words) <==> (response matches Response::Error { message }
            && message@ == words),
{
    if let Response::Pointers { pointers, elapsed_ms: ms, top_cosine } = response {
        if pointers@.len() == 0 {
            assert(pointers@ =~= Seq::<Pointer>::empty());
        }
    }
}

/// What is said of a socket path that is too long names the path, its length in bytes and
/// the limit.
pub proof fn a_long_socket_path_is_named(path: Seq<char>)
    ensures
        is_part_of("socket path is "@ + decimal(encode_utf8(path).len()) + " bytes"@, socket_words(path)),
        is_part_of("must be under "@ + decimal(104), socket_words(path)),
        is_part_of(path, socket_words(path)),
{
    reveal_strlit(" bytes, must be under ");
    reveal_strlit(" bytes");
    reveal_strlit(", ");
    reveal_strlit("must be under ");
    let n = decimal(encode_utf8(path).len());
    let end = "\nSet SLOOP_MEMORY_SOCKET (or SLOOP_MEMORY_STATE) to something shorter."@;
    let all = socket_words(path);
    assert(" bytes, must be under "@ =~= " bytes"@ + ", "@ + "must be under "@);
    assert(all =~= Seq::<char>::empty() + ("socket path is "@ + n + " bytes"@) + (", "@
        + "must be under "@ + decimal(104) + ": "@ + path + end));
    assert(all =~= ("socket path is "@ + n + " bytes"@ + ", "@) + ("must be under "@ + decimal(104))
        + (": "@ + path + end));
    assert(all =~= ("socket path is "@ + n + " bytes"@ + ", "@ + "must be under "@ + decimal(104)
        + ": "@) + path + end);
}

} // verus!
