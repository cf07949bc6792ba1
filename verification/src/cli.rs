//! What the command line prints, and how it goes on after the daemon answered.
use vstd::prelude::*;
use crate::chunk_cover::is_part_of;
use crate::daemon::{count_views, CountView};
use crate::index::IndexStats;
use crate::number::{decimal, fixed, push_decimal, push_fixed};
use crate::proto::{LabelCount, Response};
use crate::recall::{Hit, HitView};
use crate::store::{push_string, RootCount};
use crate::text::{chars_of, push_str, string_of, strings};

verus! {

/// The line of one root.
pub open spec fn status_line(c: CountView) -> Seq<char> {
    match c.count {
        RootCount::Rows(n) => c.label + ":   "@ + decimal(n as nat) + " rows"@,
        RootCount::Error(why) => c.label + ":   ERROR -- "@ + why@,
    }
}

/// The lines of a status report.
pub open spec fn status_lines(counts: Seq<CountView>, db: Seq<char>) -> Seq<Seq<char>> {
    counts.map_values(|c: CountView| status_line(c)).push("db:      "@ + db)
}

/// Every root reported a count.
pub open spec fn all_answered(counts: Seq<CountView>) -> bool {
    forall|i: int| 0 <= i < counts.len() ==> (#[trigger] counts[i]).count is Rows
}

/// A status report: what is printed, and whether every root answered.
#[derive(Debug)]
pub struct StatusReport {
    pub lines: Vec<String>,
    pub all_ok: bool,
}

/// Reports what the roots answered. The same with and without a daemon, so that the two
/// can never render differently. A root that failed to report is not the same as one
/// with no rows, so that the caller can fail the command visibly rather than succeed
/// over a partial answer.
pub fn print_status(counts: &Vec<LabelCount>, db: &str) -> (out: StatusReport)
    ensures
        strings(out.lines@) == status_lines(count_views(counts@), db@),
        out.all_ok == all_answered(count_views(counts@)),
{
    let ghost all = count_views(counts@);
    let ghost want = all.map_values(|c: CountView| status_line(c));
    let mut lines: Vec<String> = Vec::new();
    let mut all_ok = true;
    let mut i: usize = 0;
    proof {
        assert(strings(lines@) =~= want.take(0));
    }
    while i < counts.len()
        invariant
            i <= counts@.len(),
            all == count_views(counts@),
            want == all.map_values(|c: CountView| status_line(c)),
            strings(lines@) == want.take(i as int),
            all_ok == forall|j: int| 0 <= j < i ==> (#[trigger] all[j]).count is Rows,
        decreases counts.len() - i,
    {
        let c = &counts[i];
        proof {
            assert(all[i as int] == c@);
        }
        let mut line = chars_of(c.label.as_str());
        match &c.count {
            RootCount::Rows(n) => {
                push_str(&mut line, ":   ");
                push_decimal(&mut line, *n as u64);
                push_str(&mut line, " rows");
            },
            RootCount::Error(why) => {
                push_str(&mut line, ":   ERROR -- ");
                push_str(&mut line, why.as_str());
                all_ok = false;
            },
        }
        push_string(&mut lines, line.as_slice());
        i += 1;
        proof {
            assert(want.take(i as int) =~= want.take(i - 1).push(want[i - 1]));
        }
    }
    let mut last = chars_of("db:      ");
    push_str(&mut last, db);
    proof {
        assert(want.take(i as int) =~= want);
        assert(all.len() == counts@.len());
    }
    push_string(&mut lines, last.as_slice());
    StatusReport { lines, all_ok }
}

/// `status` is meant to be scriptable: a monitoring job needs a failing exit when any
/// root failed to answer, not just a line of text a human might not be watching.
pub fn status_exit(all_ok: bool) -> (out: Result<(), String>)
    ensures
        match out {
            Ok(_) => all_ok,
            Err(why) => !all_ok && why@ == "one or more roots failed to report a row count"@,
        },
{
    if all_ok {
        Ok(())
    } else {
        Err(
            string_of(chars_of("one or more roots failed to report a row count").as_slice()),
        )
    }
}

/// What is printed of an index run.
pub open spec fn stats_lines(stats: IndexStats, via: Seq<char>) -> Seq<Seq<char>> {
    seq![
        "scanned "@ + decimal(stats.scanned as nat) + " notes, "@ + decimal(stats.changed as nat)
            + " changed, "@ + decimal(stats.removed as nat) + " removed, "@ + decimal(
            stats.chunks_written as nat,
        ) + " chunks written ("@ + via + ")"@,
        "  time: embed "@ + decimal(stats.embed_ms as nat) + "ms, write "@ + decimal(
            stats.write_ms as nat,
        ) + "ms, index-build "@ + decimal(stats.post_index_ms as nat) + "ms"@,
    ] + strings(stats.indexes@).map_values(|line: Seq<char>| "  index: "@ + line)
}

/// Reports an index run.
pub fn print_index_stats(stats: &IndexStats, via: &str) -> (out: Vec<String>)
    ensures
        strings(out@) == stats_lines(*stats, via@),
{
    let mut out: Vec<String> = Vec::new();
    let mut one = chars_of("scanned ");
    push_decimal(&mut one, stats.scanned as u64);
    push_str(&mut one, " notes, ");
    push_decimal(&mut one, stats.changed as u64);
    push_str(&mut one, " changed, ");
    push_decimal(&mut one, stats.removed as u64);
    push_str(&mut one, " removed, ");
    push_decimal(&mut one, stats.chunks_written as u64);
    push_str(&mut one, " chunks written (");
    push_str(&mut one, via);
    push_str(&mut one, ")");
    push_string(&mut out, one.as_slice());
    let mut two = chars_of("  time: embed ");
    push_decimal(&mut two, stats.embed_ms);
    push_str(&mut two, "ms, write ");
    push_decimal(&mut two, stats.write_ms);
    push_str(&mut two, "ms, index-build ");
    push_decimal(&mut two, stats.post_index_ms);
    push_str(&mut two, "ms");
    push_string(&mut out, two.as_slice());
    let ghost more = strings(stats.indexes@).map_values(|line: Seq<char>| "  index: "@ + line);
    let ghost head = strings(out@);
    let mut i: usize = 0;
    proof {
        assert(head =~= seq![one@, two@]);
        assert(strings(out@) =~= head + more.take(0));
    }
    while i < stats.indexes.len()
        invariant
            i <= stats.indexes@.len(),
            more == strings(stats.indexes@).map_values(|line: Seq<char>| "  index: "@ + line),
            strings(out@) == head + more.take(i as int),
        decreases stats.indexes.len() - i,
    {
        let mut line = chars_of("  index: ");
        push_str(&mut line, stats.indexes[i].as_str());
        push_string(&mut out, line.as_slice());
        i += 1;
        proof {
            assert(more.take(i as int) =~= more.take(i - 1).push(more[i - 1]));
            assert(strings(out@) =~= head + more.take(i as int));
        }
    }
    proof {
        assert(more.take(i as int) =~= more);
    }
    out
}

/// How many characters of a chunk a hit shows.
pub const SNIPPET_CHARS: usize = 120;

/// A text on one line: every line feed becomes a blank.
pub open spec fn on_one_line(s: Seq<char>) -> Seq<char> {
    s.map_values(
        |c: char|
            if c == '\n' {
                ' '
            } else {
                c
            },
    )
}

/// The first characters of a text.
pub open spec fn head_of(s: Seq<char>, n: nat) -> Seq<char> {
    if s.len() <= n {
        s
    } else {
        s.take(n as int)
    }
}

/// The two lines of a hit: how it scored and where it is, and how it starts.
pub open spec fn hit_lines_of(h: HitView) -> (Seq<char>, Seq<char>) {
    let place = if h.heading_path.len() == 0 {
        h.rel_path
    } else {
        h.rel_path + " > "@ + h.heading_path
    };
    (
        "rrf="@ + fixed(h.score, 4) + " cos="@ + fixed(h.cosine, 4) + "  "@ + place,
        "        "@ + on_one_line(head_of(h.text, SNIPPET_CHARS as nat)),
    )
}

/// The two lines of a hit.
pub fn hit_lines(hit: &Hit) -> (out: (String, String))
    ensures
        (out.0@, out.1@) == hit_lines_of(hit@),
{
    let mut one = chars_of("rrf=");
    push_fixed(&mut one, hit.score, 4);
    push_str(&mut one, " cos=");
    push_fixed(&mut one, hit.cosine, 4);
    push_str(&mut one, "  ");
    push_str(&mut one, hit.rel_path.as_str());
    let heading = chars_of(hit.heading_path.as_str());
    if heading.len() > 0 {
        push_str(&mut one, " > ");
        push_str(&mut one, hit.heading_path.as_str());
    }
    proof {
        assert(one@ =~= hit_lines_of(hit@).0);
    }
    let text = chars_of(hit.text.as_str());
    let n: usize = if text.len() <= SNIPPET_CHARS {
        text.len()
    } else {
        SNIPPET_CHARS
    };
    let ghost head = head_of(text@, SNIPPET_CHARS as nat);
    let mut two = chars_of("        ");
    let ghost start = two@;
    let mut i: usize = 0;
    proof {
        assert(head =~= text@.take(n as int));
        assert(two@ =~= start + on_one_line(head.take(0)));
    }
    while i < n
        invariant
            i <= n <= text@.len(),
            head == text@.take(n as int),
            two@ == start + on_one_line(head.take(i as int)),
        decreases n - i,
    {
        let c = text[i];
        two.push(
            if c == '\n' {
                ' '
            } else {
                c
            },
        );
        i += 1;
        proof {
            assert(head.take(i as int) =~= head.take(i - 1).push(c));
            assert(two@ =~= start + on_one_line(head.take(i as int)));
        }
    }
    proof {
        assert(head.take(i as int) =~= head);
    }
    (string_of(one.as_slice()), string_of(two.as_slice()))
}

/// How a command goes on after the daemon answered, or did not.
#[derive(Debug)]
pub enum AfterAsking {
    /// An index run was done.
    Indexed(IndexStats),
    /// A search was done.
    Found(Vec<Hit>),
    /// The roots were counted, in the given database.
    Counted(Vec<LabelCount>, String),
    /// The daemon refused, and so does the command.
    Failed(String),
    /// The work is done in this process.
    InProcess,
}

/// What a refusal of the daemon is reported as.
pub open spec fn refused(message: Seq<char>) -> Seq<char> {
    "daemon: "@ + message
}

fn refusal(message: &String) -> (out: String)
    ensures
        out@ == refused(message@),
{
    let mut out = chars_of("daemon: ");
    push_str(&mut out, message.as_str());
    string_of(out.as_slice())
}

/// How the `index` command goes on: it prefers the warm daemon, and falls back to doing
/// the work itself so that it works when no daemon is running.
pub fn after_index_request(reply: Option<Response>) -> (out: AfterAsking)
    ensures
        match reply {
            Some(Response::Reindexed { stats }) => out matches AfterAsking::Indexed(done) && done
                == stats,
            Some(Response::Error { message }) => out matches AfterAsking::Failed(why) && why@
                == refused(message@),
            _ => out is InProcess,
        },
{
    match reply {
        Some(Response::Reindexed { stats }) => AfterAsking::Indexed(stats),
        Some(Response::Error { message }) => AfterAsking::Failed(refusal(&message)),
        _ => AfterAsking::InProcess,
    }
}

/// How the `search` command goes on.
pub fn after_search_request(reply: Option<Response>) -> (out: AfterAsking)
    ensures
        match reply {
            Some(Response::Hits { hits, .. }) => out matches AfterAsking::Found(found) && found
                == hits,
            Some(Response::Error { message }) => out matches AfterAsking::Failed(why) && why@
                == refused(message@),
            _ => out is InProcess,
        },
{
    match reply {
        Some(Response::Hits { hits, .. }) => AfterAsking::Found(hits),
        Some(Response::Error { message }) => AfterAsking::Failed(refusal(&message)),
        _ => AfterAsking::InProcess,
    }
}

/// How the `status` command goes on.
pub fn after_status_request(reply: Option<Response>) -> (out: AfterAsking)
    ensures
        match reply {
            Some(Response::Status { roots, db }) => out matches AfterAsking::Counted(counts, dir)
                && counts == roots && dir == db,
            _ => out is InProcess,
        },
{
    match reply {
        Some(Response::Status { roots, db }) => AfterAsking::Counted(roots, db),
        _ => AfterAsking::InProcess,
    }
}

/// Every root has a line of its own, which begins with its label and says its number of
/// rows or what went wrong; the database stands behind them.
pub proof fn every_root_has_its_line(counts: Seq<CountView>, db: Seq<char>, i: int)
    requires
        0 <= i < counts.len(),
    ensures
        status_lines(counts, db).len() == counts.len() + 1,
        counts[i].count matches RootCount::Rows(n) ==> status_lines(counts, db)[i]
            == counts[i].label + ":   "@ + decimal(n as nat) + " rows"@,
        counts[i].count matches RootCount::Error(why) ==> status_lines(counts, db)[i]
            == counts[i].label + ":   ERROR -- "@ + why@ && !all_answered(counts),
        status_lines(counts, db).last() == "db:      "@ + db,
{
}

/// A report of an index run has a line for every line of its indexes, in order.
pub proof fn every_index_line_is_printed(stats: IndexStats, via: Seq<char>, i: int)
    requires
        0 <= i < stats.indexes@.len(),
    ensures
        stats_lines(stats, via).len() == 2 + stats.indexes@.len(),
        stats_lines(stats, via)[2 + i] == "  index: "@ + stats.indexes@[i]@,
{
}

/// A hit's second line is the start of its text on one line: it holds no line feed, and
/// as many characters as the text, up to a hundred and twenty.
pub proof fn a_snippet_is_the_start_on_one_line(h: HitView)
    ensures
        ({
            let line = hit_lines_of(h).1;
            let n: int = if h.text.len() < 120 {
                h.text.len() as int
            } else {
                120
            };
            &&& line.len() == 8 + n
            &&& forall|j: int|
                0 <= j < n ==> #[trigger] line[8 + j] == if h.text[j] == '\n' {
                    ' '
                } else {
                    h.text[j]
                }
        }),
{
    reveal_strlit("        ");
}

/// A report of an index run says every number of it, each under its name.
pub proof fn a_report_says_every_number(stats: IndexStats, via: Seq<char>)
    ensures
        ({
            let counts = stats_lines(stats, via)[0];
            let times = stats_lines(stats, via)[1];
            &&& is_part_of("scanned "@ + decimal(stats.scanned as nat) + " notes"@, counts)
            &&& is_part_of(", "@ + decimal(stats.changed as nat) + " changed"@, counts)
            &&& is_part_of(", "@ + decimal(stats.removed as nat) + " removed"@, counts)
            &&& is_part_of(decimal(stats.chunks_written as nat) + " chunks written"@, counts)
            &&& is_part_of("("@ + via + ")"@, counts)
            &&& is_part_of("embed "@ + decimal(stats.embed_ms as nat) + "ms"@, times)
            &&& is_part_of("write "@ + decimal(stats.write_ms as nat) + "ms"@, times)
            &&& is_part_of("index-build "@ + decimal(stats.post_index_ms as nat) + "ms"@, times)
        }),
{
    counts_are_said(stats, via);
    times_are_said(stats, via);
}

proof fn counts_are_said(stats: IndexStats, via: Seq<char>)
    ensures
        ({
            let counts = stats_lines(stats, via)[0];
            &&& is_part_of("scanned "@ + decimal(stats.scanned as nat) + " notes"@, counts)
            &&& is_part_of(", "@ + decimal(stats.changed as nat) + " changed"@, counts)
            &&& is_part_of(", "@ + decimal(stats.removed as nat) + " removed"@, counts)
            &&& is_part_of(decimal(stats.chunks_written as nat) + " chunks written"@, counts)
            &&& is_part_of("("@ + via + ")"@, counts)
        }),
{
    let a = decimal(stats.scanned as nat);
    let b = decimal(stats.changed as nat);
    let c = decimal(stats.removed as nat);
    let d = decimal(stats.chunks_written as nat);
    let all = stats_lines(stats, via)[0];
    let comma = ", "@;
    reveal_strlit(", ");
    reveal_strlit(" notes, ");
    reveal_strlit(" notes");
    reveal_strlit(" changed, ");
    reveal_strlit(" changed");
    reveal_strlit(" removed, ");
    reveal_strlit(" removed");
    reveal_strlit(" chunks written (");
    reveal_strlit(" chunks written");
    reveal_strlit("(");
    assert(" notes, "@ =~= " notes"@ + comma);
    assert(" changed, "@ =~= " changed"@ + comma);
    assert(" removed, "@ =~= " removed"@ + comma);
    assert(" chunks written ("@ =~= " chunks written"@ + seq![' '] + "("@);
    let p = "scanned "@ + a + " notes"@;
    let q = comma + b + " changed"@;
    let r = comma + c + " removed"@;
    let s = d + " chunks written"@;
    let v = "("@ + via + ")"@;
    assert(all =~= p + q + r + comma + s + seq![' '] + v);
    assert(all =~= Seq::<char>::empty() + p + (q + r + comma + s + seq![' '] + v));
    assert(all =~= p + q + (r + comma + s + seq![' '] + v));
    assert(all =~= (p + q) + r + (comma + s + seq![' '] + v));
    assert(all =~= (p + q + r + comma) + s + (seq![' '] + v));
    assert(all =~= (p + q + r + comma + s + seq![' ']) + v + Seq::<char>::empty());
}

proof fn times_are_said(stats: IndexStats, via: Seq<char>)
    ensures
        ({
            let times = stats_lines(stats, via)[1];
            &&& is_part_of("embed "@ + decimal(stats.embed_ms as nat) + "ms"@, times)
            &&& is_part_of("write "@ + decimal(stats.write_ms as nat) + "ms"@, times)
            &&& is_part_of("index-build "@ + decimal(stats.post_index_ms as nat) + "ms"@, times)
        }),
{
    let a = decimal(stats.embed_ms as nat);
    let b = decimal(stats.write_ms as nat);
    let c = decimal(stats.post_index_ms as nat);
    let all = stats_lines(stats, via)[1];
    reveal_strlit("  time: embed ");
    reveal_strlit("  time: ");
    reveal_strlit("embed ");
    reveal_strlit("ms, write ");
    reveal_strlit("ms");
    reveal_strlit(", ");
    reveal_strlit("write ");
    reveal_strlit("ms, index-build ");
    reveal_strlit("index-build ");
    assert("  time: embed "@ =~= "  time: "@ + "embed "@);
    assert("ms, write "@ =~= "ms"@ + ", "@ + "write "@);
    assert("ms, index-build "@ =~= "ms"@ + ", "@ + "index-build "@);
    let p = "embed "@ + a + "ms"@;
    let q = "write "@ + b + "ms"@;
    let r = "index-build "@ + c + "ms"@;
    assert(all =~= "  time: "@ + p + ", "@ + q + ", "@ + r);
    assert(all =~= "  time: "@ + p + (", "@ + q + ", "@ + r));
    assert(all =~= ("  time: "@ + p + ", "@) + q + (", "@ + r));
    assert(all =~= ("  time: "@ + p + ", "@ + q + ", "@) + r + Seq::<char>::empty());
}

/// A hit's first line says both of its numbers, and where it stands: in which file, and
/// under which headings where it stands under any.
pub proof fn a_hits_line_says_where_it_stands(h: HitView)
    ensures
        is_part_of("rrf="@ + fixed(h.score, 4), hit_lines_of(h).0),
        is_part_of("cos="@ + fixed(h.cosine, 4), hit_lines_of(h).0),
        h.heading_path.len() == 0 ==> h.rel_path.is_suffix_of(hit_lines_of(h).0),
        h.heading_path.len() > 0 ==> (h.rel_path + " > "@ + h.heading_path).is_suffix_of(
            hit_lines_of(h).0,
        ),
{
    let all = hit_lines_of(h).0;
    let place = if h.heading_path.len() == 0 {
        h.rel_path
    } else {
        h.rel_path + " > "@ + h.heading_path
    };
    reveal_strlit(" cos=");
    reveal_strlit("cos=");
    assert(" cos="@ =~= seq![' '] + "cos="@);
    let a = "rrf="@ + fixed(h.score, 4);
    let b = "cos="@ + fixed(h.cosine, 4);
    assert(all =~= Seq::<char>::empty() + a + (seq![' '] + b + "  "@ + place));
    assert(all =~= (a + seq![' ']) + b + ("  "@ + place));
    assert(place =~= all.subrange(all.len() - place.len(), all.len() as int));
}

} // verus!
