//! The stdio tool server's decisions.
//!
//! This is the on-demand half of the design. The prompt hook fires mechanically but only
//! ever hands over pointers; this exposes a tool the model can choose to call when it
//! actually wants the contents, with filters and a depth the hook deliberately will not
//! provide.
//!
//! Line-delimited JSON-RPC on stdin/stdout.
use vstd::prelude::*;
use crate::chunk_cover::{is_part_of, part_of_longer, part_of_part};
use crate::daemon::{count_views, CountView};
use crate::json::{
    json_number, json_number_at, json_string, json_string_at, json_value, json_value_at,
};
use crate::number::{decimal, fixed, push_decimal, push_fixed};
use crate::proto::{LabelCount, Request, Response};
use crate::recall::{hit_views, Hit, HitView};
use crate::store::RootCount;
use crate::text::{
    blank, chars_of, is_blank, join, joined, push_str, push_text, same_str, string_of,
    texts,
};

verus! {

/// The protocol version that is answered where the client names none.
pub const FALLBACK_PROTOCOL_VERSION: &'static str = "2025-06-18";

/// What a tool call is to do: ask the daemon, or refuse with the given words.
#[derive(Debug)]
pub enum ToolPlan {
    Search(Request),
    Status(Request),
    Refuse(String),
}

/// How many hits a search is for: what the caller says, three where it says nothing,
/// and between one and ten.
pub open spec fn hits_wanted(k: Option<u64>) -> int {
    match k {
        Some(n) => if n < 1 {
            1
        } else if n > 10 {
            10
        } else {
            n as int
        },
        None => 3,
    }
}

/// What a tool call is to do.
pub open spec fn plans(
    plan: ToolPlan,
    name: Seq<char>,
    query: Option<Seq<char>>,
    k: Option<u64>,
    filter: Option<Seq<char>>,
) -> bool {
    if name == "sloop_search"@ {
        match query {
            Some(q) if !blank(q) => plan matches ToolPlan::Search(
                Request::Search { query: asked, k: n, filter: f },
            ) && asked@ == q && n == hits_wanted(k) && filter == match f {
                Some(text) => Some(text@),
                None => None,
            },
            _ => plan matches ToolPlan::Refuse(why) && why@ == "query is required"@,
        }
    } else if name == "sloop_status"@ {
        plan matches ToolPlan::Status(Request::Status)
    } else {
        plan matches ToolPlan::Refuse(why) && why@ == "unknown tool: "@ + name
    }
}

/// The text that an optional string stands for.
pub open spec fn optional(s: Option<&str>) -> Option<Seq<char>> {
    match s {
        Some(text) => Some(text@),
        None => None,
    }
}

/// Decides what a tool call is to do.
pub fn plan_tool(name: &str, query: Option<&str>, k: Option<u64>, filter: Option<&str>) -> (out:
    ToolPlan)
    ensures
        plans(out, name@, optional(query), k, optional(filter)),
{
    if same_str(name, "sloop_search") {
        let asked = match query {
            Some(q) => chars_of(q),
            None => Vec::new(),
        };
        if is_blank(asked.as_slice()) {
            return ToolPlan::Refuse(string_of(chars_of("query is required").as_slice()));
        }
        let n: usize = match k {
            Some(n) => if n < 1 {
                1
            } else if n > 10 {
                10
            } else {
                n as usize
            },
            None => 3,
        };
        ToolPlan::Search(
            Request::Search {
                query: string_of(asked.as_slice()),
                k: n,
                filter: match filter {
                    Some(f) => Some(string_of(chars_of(f).as_slice())),
                    None => None,
                },
            },
        )
    } else if same_str(name, "sloop_status") {
        ToolPlan::Status(Request::Status)
    } else {
        let mut why = chars_of("unknown tool: ");
        push_str(&mut why, name);
        ToolPlan::Refuse(string_of(why.as_slice()))
    }
}

/// What a line of the protocol is answered with.
#[derive(Debug)]
pub enum RpcPlan {
    /// Nothing: the line is blank, no JSON, or a notification, which carries no id and
    /// must not be answered.
    Skip,
    /// The server's description, in the given version of the protocol.
    Initialize { id: String, version: String },
    /// The tools there are.
    ListTools { id: String },
    /// A tool's answer.
    Call { id: String, plan: ToolPlan },
    /// An empty result.
    Pong { id: String },
    /// An error that says that there is no such method.
    NotFound { id: String, message: String },
}

/// What a request is answered with, given what it says.
pub open spec fn routes(
    out: RpcPlan,
    id: Seq<char>,
    method: Seq<char>,
    version: Option<Seq<char>>,
    name: Seq<char>,
    query: Option<Seq<char>>,
    k: Option<u64>,
    filter: Option<Seq<char>>,
) -> bool {
    if method == "initialize"@ {
        out matches RpcPlan::Initialize { id: i, version: v } && i@ == id && v@ == match version {
            Some(named) => named,
            None => FALLBACK_PROTOCOL_VERSION@,
        }
    } else if method == "tools/list"@ {
        out matches RpcPlan::ListTools { id: i } && i@ == id
    } else if method == "tools/call"@ {
        out matches RpcPlan::Call { id: i, plan } && i@ == id && plans(plan, name, query, k, filter)
    } else if method == "ping"@ {
        out matches RpcPlan::Pong { id: i } && i@ == id
    } else {
        out matches RpcPlan::NotFound { id: i, message } && i@ == id && message@
            == "method not found: "@ + method
    }
}

/// Decides what a request is answered with, given what it says.
pub fn route(
    id: &str,
    method: &str,
    version: Option<&str>,
    name: &str,
    query: Option<&str>,
    k: Option<u64>,
    filter: Option<&str>,
) -> (out: RpcPlan)
    ensures
        routes(
            out,
            id@,
            method@,
            optional(version),
            name@,
            optional(query),
            k,
            optional(filter),
        ),
{
    let id = string_of(chars_of(id).as_slice());
    if same_str(method, "initialize") {
        let version = match version {
            Some(v) => string_of(chars_of(v).as_slice()),
            None => string_of(chars_of(FALLBACK_PROTOCOL_VERSION).as_slice()),
        };
        RpcPlan::Initialize { id, version }
    } else if same_str(method, "tools/list") {
        RpcPlan::ListTools { id }
    } else if same_str(method, "tools/call") {
        RpcPlan::Call { id, plan: plan_tool(name, query, k, filter) }
    } else if same_str(method, "ping") {
        RpcPlan::Pong { id }
    } else {
        let mut message = chars_of("method not found: ");
        push_str(&mut message, method);
        RpcPlan::NotFound { id, message: string_of(message.as_slice()) }
    }
}

/// A text, or the empty one.
pub open spec fn or_empty(s: Option<Seq<char>>) -> Seq<char> {
    match s {
        Some(text) => text,
        None => seq![],
    }
}

/// A view of an optional string of one's own.
fn borrowed(s: &Option<String>) -> (out: Option<&str>)
    ensures
        optional(out) == match *s {
            Some(text) => Some(text@),
            None => None,
        },
{
    match s {
        Some(text) => Some(text.as_str()),
        None => None,
    }
}

/// Decides what a line is answered with: reads what it says, and routes it.
pub fn read_line(line: &str) -> (out: RpcPlan)
    ensures
        match json_value_at(line@, "/id"@) {
            Some(id) if !blank(line@) => routes(
                out,
                id,
                or_empty(json_string_at(line@, "/method"@)),
                json_string_at(line@, "/params/protocolVersion"@),
                or_empty(json_string_at(line@, "/params/name"@)),
                json_string_at(line@, "/params/arguments/query"@),
                json_number_at(line@, "/params/arguments/k"@),
                json_string_at(line@, "/params/arguments/filter"@),
            ),
            _ => out is Skip,
        },
{
    if is_blank(chars_of(line).as_slice()) {
        return RpcPlan::Skip;
    }
    let id = match json_value(line, "/id") {
        Some(id) => id,
        None => {
            return RpcPlan::Skip;
        },
    };
    let method = match json_string(line, "/method") {
        Some(method) => method,
        None => String::new(),
    };
    let name = match json_string(line, "/params/name") {
        Some(name) => name,
        None => String::new(),
    };
    let version = json_string(line, "/params/protocolVersion");
    let query = json_string(line, "/params/arguments/query");
    let k = json_number(line, "/params/arguments/k");
    let filter = json_string(line, "/params/arguments/filter");
    proof {
        assert(or_empty(json_string_at(line@, "/method"@)) =~= method@);
        assert(or_empty(json_string_at(line@, "/params/name"@)) =~= name@);
    }
    route(
        id.as_str(),
        method.as_str(),
        borrowed(&version),
        name.as_str(),
        borrowed(&query),
        k,
        borrowed(&filter),
    )
}

/// What a tool answers: a text, which may be an error.
#[derive(Debug, Clone, PartialEq, Eq)]
pub struct ToolReply {
    pub text: String,
    pub is_error: bool,
}

/// One hit as the tool shows it.
pub open spec fn hit_text(h: HitView) -> Seq<char> {
    let captured = if h.captured.len() == 0 {
        "unknown"@
    } else {
        h.captured
    };
    "## "@ + h.source_type + ":"@ + h.rel_path + " > "@ + h.heading_path + "\ncosine "@ + fixed(
        h.cosine,
        3,
    ) + " | captured "@ + captured + "\n\n"@ + h.text
}

/// All hits as the tool shows them.
pub open spec fn hits_text(hits: Seq<HitView>) -> Seq<char> {
    if hits.len() == 0 {
        "No matching notes in the index."@
    } else {
        joined(hits.map_values(|h: HitView| hit_text(h)), "\n\n---\n\n"@)
    }
}

/// The reply is the given text, and an error or none.
pub open spec fn replies(out: ToolReply, text: Seq<char>, is_error: bool) -> bool {
    out.text@ == text && out.is_error == is_error
}

fn write_hit(h: &Hit) -> (out: Vec<char>)
    ensures
        out@ == hit_text(h@),
{
    let mut out = chars_of("## ");
    push_str(&mut out, h.source_type.as_str());
    push_str(&mut out, ":");
    push_str(&mut out, h.rel_path.as_str());
    push_str(&mut out, " > ");
    push_str(&mut out, h.heading_path.as_str());
    push_str(&mut out, "\ncosine ");
    push_fixed(&mut out, h.cosine, 3);
    push_str(&mut out, " | captured ");
    let captured = chars_of(h.captured.as_str());
    if captured.len() == 0 {
        push_str(&mut out, "unknown");
    } else {
        push_str(&mut out, h.captured.as_str());
    }
    push_str(&mut out, "\n\n");
    push_str(&mut out, h.text.as_str());
    out
}

fn write_hits(hits: &Vec<Hit>) -> (out: String)
    ensures
        out@ == hits_text(hit_views(hits@)),
{
    if hits.len() == 0 {
        return string_of(chars_of("No matching notes in the index.").as_slice());
    }
    let ghost all = hit_views(hits@).map_values(|h: HitView| hit_text(h));
    let mut list: Vec<Vec<char>> = Vec::new();
    let mut i: usize = 0;
    proof {
        assert(texts(list@) =~= all.take(0));
    }
    while i < hits.len()
        invariant
            i <= hits@.len(),
            all == hit_views(hits@).map_values(|h: HitView| hit_text(h)),
            texts(list@) == all.take(i as int),
        decreases hits.len() - i,
    {
        push_text(&mut list, write_hit(&hits[i]));
        i += 1;
        proof {
            assert(all.take(i as int) =~= all.take(i - 1).push(all[i - 1]));
        }
    }
    proof {
        assert(all.take(i as int) =~= all);
    }
    string_of(join(&list, "\n\n---\n\n").as_slice())
}

/// The line of one root as the tool shows it.
pub open spec fn count_text(c: CountView) -> Seq<char> {
    match c.count {
        RootCount::Rows(n) => c.label + ": "@ + decimal(n as nat) + " rows"@,
        RootCount::Error(why) => c.label + ": ERROR -- "@ + why@,
    }
}

/// The status as the tool shows it.
pub open spec fn counts_text(counts: Seq<CountView>, db: Seq<char>) -> Seq<char> {
    joined(counts.map_values(|c: CountView| count_text(c)), "\n"@) + "\ndb: "@ + db
}

fn write_counts(counts: &Vec<LabelCount>, db: &str) -> (out: String)
    ensures
        out@ == counts_text(count_views(counts@), db@),
{
    let ghost all = count_views(counts@).map_values(|c: CountView| count_text(c));
    let mut list: Vec<Vec<char>> = Vec::new();
    let mut i: usize = 0;
    proof {
        assert(texts(list@) =~= all.take(0));
    }
    while i < counts.len()
        invariant
            i <= counts@.len(),
            all == count_views(counts@).map_values(|c: CountView| count_text(c)),
            texts(list@) == all.take(i as int),
        decreases counts.len() - i,
    {
        let c = &counts[i];
        proof {
            assert(count_views(counts@)[i as int] == c@);
        }
        let mut line = chars_of(c.label.as_str());
        match &c.count {
            RootCount::Rows(n) => {
                push_str(&mut line, ": ");
                push_decimal(&mut line, *n as u64);
                push_str(&mut line, " rows");
            },
            RootCount::Error(why) => {
                push_str(&mut line, ": ERROR -- ");
                push_str(&mut line, why.as_str());
            },
        }
        push_text(&mut list, line);
        i += 1;
        proof {
            assert(all.take(i as int) =~= all.take(i - 1).push(all[i - 1]));
        }
    }
    proof {
        assert(all.take(i as int) =~= all);
    }
    let mut out = join(&list, "\n");
    push_str(&mut out, "\ndb: ");
    push_str(&mut out, db);
    string_of(out.as_slice())
}

fn failure(text: &[char]) -> (out: ToolReply)
    ensures
        replies(out, text@, true),
{
    ToolReply { text: string_of(text), is_error: true }
}

/// What the search tool answers, given what came back from the daemon or why nothing
/// did.
pub fn search_reply(reply: &Result<Response, String>) -> (out: ToolReply)
    ensures
        match *reply {
            Ok(Response::Hits { hits, .. }) => replies(out, hits_text(hit_views(hits@)), false),
            Ok(Response::Error { message }) => replies(out, message@, true),
            Ok(_) => replies(out, "unexpected response from daemon"@, true),
            Err(why) => replies(
                out,
                "daemon unreachable ("@ + why@ + "). Start it with `sloop-memory daemon`."@,
                true,
            ),
        },
{
    match reply {
        Ok(Response::Hits { hits, .. }) => ToolReply { text: write_hits(hits), is_error: false },
        Ok(Response::Error { message }) => failure(chars_of(message.as_str()).as_slice()),
        Ok(_) => failure(chars_of("unexpected response from daemon").as_slice()),
        Err(why) => {
            let mut text = chars_of("daemon unreachable (");
            push_str(&mut text, why.as_str());
            push_str(&mut text, "). Start it with `sloop-memory daemon`.");
            failure(text.as_slice())
        },
    }
}

/// What the status tool answers, given what came back from the daemon or why nothing
/// did.
pub fn status_reply(reply: &Result<Response, String>) -> (out: ToolReply)
    ensures
        match *reply {
            Ok(Response::Status { roots, db }) => replies(
                out,
                counts_text(count_views(roots@), db@),
                false,
            ),
            Ok(Response::Error { message }) => replies(out, message@, true),
            Ok(_) => replies(out, "unexpected response from daemon"@, true),
            Err(why) => replies(out, "daemon unreachable: "@ + why@, true),
        },
{
    match reply {
        Ok(Response::Status { roots, db }) => ToolReply {
            text: write_counts(roots, db.as_str()),
            is_error: false,
        },
        Ok(Response::Error { message }) => failure(chars_of(message.as_str()).as_slice()),
        Ok(_) => failure(chars_of("unexpected response from daemon").as_slice()),
        Err(why) => {
            let mut text = chars_of("daemon unreachable: ");
            push_str(&mut text, why.as_str());
            failure(text.as_slice())
        },
    }
}

proof fn joined_holds_each(parts: Seq<Seq<char>>, sep: Seq<char>, i: int)
    requires
        0 <= i < parts.len(),
    ensures
        is_part_of(parts[i], joined(parts, sep)),
    decreases parts.len(),
{
    let whole = joined(parts, sep);
    let e = Seq::<char>::empty();
    if parts.len() == 1 {
        assert(whole =~= e + parts[i] + e);
    } else if i == parts.len() - 1 {
        assert(whole =~= (joined(parts.drop_last(), sep) + sep) + parts[i] + e);
    } else {
        joined_holds_each(parts.drop_last(), sep, i);
        part_of_longer(parts[i], joined(parts.drop_last(), sep), sep + parts.last());
        assert(whole =~= joined(parts.drop_last(), sep) + (sep + parts.last()));
    }
}

/// The search tool shows every hit, and of each the whole text, where it stands and which
/// root it is from.
pub proof fn every_hit_is_shown_whole(hits: Seq<HitView>, i: int)
    requires
        0 <= i < hits.len(),
    ensures
        is_part_of(hits[i].text, hits_text(hits)),
        is_part_of(hits[i].source_type + ":"@ + hits[i].rel_path, hits_text(hits)),
        is_part_of(hits[i].heading_path, hits_text(hits)),
        is_part_of(hits[i].captured, hits_text(hits)),
        is_part_of("cosine "@ + fixed(hits[i].cosine, 3), hits_text(hits)),
{
    let h = hits[i];
    let parts = hits.map_values(|h: HitView| hit_text(h));
    let t = hit_text(h);
    let e = Seq::<char>::empty();
    joined_holds_each(parts, "\n\n---\n\n"@, i);
    assert(parts[i] == t);
    let captured = if h.captured.len() == 0 {
        "unknown"@
    } else {
        h.captured
    };
    let place = h.source_type + ":"@ + h.rel_path;
    let two = "\ncosine "@ + fixed(h.cosine, 3) + " | captured "@ + captured + "\n\n"@ + h.text;
    assert(t =~= "## "@ + place + (" > "@ + h.heading_path + two));
    assert(t =~= ("## "@ + place + " > "@) + h.heading_path + two);
    assert(t =~= ("## "@ + place + " > "@ + h.heading_path + "\ncosine "@ + fixed(h.cosine, 3)
        + " | captured "@ + captured + "\n\n"@) + h.text + e);
    part_of_part(h.text, t, hits_text(hits));
    part_of_part(place, t, hits_text(hits));
    part_of_part(h.heading_path, t, hits_text(hits));
    if h.captured.len() == 0 {
        assert(t =~= e + h.captured + t);
    } else {
        assert(t =~= ("## "@ + place + " > "@ + h.heading_path + "\ncosine "@ + fixed(h.cosine, 3)
            + " | captured "@) + h.captured + ("\n\n"@ + h.text));
    }
    part_of_part(h.captured, t, hits_text(hits));
    a_hit_says_its_cosine(h);
    part_of_part("cosine "@ + fixed(h.cosine, 3), t, hits_text(hits));
}

proof fn a_hit_says_its_cosine(h: HitView)
    ensures
        is_part_of("cosine "@ + fixed(h.cosine, 3), hit_text(h)),
{
    let captured = if h.captured.len() == 0 {
        "unknown"@
    } else {
        h.captured
    };
    let cosine = "cosine "@ + fixed(h.cosine, 3);
    reveal_strlit("\ncosine ");
    reveal_strlit("cosine ");
    assert("\ncosine "@ =~= seq!['\n'] + "cosine "@);
    assert(hit_text(h) =~= ("## "@ + h.source_type + ":"@ + h.rel_path + " > "@
        + h.heading_path).push('\n') + cosine + (" | captured "@ + captured + "\n\n"@ + h.text));
}

/// The status tool shows every root with its number of rows or what went wrong with it.
pub proof fn every_root_is_shown(counts: Seq<CountView>, db: Seq<char>, i: int)
    requires
        0 <= i < counts.len(),
    ensures
        counts[i].count matches RootCount::Rows(n) ==> is_part_of(
            counts[i].label + ": "@ + decimal(n as nat) + " rows"@,
            counts_text(counts, db),
        ),
        counts[i].count matches RootCount::Error(why) ==> is_part_of(
            counts[i].label + ": ERROR -- "@ + why@,
            counts_text(counts, db),
        ),
        is_part_of(db, counts_text(counts, db)),
{
    let parts = counts.map_values(|c: CountView| count_text(c));
    let all = joined(parts, "\n"@);
    joined_holds_each(parts, "\n"@, i);
    assert(parts[i] == count_text(counts[i]));
    part_of_longer(parts[i], all, "\ndb: "@ + db);
    assert(counts_text(counts, db) =~= all + ("\ndb: "@ + db));
    assert(counts_text(counts, db) =~= (all + "\ndb: "@) + db + Seq::<char>::empty());
}

/// A search is for as many hits as it asks for, from one to ten: less than one is one,
/// more than ten is ten, and three where nothing is said.
pub proof fn a_search_is_for_one_to_ten_hits(n: u64)
    ensures
        1 <= hits_wanted(Some(n)) <= 10,
        1 <= n <= 10 ==> hits_wanted(Some(n)) == n,
        n > 10 ==> hits_wanted(Some(n)) == 10,
        n == 0 ==> hits_wanted(Some(n)) == 1,
        hits_wanted(None) == 3,
{
}

/// A tool call asks what it was told to ask: the search tool searches for the query as it
/// is, with the filter as it is, and refuses only a query that says nothing; the status
/// tool asks for the status; any other name is refused by its name.
pub proof fn a_tool_asks_what_it_was_told(
    plan: ToolPlan,
    name: Seq<char>,
    query: Option<Seq<char>>,
    k: Option<u64>,
    filter: Option<Seq<char>>,
)
    requires
        plans(plan, name, query, k, filter),
    ensures
        name == "sloop_search"@ ==> (plan is Search <==> (query matches Some(q) && !blank(q))),
        plan matches ToolPlan::Search(request) ==> (request matches Request::Search {
            query: asked,
            k: n,
            filter: f,
        } && query == Some(asked@) && n == hits_wanted(k) && (filter matches Some(text) ==> (
        f matches Some(g) && g@ == text)) && (filter is None ==> f is None)),
        name == "sloop_status"@ && name != "sloop_search"@ ==> plan == ToolPlan::Status(
            Request::Status,
        ),
        name != "sloop_search"@ && name != "sloop_status"@ ==> (plan matches ToolPlan::Refuse(why)
            && why@ == "unknown tool: "@ + name),
{
}

/// A request is answered under its own id, whatever it asks.
pub proof fn a_request_is_answered_under_its_id(
    out: RpcPlan,
    id: Seq<char>,
    method: Seq<char>,
    version: Option<Seq<char>>,
    name: Seq<char>,
    query: Option<Seq<char>>,
    k: Option<u64>,
    filter: Option<Seq<char>>,
)
    requires
        routes(out, id, method, version, name, query, k, filter),
    ensures
        !(out is Skip),
        out matches RpcPlan::Initialize { id: i, version: v } ==> i@ == id && method
            == "initialize"@ && (version matches Some(named) ==> v@ == named) && (version is None
            ==> v@ == "2025-06-18"@),
        out matches RpcPlan::ListTools { id: i } ==> i@ == id && method == "tools/list"@,
        out matches RpcPlan::Call { id: i, plan } ==> i@ == id && method == "tools/call"@ && plans(
            plan,
            name,
            query,
            k,
            filter,
        ),
        out matches RpcPlan::Pong { id: i } ==> i@ == id && method == "ping"@,
        out matches RpcPlan::NotFound { id: i, message } ==> i@ == id && message@
            == "method not found: "@ + method && method != "initialize"@ && method != "tools/list"@
            && method != "tools/call"@ && method != "ping"@,
{
}

} // verus!
