//! The prompt hook: which prompts it asks about, and what it puts before the user's
//! turn.
use vstd::prelude::*;
use crate::chunk_cover::is_part_of;
use crate::json::{json_string, json_string_at};
use crate::number::{fixed, push_fixed};
use crate::proto::{Request, Response};
use crate::recall::{pointer_views, Pointer, PointerView};
use crate::text::{
    chars_of, push_all, push_str, same_str, starts_with, string_of, trim_start, trimmed_start,
};
use crate::transcript_index::{a_marked_path_marks_what_it_ends, says_not_continued};

verus! {

/// A root labeled exactly `memory` gets different framing from every other root: it is
/// taken to hold recorded facts, as opposed to dated notes about something that exists
/// independently and may have moved on. The label is the whole signal.
pub const MEMORY_LABEL: &'static str = "memory";

/// The root that rendered sessions are written into. Like the memory label, the label
/// is the whole signal.
pub const TRANSCRIPT_LABEL: &'static str = "transcripts";

/// Framing for pointers from a notes root: dated notes about something that exists
/// independently of the note, so the thing described may have moved on since it was
/// captured.
pub const NOTES_PREAMBLE: &'static str = "Relevant local note pointers. Read the exact file path; do not call sloop_search for the same query. Dated notes are pointers, not evidence -- the thing they describe may have changed since capture; re-verify against the live source.\n";

/// Framing for pointers from the `memory` root: recorded facts with nothing live to
/// re-check them against, so the note itself is the source.
pub const MEMORY_PREAMBLE: &'static str = "Relevant recorded-fact pointers -- about this machine, past decisions, or your stated preferences. Read the exact file path; do not call sloop_search for the same query. The note is the source; there is nothing else to check it against.\n";

/// Framing for pointers from the `transcripts` root: a record of working something out,
/// not a conclusion about it. A `Not continued` heading marks a branch the session
/// abandoned, so this says to read *around* the hit.
pub const TRANSCRIPT_PREAMBLE: &'static str = "Relevant session transcript pointers -- a record of a conversation, not its conclusions. Read the exact file path; do not call sloop_search for the same query. Read around the hit; the surrounding turns are what give it meaning. A `Not continued` heading marks an approach the session tried and dropped -- not a finding.\n";

/// How the pointers of a root are framed.
#[derive(Debug, Clone, Copy, PartialEq, Eq, Structural)]
pub enum Framing {
    Notes,
    Memory,
    Transcript,
}

/// The framing that a root's label calls for.
pub open spec fn framing_for(label: Seq<char>) -> Framing {
    if label == MEMORY_LABEL@ {
        Framing::Memory
    } else if label == TRANSCRIPT_LABEL@ {
        Framing::Transcript
    } else {
        Framing::Notes
    }
}

/// The framing in words.
pub open spec fn preamble_of(framing: Framing) -> Seq<char> {
    match framing {
        Framing::Notes => NOTES_PREAMBLE@,
        Framing::Memory => MEMORY_PREAMBLE@,
        Framing::Transcript => TRANSCRIPT_PREAMBLE@,
    }
}

fn framing_of(label: &str) -> (out: Framing)
    ensures
        out == framing_for(label@),
{
    if same_str(label, MEMORY_LABEL) {
        Framing::Memory
    } else if same_str(label, TRANSCRIPT_LABEL) {
        Framing::Transcript
    } else {
        Framing::Notes
    }
}

/// Pointers under one framing.
#[verifier::ext_equal]
pub struct FramedView {
    pub framing: Framing,
    pub pointers: Seq<PointerView>,
}

/// The first group at or after position `i` with a framing.
pub open spec fn framed_at(groups: Seq<FramedView>, framing: Framing, i: int) -> Option<int>
    decreases groups.len() - i,
{
    if i < 0 || i >= groups.len() {
        None
    } else if groups[i].framing == framing {
        Some(i)
    } else {
        framed_at(groups, framing, i + 1)
    }
}

/// Pointers grouped by their framing, in the order in which the framings appear.
pub open spec fn framed(list: Seq<PointerView>) -> Seq<FramedView>
    decreases list.len(),
{
    if list.len() == 0 {
        seq![]
    } else {
        let before = framed(list.drop_last());
        let p = list.last();
        let framing = framing_for(p.source_type);
        match framed_at(before, framing, 0) {
            Some(i) => before.update(
                i,
                FramedView { pointers: before[i].pointers.push(p), ..before[i] },
            ),
            None => before.push(FramedView { framing, pointers: seq![p] }),
        }
    }
}

/// Where a pointer leads: the path, and the headings above the hit.
pub open spec fn place_of(p: PointerView) -> Seq<char> {
    let path = if p.path.len() == 0 {
        p.rel_path
    } else {
        p.path
    };
    if p.heading_path.len() == 0 {
        path
    } else {
        path + " > "@ + p.heading_path
    }
}

/// The root that a pointer is from.
pub open spec fn source_of(p: PointerView) -> Seq<char> {
    if p.source_type.len() == 0 {
        "notes"@
    } else {
        p.source_type
    }
}

/// How old the note is.
pub open spec fn age_of(p: PointerView) -> Seq<char> {
    if p.captured.len() == 0 {
        "captured: unknown"@
    } else {
        "captured "@ + p.captured
    }
}

/// The line of one pointer: where the note is, which root it is from, how well it
/// matched and how old it is.
pub open spec fn pointer_line(p: PointerView) -> Seq<char> {
    "  "@ + place_of(p) + "  (source "@ + source_of(p) + ", cos "@ + fixed(p.cosine, 2) + ", "@
        + age_of(p) + ")\n"@
}

/// The lines of a list of pointers.
pub open spec fn pointer_lines(list: Seq<PointerView>) -> Seq<char>
    decreases list.len(),
{
    if list.len() == 0 {
        seq![]
    } else {
        pointer_lines(list.drop_last()) + pointer_line(list.last())
    }
}

/// The groups of a block, each under its framing.
pub open spec fn framed_text(groups: Seq<FramedView>) -> Seq<char>
    decreases groups.len(),
{
    if groups.len() == 0 {
        seq![]
    } else {
        framed_text(groups.drop_last()) + preamble_of(groups.last().framing) + pointer_lines(
            groups.last().pointers,
        )
    }
}

/// The block that is put before the user's prompt.
pub open spec fn block_of(pointers: Seq<PointerView>) -> Seq<char> {
    "<sloop-recall>\n"@ + framed_text(framed(pointers)) + "</sloop-recall>"@
}

fn place(p: &Pointer) -> (out: Vec<char>)
    ensures
        out@ == place_of(p@),
{
    let mut out = chars_of(p.path.as_str());
    if out.len() == 0 {
        out = chars_of(p.rel_path.as_str());
    }
    let heading = chars_of(p.heading_path.as_str());
    if heading.len() > 0 {
        push_str(&mut out, " > ");
        push_all(&mut out, heading.as_slice());
    }
    out
}

fn source(p: &Pointer) -> (out: Vec<char>)
    ensures
        out@ == source_of(p@),
{
    let out = chars_of(p.source_type.as_str());
    if out.len() == 0 {
        chars_of("notes")
    } else {
        out
    }
}

fn age(p: &Pointer) -> (out: Vec<char>)
    ensures
        out@ == age_of(p@),
{
    let captured = chars_of(p.captured.as_str());
    if captured.len() == 0 {
        return chars_of("captured: unknown");
    }
    let mut out = chars_of("captured ");
    push_all(&mut out, captured.as_slice());
    out
}

/// Appends the line of one pointer.
fn append_pointer_line(out: &mut Vec<char>, p: &Pointer)
    ensures
        final(out)@ == old(out)@ + pointer_line(p@),
{
    let mut line = chars_of("  ");
    push_all(&mut line, place(p).as_slice());
    push_str(&mut line, "  (source ");
    push_all(&mut line, source(p).as_slice());
    push_str(&mut line, ", cos ");
    push_fixed(&mut line, p.cosine, 2);
    push_str(&mut line, ", ");
    push_all(&mut line, age(p).as_slice());
    push_str(&mut line, ")\n");
    push_all(out, line.as_slice());
}

/// Positions of pointers under one framing.
struct Group {
    framing: Framing,
    members: Vec<usize>,
}

spec fn group_view(g: Group, all: Seq<PointerView>) -> FramedView {
    FramedView { framing: g.framing, pointers: g.members@.map_values(|i: usize| all[i as int]) }
}

spec fn group_views(groups: Seq<Group>, all: Seq<PointerView>) -> Seq<FramedView> {
    groups.map_values(|g: Group| group_view(g, all))
}

spec fn members_in(groups: Seq<Group>, n: int) -> bool {
    forall|g: int, i: int|
        0 <= g < groups.len() && 0 <= i < groups[g].members@.len() ==> (
        #[trigger] groups[g].members@[i]) < n
}

fn group_pointers(pointers: &[Pointer]) -> (out: Vec<Group>)
    ensures
        group_views(out@, pointer_views(pointers@)) == framed(pointer_views(pointers@)),
        members_in(out@, pointers@.len() as int),
{
    let ghost all = pointer_views(pointers@);
    let mut groups: Vec<Group> = Vec::new();
    let mut i: usize = 0;
    proof {
        assert(all.take(0) =~= seq![]);
        assert(group_views(groups@, all) =~= seq![]);
    }
    while i < pointers.len()
        invariant
            i <= pointers@.len(),
            all == pointer_views(pointers@),
            group_views(groups@, all) == framed(all.take(i as int)),
            members_in(groups@, pointers@.len() as int),
        decreases pointers.len() - i,
    {
        let framing = framing_of(pointers[i].source_type.as_str());
        let ghost views = group_views(groups@, all);
        proof {
            assert(all[i as int] == pointers@[i as int]@);
            assert(all.take(i + 1).drop_last() =~= all.take(i as int));
        }
        let mut k: usize = 0;
        while k < groups.len() && groups[k].framing != framing
            invariant
                k <= groups@.len(),
                views == group_views(groups@, all),
                framed_at(views, framing, 0) == framed_at(views, framing, k as int),
            decreases groups.len() - k,
        {
            proof {
                assert(views[k as int] == group_view(groups@[k as int], all));
            }
            k += 1;
        }
        let ghost before = groups@;
        if k < groups.len() {
            proof {
                assert(views[k as int] == group_view(groups@[k as int], all));
            }
            groups[k].members.push(i);
            proof {
                let g = groups@[k as int];
                assert(group_view(g, all).pointers =~= views[k as int].pointers.push(
                    all[i as int],
                ));
                assert(group_views(groups@, all) =~= views.update(
                    k as int,
                    FramedView {
                        pointers: views[k as int].pointers.push(all[i as int]),
                        ..views[k as int]
                    },
                ));
                assert forall|g: int, j: int|
                    0 <= g < groups@.len() && 0 <= j < groups@[g].members@.len() implies (
                #[trigger] groups@[g].members@[j]) < pointers@.len() by {
                    if g != k {
                        assert(groups@[g] == before[g]);
                        assert(before[g].members@[j] < pointers@.len());
                    } else if j < before[k as int].members@.len() {
                        assert(before[k as int].members@[j] < pointers@.len());
                    }
                }
            }
        } else {
            let mut members: Vec<usize> = Vec::new();
            members.push(i);
            let g = Group { framing, members };
            let ghost made = group_view(g, all);
            groups.push(g);
            proof {
                assert(made.pointers =~= seq![all[i as int]]);
                assert(group_views(groups@, all) =~= views.push(made));
                assert forall|g: int, j: int|
                    0 <= g < groups@.len() && 0 <= j < groups@[g].members@.len() implies (
                #[trigger] groups@[g].members@[j]) < pointers@.len() by {
                    if g < before.len() {
                        assert(groups@[g] == before[g]);
                        assert(before[g].members@[j] < pointers@.len());
                    }
                }
            }
        }
        i += 1;
    }
    proof {
        assert(all.take(i as int) =~= all);
    }
    groups
}

/// Renders the block injected before the user's prompt. Pointers are grouped by root so
/// each group gets the framing suited to what that root actually is.
///
/// A group is created where its first pointer appears, so a single-root call has one
/// obvious rendering, and an absent root contributes no group at all.
#[verifier::rlimit(30)]
pub fn render_pointer_block(pointers: &[Pointer]) -> (out: String)
    ensures
        out@ == block_of(pointer_views(pointers@)),
{
    let ghost all = pointer_views(pointers@);
    let groups = group_pointers(pointers);
    let ghost views = framed(all);
    let mut out: Vec<char> = chars_of("<sloop-recall>\n");
    let mut g: usize = 0;
    proof {
        assert(views.take(0) =~= seq![]);
        assert(out@ =~= "<sloop-recall>\n"@ + framed_text(views.take(0)));
    }
    while g < groups.len()
        invariant
            g <= groups@.len(),
            all == pointer_views(pointers@),
            views == group_views(groups@, all),
            members_in(groups@, pointers@.len() as int),
            out@ == "<sloop-recall>\n"@ + framed_text(views.take(g as int)),
        decreases groups.len() - g,
    {
        let group = &groups[g];
        let ghost list = views[g as int].pointers;
        proof {
            assert(views[g as int] == group_view(groups@[g as int], all));
            assert(views.take(g + 1).drop_last() =~= views.take(g as int));
        }
        let ghost start = out@;
        match group.framing {
            Framing::Notes => push_str(&mut out, NOTES_PREAMBLE),
            Framing::Memory => push_str(&mut out, MEMORY_PREAMBLE),
            Framing::Transcript => push_str(&mut out, TRANSCRIPT_PREAMBLE),
        }
        let ghost framed_start = out@;
        let mut k: usize = 0;
        proof {
            assert(list.take(0) =~= seq![]);
            assert(out@ =~= framed_start + pointer_lines(list.take(0)));
        }
        while k < group.members.len()
            invariant
                k <= group.members@.len(),
                g < groups@.len(),
                *group == groups@[g as int],
                all == pointer_views(pointers@),
                list == group_view(*group, all).pointers,
                members_in(groups@, pointers@.len() as int),
                out@ == framed_start + pointer_lines(list.take(k as int)),
            decreases group.members.len() - k,
        {
            let m: usize = group.members[k];
            proof {
                assert(groups@[g as int].members@[k as int] < pointers@.len());
                assert(all[m as int] == pointers@[m as int]@);
                assert(list[k as int] == all[m as int]);
                assert(list.take(k + 1).drop_last() =~= list.take(k as int));
            }
            append_pointer_line(&mut out, &pointers[m]);
            k += 1;
            proof {
                assert(out@ =~= framed_start + pointer_lines(list.take(k as int)));
            }
        }
        g += 1;
        proof {
            assert(list.take(k as int) =~= list);
            assert(out@ =~= "<sloop-recall>\n"@ + framed_text(views.take(g as int)));
        }
    }
    push_str(&mut out, "</sloop-recall>");
    proof {
        assert(views.take(g as int) =~= views);
        assert(out@ =~= block_of(all));
    }
    string_of(out.as_slice())
}

/// The pointers that a framing is for, in order.
pub open spec fn pointers_for(pointers: Seq<PointerView>, framing: Framing) -> Seq<PointerView>
    decreases pointers.len(),
{
    if pointers.len() == 0 {
        seq![]
    } else if framing_for(pointers.last().source_type) == framing {
        pointers_for(pointers.drop_last(), framing).push(pointers.last())
    } else {
        pointers_for(pointers.drop_last(), framing)
    }
}

/// Every pointer stands under the framing of its own root and no framing stands twice:
/// under each framing stand all the pointers that it is for and no others, in the order
/// in which they came, and no framing stands over nothing.
pub proof fn framing_follows_the_label(pointers: Seq<PointerView>)
    ensures
        ({
            let groups = framed(pointers);
            &&& forall|g: int|
                0 <= g < groups.len() ==> (#[trigger] groups[g]).pointers == pointers_for(
                    pointers,
                    groups[g].framing,
                ) && groups[g].pointers.len() > 0
            &&& forall|g: int, h: int|
                0 <= g < h < groups.len() ==> (#[trigger] groups[g]).framing != (
                #[trigger] groups[h]).framing
            &&& forall|i: int|
                0 <= i < pointers.len() ==> framed_at(
                    groups,
                    framing_for((#[trigger] pointers[i]).source_type),
                    0,
                ) is Some
        }),
    decreases pointers.len(),
{
    if pointers.len() > 0 {
        let rest = pointers.drop_last();
        let p = pointers.last();
        framing_follows_the_label(rest);
        let before = framed(rest);
        let out = framed(pointers);
        let framing = framing_for(p.source_type);
        framed_at_bounds(before, framing, 0);
        if framed_at(before, framing, 0) is None {
            nothing_unframed(rest, before, framing);
        }
        assert forall|g: int| 0 <= g < out.len() implies (#[trigger] out[g]).pointers
            == pointers_for(pointers, out[g].framing) && out[g].pointers.len() > 0 by {
            if g < before.len() {
                assert(before[g].pointers == pointers_for(rest, before[g].framing));
                assert(before[g].pointers.len() > 0);
                if before[g].framing == framing {
                    let k = framed_at(before, framing, 0)->Some_0;
                    assert(before[k].framing == framing);
                    assert(g == k);
                }
            }
        }
        assert forall|g: int, h: int| 0 <= g < h < out.len() implies (#[trigger] out[g]).framing
            != (#[trigger] out[h]).framing by {
            if h < before.len() {
                assert(before[g].framing != before[h].framing);
            }
        }
        assert forall|i: int| 0 <= i < pointers.len() implies framed_at(
            out,
            framing_for((#[trigger] pointers[i]).source_type),
            0,
        ) is Some by {
            let f = framing_for(pointers[i].source_type);
            framed_at_bounds(out, f, 0);
            if i < rest.len() {
                assert(rest[i] == pointers[i]);
                framed_at_bounds(before, f, 0);
                let k = framed_at(before, f, 0)->Some_0;
                assert(out[k].framing == f);
            } else {
                let k = match framed_at(before, framing, 0) {
                    Some(k) => k,
                    None => before.len() as int,
                };
                assert(out[k].framing == f);
            }
        }
    }
}

/// Where no group has a framing, no pointer calls for it.
proof fn nothing_unframed(pointers: Seq<PointerView>, groups: Seq<FramedView>, framing: Framing)
    requires
        framed_at(groups, framing, 0) is None,
        forall|i: int|
            0 <= i < pointers.len() ==> framed_at(
                groups,
                framing_for((#[trigger] pointers[i]).source_type),
                0,
            ) is Some,
    ensures
        pointers_for(pointers, framing).len() == 0,
    decreases pointers.len(),
{
    if pointers.len() > 0 {
        assert(framed_at(groups, framing_for(pointers[pointers.len() - 1].source_type), 0) is Some);
        assert forall|i: int| 0 <= i < pointers.drop_last().len() implies framed_at(
            groups,
            framing_for((#[trigger] pointers.drop_last()[i]).source_type),
            0,
        ) is Some by {
            assert(pointers.drop_last()[i] == pointers[i]);
        }
        nothing_unframed(pointers.drop_last(), groups, framing);
    }
}

proof fn framed_at_bounds(groups: Seq<FramedView>, framing: Framing, i: int)
    requires
        0 <= i,
    ensures
        framed_at(groups, framing, i) matches Some(k) ==> i <= k < groups.len()
            && groups[k].framing == framing,
        framed_at(groups, framing, i) is None ==> forall|j: int|
            i <= j < groups.len() ==> (#[trigger] groups[j]).framing != framing,
    decreases groups.len() - i,
{
    if i < groups.len() && groups[i].framing != framing {
        framed_at_bounds(groups, framing, i + 1);
    }
}

/// A pointer into a dropped branch says so: the line shows the whole heading path.
pub proof fn a_pointer_into_a_dropped_branch_says_so(p: PointerView)
    requires
        says_not_continued(p.heading_path),
    ensures
        says_not_continued(place_of(p)),
        ("  "@ + place_of(p)).is_prefix_of(pointer_line(p)),
{
    let path = if p.path.len() == 0 {
        p.rel_path
    } else {
        p.path
    };
    a_marked_path_marks_what_it_ends(path, p.heading_path);
    let line = pointer_line(p);
    let start = "  "@ + place_of(p);
    assert(start =~= line.subrange(0, start.len() as int));
}

/// A prompt that the host wrote, not the user.
pub open spec fn host_envelope(prompt: Seq<char>) -> bool {
    let p = trimmed_start(prompt);
    ||| "<task-notification>"@.is_prefix_of(p)
    ||| "<task_notification>"@.is_prefix_of(p)
    ||| "<local-command-caveat>"@.is_prefix_of(p)
    ||| "<local-command-stdout>"@.is_prefix_of(p)
}

/// Whether a prompt is an envelope that the host wrote, which nothing is asked about.
pub fn is_non_user_envelope(prompt: &str) -> (r: bool)
    ensures
        r == host_envelope(prompt@),
{
    let chars = chars_of(prompt);
    let p = trim_start(chars.as_slice());
    starts_with(p, "<task-notification>") || starts_with(p, "<task_notification>") || starts_with(
        p,
        "<local-command-caveat>",
    ) || starts_with(p, "<local-command-stdout>")
}

/// The prompt in the hook's payload, where there is one.
pub fn hook_prompt(payload: &str) -> (out: Option<String>)
    ensures
        json_string_at(payload@, "/prompt"@) == match out {
            Some(prompt) => Some(prompt@),
            None => None,
        },
{
    json_string(payload, "/prompt")
}

/// What the hook does with a payload.
#[derive(Debug)]
pub enum HookStep {
    /// Nothing: there is no prompt in it.
    Ignore,
    /// Nothing is asked and nothing injected; the prompt is logged with this outcome.
    Skip { prompt: String, outcome: &'static str },
    /// The daemon is asked.
    Ask(Request),
}

/// What the hook does with a prompt: one that the host wrote is skipped before anything is
/// asked, any other is what the daemon is asked about, and without one there is nothing
/// to do.
pub open spec fn steps(out: HookStep, prompt: Option<Seq<char>>) -> bool {
    match prompt {
        None => out is Ignore,
        Some(p) => if host_envelope(p) {
            out matches HookStep::Skip { prompt, outcome } && prompt@ == p && outcome@ == "skipped"@
        } else {
            out matches HookStep::Ask(Request::Recall { prompt }) && prompt@ == p
        },
    }
}

/// Decides what the hook does with a prompt.
pub fn step_for(prompt: Option<String>) -> (out: HookStep)
    ensures
        steps(
            out,
            match prompt {
                Some(p) => Some(p@),
                None => None,
            },
        ),
{
    match prompt {
        None => HookStep::Ignore,
        Some(prompt) => if is_non_user_envelope(prompt.as_str()) {
            HookStep::Skip { prompt, outcome: "skipped" }
        } else {
            HookStep::Ask(Request::Recall { prompt })
        },
    }
}

/// Decides what the hook does with its payload.
///
/// User turns only: an envelope that the host wrote is skipped before anything is
/// embedded, so that it cannot use up the pointers of a prompt.
pub fn hook_step(payload: &str) -> (out: HookStep)
    ensures
        steps(out, json_string_at(payload@, "/prompt"@)),
{
    step_for(hook_prompt(payload))
}

/// What came back from the daemon.
#[derive(Debug)]
pub enum HookReply {
    /// Pointers, and how long the daemon took.
    Pointers { pointers: Vec<Pointer>, elapsed_ms: u64 },
    /// No answer, or one that is none.
    Unavailable,
}

impl HookReply {
    /// The pointers that came back: none where nothing did.
    pub fn pointers(&self) -> (out: &[Pointer])
        ensures
            match *self {
                HookReply::Pointers { pointers, .. } => out@ == pointers@,
                HookReply::Unavailable => out@.len() == 0,
            },
    {
        match self {
            HookReply::Pointers { pointers, .. } => pointers.as_slice(),
            HookReply::Unavailable => &[],
        }
    }
}

/// Reads the daemon's response as the hook takes it, with the best candidate before the
/// threshold: pointers are an answer, and anything else, or nothing, is none.
pub fn hook_reply(reply: Option<Response>) -> (out: (HookReply, Option<u32>))
    ensures
        match reply {
            Some(Response::Pointers { pointers, elapsed_ms, top_cosine }) => out.0 == (
            HookReply::Pointers { pointers, elapsed_ms }) && out.1 == top_cosine,
            _ => out.0 is Unavailable && out.1 is None,
        },
{
    match reply {
        Some(Response::Pointers { pointers, elapsed_ms, top_cosine }) => (
            HookReply::Pointers { pointers, elapsed_ms },
            top_cosine,
        ),
        _ => (HookReply::Unavailable, None),
    }
}

/// What became of a prompt, as the log has it, and what is put before the user's turn.
#[derive(Debug)]
pub struct HookOutcome {
    pub outcome: &'static str,
    pub elapsed_ms: u64,
    pub context: Option<String>,
}

/// Decides what the hook does with the daemon's reply.
///
/// No reply is logged with the time that the round trip took: an `unavailable` line at
/// the timeout is a daemon too slow for this prompt, one at a couple of milliseconds is
/// a daemon that is not running. Either way nothing is injected and nothing fails.
pub fn hook_outcome(reply: &HookReply, round_trip_ms: u64) -> (out: HookOutcome)
    ensures
        match *reply {
            HookReply::Unavailable => out.outcome@ == "unavailable"@ && out.elapsed_ms
                == round_trip_ms && out.context is None,
            HookReply::Pointers { pointers, elapsed_ms } => {
                &&& out.elapsed_ms == elapsed_ms
                &&& pointers@.len() == 0 ==> out.outcome@ == "miss"@ && out.context is None
                &&& pointers@.len() > 0 ==> out.outcome@ == "injected"@ && (
                out.context matches Some(block) && block@ == block_of(pointer_views(pointers@)))
            },
        },
{
    match reply {
        HookReply::Unavailable => HookOutcome {
            outcome: "unavailable",
            elapsed_ms: round_trip_ms,
            context: None,
        },
        HookReply::Pointers { pointers, elapsed_ms } => if pointers.len() == 0 {
            HookOutcome { outcome: "miss", elapsed_ms: *elapsed_ms, context: None }
        } else {
            HookOutcome {
                outcome: "injected",
                elapsed_ms: *elapsed_ms,
                context: Some(render_pointer_block(pointers.as_slice())),
            }
        },
    }
}

proof fn pointers_for_concat(a: Seq<PointerView>, b: Seq<PointerView>, framing: Framing)
    ensures
        pointers_for(a + b, framing) == pointers_for(a, framing) + pointers_for(b, framing),
    decreases b.len(),
{
    if b.len() == 0 {
        assert(a + b =~= a);
        assert(pointers_for(a, framing) + pointers_for(b, framing) =~= pointers_for(a, framing));
    } else {
        pointers_for_concat(a, b.drop_last(), framing);
        assert((a + b).drop_last() =~= a + b.drop_last());
        assert(pointers_for(a + b, framing) =~= pointers_for(a, framing) + pointers_for(
            b,
            framing,
        ));
    }
}

proof fn pointer_lines_concat(a: Seq<PointerView>, b: Seq<PointerView>)
    ensures
        pointer_lines(a + b) == pointer_lines(a) + pointer_lines(b),
    decreases b.len(),
{
    if b.len() == 0 {
        assert(a + b =~= a);
        assert(pointer_lines(a) + pointer_lines(b) =~= pointer_lines(a));
    } else {
        pointer_lines_concat(a, b.drop_last());
        assert((a + b).drop_last() =~= a + b.drop_last());
        assert(pointer_lines(a + b) =~= pointer_lines(a) + pointer_lines(b));
    }
}

proof fn framed_text_holds_a_group(groups: Seq<FramedView>, g: int)
    requires
        0 <= g < groups.len(),
    ensures
        exists|a: Seq<char>, b: Seq<char>|
            framed_text(groups) == #[trigger] (a + preamble_of(groups[g].framing) + pointer_lines(
                groups[g].pointers,
            ) + b),
    decreases groups.len(),
{
    let rest = groups.drop_last();
    let last = groups.last();
    let pre = preamble_of(groups[g].framing);
    let ls = pointer_lines(groups[g].pointers);
    if g == groups.len() - 1 {
        let e = Seq::<char>::empty();
        assert(framed_text(groups) =~= framed_text(rest) + pre + ls + e);
    } else {
        framed_text_holds_a_group(rest, g);
        let (a, b) = choose|a: Seq<char>, b: Seq<char>|
            framed_text(rest) == #[trigger] (a + pre + ls + b);
        let c = b + preamble_of(last.framing) + pointer_lines(last.pointers);
        assert(framed_text(groups) =~= a + pre + ls + c);
    }
}

/// Every pointer is in the block, under the words of its own root's framing: between those
/// words and its line stand only the lines of pointers that came before it under the same
/// framing.
pub proof fn every_pointer_is_shown_under_its_framing(pointers: Seq<PointerView>, i: int)
    requires
        0 <= i < pointers.len(),
    ensures
        ({
            let framing = framing_for(pointers[i].source_type);
            exists|a: Seq<char>, b: Seq<char>|
                block_of(pointers) == #[trigger] (a + preamble_of(framing) + pointer_lines(
                    pointers_for(pointers.take(i), framing),
                ) + pointer_line(pointers[i]) + b)
        }),
{
    let p = pointers[i];
    let framing = framing_for(p.source_type);
    let groups = framed(pointers);
    a_pointer_has_its_place_in_its_group(pointers, i);
    let g = framed_at(groups, framing, 0)->Some_0;
    framed_text_holds_a_group(groups, g);
    let x = pointer_lines(pointers_for(pointers.take(i), framing));
    let y = pointer_lines(pointers_for(pointers.skip(i + 1), framing));
    let pre = preamble_of(framing);
    let ls = pointer_lines(groups[g].pointers);
    let (a, b) = choose|a: Seq<char>, b: Seq<char>|
        framed_text(groups) == #[trigger] (a + pre + ls + b);
    in_a_block(a, pre, x, pointer_line(p), y, b);
    let end = y + b + "</sloop-recall>"@;
    assert(block_of(pointers) == ("<sloop-recall>\n"@ + a) + pre + x + pointer_line(p) + end);
}

/// The parts of a block, put together in two ways.
proof fn in_a_block(
    a: Seq<char>,
    pre: Seq<char>,
    x: Seq<char>,
    line: Seq<char>,
    y: Seq<char>,
    b: Seq<char>,
)
    ensures
        "<sloop-recall>\n"@ + (a + pre + (x + line + y) + b) + "</sloop-recall>"@ == (
        "<sloop-recall>\n"@ + a) + pre + x + line + (y + b + "</sloop-recall>"@),
{
    assert("<sloop-recall>\n"@ + (a + pre + (x + line + y) + b) + "</sloop-recall>"@ =~= (
    "<sloop-recall>\n"@ + a) + pre + x + line + (y + b + "</sloop-recall>"@));
}

proof fn a_pointer_has_its_place_in_its_group(pointers: Seq<PointerView>, i: int)
    requires
        0 <= i < pointers.len(),
    ensures
        ({
            let framing = framing_for(pointers[i].source_type);
            let groups = framed(pointers);
            &&& framed_at(groups, framing, 0) matches Some(g)
            &&& 0 <= g < groups.len()
            &&& groups[g].framing == framing
            &&& pointer_lines(groups[g].pointers) == pointer_lines(
                pointers_for(pointers.take(i), framing),
            ) + pointer_line(pointers[i]) + pointer_lines(
                pointers_for(pointers.skip(i + 1), framing),
            )
        }),
{
    let p = pointers[i];
    let framing = framing_for(p.source_type);
    let groups = framed(pointers);
    framing_follows_the_label(pointers);
    framed_at_bounds(groups, framing, 0);
    let before = pointers.take(i);
    let after = pointers.skip(i + 1);
    assert(pointers =~= before.push(p) + after);
    pointers_for_concat(before.push(p), after, framing);
    assert(before.push(p).drop_last() =~= before);
    let head = pointers_for(before, framing);
    let rest = pointers_for(after, framing);
    pointer_lines_concat(head.push(p), rest);
    assert(head.push(p).drop_last() =~= head);
}

/// The line of a pointer says where it leads, which root it is from and how old it is.
pub proof fn a_pointers_line_says_what_it_is(p: PointerView)
    ensures
        is_part_of(
            if p.path.len() > 0 {
                p.path
            } else {
                p.rel_path
            },
            pointer_line(p),
        ),
        is_part_of(p.heading_path, pointer_line(p)),
        is_part_of(p.source_type, pointer_line(p)),
        is_part_of(p.captured, pointer_line(p)),
        is_part_of(fixed(p.cosine, 2), pointer_line(p)),
{
    let line = pointer_line(p);
    let e = Seq::<char>::empty();
    let place = place_of(p);
    let path = if p.path.len() > 0 {
        p.path
    } else {
        p.rel_path
    };
    let one = "  (source "@ + source_of(p) + ", cos "@ + fixed(p.cosine, 2) + ", "@ + age_of(p)
        + ")\n"@;
    assert(line =~= "  "@ + place + one);
    if p.heading_path.len() == 0 {
        assert(line =~= "  "@ + path + one);
        assert(line =~= e + p.heading_path + line);
    } else {
        assert(line =~= "  "@ + path + (" > "@ + p.heading_path + one));
        assert(line =~= ("  "@ + path + " > "@) + p.heading_path + one);
    }
    let two = ", cos "@ + fixed(p.cosine, 2) + ", "@ + age_of(p) + ")\n"@;
    if p.source_type.len() == 0 {
        assert(line =~= e + p.source_type + line);
    } else {
        assert(line =~= ("  "@ + place + "  (source "@) + p.source_type + two);
    }
    if p.captured.len() == 0 {
        assert(line =~= e + p.captured + line);
    } else {
        assert(line =~= ("  "@ + place + "  (source "@ + source_of(p) + ", cos "@ + fixed(
            p.cosine,
            2,
        ) + ", "@ + "captured "@) + p.captured + ")\n"@);
    }
    assert(line =~= ("  "@ + place + "  (source "@ + source_of(p) + ", cos "@) + fixed(p.cosine, 2)
        + (", "@ + age_of(p) + ")\n"@));
}

/// A prompt is skipped exactly where it begins, white space aside, with one of the tags
/// that the host writes; any other is asked about as it is, and nothing is asked without
/// one.
pub proof fn only_what_the_user_wrote_is_asked_about(out: HookStep, prompt: Option<Seq<char>>)
    requires
        steps(out, prompt),
    ensures
        out is Ignore <==> prompt is None,
        prompt matches Some(p) ==> (out is Skip <==> "<task-notification>"@.is_prefix_of(
            trimmed_start(p),
        ) || "<task_notification>"@.is_prefix_of(trimmed_start(p))
            || "<local-command-caveat>"@.is_prefix_of(trimmed_start(p))
            || "<local-command-stdout>"@.is_prefix_of(trimmed_start(p))),
        out matches HookStep::Skip { prompt: q, outcome } ==> prompt == Some(q@) && outcome@
            == "skipped"@,
        out matches HookStep::Ask(request) ==> (request matches Request::Recall { prompt: q }
            && prompt == Some(q@)),
{
}

/// A pointer without a date says that its age is unknown, and one without a root is from
/// the notes.
pub proof fn a_pointer_says_what_it_lacks(p: PointerView)
    ensures
        p.captured.len() == 0 ==> is_part_of("captured: unknown"@, pointer_line(p)),
        p.source_type.len() == 0 ==> is_part_of("(source notes,"@, pointer_line(p)),
{
    let line = pointer_line(p);
    let a = "  "@ + place_of(p);
    let b = fixed(p.cosine, 2);
    if p.captured.len() == 0 {
        assert(line =~= (a + "  (source "@ + source_of(p) + ", cos "@ + b + ", "@)
            + "captured: unknown"@ + ")\n"@);
    }
    if p.source_type.len() == 0 {
        reveal_strlit("  (source ");
        reveal_strlit("notes");
        reveal_strlit(", cos ");
        reveal_strlit("(source notes,");
        reveal_strlit("  ");
        reveal_strlit(" cos ");
        assert(", cos "@ =~= seq![','] + " cos "@);
        assert("  (source "@ + "notes"@ + ", cos "@ =~= "  "@ + "(source notes,"@ + " cos "@);
        assert(line =~= a + ("  (source "@ + "notes"@ + ", cos "@) + (b + ", "@ + age_of(p)
            + ")\n"@));
        assert(line =~= (a + "  "@) + "(source notes,"@ + (" cos "@ + (b + ", "@ + age_of(p)
            + ")\n"@)));
    }
}

} // verus!
