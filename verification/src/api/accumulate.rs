//! Events in, finished content blocks out.
//!
//! A block arrives as an opening, a run of deltas and a close, and nothing in the
//! stream carries the whole of it. This is the only place that state lives.
use std::collections::BTreeMap;
use vstd::prelude::*;
use vstd::std_specs::btree::group_btree_axioms;
use crate::api::sse::{BlockStart, Delta, Event};
use crate::number::{decimal, push_decimal};
use crate::text::{chars_of, push_str, string_of};
use crate::tree::{BlockView, ContentBlock};

verus! {

/// A block that has opened and not yet closed.
///
/// Distinct from [`ContentBlock`] because a block under construction is not a
/// block: a thinking block whose signature has not landed yet would be a block that
/// is rejected on the next turn, and there would be nothing in the type to say so.
#[derive(Debug)]
enum Partial {
    Text(String),
    Thinking { thinking: String, signature: String },
    /// A kind that is not modelled. Held open so its deltas have somewhere to go,
    /// and dropped when it closes.
    Unmodelled,
}

/// The texts of a block that is still open.
pub enum PartialView {
    Text(Seq<char>),
    Thinking { thinking: Seq<char>, signature: Seq<char> },
    Unmodelled,
}

impl View for Partial {
    type V = PartialView;

    closed spec fn view(&self) -> PartialView {
        match *self {
            Partial::Text(text) => PartialView::Text(text@),
            Partial::Thinking { thinking, signature } => PartialView::Thinking {
                thinking: thinking@,
                signature: signature@,
            },
            Partial::Unmodelled => PartialView::Unmodelled,
        }
    }
}

/// Why a response cannot be trusted.
#[derive(Debug, Clone, PartialEq, Eq)]
pub enum StreamError {
    /// A delta for a block that is not open.
    DeltaWhileClosed { index: usize },
    /// The end of a block that is not open.
    StopWhileClosed { index: usize },
    /// Thinking in a text block.
    ThinkingInText { index: usize },
    /// A signature in a text block.
    SignatureInText { index: usize },
    /// Text in a thinking block.
    TextInThinking { index: usize },
    /// The API said so.
    Api { kind: String, message: String },
}

impl StreamError {
    /// The error in words.
    pub open spec fn words(&self) -> Seq<char> {
        match self {
            StreamError::DeltaWhileClosed { index } => "a delta arrived for block "@ + decimal(
                *index as nat,
            ) + ", which is not open"@,
            StreamError::StopWhileClosed { index } => "block "@ + decimal(*index as nat)
                + " closed without ever opening"@,
            StreamError::ThinkingInText { index } => "a thinking_delta arrived for block "@
                + decimal(*index as nat) + ", which opened as text"@,
            StreamError::SignatureInText { index } => "a signature_delta arrived for block "@
                + decimal(*index as nat) + ", which opened as text"@,
            StreamError::TextInThinking { index } => "a text_delta arrived for block "@ + decimal(
                *index as nat,
            ) + ", which opened as thinking"@,
            StreamError::Api { kind, message } => kind@ + ": "@ + message@,
        }
    }

    /// The error in words.
    pub fn message(&self) -> (out: String)
        ensures
            out@ == self.words(),
    {
        let mut out: Vec<char> = Vec::new();
        match self {
            StreamError::DeltaWhileClosed { index } => {
                push_about(&mut out, "a delta arrived for block ", *index, ", which is not open");
            },
            StreamError::StopWhileClosed { index } => {
                push_about(&mut out, "block ", *index, " closed without ever opening");
            },
            StreamError::ThinkingInText { index } => {
                push_about(
                    &mut out,
                    "a thinking_delta arrived for block ",
                    *index,
                    ", which opened as text",
                );
            },
            StreamError::SignatureInText { index } => {
                push_about(
                    &mut out,
                    "a signature_delta arrived for block ",
                    *index,
                    ", which opened as text",
                );
            },
            StreamError::TextInThinking { index } => {
                push_about(
                    &mut out,
                    "a text_delta arrived for block ",
                    *index,
                    ", which opened as thinking",
                );
            },
            StreamError::Api { kind, message } => {
                push_str(&mut out, kind.as_str());
                push_str(&mut out, ": ");
                push_str(&mut out, message.as_str());
            },
        }
        proof {
            assert(out@ =~= self.words());
        }
        string_of(out.as_slice())
    }
}

fn push_about(out: &mut Vec<char>, before: &str, index: usize, after: &str)
    ensures
        final(out)@ == old(out)@ + (before@ + decimal(index as nat) + after@),
{
    push_str(out, before);
    push_decimal(out, index as u64);
    push_str(out, after);
    proof {
        assert(out@ =~= old(out)@ + (before@ + decimal(index as nat) + after@));
    }
}

/// The blocks of one response while their events arrive: those that are open, by
/// their index, and why the model stopped, once it has said.
#[verifier::ext_equal]
pub struct Assembly {
    pub open: Map<usize, PartialView>,
    pub stop_reason: Option<Seq<char>>,
}

/// A block as it opens.
pub open spec fn opened(start: BlockStart) -> PartialView {
    match start {
        BlockStart::Text => PartialView::Text(seq![]),
        BlockStart::Thinking => PartialView::Thinking { thinking: seq![], signature: seq![] },
        BlockStart::Other => PartialView::Unmodelled,
    }
}

/// What a delta makes of a block, or what it contradicts.
///
/// A delta that is not modelled contributes nothing, and so does any delta in a
/// block that is not modelled. The remaining pairs are the stream contradicting its
/// own opening.
pub open spec fn extended(p: PartialView, index: usize, delta: Delta) -> Result<
    PartialView,
    StreamError,
> {
    match (p, delta) {
        (PartialView::Text(text), Delta::Text { text: more }) => Ok(
            PartialView::Text(text + more@),
        ),
        (PartialView::Text(_), Delta::Thinking { .. }) => Err(
            StreamError::ThinkingInText { index },
        ),
        (PartialView::Text(_), Delta::Signature { .. }) => Err(
            StreamError::SignatureInText { index },
        ),
        (PartialView::Thinking { thinking, signature }, Delta::Thinking { thinking: more }) => Ok(
            PartialView::Thinking { thinking: thinking + more@, signature },
        ),
        (PartialView::Thinking { thinking, signature }, Delta::Signature { signature: more }) => Ok(
            PartialView::Thinking { thinking, signature: signature + more@ },
        ),
        (PartialView::Thinking { .. }, Delta::Text { .. }) => Err(
            StreamError::TextInThinking { index },
        ),
        (_, _) => Ok(p),
    }
}

/// The block that a closed one is, where its kind is modelled.
pub open spec fn finished(p: PartialView) -> Option<BlockView> {
    match p {
        PartialView::Text(text) => Some(BlockView::Text { text }),
        PartialView::Thinking { thinking, signature } => Some(
            BlockView::Thinking { thinking, signature },
        ),
        PartialView::Unmodelled => None,
    }
}

/// What one event makes of an assembly: the assembly after it and the block that it
/// completed, or what is wrong.
pub open spec fn applied(a: Assembly, event: Event) -> Result<
    (Assembly, Option<BlockView>),
    StreamError,
> {
    match event {
        Event::ContentBlockStart { index, content_block } => Ok(
            (Assembly { open: a.open.insert(index, opened(content_block)), ..a }, None),
        ),
        Event::ContentBlockDelta { index, delta } => if a.open.contains_key(index) {
            match extended(a.open[index], index, delta) {
                Ok(p) => Ok((Assembly { open: a.open.insert(index, p), ..a }, None)),
                Err(e) => Err(e),
            }
        } else {
            Err(StreamError::DeltaWhileClosed { index })
        },
        Event::ContentBlockStop { index } => if a.open.contains_key(index) {
            Ok((Assembly { open: a.open.remove(index), ..a }, finished(a.open[index])))
        } else {
            Err(StreamError::StopWhileClosed { index })
        },
        Event::MessageDelta { delta } => Ok(
            (
                Assembly {
                    stop_reason: match delta.stop_reason {
                        Some(reason) => Some(reason@),
                        None => None,
                    },
                    ..a
                },
                None,
            ),
        ),
        Event::Error { error } => Err(
            StreamError::Api { kind: error.kind, message: error.message },
        ),
        Event::MessageStart | Event::MessageStop | Event::Unknown => Ok((a, None)),
    }
}

/// The blocks of one response, assembled as their events arrive.
///
/// Keyed by index because the index is what the wire uses to address a block, and a
/// stream that opened block 1 before block 0 closed would otherwise be silently
/// misfiled.
#[derive(Debug)]
pub struct Accumulator {
    open: BTreeMap<usize, Partial>,
    stop_reason: Option<String>,
}

impl View for Accumulator {
    type V = Assembly;

    closed spec fn view(&self) -> Assembly {
        Assembly {
            open: self.open@.map_values(|p: Partial| p@),
            stop_reason: match self.stop_reason {
                Some(reason) => Some(reason@),
                None => None,
            },
        }
    }
}

impl Default for Accumulator {
    /// No block is open, and nothing was said of why the model stopped.
    fn default() -> (out: Self)
        ensures
            out@ == (Assembly { open: Map::empty(), stop_reason: None }),
    {
        let out = Accumulator { open: BTreeMap::new(), stop_reason: None };
        proof {
            assert(out@ =~= (Assembly { open: Map::empty(), stop_reason: None }));
        }
        out
    }
}

/// Two texts in one string.
fn appended(text: &String, more: &String) -> (out: String)
    ensures
        out@ == text@ + more@,
{
    let mut chars = chars_of(text.as_str());
    push_str(&mut chars, more.as_str());
    string_of(chars.as_slice())
}

impl Partial {
    fn extend(self, index: usize, delta: Delta) -> (out: (Self, Option<StreamError>))
        ensures
            match extended(self@, index, delta) {
                Ok(p) => out.0@ == p && out.1 is None,
                Err(e) => out.0@ == self@ && out.1 == Some(e),
            },
    {
        match (self, delta) {
            (Partial::Text(text), Delta::Text { text: more }) => (
                Partial::Text(appended(&text, &more)),
                None,
            ),
            (Partial::Text(text), Delta::Thinking { .. }) => (
                Partial::Text(text),
                Some(StreamError::ThinkingInText { index }),
            ),
            (Partial::Text(text), Delta::Signature { .. }) => (
                Partial::Text(text),
                Some(StreamError::SignatureInText { index }),
            ),
            (Partial::Text(text), Delta::Other) => (Partial::Text(text), None),
            (Partial::Thinking { thinking, signature }, Delta::Thinking { thinking: more }) => (
                Partial::Thinking { thinking: appended(&thinking, &more), signature },
                None,
            ),
            (Partial::Thinking { thinking, signature }, Delta::Signature { signature: more }) => (
                Partial::Thinking { thinking, signature: appended(&signature, &more) },
                None,
            ),
            (Partial::Thinking { thinking, signature }, Delta::Text { .. }) => (
                Partial::Thinking { thinking, signature },
                Some(StreamError::TextInThinking { index }),
            ),
            (Partial::Thinking { thinking, signature }, Delta::Other) => (
                Partial::Thinking { thinking, signature },
                None,
            ),
            (Partial::Unmodelled, _) => (Partial::Unmodelled, None),
        }
    }

    fn finish(self) -> (out: Option<ContentBlock>)
        ensures
            finished(self@) == match out {
                Some(block) => Some(block@),
                None => None,
            },
    {
        match self {
            Partial::Text(text) => Some(ContentBlock::Text { text }),
            Partial::Thinking { thinking, signature } => Some(
                ContentBlock::Thinking { thinking, signature },
            ),
            Partial::Unmodelled => None,
        }
    }
}

impl Accumulator {
    /// Applies one event, and takes the block it completed, if it completed one.
    ///
    /// Errors are the turn's errors, not this function's: an `error` event and a
    /// stream that contradicts itself both mean the response cannot be trusted, and
    /// a caller that kept reading past either would append a half-response to the
    /// tree as though it were whole. An event that is refused changes nothing.
    pub fn apply(&mut self, event: Event) -> (out: Result<Option<ContentBlock>, StreamError>)
        ensures
            match applied(old(self)@, event) {
                Ok((after, block)) => {
                    &&& final(self)@ == after
                    &&& out is Ok
                    &&& block == match out->Ok_0 {
                        Some(b) => Some(b@),
                        None => None,
                    }
                },
                Err(e) => final(self)@ == old(self)@ && out is Err && out->Err_0 == e,
            },
    {
        broadcast use group_btree_axioms;

        let ghost before = self@;
        match event {
            Event::ContentBlockStart { index, content_block } => {
                let partial = match content_block {
                    BlockStart::Text => Partial::Text(String::new()),
                    BlockStart::Thinking => Partial::Thinking {
                        thinking: String::new(),
                        signature: String::new(),
                    },
                    BlockStart::Other => Partial::Unmodelled,
                };
                let ghost p = partial@;
                let _replaced = self.open.insert(index, partial);
                proof {
                    assert(self@.open =~= before.open.insert(index, p));
                    assert(p == opened(content_block));
                }
                Ok(None)
            },
            Event::ContentBlockDelta { index, delta } => {
                let partial = match self.open.remove(&index) {
                    Some(partial) => partial,
                    None => {
                        proof {
                            assert(self@.open =~= before.open);
                        }
                        return Err(StreamError::DeltaWhileClosed { index });
                    },
                };
                let (partial, error) = partial.extend(index, delta);
                let ghost p = partial@;
                let _none = self.open.insert(index, partial);
                proof {
                    assert(self@.open =~= before.open.insert(index, p));
                }
                match error {
                    Some(e) => {
                        proof {
                            assert(self@.open =~= before.open);
                        }
                        Err(e)
                    },
                    None => Ok(None),
                }
            },
            Event::ContentBlockStop { index } => {
                match self.open.remove(&index) {
                    Some(partial) => {
                        proof {
                            assert(self@.open =~= before.open.remove(index));
                        }
                        Ok(partial.finish())
                    },
                    None => {
                        proof {
                            assert(self@.open =~= before.open);
                        }
                        Err(StreamError::StopWhileClosed { index })
                    },
                }
            },
            Event::MessageDelta { delta } => {
                self.stop_reason = delta.stop_reason;
                Ok(None)
            },
            Event::Error { error } => Err(
                StreamError::Api { kind: error.kind, message: error.message },
            ),
            Event::MessageStart => Ok(None),
            Event::MessageStop => Ok(None),
            Event::Unknown => Ok(None),
        }
    }

    /// Why the model stopped, once `message_delta` has said.
    pub fn stop_reason(&self) -> (out: Option<&str>)
        ensures
            self@.stop_reason == match out {
                Some(reason) => Some(reason@),
                None => None,
            },
    {
        match &self.stop_reason {
            Some(reason) => Some(reason.as_str()),
            None => None,
        }
    }
}

/// The block that an event is about.
pub open spec fn addressed(event: Event) -> Option<usize> {
    match event {
        Event::ContentBlockStart { index, .. } => Some(index),
        Event::ContentBlockDelta { index, .. } => Some(index),
        Event::ContentBlockStop { index } => Some(index),
        _ => None,
    }
}

/// Blocks do not interfere: an event leaves every block but the one that it is
/// about as it was, however the stream interleaves them.
pub proof fn an_event_touches_only_its_own_block(a: Assembly, event: Event, index: usize)
    requires
        addressed(event) != Some(index),
    ensures
        applied(a, event) matches Ok((after, _)) ==> after.open.contains_key(index)
            == a.open.contains_key(index) && (a.open.contains_key(index) ==> after.open[index]
            == a.open[index]),
{
}

/// Events about different blocks come to the same in either order.
pub proof fn events_of_different_blocks_commute(a: Assembly, first: Event, second: Event)
    requires
        addressed(first) is Some,
        addressed(second) is Some,
        addressed(first) != addressed(second),
        applied(a, first) is Ok,
        applied(a, second) is Ok,
    ensures
        ({
            let (after_first, first_block) = applied(a, first)->Ok_0;
            let (after_second, second_block) = applied(a, second)->Ok_0;
            &&& applied(after_first, second) is Ok
            &&& applied(after_second, first) is Ok
            &&& applied(after_first, second)->Ok_0.0 == applied(after_second, first)->Ok_0.0
            &&& applied(after_first, second)->Ok_0.1 == second_block
            &&& applied(after_second, first)->Ok_0.1 == first_block
        }),
{
    let (after_first, _) = applied(a, first)->Ok_0;
    let (after_second, _) = applied(a, second)->Ok_0;
    let one = applied(after_first, second)->Ok_0.0;
    let two = applied(after_second, first)->Ok_0.0;
    assert(one.open =~= two.open);
}

/// A block after a run of deltas.
pub open spec fn fed(p: PartialView, index: usize, deltas: Seq<Delta>) -> Result<
    PartialView,
    StreamError,
>
    decreases deltas.len(),
{
    if deltas.len() == 0 {
        Ok(p)
    } else {
        match fed(p, index, deltas.drop_last()) {
            Ok(q) => extended(q, index, deltas.last()),
            Err(e) => Err(e),
        }
    }
}

/// The text that a delta carries.
pub open spec fn text_in(delta: Delta) -> Seq<char> {
    match delta {
        Delta::Text { text } => text@,
        _ => seq![],
    }
}

/// The thinking that a delta carries.
pub open spec fn thinking_in(delta: Delta) -> Seq<char> {
    match delta {
        Delta::Thinking { thinking } => thinking@,
        _ => seq![],
    }
}

/// The piece of a signature that a delta carries.
pub open spec fn signature_in(delta: Delta) -> Seq<char> {
    match delta {
        Delta::Signature { signature } => signature@,
        _ => seq![],
    }
}

/// What all the deltas carry, put together.
pub open spec fn carried(deltas: Seq<Delta>, part: spec_fn(Delta) -> Seq<char>) -> Seq<char>
    decreases deltas.len(),
{
    if deltas.len() == 0 {
        seq![]
    } else {
        carried(deltas.drop_last(), part) + part(deltas.last())
    }
}

/// A text block is its deltas put together, with those that are not modelled left
/// out.
pub proof fn text_deltas_concatenate(index: usize, deltas: Seq<Delta>)
    requires
        forall|i: int|
            0 <= i < deltas.len() ==> #[trigger] deltas[i] is Text || deltas[i] is Other,
    ensures
        fed(opened(BlockStart::Text), index, deltas) == Ok::<PartialView, StreamError>(
            PartialView::Text(carried(deltas, |d: Delta| text_in(d))),
        ),
    decreases deltas.len(),
{
    if deltas.len() > 0 {
        let rest = deltas.drop_last();
        assert forall|i: int| 0 <= i < rest.len() implies #[trigger] rest[i] is Text
            || rest[i] is Other by {
            assert(rest[i] == deltas[i]);
        }
        text_deltas_concatenate(index, rest);
        assert(deltas[deltas.len() - 1] == deltas.last());
        let before = carried(rest, |d: Delta| text_in(d));
        assert(before + seq![] =~= before);
    }
}

/// A thinking block is its deltas put together, thinking and signature apart, in
/// whatever order they arrive: no part of a signature is lost.
pub proof fn a_thinking_block_keeps_its_signature(index: usize, deltas: Seq<Delta>)
    requires
        forall|i: int|
            0 <= i < deltas.len() ==> #[trigger] deltas[i] is Thinking || deltas[i] is Signature
                || deltas[i] is Other,
    ensures
        fed(opened(BlockStart::Thinking), index, deltas) == Ok::<PartialView, StreamError>(
            PartialView::Thinking {
                thinking: carried(deltas, |d: Delta| thinking_in(d)),
                signature: carried(deltas, |d: Delta| signature_in(d)),
            },
        ),
    decreases deltas.len(),
{
    if deltas.len() > 0 {
        let rest = deltas.drop_last();
        assert forall|i: int| 0 <= i < rest.len() implies #[trigger] rest[i] is Thinking
            || rest[i] is Signature || rest[i] is Other by {
            assert(rest[i] == deltas[i]);
        }
        a_thinking_block_keeps_its_signature(index, rest);
        assert(deltas[deltas.len() - 1] == deltas.last());
        let thinking = carried(rest, |d: Delta| thinking_in(d));
        let signature = carried(rest, |d: Delta| signature_in(d));
        assert(thinking + seq![] =~= thinking);
        assert(signature + seq![] =~= signature);
    }
}

/// A block of a kind that is not modelled swallows every delta and closes to
/// nothing.
pub proof fn an_unmodelled_block_comes_to_nothing(index: usize, deltas: Seq<Delta>)
    ensures
        fed(PartialView::Unmodelled, index, deltas) == Ok::<PartialView, StreamError>(
            PartialView::Unmodelled,
        ),
        finished(PartialView::Unmodelled) is None,
    decreases deltas.len(),
{
    if deltas.len() > 0 {
        an_unmodelled_block_comes_to_nothing(index, deltas.drop_last());
    }
}

/// What a stream of events makes of an assembly: the assembly after them and the blocks
/// that they completed, in order, or the first thing that is wrong.
pub open spec fn applied_all(a: Assembly, events: Seq<Event>) -> Result<
    (Assembly, Seq<BlockView>),
    StreamError,
>
    decreases events.len(),
{
    if events.len() == 0 {
        Ok((a, seq![]))
    } else {
        match applied_all(a, events.drop_last()) {
            Ok((before, blocks)) => match applied(before, events.last()) {
                Ok((after, Some(block))) => Ok((after, blocks.push(block))),
                Ok((after, None)) => Ok((after, blocks)),
                Err(e) => Err(e),
            },
            Err(e) => Err(e),
        }
    }
}

/// An event neither opens nor closes the block at an index.
pub open spec fn leaves_open(event: Event, index: usize) -> bool {
    match event {
        Event::ContentBlockStart { index: i, .. } => i != index,
        Event::ContentBlockStop { index: i } => i != index,
        _ => true,
    }
}

/// What the deltas of a stream carry for the block at an index, put together in the order
/// in which they came.
pub open spec fn sent_to(
    events: Seq<Event>,
    index: usize,
    part: spec_fn(Delta) -> Seq<char>,
) -> Seq<char>
    decreases events.len(),
{
    if events.len() == 0 {
        seq![]
    } else {
        let before = sent_to(events.drop_last(), index, part);
        match events.last() {
            Event::ContentBlockDelta { index: i, delta } if i == index => before + part(delta),
            _ => before,
        }
    }
}

/// What an open block holds once a stream has gone on without closing it.
proof fn an_open_block_gathers_its_deltas(
    a: Assembly,
    start: BlockStart,
    events: Seq<Event>,
    index: usize,
)
    requires
        a.open.contains_key(index),
        a.open[index] == opened(start),
        forall|i: int| 0 <= i < events.len() ==> leaves_open(#[trigger] events[i], index),
    ensures
        applied_all(a, events) matches Ok((after, _)) ==> after.open.contains_key(index)
            && after.open[index] == match start {
            BlockStart::Text => PartialView::Text(
                sent_to(events, index, |d: Delta| text_in(d)),
            ),
            BlockStart::Thinking => PartialView::Thinking {
                thinking: sent_to(events, index, |d: Delta| thinking_in(d)),
                signature: sent_to(events, index, |d: Delta| signature_in(d)),
            },
            BlockStart::Other => PartialView::Unmodelled,
        },
    decreases events.len(),
{
    if events.len() > 0 {
        let rest = events.drop_last();
        let event = events.last();
        assert forall|i: int| 0 <= i < rest.len() implies leaves_open(
            #[trigger] rest[i],
            index,
        ) by {
            assert(rest[i] == events[i]);
        }
        assert(leaves_open(events[events.len() - 1], index));
        an_open_block_gathers_its_deltas(a, start, rest, index);
        if applied_all(a, events) is Ok {
            let before = applied_all(a, rest)->Ok_0.0;
            let text = sent_to(rest, index, |d: Delta| text_in(d));
            let thinking = sent_to(rest, index, |d: Delta| thinking_in(d));
            let signature = sent_to(rest, index, |d: Delta| signature_in(d));
            match event {
                Event::ContentBlockDelta { index: i, delta } if i == index => {
                    assert(extended(before.open[index], index, delta) is Ok);
                    assert(text + Seq::<char>::empty() =~= text);
                    assert(thinking + Seq::<char>::empty() =~= thinking);
                    assert(signature + Seq::<char>::empty() =~= signature);
                },
                _ => {
                    if addressed(event) is Some {
                        an_event_touches_only_its_own_block(before, event, index);
                    }
                },
            }
        }
    }
}

/// A block that opens as text and closes, in a stream that nothing is wrong with, is one
/// text block with all that its deltas carried in between and nothing else, however
/// events of other blocks stand among them.
pub proof fn a_text_block_is_what_its_deltas_carried(
    a: Assembly,
    index: usize,
    between: Seq<Event>,
)
    requires
        forall|i: int| 0 <= i < between.len() ==> leaves_open(#[trigger] between[i], index),
        applied_all(
            a,
            seq![Event::ContentBlockStart { index, content_block: BlockStart::Text }] + between,
        ) is Ok,
    ensures
        ({
            let start = Event::ContentBlockStart { index, content_block: BlockStart::Text };
            let stop = Event::ContentBlockStop { index };
            let (after, blocks) = applied_all(a, seq![start] + between)->Ok_0;
            applied_all(a, (seq![start] + between).push(stop)) == Ok::<
                (Assembly, Seq<BlockView>),
                StreamError,
            >(
                (
                    Assembly { open: after.open.remove(index), ..after },
                    blocks.push(
                        BlockView::Text { text: sent_to(between, index, |d: Delta| text_in(d)) },
                    ),
                ),
            )
        }),
{
    let start = Event::ContentBlockStart { index, content_block: BlockStart::Text };
    a_stream_goes_on(a, start, between);
    let first = applied(a, start)->Ok_0.0;
    an_open_block_gathers_its_deltas(first, BlockStart::Text, between, index);
    let all = (seq![start] + between).push(Event::ContentBlockStop { index });
    assert(all.drop_last() =~= seq![start] + between);
}

/// A block that opens as thinking and closes, in a stream that nothing is wrong with, is
/// one thinking block with all the thinking and all the signature that its deltas carried
/// in between and nothing else, however they and the events of other blocks are mixed.
pub proof fn a_thinking_block_is_what_its_deltas_carried(
    a: Assembly,
    index: usize,
    between: Seq<Event>,
)
    requires
        forall|i: int| 0 <= i < between.len() ==> leaves_open(#[trigger] between[i], index),
        applied_all(
            a,
            seq![Event::ContentBlockStart { index, content_block: BlockStart::Thinking }] + between,
        ) is Ok,
    ensures
        ({
            let start = Event::ContentBlockStart { index, content_block: BlockStart::Thinking };
            let stop = Event::ContentBlockStop { index };
            let (after, blocks) = applied_all(a, seq![start] + between)->Ok_0;
            applied_all(a, (seq![start] + between).push(stop)) == Ok::<
                (Assembly, Seq<BlockView>),
                StreamError,
            >(
                (
                    Assembly { open: after.open.remove(index), ..after },
                    blocks.push(
                        BlockView::Thinking {
                            thinking: sent_to(between, index, |d: Delta| thinking_in(d)),
                            signature: sent_to(between, index, |d: Delta| signature_in(d)),
                        },
                    ),
                ),
            )
        }),
{
    let start = Event::ContentBlockStart { index, content_block: BlockStart::Thinking };
    a_stream_goes_on(a, start, between);
    let first = applied(a, start)->Ok_0.0;
    an_open_block_gathers_its_deltas(first, BlockStart::Thinking, between, index);
    let all = (seq![start] + between).push(Event::ContentBlockStop { index });
    assert(all.drop_last() =~= seq![start] + between);
}

/// A stream after its first event is the rest of it, from there; where the first one
/// completes no block, the blocks are those of the rest.
proof fn a_stream_goes_on(a: Assembly, first: Event, rest: Seq<Event>)
    requires
        applied(a, first) matches Ok((_, None)),
    ensures
        applied_all(a, seq![first] + rest) == applied_all(applied(a, first)->Ok_0.0, rest),
    decreases rest.len(),
{
    let all = seq![first] + rest;
    if rest.len() == 0 {
        assert(all.drop_last() =~= seq![]);
        assert(applied_all(a, all.drop_last()) == Ok::<(Assembly, Seq<BlockView>), StreamError>(
            (a, seq![]),
        ));
        assert(all.last() == first);
    } else {
        a_stream_goes_on(a, first, rest.drop_last());
        assert(all.drop_last() =~= seq![first] + rest.drop_last());
        assert(all.last() == rest.last());
    }
}

/// What a stream says last of why the model stopped: what its last message delta says.
pub open spec fn last_reason(events: Seq<Event>) -> Option<Option<Seq<char>>>
    decreases events.len(),
{
    if events.len() == 0 {
        None
    } else {
        match events.last() {
            Event::MessageDelta { delta } => Some(
                match delta.stop_reason {
                    Some(reason) => Some(reason@),
                    None => None,
                },
            ),
            _ => last_reason(events.drop_last()),
        }
    }
}

/// Why the model stopped is what the last message delta said of it, and what was known
/// before where there is none.
pub proof fn the_last_message_delta_says_why(a: Assembly, events: Seq<Event>)
    ensures
        applied_all(a, events) matches Ok((after, _)) ==> after.stop_reason == match last_reason(
            events,
        ) {
            Some(reason) => reason,
            None => a.stop_reason,
        },
    decreases events.len(),
{
    if events.len() > 0 {
        the_last_message_delta_says_why(a, events.drop_last());
    }
}

/// Nothing comes of nothing: a stream completes no more blocks than it closes, and one
/// that only opens, adds and names a reason completes none.
pub proof fn only_a_stop_completes_a_block(a: Assembly, event: Event)
    ensures
        applied(a, event) matches Ok((_, Some(_))) ==> event is ContentBlockStop,
        event is Error ==> applied(a, event) is Err,
        (event matches Event::ContentBlockDelta { index, .. } && !a.open.contains_key(index))
            ==> applied(a, event) is Err,
        (event matches Event::ContentBlockStop { index } && !a.open.contains_key(index))
            ==> applied(a, event) is Err,
        (event matches Event::ContentBlockStop { index } && a.open.contains_key(index))
            ==> applied(a, event) is Ok,
{
}

/// Nothing is wrong with a stream that keeps to its own openings: an opening, an end of the
/// message, a reason and what is not known are always taken, and so is a delta of the kind
/// that its block opened as.
pub proof fn a_stream_that_keeps_to_its_openings_is_taken(a: Assembly, event: Event)
    ensures
        event is ContentBlockStart || event is MessageStart || event is MessageStop
            || event is MessageDelta || event is Unknown ==> applied(a, event) is Ok,
        event matches Event::ContentBlockDelta { index, delta } ==> (a.open.contains_key(index) ==> (
        (a.open[index] is Text && (delta is Text || delta is Other)) || (a.open[index] is Thinking
            && !(delta is Text)) || a.open[index] is Unmodelled ==> applied(a, event) is Ok)),
        event matches Event::ContentBlockDelta { index, delta } ==> (a.open.contains_key(index) ==> (
        (a.open[index] is Text && (delta is Thinking || delta is Signature)) || (
        a.open[index] is Thinking && delta is Text) ==> applied(a, event) is Err)),
{
}

/// What is wrong is said of the block that it is wrong with: a delta of another kind than
/// its block opened as, a delta or an end without an opening; and what the service itself
/// reports is handed on as it is.
pub proof fn a_problem_names_its_block(a: Assembly, event: Event, e: StreamError)
    requires
        applied(a, event) == Err::<(Assembly, Option<BlockView>), StreamError>(e),
    ensures
        event matches Event::Error { error } ==> (e matches StreamError::Api { kind, message }
            && kind == error.kind && message == error.message),
        event matches Event::ContentBlockStop { index: i } ==> (
        e matches StreamError::StopWhileClosed { index } && index == i),
        event matches Event::ContentBlockDelta { index: i, delta } ==> {
            &&& !a.open.contains_key(i) ==> (e matches StreamError::DeltaWhileClosed { index }
                && index == i)
            &&& a.open.contains_key(i) && delta is Thinking ==> a.open[i] is Text && (
            e matches StreamError::ThinkingInText { index } && index == i)
            &&& a.open.contains_key(i) && delta is Signature ==> a.open[i] is Text && (
            e matches StreamError::SignatureInText { index } && index == i)
            &&& a.open.contains_key(i) && delta is Text ==> a.open[i] is Thinking && (
            e matches StreamError::TextInThinking { index } && index == i)
        },
{
}

} // verus!
