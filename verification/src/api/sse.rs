//! Server-sent events, decoded without touching a socket.
//!
//! Line endings are assumed to be LF: the API sends them, and the `\r\n\r\n`
//! separator is not matched here. A CRLF stream decodes to nothing at all, and is
//! refused once the buffer passes its bound.
use vstd::prelude::*;
use vstd::slice::slice_subrange;
use vstd::utf8::{decode_utf8, valid_utf8};
use crate::number::{decimal, push_decimal};
use crate::text::{
    chars_of, joined, lines, push_all, push_str, slices, split_lines, starts_with,
    string_of, strings,
};

verus! {

/// `std::string::FromUtf8Error`, which says where a byte sequence stops being
/// UTF-8. Nothing here reads it.
#[verifier::external_type_specification]
#[verifier::external_body]
pub struct ExFromUtf8Error(std::string::FromUtf8Error);

/// `String::from_utf8` turns bytes into the string that they encode, and refuses
/// those that are not UTF-8.
pub assume_specification[ String::from_utf8 ](vec: Vec<u8>) -> (res: Result<
    String,
    std::string::FromUtf8Error,
>)
    ensures
        res is Ok <==> valid_utf8(vec@),
        res matches Ok(s) ==> s@ == decode_utf8(vec@),
;

/// How much unterminated frame to tolerate before calling the stream broken.
///
/// A `content_block_delta` is orders of magnitude under a mebibyte, so no healthy
/// stream approaches this and nothing is lost by refusing to buffer past it.
pub const MAX_BUFFERED: usize = 0x10_0000;

/// The byte of a line feed. A separator is two of them.
const FEED: u8 = 10;

/// The first position at or after `i` where a separator stands.
pub open spec fn next_separator(b: Seq<u8>, i: int) -> Option<int>
    decreases b.len() - i,
{
    if i < 0 || i + 2 > b.len() {
        None
    } else if b[i] == 10 && b[i + 1] == 10 {
        Some(i)
    } else {
        next_separator(b, i + 1)
    }
}

/// The complete frames that a byte sequence begins with, each with its separator.
pub open spec fn frames(b: Seq<u8>) -> Seq<Seq<u8>>
    decreases b.len(),
{
    match next_separator(b, 0) {
        Some(k) if 0 <= k && k + 2 <= b.len() => seq![b.take(k + 2)] + frames(b.skip(k + 2)),
        _ => seq![],
    }
}

/// What follows the first `n` frames.
pub open spec fn after_frames(b: Seq<u8>, n: int) -> Seq<u8>
    decreases n,
{
    if n <= 0 {
        b
    } else {
        match next_separator(b, 0) {
            Some(k) => after_frames(b.skip(k + 2), n - 1),
            None => b,
        }
    }
}

/// What follows the last complete frame.
pub open spec fn unfinished(b: Seq<u8>) -> Seq<u8> {
    after_frames(b, frames(b).len() as int)
}

/// Every frame is UTF-8.
pub open spec fn all_utf8(fs: Seq<Seq<u8>>) -> bool {
    forall|i: int| 0 <= i < fs.len() ==> valid_utf8(#[trigger] fs[i])
}

/// The texts of the frames.
pub open spec fn frame_texts(fs: Seq<Seq<u8>>) -> Seq<Seq<char>> {
    fs.map_values(|f: Seq<u8>| decode_utf8(f))
}

/// Why a stream cannot be decoded.
#[derive(Debug, Clone, Copy, PartialEq, Eq)]
pub enum DecodeError {
    /// A frame was not UTF-8.
    NotUtf8,
    /// The unterminated frame passed the bound.
    Unterminated { buffered: usize },
}

impl DecodeError {
    /// The error in words.
    pub open spec fn words(self) -> Seq<char> {
        match self {
            DecodeError::NotUtf8 => "an SSE frame was not UTF-8"@,
            DecodeError::Unterminated { buffered } => "no SSE frame separator in "@ + decimal(
                buffered as nat,
            ) + " buffered bytes"@,
        }
    }

    /// The error in words.
    pub fn message(&self) -> (out: String)
        ensures
            out@ == self.words(),
    {
        let mut out: Vec<char> = Vec::new();
        match self {
            DecodeError::NotUtf8 => {
                push_str(&mut out, "an SSE frame was not UTF-8");
            },
            DecodeError::Unterminated { buffered } => {
                push_str(&mut out, "no SSE frame separator in ");
                push_decimal(&mut out, *buffered as u64);
                push_str(&mut out, " buffered bytes");
            },
        }
        proof {
            assert(out@ =~= self.words());
        }
        string_of(out.as_slice())
    }
}

/// Splits a byte stream into SSE frames.
///
/// Frames are separated by a blank line, and the chunk boundaries a HTTP stream
/// hands over have nothing to do with them: one chunk may carry three frames, or
/// half of one. The buffer is what bridges that.
#[derive(Debug)]
pub struct FrameDecoder {
    buffer: Vec<u8>,
}

impl View for FrameDecoder {
    type V = Seq<u8>;

    /// The bytes that wait for their separator.
    closed spec fn view(&self) -> Seq<u8> {
        self.buffer@
    }
}

impl Default for FrameDecoder {
    /// A decoder that has seen nothing.
    fn default() -> (out: Self)
        ensures
            out@ == Seq::<u8>::empty(),
    {
        FrameDecoder { buffer: Vec::new() }
    }
}

fn separator(b: &[u8]) -> (out: Option<usize>)
    ensures
        next_separator(b@, 0) == match out {
            Some(k) => Some(k as int),
            None => None,
        },
        out matches Some(k) ==> k + 2 <= b@.len(),
{
    let n: usize = b.len();
    let mut i: usize = 0;
    while i < n && n - i >= 2
        invariant
            i <= n,
            n == b@.len(),
            next_separator(b@, 0) == next_separator(b@, i as int),
        decreases n - i,
    {
        if b[i] == FEED && b[i + 1] == FEED {
            return Some(i);
        }
        i += 1;
    }
    None
}

fn bytes_of(b: &[u8]) -> (out: Vec<u8>)
    ensures
        out@ == b@,
{
    let mut out: Vec<u8> = Vec::new();
    let mut i: usize = 0;
    while i < b.len()
        invariant
            i <= b@.len(),
            out@ == b@.take(i as int),
        decreases b.len() - i,
    {
        out.push(b[i]);
        i += 1;
        proof {
            assert(b@.take(i as int) =~= b@.take(i - 1).push(b@[i - 1]));
        }
    }
    proof {
        assert(b@.take(i as int) =~= b@);
    }
    out
}

proof fn frames_step(b: Seq<u8>, n: int)
    requires
        0 <= n,
    ensures
        ({
            let rest = after_frames(b, n);
            match next_separator(rest, 0) {
                Some(k) => n <= frames(b).len() ==> n < frames(b).len() && frames(b)[n]
                    == rest.take(k + 2) && after_frames(b, n + 1) == rest.skip(k + 2),
                None => n <= frames(b).len() ==> n == frames(b).len(),
            }
        }),
    decreases n,
{
    separator_bounds(b, 0);
    if n > 0 {
        match next_separator(b, 0) {
            Some(k) => {
                frames_step(b.skip(k + 2), n - 1);
            },
            None => {},
        }
    } else {
        match next_separator(b, 0) {
            Some(k) => {
                assert(after_frames(b.skip(k + 2), 0) == b.skip(k + 2));
            },
            None => {},
        }
    }
}

proof fn separator_bounds(b: Seq<u8>, i: int)
    requires
        0 <= i,
    ensures
        next_separator(b, i) matches Some(k) ==> i <= k && k + 2 <= b.len() && b[k] == 10
            && b[k + 1] == 10,
        forall|j: int|
            i <= j && (next_separator(b, i) matches Some(k) ==> j < k) ==> !(#[trigger] feeds_at(
                b,
                j,
            )),
    decreases b.len() - i,
{
    if i + 2 <= b.len() && !(b[i] == 10 && b[i + 1] == 10) {
        separator_bounds(b, i + 1);
    }
}

/// A separator stands at `i`.
pub open spec fn feeds_at(b: Seq<u8>, i: int) -> bool {
    0 <= i && i + 2 <= b.len() && b[i] == 10 && b[i + 1] == 10
}

impl FrameDecoder {
    /// Feeds a chunk, and takes whatever frames it completed.
    ///
    /// A frame that is not UTF-8 fails the call: it is dropped with the frames
    /// before it, and what follows it stays buffered. So does an unterminated
    /// frame past the bound, which stays buffered whole.
    pub fn decode(&mut self, chunk: &[u8]) -> (out: Result<Vec<String>, DecodeError>)
        ensures
            ({
                let all = old(self)@ + chunk@;
                match out {
                    Ok(list) => {
                        &&& all_utf8(frames(all))
                        &&& unfinished(all).len() <= MAX_BUFFERED
                        &&& strings(list@) == frame_texts(frames(all))
                        &&& final(self)@ == unfinished(all)
                    },
                    Err(DecodeError::Unterminated { buffered }) => {
                        &&& all_utf8(frames(all))
                        &&& unfinished(all).len() > MAX_BUFFERED
                        &&& buffered == unfinished(all).len()
                        &&& final(self)@ == unfinished(all)
                    },
                    Err(DecodeError::NotUtf8) => exists|n: int|
                        0 <= n < frames(all).len() && !valid_utf8(#[trigger] frames(all)[n])
                            && all_utf8(frames(all).take(n)) && final(self)@ == after_frames(
                            all,
                            n + 1,
                        ),
                }
            }),
    {
        let mut i: usize = 0;
        while i < chunk.len()
            invariant
                i <= chunk@.len(),
                self.buffer@ == old(self).buffer@ + chunk@.take(i as int),
            decreases chunk.len() - i,
        {
            self.buffer.push(chunk[i]);
            i += 1;
            proof {
                assert(chunk@.take(i as int) =~= chunk@.take(i - 1).push(chunk@[i - 1]));
            }
        }
        let ghost all = old(self)@ + chunk@;
        proof {
            assert(chunk@.take(i as int) =~= chunk@);
            assert(self.buffer@ =~= all);
            assert(all.skip(0) =~= all);
        }
        let total: usize = self.buffer.len();
        let mut list: Vec<String> = Vec::new();
        let mut start: usize = 0;
        let ghost mut n: int = 0;
        proof {
            assert(strings(list@) =~= frame_texts(frames(all).take(0)));
        }
        loop
            invariant_except_break
                all == old(self)@ + chunk@,
                start <= total,
                total == self.buffer@.len(),
                self.buffer@ == all,
                0 <= n <= frames(all).len(),
                all.skip(start as int) == after_frames(all, n),
                all_utf8(frames(all).take(n)),
                strings(list@) == frame_texts(frames(all).take(n)),
            ensures
                start <= total,
                total == self.buffer@.len(),
                self.buffer@ == all,
                all.skip(start as int) == unfinished(all),
                all_utf8(frames(all)),
                strings(list@) == frame_texts(frames(all)),
            decreases total - start,
        {
            let rest = slice_subrange(self.buffer.as_slice(), start, total);
            proof {
                assert(rest@ =~= all.skip(start as int));
                frames_step(all, n);
            }
            match separator(rest) {
                Some(k) => {
                    let frame = bytes_of(slice_subrange(rest, 0, k + 2));
                    let ghost before = list@;
                    proof {
                        assert(frame@ =~= rest@.take(k + 2));
                        assert(rest@.skip(k + 2) =~= all.skip(start + k + 2));
                    }
                    match String::from_utf8(frame) {
                        Ok(text) => {
                            list.push(text);
                            proof {
                                assert(strings(list@) =~= strings(before).push(text@));
                                assert(frames(all).take(n + 1) =~= frames(all).take(n).push(
                                    frames(all)[n],
                                ));
                                assert(frame_texts(frames(all).take(n + 1)) =~= frame_texts(
                                    frames(all).take(n),
                                ).push(text@));
                                n = n + 1;
                            }
                            start = start + k + 2;
                        },
                        Err(_) => {
                            let left = bytes_of(
                                slice_subrange(self.buffer.as_slice(), start + k + 2, total),
                            );
                            proof {
                                assert(left@ =~= all.skip(start + k + 2));
                                assert(left@ == after_frames(all, n + 1));
                            }
                            self.buffer = left;
                            return Err(DecodeError::NotUtf8);
                        },
                    }
                },
                None => {
                    proof {
                        assert(frames(all).take(n) =~= frames(all));
                    }
                    break ;
                },
            }
        }
        let left = bytes_of(slice_subrange(self.buffer.as_slice(), start, total));
        proof {
            assert(left@ =~= all.skip(start as int));
        }
        let buffered: usize = left.len();
        self.buffer = left;
        if buffered > MAX_BUFFERED {
            return Err(DecodeError::Unterminated { buffered });
        }
        Ok(list)
    }
}

/// The payloads of the `data:` lines, in order, each without the blank that may
/// stand before it.
pub open spec fn data_lines(ls: Seq<Seq<char>>) -> Seq<Seq<char>>
    decreases ls.len(),
{
    if ls.len() == 0 {
        seq![]
    } else {
        let l = ls.last();
        let before = data_lines(ls.drop_last());
        if "data:"@.is_prefix_of(l) {
            let rest = l.skip(5);
            before.push(
                if rest.len() > 0 && rest[0] == ' ' {
                    rest.skip(1)
                } else {
                    rest
                },
            )
        } else {
            before
        }
    }
}

/// The payload of a frame, where it has any.
pub open spec fn payload_of(frame: Seq<char>) -> Option<Seq<char>> {
    let data = data_lines(lines(frame));
    if data.len() == 0 {
        None
    } else {
        Some(joined(data, seq!['\n']))
    }
}

/// The payload of a frame: its `data:` lines, joined.
///
/// The `event:` line is deliberately ignored. Every payload carries its own
/// `type`, so reading both would give one fact two sources of truth.
pub fn data_of(frame: &str) -> (out: Option<String>)
    ensures
        payload_of(frame@) == match out {
            Some(s) => Some(s@),
            None => None,
        },
{
    let frame = chars_of(frame);
    let ls = split_lines(frame.as_slice());
    let ghost all = lines(frame@);
    let mut payload: Vec<char> = Vec::new();
    let mut some = false;
    let mut i: usize = 0;
    proof {
        assert(all.take(0) =~= seq![]);
    }
    while i < ls.len()
        invariant
            i <= ls@.len(),
            slices(ls@) == all,
            some == (data_lines(all.take(i as int)).len() > 0),
            payload@ == joined(data_lines(all.take(i as int)), seq!['\n']),
        decreases ls.len() - i,
    {
        let line = ls[i];
        proof {
            assert(all[i as int] == line@);
            assert(all.take(i + 1).drop_last() =~= all.take(i as int));
        }
        let ghost before = data_lines(all.take(i as int));
        i += 1;
        if !starts_with(line, "data:") {
            continue ;
        }
        proof {
            reveal_strlit("data:");
        }
        let mut rest = slice_subrange(line, 5, line.len());
        proof {
            assert(rest@ =~= line@.skip(5));
        }
        if rest.len() > 0 && rest[0] == ' ' {
            let tail = slice_subrange(rest, 1, rest.len());
            proof {
                assert(tail@ =~= rest@.skip(1));
            }
            rest = tail;
        }
        let ghost so_far = payload@;
        if some {
            payload.push('\n');
        }
        push_all(&mut payload, rest);
        some = true;
        proof {
            let now = before.push(rest@);
            assert(data_lines(all.take(i as int)) == now);
            assert(now.drop_last() =~= before);
            if before.len() > 0 {
                assert(payload@ =~= so_far + seq!['\n'] + rest@);
            } else {
                assert(payload@ =~= rest@);
            }
        }
    }
    proof {
        assert(all.take(i as int) =~= all);
    }
    if some {
        Some(string_of(payload.as_slice()))
    } else {
        None
    }
}

/// Where a chunk of the stream ends cannot be observed: the frames of two chunks,
/// the second read after what the first left unfinished, are the frames of both
/// together.
pub proof fn chunk_boundaries_are_unobservable(a: Seq<u8>, b: Seq<u8>)
    ensures
        frames(a + b) == frames(a) + frames(unfinished(a) + b),
        unfinished(a + b) == unfinished(unfinished(a) + b),
    decreases a.len(),
{
    separator_bounds(a, 0);
    match next_separator(a, 0) {
        Some(k) => {
            let rest = a.skip(k + 2);
            separator_stays(a, b, 0);
            assert((a + b).skip(k + 2) =~= rest + b);
            assert((a + b).take(k + 2) =~= a.take(k + 2));
            chunk_boundaries_are_unobservable(rest, b);
            assert(frames(a + b) =~= frames(a) + frames(unfinished(a) + b));
        },
        None => {
            assert(frames(a) + frames(a + b) =~= frames(a + b));
        },
    }
}

proof fn separator_stays(a: Seq<u8>, b: Seq<u8>, i: int)
    requires
        0 <= i,
        next_separator(a, i) is Some,
    ensures
        next_separator(a + b, i) == next_separator(a, i),
    decreases a.len() - i,
{
    if !(a[i] == 10 && a[i + 1] == 10) {
        separator_stays(a, b, i + 1);
    }
}

/// Every frame ends with its separator and holds none before it, no frame waits in
/// what is left unfinished, and nothing is lost.
pub proof fn a_frame_ends_at_its_first_blank_line(b: Seq<u8>)
    ensures
        forall|i: int|
            0 <= i < frames(b).len() ==> (#[trigger] frames(b)[i]).len() >= 2 && forall|j: int|
                feeds_at(frames(b)[i], j) <==> j == frames(b)[i].len() - 2,
        next_separator(unfinished(b), 0) is None,
        frames(b).flatten() + unfinished(b) == b,
    decreases b.len(),
{
    separator_bounds(b, 0);
    match next_separator(b, 0) {
        Some(k) => {
            let head = b.take(k + 2);
            let rest = b.skip(k + 2);
            a_frame_ends_at_its_first_blank_line(rest);
            assert forall|j: int| feeds_at(head, j) <==> j == k by {
                if feeds_at(head, j) && j < k {
                    assert(feeds_at(b, j));
                }
            }
            assert forall|i: int| 0 <= i < frames(b).len() implies (#[trigger] frames(
                b,
            )[i]).len() >= 2 && forall|j: int|
                feeds_at(frames(b)[i], j) <==> j == frames(b)[i].len() - 2 by {
                if i > 0 {
                    assert(frames(b)[i] == frames(rest)[i - 1]);
                } else {
                    assert(frames(b)[0] == head);
                }
            }
            assert(frames(b).drop_first() =~= frames(rest));
            assert(frames(b).flatten() == head + frames(rest).flatten());
            assert(b =~= head + rest);
            assert(frames(b).flatten() + unfinished(b) =~= b);
        },
        None => {
            assert(frames(b).flatten() + unfinished(b) =~= b);
        },
    }
}

/// One decoded SSE event.
///
/// [`Event::Unknown`] is the important variant: it is what keeps a server-side
/// addition from becoming a client-side failure.
#[derive(Debug)]
pub enum Event {
    MessageStart,
    ContentBlockStart { index: usize, content_block: BlockStart },
    ContentBlockDelta { index: usize, delta: Delta },
    ContentBlockStop { index: usize },
    MessageDelta { delta: MessageDelta },
    MessageStop,
    Error { error: ApiError },
    Unknown,
}

/// The opening shape of a block, which is what says how to accumulate it.
#[derive(Debug)]
pub enum BlockStart {
    Text,
    Thinking,
    /// A kind that is not modelled: `tool_use`, and whatever comes later.
    /// Accumulated as nothing rather than refused.
    Other,
}

/// A piece of a block.
#[derive(Debug)]
pub enum Delta {
    Text { text: String },
    Thinking { thinking: String },
    /// A thinking block's signature arrives separately from its text. A decoder
    /// that accumulated only the text would produce a block that serializes
    /// without one and is rejected on the next turn.
    Signature { signature: String },
    Other,
}

/// What changed about the message as a whole.
#[derive(Debug)]
pub struct MessageDelta {
    pub stop_reason: Option<String>,
}

/// An error that the API sent down the stream.
#[derive(Debug)]
pub struct ApiError {
    pub kind: String,
    pub message: String,
}

/// Every data line is in the payload, and no other line is: a line that begins with
/// `data:` adds what stands behind it, without the one blank that may come first, and any
/// other line adds nothing.
pub proof fn every_data_line_is_in_the_payload(ls: Seq<Seq<char>>, rest: Seq<char>, l: Seq<char>)
    requires
        l.len() < 5 || l.take(5) != "data:"@,
    ensures
        data_lines(ls.push("data: "@ + rest)) == data_lines(ls).push(rest),
        rest.len() == 0 || rest[0] != ' ' ==> data_lines(ls.push("data:"@ + rest)) == data_lines(
            ls,
        ).push(rest),
        data_lines(ls.push(l)) == data_lines(ls),
{
    reveal_strlit("data: ");
    reveal_strlit("data:");
    let a = "data: "@ + rest;
    let b = "data:"@ + rest;
    assert(ls.push(a).drop_last() =~= ls);
    assert(ls.push(b).drop_last() =~= ls);
    assert(ls.push(l).drop_last() =~= ls);
    assert("data:"@ =~= a.subrange(0, 5));
    assert("data:"@ =~= b.subrange(0, 5));
    assert(a.skip(5)[0] == ' ');
    assert(a.skip(5).skip(1) =~= rest);
    assert(b.skip(5) =~= rest);
    if "data:"@.is_prefix_of(l) {
        assert(l.take(5) =~= l.subrange(0, 5));
    }
}

/// A payload is its data lines with a line feed between each two, and there is none
/// exactly where there are no data lines.
pub proof fn a_payload_is_its_data_lines(frame: Seq<char>)
    ensures
        payload_of(frame) is None <==> data_lines(lines(frame)).len() == 0,
        data_lines(lines(frame)).len() == 1 ==> payload_of(frame) == Some(
            data_lines(lines(frame))[0],
        ),
        data_lines(lines(frame)).len() > 1 ==> payload_of(frame) == Some(
            joined(data_lines(lines(frame)).drop_last(), seq!['\n']) + seq!['\n'] + data_lines(
                lines(frame),
            ).last(),
        ),
{
}

/// What follows the first frames is the rest of the bytes.
pub proof fn frames_are_taken_from_the_front(b: Seq<u8>, n: int)
    requires
        0 <= n <= frames(b).len(),
    ensures
        frames(b).take(n).flatten() + after_frames(b, n) == b,
        frames(after_frames(b, n)) == frames(b).skip(n),
    decreases n,
{
    if n == 0 {
        assert(frames(b).take(0) =~= seq![]);
        assert(frames(b).take(0).flatten() + after_frames(b, 0) =~= b);
        assert(frames(b).skip(0) =~= frames(b));
    } else {
        separator_bounds(b, 0);
        let k = next_separator(b, 0)->Some_0;
        let head = b.take(k + 2);
        let rest = b.skip(k + 2);
        frames_are_taken_from_the_front(rest, n - 1);
        assert(frames(b) =~= seq![head] + frames(rest));
        let taken = frames(b).take(n);
        assert(taken[0] == head);
        assert(taken.drop_first() =~= frames(rest).take(n - 1));
        assert(taken.flatten() == head + frames(rest).take(n - 1).flatten());
        assert(b =~= head + rest);
        assert(taken.flatten() + after_frames(b, n) =~= b);
        assert(frames(b).skip(n) =~= frames(rest).skip(n - 1));
    }
}

} // verus!
