use serde_json::Value;
use sloop::api::accumulate::Accumulator;
use sloop::api::sse::{data_of, ApiError, BlockStart, Delta, Event, FrameDecoder, MessageDelta};
use sloop::tree::ContentBlock;

const TEXT_ONLY: &str = r#"event: message_start
data: {"type":"message_start","message":{"id":"msg_01","role":"assistant","content":[]}}

event: content_block_start
data: {"type":"content_block_start","index":0,"content_block":{"type":"text","text":""}}

event: ping
data: {"type": "ping"}

event: content_block_delta
data: {"type":"content_block_delta","index":0,"delta":{"type":"text_delta","text":"The capital of"}}

event: content_block_delta
data: {"type":"content_block_delta","index":0,"delta":{"type":"text_delta","text":" France is Paris."}}

event: content_block_stop
data: {"type":"content_block_stop","index":0}

event: message_delta
data: {"type":"message_delta","delta":{"stop_reason":"end_turn","stop_sequence":null}}

event: message_stop
data: {"type":"message_stop"}

"#;

const THINKING_THEN_TEXT: &str = r#"event: message_start
data: {"type":"message_start","message":{"id":"msg_02","role":"assistant","content":[]}}

event: content_block_start
data: {"type":"content_block_start","index":0,"content_block":{"type":"thinking","thinking":"","signature":""}}

event: content_block_delta
data: {"type":"content_block_delta","index":0,"delta":{"type":"thinking_delta","thinking":"The question is arithmetic,"}}

event: ping
data: {"type": "ping"}

event: content_block_delta
data: {"type":"content_block_delta","index":0,"delta":{"type":"thinking_delta","thinking":" so 27 times 4 is 108."}}

event: content_block_delta
data: {"type":"content_block_delta","index":0,"delta":{"type":"signature_delta","signature":"ErUBCkYIBRgCIkA="}}

event: content_block_stop
data: {"type":"content_block_stop","index":0}

event: content_block_start
data: {"type":"content_block_start","index":1,"content_block":{"type":"text","text":""}}

event: content_block_delta
data: {"type":"content_block_delta","index":1,"delta":{"type":"text_delta","text":"108"}}

event: content_block_stop
data: {"type":"content_block_stop","index":1}

event: message_delta
data: {"type":"message_delta","delta":{"stop_reason":"end_turn","stop_sequence":null}}

event: message_stop
data: {"type":"message_stop"}

"#;

const OVERLOADED_MID_STREAM: &str = r#"event: message_start
data: {"type":"message_start","message":{"id":"msg_03","role":"assistant","content":[]}}

event: content_block_start
data: {"type":"content_block_start","index":0,"content_block":{"type":"text","text":""}}

event: content_block_delta
data: {"type":"content_block_delta","index":0,"delta":{"type":"text_delta","text":"The capital"}}

event: error
data: {"type":"error","error":{"type":"overloaded_error","message":"Overloaded"}}

"#;

fn text_at(value: &Value, pointer: &str) -> String {
    value.pointer(pointer).and_then(Value::as_str).unwrap().to_owned()
}

fn index_of(value: &Value) -> usize {
    value.get("index").and_then(Value::as_u64).unwrap() as usize
}

/// The event that a payload says.
fn event_of(payload: &str) -> Event {
    let value: Value = serde_json::from_str(payload).unwrap();
    match value.get("type").and_then(Value::as_str).unwrap() {
        "message_start" => Event::MessageStart,
        "content_block_start" => Event::ContentBlockStart {
            index: index_of(&value),
            content_block: match text_at(&value, "/content_block/type").as_str() {
                "text" => BlockStart::Text,
                "thinking" => BlockStart::Thinking,
                _ => BlockStart::Other,
            },
        },
        "content_block_delta" => Event::ContentBlockDelta {
            index: index_of(&value),
            delta: match text_at(&value, "/delta/type").as_str() {
                "text_delta" => Delta::Text { text: text_at(&value, "/delta/text") },
                "thinking_delta" => Delta::Thinking { thinking: text_at(&value, "/delta/thinking") },
                "signature_delta" => {
                    Delta::Signature { signature: text_at(&value, "/delta/signature") }
                }
                _ => Delta::Other,
            },
        },
        "content_block_stop" => Event::ContentBlockStop { index: index_of(&value) },
        "message_delta" => Event::MessageDelta {
            delta: MessageDelta {
                stop_reason: value
                    .pointer("/delta/stop_reason")
                    .and_then(Value::as_str)
                    .map(str::to_owned),
            },
        },
        "message_stop" => Event::MessageStop,
        "error" => Event::Error {
            error: ApiError {
                kind: text_at(&value, "/error/type"),
                message: text_at(&value, "/error/message"),
            },
        },
        _ => Event::Unknown,
    }
}

#[derive(Debug)]
struct Replayed {
    blocks: Vec<ContentBlock>,
    accumulator: Accumulator,
}

fn replay(stream: &str) -> Result<Replayed, String> {
    let mut decoder = FrameDecoder::default();
    let mut accumulator = Accumulator::default();
    let mut blocks = Vec::new();

    for byte in stream.as_bytes() {
        for frame in decoder.decode(&[*byte]).map_err(|e| e.message())? {
            let Some(payload) = data_of(&frame) else {
                continue;
            };
            if let Some(block) = accumulator.apply(event_of(&payload)).map_err(|e| e.message())? {
                blocks.push(block);
            }
        }
    }

    Ok(Replayed {
        blocks,
        accumulator,
    })
}

#[test]
fn text_deltas_concatenate_into_one_block() {
    let replayed = replay(TEXT_ONLY).unwrap();

    assert_eq!(
        replayed.blocks,
        vec![ContentBlock::Text {
            text: "The capital of France is Paris.".to_owned()
        }]
    );
    assert_eq!(replayed.accumulator.stop_reason(), Some("end_turn"));
}

#[test]
fn a_thinking_block_keeps_its_signature() {
    let replayed = replay(THINKING_THEN_TEXT).unwrap();

    assert_eq!(
        replayed.blocks,
        vec![
            ContentBlock::Thinking {
                thinking: "The question is arithmetic, so 27 times 4 is 108.".to_owned(),
                signature: "ErUBCkYIBRgCIkA=".to_owned(),
            },
            ContentBlock::Text {
                text: "108".to_owned()
            },
        ]
    );
}

#[test]
fn an_error_event_fails_the_turn() {
    let error = replay(OVERLOADED_MID_STREAM).unwrap_err();

    assert_eq!(error, "overloaded_error: Overloaded");
}

#[test]
fn an_unmodelled_delta_in_a_modelled_block_is_ignored() {
    let stream = [
        "data: {\"type\":\"content_block_start\",\"index\":0,\"content_block\":{\"type\":\"thinking\",\"thinking\":\"\",\"signature\":\"\"}}\n\n",
        "data: {\"type\":\"content_block_delta\",\"index\":0,\"delta\":{\"type\":\"thinking_delta\",\"thinking\":\"weighing it\"}}\n\n",
        "data: {\"type\":\"content_block_delta\",\"index\":0,\"delta\":{\"type\":\"some_future_delta\",\"payload\":9}}\n\n",
        "data: {\"type\":\"content_block_delta\",\"index\":0,\"delta\":{\"type\":\"signature_delta\",\"signature\":\"ErUBCkYIBRgCIkA=\"}}\n\n",
        "data: {\"type\":\"content_block_stop\",\"index\":0}\n\n",
        "data: {\"type\":\"content_block_start\",\"index\":1,\"content_block\":{\"type\":\"text\",\"text\":\"\"}}\n\n",
        "data: {\"type\":\"content_block_delta\",\"index\":1,\"delta\":{\"type\":\"text_delta\",\"text\":\"cited\"}}\n\n",
        "data: {\"type\":\"content_block_delta\",\"index\":1,\"delta\":{\"type\":\"citations_delta\",\"citation\":{\"type\":\"page_location\"}}}\n\n",
        "data: {\"type\":\"content_block_stop\",\"index\":1}\n\n",
    ]
    .concat();

    let replayed = replay(&stream).unwrap();

    assert_eq!(
        replayed.blocks,
        vec![
            ContentBlock::Thinking {
                thinking: "weighing it".to_owned(),
                signature: "ErUBCkYIBRgCIkA=".to_owned(),
            },
            ContentBlock::Text {
                text: "cited".to_owned()
            },
        ]
    );
}

#[test]
fn interleaved_indices_land_in_the_blocks_they_name() {
    let stream = [
        "data: {\"type\":\"content_block_start\",\"index\":0,\"content_block\":{\"type\":\"text\",\"text\":\"\"}}\n\n",
        "data: {\"type\":\"content_block_start\",\"index\":1,\"content_block\":{\"type\":\"text\",\"text\":\"\"}}\n\n",
        "data: {\"type\":\"content_block_delta\",\"index\":1,\"delta\":{\"type\":\"text_delta\",\"text\":\"one\"}}\n\n",
        "data: {\"type\":\"content_block_delta\",\"index\":0,\"delta\":{\"type\":\"text_delta\",\"text\":\"zero\"}}\n\n",
        "data: {\"type\":\"content_block_delta\",\"index\":1,\"delta\":{\"type\":\"text_delta\",\"text\":\"-one\"}}\n\n",
        "data: {\"type\":\"content_block_stop\",\"index\":1}\n\n",
        "data: {\"type\":\"content_block_stop\",\"index\":0}\n\n",
    ]
    .concat();

    let replayed = replay(&stream).unwrap();

    assert_eq!(
        replayed.blocks,
        vec![
            ContentBlock::Text {
                text: "one-one".to_owned()
            },
            ContentBlock::Text {
                text: "zero".to_owned()
            },
        ]
    );
}

#[test]
fn a_block_kind_this_slice_does_not_model_is_dropped() {
    let stream = [
        "data: {\"type\":\"content_block_start\",\"index\":0,\"content_block\":{\"type\":\"tool_use\",\"id\":\"toolu_01\",\"name\":\"grep\",\"input\":{}}}\n\n",
        "data: {\"type\":\"content_block_delta\",\"index\":0,\"delta\":{\"type\":\"input_json_delta\",\"partial_json\":\"{\\\"q\\\":\"}}\n\n",
        "data: {\"type\":\"content_block_stop\",\"index\":0}\n\n",
        "data: {\"type\":\"content_block_start\",\"index\":1,\"content_block\":{\"type\":\"text\",\"text\":\"\"}}\n\n",
        "data: {\"type\":\"content_block_delta\",\"index\":1,\"delta\":{\"type\":\"text_delta\",\"text\":\"after\"}}\n\n",
        "data: {\"type\":\"content_block_stop\",\"index\":1}\n\n",
    ]
    .concat();

    let replayed = replay(&stream).unwrap();

    assert_eq!(
        replayed.blocks,
        vec![ContentBlock::Text {
            text: "after".to_owned()
        }]
    );
}

#[test]
fn a_delta_for_a_block_that_never_opened_is_refused() {
    let stream = "data: {\"type\":\"content_block_delta\",\"index\":4,\"delta\":{\"type\":\"text_delta\",\"text\":\"x\"}}\n\n";

    let error = replay(&stream).unwrap_err();

    assert_eq!(
        error,
        "a delta arrived for block 4, which is not open"
    );
}

#[test]
fn a_stop_for_a_block_that_never_opened_is_refused() {
    let stream = "data: {\"type\":\"content_block_stop\",\"index\":2}\n\n";

    let error = replay(&stream).unwrap_err();

    assert_eq!(error, "block 2 closed without ever opening");
}

#[test]
fn a_block_cannot_close_twice() {
    let stream = [
        "data: {\"type\":\"content_block_start\",\"index\":0,\"content_block\":{\"type\":\"text\",\"text\":\"\"}}\n\n",
        "data: {\"type\":\"content_block_stop\",\"index\":0}\n\n",
        "data: {\"type\":\"content_block_stop\",\"index\":0}\n\n",
    ]
    .concat();

    let error = replay(&stream).unwrap_err();

    assert_eq!(error, "block 0 closed without ever opening");
}

#[test]
fn a_delta_that_contradicts_its_block_is_refused() {
    for (delta, expected) in [
        (
            r#"{"type":"thinking_delta","thinking":"no"}"#,
            "a thinking_delta arrived for block 0, which opened as text",
        ),
        (
            r#"{"type":"signature_delta","signature":"no"}"#,
            "a signature_delta arrived for block 0, which opened as text",
        ),
    ] {
        let stream = [
            "data: {\"type\":\"content_block_start\",\"index\":0,\"content_block\":{\"type\":\"text\",\"text\":\"\"}}\n\n",
            "data: {\"type\":\"content_block_delta\",\"index\":0,\"delta\":",
            delta,
            "}\n\n",
        ]
        .concat();

        let error = replay(&stream).unwrap_err();

        assert_eq!(error, expected);
    }
}

#[test]
fn a_text_delta_in_a_thinking_block_is_refused() {
    let stream = [
        "data: {\"type\":\"content_block_start\",\"index\":0,\"content_block\":{\"type\":\"thinking\",\"thinking\":\"\",\"signature\":\"\"}}\n\n",
        "data: {\"type\":\"content_block_delta\",\"index\":0,\"delta\":{\"type\":\"text_delta\",\"text\":\"no\"}}\n\n",
    ]
    .concat();

    let error = replay(&stream).unwrap_err();

    assert_eq!(
        error,
        "a text_delta arrived for block 0, which opened as thinking"
    );
}

#[test]
fn a_signature_split_across_deltas_is_rejoined() {
    let stream = [
        "data: {\"type\":\"content_block_start\",\"index\":0,\"content_block\":{\"type\":\"thinking\",\"thinking\":\"\",\"signature\":\"\"}}\n\n",
        "data: {\"type\":\"content_block_delta\",\"index\":0,\"delta\":{\"type\":\"signature_delta\",\"signature\":\"ErUBCkYI\"}}\n\n",
        "data: {\"type\":\"content_block_delta\",\"index\":0,\"delta\":{\"type\":\"signature_delta\",\"signature\":\"BRgCIkA=\"}}\n\n",
        "data: {\"type\":\"content_block_stop\",\"index\":0}\n\n",
    ]
    .concat();

    let replayed = replay(&stream).unwrap();

    assert_eq!(
        replayed.blocks,
        vec![ContentBlock::Thinking {
            thinking: String::new(),
            signature: "ErUBCkYIBRgCIkA=".to_owned(),
        }]
    );
}

#[test]
fn a_block_left_open_yields_nothing_and_no_stop_reason() {
    let stream = [
        "data: {\"type\":\"content_block_start\",\"index\":0,\"content_block\":{\"type\":\"text\",\"text\":\"\"}}\n\n",
        "data: {\"type\":\"content_block_delta\",\"index\":0,\"delta\":{\"type\":\"text_delta\",\"text\":\"cut off\"}}\n\n",
    ]
    .concat();

    let replayed = replay(&stream).unwrap();

    assert!(replayed.blocks.is_empty());
    assert_eq!(replayed.accumulator.stop_reason(), None);
}

#[test]
fn an_unknown_event_between_deltas_changes_nothing() {
    let stream = [
        "data: {\"type\":\"content_block_start\",\"index\":0,\"content_block\":{\"type\":\"text\",\"text\":\"\"}}\n\n",
        "data: {\"type\":\"content_block_delta\",\"index\":0,\"delta\":{\"type\":\"text_delta\",\"text\":\"one\"}}\n\n",
        "data: {\"type\":\"ping\"}\n\n",
        "data: {\"type\":\"some_future_event\",\"payload\":9}\n\n",
        "data: {\"type\":\"content_block_delta\",\"index\":0,\"delta\":{\"type\":\"text_delta\",\"text\":\" two\"}}\n\n",
        "data: {\"type\":\"content_block_stop\",\"index\":0}\n\n",
    ]
    .concat();

    let replayed = replay(&stream).unwrap();

    assert_eq!(
        replayed.blocks,
        vec![ContentBlock::Text {
            text: "one two".to_owned()
        }]
    );
}

#[test]
fn a_keep_alive_comment_frame_is_skipped() {
    let stream = [
        "data: {\"type\":\"content_block_start\",\"index\":0,\"content_block\":{\"type\":\"text\",\"text\":\"\"}}\n\n",
        ": keep-alive\n\n",
        "data: {\"type\":\"content_block_delta\",\"index\":0,\"delta\":{\"type\":\"text_delta\",\"text\":\"still here\"}}\n\n",
        "data: {\"type\":\"content_block_stop\",\"index\":0}\n\n",
    ]
    .concat();

    let replayed = replay(&stream).unwrap();

    assert_eq!(
        replayed.blocks,
        vec![ContentBlock::Text {
            text: "still here".to_owned()
        }]
    );
}

#[test]
fn a_stop_reason_that_is_not_end_turn_is_recorded_as_it_arrived() {
    let stream = [
        "data: {\"type\":\"message_delta\",\"delta\":{\"stop_reason\":\"max_tokens\",\"stop_sequence\":null},\"usage\":{\"output_tokens\":4096}}\n\n",
        "data: {\"type\":\"message_stop\"}\n\n",
    ]
    .concat();

    let replayed = replay(&stream).unwrap();

    assert_eq!(replayed.accumulator.stop_reason(), Some("max_tokens"));
}

#[test]
fn a_refused_event_changes_nothing() {
    let mut accumulator = Accumulator::default();
    let opened = Event::ContentBlockStart { index: 0, content_block: BlockStart::Text };
    accumulator.apply(opened).unwrap();
    let delta = Delta::Text { text: "kept".to_owned() };
    accumulator.apply(Event::ContentBlockDelta { index: 0, delta }).unwrap();

    let stray = Delta::Signature { signature: "no".to_owned() };
    let error = accumulator.apply(Event::ContentBlockDelta { index: 0, delta: stray }).unwrap_err();
    assert_eq!(error.message(), "a signature_delta arrived for block 0, which opened as text");

    let block = accumulator.apply(Event::ContentBlockStop { index: 0 }).unwrap();
    assert_eq!(block, Some(ContentBlock::text("kept")));
}
