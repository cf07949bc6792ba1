use sloop::api::sse::{data_of, DecodeError, FrameDecoder, MAX_BUFFERED};

#[test]
fn a_frame_split_across_chunks_is_reassembled() {
    let mut decoder = FrameDecoder::default();

    assert!(decoder
        .decode(b"event: ping\ndata: {\"type\"")
        .unwrap()
        .is_empty());
    let frames = decoder.decode(b":\"ping\"}\n\n").unwrap();

    assert_eq!(frames.len(), 1);
    assert_eq!(data_of(&frames[0]).as_deref(), Some(r#"{"type":"ping"}"#));
}

#[test]
fn a_frame_carries_its_terminating_blank_line() {
    let mut decoder = FrameDecoder::default();
    let frames = decoder.decode(b"data: one\n\ndata: two\n\n").unwrap();
    assert_eq!(frames, vec!["data: one\n\n", "data: two\n\n"]);
}

#[test]
fn several_frames_in_one_chunk_come_back_in_order() {
    let mut decoder = FrameDecoder::default();
    let frames = decoder
        .decode(b"data: one\n\ndata: two\n\ndata: thr")
        .unwrap();

    assert_eq!(frames.len(), 2);
    assert_eq!(data_of(&frames[0]).as_deref(), Some("one"));
    assert_eq!(data_of(&frames[1]).as_deref(), Some("two"));
}

#[test]
fn a_frame_that_is_not_utf8_is_rejected() {
    let mut decoder = FrameDecoder::default();

    let error = decoder.decode(b"data: \x80\n\n").unwrap_err();

    assert_eq!(error.message(), "an SSE frame was not UTF-8");
}

#[test]
fn a_stream_that_never_yields_a_frame_is_capped() {
    let mut decoder = FrameDecoder::default();

    let chunk = vec![b'x'; MAX_BUFFERED];
    assert!(decoder.decode(&chunk).unwrap().is_empty());

    let error = decoder.decode(b"x").unwrap_err();

    assert_eq!(
        error.message(),
        format!(
            "no SSE frame separator in {} buffered bytes",
            MAX_BUFFERED + 1
        )
    );
}

#[test]
fn a_frame_with_no_data_line_has_no_payload() {
    assert_eq!(data_of(": keep-alive\n\n"), None);
}

#[test]
fn multiple_data_lines_join_with_a_newline() {
    assert_eq!(
        data_of("data: one\ndata: two\n\n").as_deref(),
        Some("one\ntwo")
    );
}

#[test]
fn an_empty_data_line_is_still_a_line() {
    assert_eq!(data_of("data:\ndata: x\n\n").as_deref(), Some("\nx"));
}

#[test]
fn what_follows_a_bad_frame_stays_buffered() {
    let mut decoder = FrameDecoder::default();
    assert_eq!(
        decoder.decode(b"data: one\n\ndata: \xff\n\ndata: two\n\ndata: th").unwrap_err(),
        DecodeError::NotUtf8
    );
    // The good frame before it is gone with it; the one behind it is not.
    let frames = decoder.decode(b"ree\n\n").unwrap();
    assert_eq!(frames, vec!["data: two\n\n", "data: three\n\n"]);
}

#[test]
fn any_division_into_chunks_gives_the_same_frames() {
    let stream = "data: \u{e9}\n\n\ndata: b\n\n\n\n\n: c\n\nrest".as_bytes();
    let mut whole = FrameDecoder::default();
    let wanted = whole.decode(stream).unwrap();
    assert_eq!(wanted.len(), 4);
    for cut in 0..stream.len() {
        let mut decoder = FrameDecoder::default();
        let mut frames = decoder.decode(&stream[..cut]).unwrap();
        frames.extend(decoder.decode(&stream[cut..]).unwrap());
        assert_eq!(frames, wanted, "cut at {cut}");
        assert_eq!(decoder.decode(b"\n\n").unwrap(), vec!["rest\n\n"]);
    }
}
