use payload_size::body::PayloadSizeExtractor;
use payload_size::completion::{report_of, report_on, Outcome, PayloadSizeFuture};
use payload_size::parser::ParseState;
use payload_size::sink::new_sink;
use payload_size::stage::{wrap_body, PayloadSizeLayer};

const EXAMPLE: [u8; 13] = [0x00, 0x00, 0x00, 0x00, 0x03, b'a', b'b', b'c', 0x01, 0x00, 0x00, 0x00, 0x00];

fn lengths_of_chunks(chunks: &[&[u8]]) -> (Vec<u32>, ParseState) {
    let mut state = ParseState::default();
    let mut found = Vec::new();
    for chunk in chunks {
        state.feed(&mut found, chunk);
    }
    (found, state)
}

fn is_start(state: &ParseState) -> bool {
    match state {
        ParseState::Header { filled, .. } => *filled == 0,
        ParseState::Payload { remaining } => *remaining == 0,
    }
}

#[test]
fn example_in_one_chunk() {
    let (found, state) = lengths_of_chunks(&[&EXAMPLE]);
    assert_eq!(found, vec![3, 0]);
    assert!(is_start(&state));
}

#[test]
fn example_split_in_two_anywhere() {
    for k in 0..=EXAMPLE.len() {
        let (a, b) = EXAMPLE.split_at(k);
        let (found, _) = lengths_of_chunks(&[a, b]);
        assert_eq!(found, vec![3, 0], "split at {}", k);
    }
}

#[test]
fn example_split_in_three_anywhere() {
    for i in 0..=EXAMPLE.len() {
        for j in i..=EXAMPLE.len() {
            let (found, _) = lengths_of_chunks(&[&EXAMPLE[..i], &EXAMPLE[i..j], &EXAMPLE[j..]]);
            assert_eq!(found, vec![3, 0], "split at {} and {}", i, j);
        }
    }
}

#[test]
fn example_byte_by_byte() {
    let chunks: Vec<&[u8]> = EXAMPLE.chunks(1).collect();
    let (found, _) = lengths_of_chunks(&chunks);
    assert_eq!(found, vec![3, 0]);
}

#[test]
fn zero_bytes_change_nothing() {
    let mut state = ParseState::default();
    let mut found = vec![7];
    state.feed(&mut found, &EXAMPLE[..2]);
    let before = state;
    state.feed(&mut found, &[]);
    assert_eq!(found, vec![7]);
    match (before, state) {
        (ParseState::Header { buf: b0, filled: f0 }, ParseState::Header { buf: b1, filled: f1 }) => {
            assert_eq!(b0, b1);
            assert_eq!(f0, f1);
        }
        _ => panic!("state changed"),
    }
}

#[test]
fn header_split_points_agree() {
    let header = [0x00u8, 0x00, 0x01, 0x00, 0x02];
    for k in 0..=5 {
        let (found, state) = lengths_of_chunks(&[&header[..k], &header[k..]]);
        assert_eq!(found, vec![0x0001_0002], "split at {}", k);
        assert!(matches!(state, ParseState::Payload { remaining: 0x0001_0002 }));
    }
}

#[test]
fn empty_payload_then_header_in_one_chunk() {
    let data = [0x00u8, 0, 0, 0, 0, 0x00, 0, 0, 0, 9];
    let (found, state) = lengths_of_chunks(&[&data]);
    assert_eq!(found, vec![0, 9]);
    assert!(matches!(state, ParseState::Payload { remaining: 9 }));
}

#[test]
fn truncated_header_reports_nothing() {
    let (found, state) = lengths_of_chunks(&[&[0x00, 0x00, 0x00]]);
    assert!(found.is_empty());
    match state {
        ParseState::Header { buf, filled } => {
            assert_eq!(filled, 3);
            assert_eq!(&buf[..3], &[0, 0, 0]);
        }
        _ => panic!("expected a partial header"),
    }
}

#[test]
fn truncated_after_full_frame_keeps_first_length() {
    let (found, _) = lengths_of_chunks(&[&EXAMPLE[..10]]);
    assert_eq!(found, vec![3]);
}

#[test]
fn largest_length_and_byte_order() {
    let (found, _) = lengths_of_chunks(&[&[0x01, 0xff, 0xff, 0xff, 0xff]]);
    assert_eq!(found, vec![u32::MAX]);
    let (found, _) = lengths_of_chunks(&[&[0x01, 0x01, 0x02, 0x03, 0x04]]);
    assert_eq!(found, vec![0x0102_0304]);
}

#[test]
fn flag_byte_is_ignored() {
    let (found, _) = lengths_of_chunks(&[&[0xab, 0, 0, 0, 0]]);
    assert_eq!(found, vec![0]);
}

#[test]
fn payload_is_skipped_across_chunks() {
    let (found, state) = lengths_of_chunks(&[&[0, 0, 0, 0, 4, 1, 2], &[3]]);
    assert_eq!(found, vec![4]);
    assert!(matches!(state, ParseState::Payload { remaining: 1 }));
    let (found, state) = lengths_of_chunks(&[&[0, 0, 0, 0, 4, 1, 2], &[3, 4], &[0, 0, 0, 0, 1]]);
    assert_eq!(found, vec![4, 1]);
    assert!(matches!(state, ParseState::Payload { remaining: 1 }));
}

#[test]
fn parse_appends_to_shared_store() {
    let sink = new_sink();
    let mut state = ParseState::default();
    state.parse(&sink, &EXAMPLE[..7]);
    assert_eq!(*sink.lock().unwrap(), vec![3]);
    state.parse(&sink, &EXAMPLE[7..]);
    assert_eq!(*sink.lock().unwrap(), vec![3, 0]);
}

#[test]
fn extractor_observes_without_touching_body() {
    let sink = new_sink();
    let mut body = PayloadSizeExtractor::new(String::from("body"), sink.clone());
    body.observe(&EXAMPLE[..4]);
    body.observe(&EXAMPLE[4..]);
    let (inner, store, _) = body.into_parts();
    assert_eq!(inner, "body");
    assert_eq!(*store.lock().unwrap(), vec![3, 0]);
    assert_eq!(*sink.lock().unwrap(), vec![3, 0]);
}

#[test]
fn report_of_values() {
    assert_eq!(report_of(vec![]), None);
    assert_eq!(report_of(vec![3, 0]), Some(vec![3, 0]));
}

#[test]
fn success_reports_observed_lengths() {
    let sink = new_sink();
    let mut state = ParseState::default();
    state.parse(&sink, &EXAMPLE);
    assert_eq!(report_on(&sink, Outcome::Succeeded), Some(vec![3, 0]));
}

#[test]
fn success_without_frames_reports_nothing() {
    let sink = new_sink();
    assert_eq!(report_on(&sink, Outcome::Succeeded), None);
}

#[test]
fn failure_and_pending_report_nothing() {
    let sink = new_sink();
    let mut state = ParseState::default();
    state.parse(&sink, &EXAMPLE);
    let fut = PayloadSizeFuture::new(5u8, sink);
    assert_eq!(fut.report(Outcome::Failed), None);
    assert_eq!(fut.report(Outcome::Pending), None);
    assert_eq!(fut.report(Outcome::Succeeded), Some(vec![3, 0]));
}

#[test]
fn stage_shares_one_fresh_store_per_request() {
    let service = PayloadSizeLayer.layer(42u32);
    assert_eq!(service.inner, 42);
    let (mut body, store) = wrap_body(Vec::<u8>::new());
    body.observe(&EXAMPLE);
    assert_eq!(report_on(&store, Outcome::Succeeded), Some(vec![3, 0]));
    let (_, other) = wrap_body(Vec::<u8>::new());
    assert_eq!(report_on(&other, Outcome::Succeeded), None);
}

#[test]
fn default_state_is_zeroed_header() {
    match ParseState::default() {
        ParseState::Header { buf, filled } => {
            assert_eq!(buf, [0; 5]);
            assert_eq!(filled, 0);
        }
        _ => panic!("expected a header"),
    }
}

#[test]
fn truncated_header_keeps_zeroed_tail() {
    let (_, state) = lengths_of_chunks(&[&[0x00, 0x00, 0x00]]);
    assert!(matches!(state, ParseState::Header { buf: [0, 0, 0, 0, 0], filled: 3 }));
    let (_, state) = lengths_of_chunks(&[&[7, 8]]);
    assert!(matches!(state, ParseState::Header { buf: [7, 8, 0, 0, 0], filled: 2 }));
}

#[test]
fn frames_end_in_fresh_header() {
    let data = [1u8, 0, 0, 0, 2, 9, 9, 0, 0, 0, 0, 1, 5];
    for k in 0..=data.len() {
        let (found, state) = lengths_of_chunks(&[&data[..k], &data[k..]]);
        assert_eq!(found, vec![2, 1]);
        assert!(matches!(state, ParseState::Header { buf: [0, 0, 0, 0, 0], filled: 0 }));
    }
}

#[test]
fn only_gathered_bytes_are_written() {
    let mut state = ParseState::Header { buf: [1, 2, 3, 4, 5], filled: 0 };
    let mut found = Vec::new();
    state.feed(&mut found, &[9]);
    assert!(matches!(state, ParseState::Header { buf: [9, 2, 3, 4, 5], filled: 1 }));
    assert!(found.is_empty());
}

#[test]
fn full_header_state_reports_on_next_byte() {
    let mut state = ParseState::Header { buf: [0, 0, 0, 0, 2], filled: 5 };
    assert!(state.is_valid());
    let mut found = Vec::new();
    state.feed(&mut found, &[]);
    assert!(found.is_empty());
    assert!(matches!(state, ParseState::Header { filled: 5, .. }));
    state.feed(&mut found, &[1]);
    assert_eq!(found, vec![2]);
    assert!(matches!(state, ParseState::Payload { remaining: 1 }));
}

#[test]
fn overfull_header_is_not_valid() {
    assert!(!ParseState::Header { buf: [0; 5], filled: 6 }.is_valid());
    assert!(ParseState::Payload { remaining: 0 }.is_valid());
}

#[test]
fn extractor_starts_fresh() {
    let body = PayloadSizeExtractor::new((), new_sink());
    assert!(matches!(body.state, ParseState::Header { buf: [0, 0, 0, 0, 0], filled: 0 }));
}
