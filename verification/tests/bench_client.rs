use iron_batch::bench_client::{
    kind_of_flag, kind_of_line, kinds_of_chunk, LineKind, StreamTally,
};

#[test]
fn kinds_by_flag() {
    assert_eq!(kind_of_flag(None), LineKind::Garbage);
    assert_eq!(kind_of_flag(Some(None)), LineKind::Token);
    assert_eq!(kind_of_flag(Some(Some(false))), LineKind::Token);
    assert_eq!(kind_of_flag(Some(Some(true))), LineKind::Done);
}

#[test]
fn kinds_of_lines() {
    assert_eq!(kind_of_line(b""), LineKind::Blank);
    assert_eq!(kind_of_line(b"{\"token_index\":0,\"done\":false}"), LineKind::Token);
    assert_eq!(kind_of_line(b"{\"token_index\":2,\"done\":true}"), LineKind::Done);
    assert_eq!(kind_of_line(b"{\"token_index\":"), LineKind::Garbage);
    assert_eq!(kind_of_line(b"17"), LineKind::Token); // JSON, and not the end
    assert_eq!(kind_of_line(b"{\"done\":\"true\"}"), LineKind::Token);
}

#[test]
fn chunk_is_split_at_newlines() {
    assert_eq!(kinds_of_chunk(b""), vec![LineKind::Blank]);
    assert_eq!(
        kinds_of_chunk(b"{\"done\":false}\n\nx\n{\"done\":true}\n"),
        vec![
            LineKind::Token,
            LineKind::Blank,
            LineKind::Garbage,
            LineKind::Done,
            LineKind::Blank,
        ]
    );
}

#[test]
fn tokens_before_the_end_count() {
    let mut t = StreamTally::new();
    let first = t.on_chunk(
        b"{\"token_index\":0,\"done\":false}\n{\"token_index\":1,\"done\":false}\n{\"token_index\":2,\"done\":true}\n{\"token_index\":3,\"done\":false}\n",
    );
    assert!(first);
    assert_eq!(t.token_count, 2);
    assert!(!t.first);
    // the next chunk is counted again
    assert!(!t.on_chunk(b"{\"done\":false}"));
    assert_eq!(t.token_count, 3);
}

#[test]
fn first_event_needs_text() {
    let mut t = StreamTally::new();
    assert!(!t.on_chunk(b"\n\n"));
    assert!(t.first);
    assert!(t.on_chunk(b"garbage"));
    assert_eq!(t.token_count, 0);
    assert!(!t.on_chunk(b"{}"));
    assert_eq!(t.token_count, 1);
}

#[test]
fn lines_of_known_kind() {
    let mut t = StreamTally { first: true, token_count: 40 };
    assert!(t.on_lines(&vec![
        LineKind::Blank,
        LineKind::Token,
        LineKind::Garbage,
        LineKind::Token,
        LineKind::Done,
        LineKind::Token,
    ]));
    assert_eq!(t, StreamTally { first: false, token_count: 42 });
    let mut t = StreamTally::new();
    assert!(t.on_lines(&vec![LineKind::Done]));
    assert_eq!(t.token_count, 0);
}
