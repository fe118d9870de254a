use pty_session::utf8_stream::Utf8Pump;

#[test]
fn ascii_passes_through() {
    let mut pump = Utf8Pump::new();
    assert_eq!(pump.feed(b"hello"), "hello");
    assert_eq!(pump.feed(b" world"), " world");
    assert_eq!(pump.finish(), "");
}

#[test]
fn three_byte_code_point_split_one_plus_two() {
    let euro = "\u{20ac}".as_bytes();
    assert_eq!(euro.len(), 3);
    let mut pump = Utf8Pump::new();
    assert_eq!(pump.feed(&euro[..1]), "");
    assert_eq!(pump.feed(&euro[1..]), "\u{20ac}");
}

#[test]
fn four_byte_code_point_split_one_plus_three() {
    let emoji = "\u{1f600}".as_bytes();
    assert_eq!(emoji.len(), 4);
    let mut pump = Utf8Pump::new();
    assert_eq!(pump.feed(&emoji[..1]), "");
    assert_eq!(pump.feed(&emoji[1..]), "\u{1f600}");
}

#[test]
fn four_byte_code_point_split_three_plus_one() {
    let emoji = "\u{1f600}".as_bytes();
    let mut pump = Utf8Pump::new();
    assert_eq!(pump.feed(&emoji[..3]), "");
    assert_eq!(pump.feed(&emoji[3..]), "\u{1f600}");
}

#[test]
fn invalid_byte_then_ascii_yields_one_replacement() {
    let mut pump = Utf8Pump::new();
    let mut chunk = vec![0xff];
    chunk.extend_from_slice(b"abc");
    assert_eq!(pump.feed(&chunk), "\u{fffd}abc");
}

#[test]
fn lone_continuation_byte_is_replaced() {
    let mut pump = Utf8Pump::new();
    assert_eq!(pump.feed(&[0x80]), "\u{fffd}");
}

#[test]
fn overlong_encoding_is_rejected_per_byte() {
    let mut pump = Utf8Pump::new();
    assert_eq!(pump.feed(&[0xc0, 0x80]), "\u{fffd}\u{fffd}");
}

#[test]
fn truncated_tail_is_flushed_lossily() {
    let mut pump = Utf8Pump::new();
    assert_eq!(pump.feed(&[0xe2, 0x82]), "");
    assert_eq!(pump.finish(), "\u{fffd}");
    assert_eq!(pump.finish(), "");
}

#[test]
fn carry_completes_across_three_chunks() {
    let ch = "\u{0800}".as_bytes();
    assert_eq!(ch.len(), 3);
    let mut pump = Utf8Pump::new();
    assert_eq!(pump.feed(&ch[..1]), "");
    assert_eq!(pump.feed(&ch[1..2]), "");
    assert_eq!(pump.feed(&ch[2..]), "\u{0800}");
}

#[test]
fn mixed_text_and_errors_keep_valid_text() {
    let mut pump = Utf8Pump::new();
    let mut chunk = Vec::new();
    chunk.extend_from_slice("ok ".as_bytes());
    chunk.push(0xe0);
    chunk.push(0x28);
    chunk.extend_from_slice("end".as_bytes());
    // 0xe0 starts a three-byte form but 0x28 cannot continue it.
    assert_eq!(pump.feed(&chunk), "ok \u{fffd}(end");
}

#[test]
fn maximal_subpart_consumes_two_bytes() {
    let mut pump = Utf8Pump::new();
    // 0xe1 0x80 is a valid prefix; 'x' breaks it: one replacement, then the text.
    assert_eq!(pump.feed(&[0xe1, 0x80, 0x78]), "\u{fffd}x");
}

#[test]
fn agreement_with_std_lossy_on_whole_buffers() {
    let samples: Vec<Vec<u8>> = vec![
        b"plain".to_vec(),
        vec![0xf0, 0x9f, 0x98, 0x80, 0xff, 0x41],
        vec![0xed, 0xa0, 0x80],
        vec![0xc2, 0xa9, 0xc2],
        vec![0xf4, 0x90, 0x80, 0x80],
    ];
    for bytes in samples {
        let mut pump = Utf8Pump::new();
        let mut got = pump.feed(&bytes);
        got.push_str(&pump.finish());
        assert_eq!(got, String::from_utf8_lossy(&bytes));
    }
}
