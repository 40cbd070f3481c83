use html5::tokenizer::buffer_queue::{data_span, BufferQueue, DataRunOrChar};

fn pad(s: &mut String, n: usize) {
    for _ in 0..n {
        s.push('x');
    }
}

fn drain(bq: &mut BufferQueue) -> String {
    let mut out = String::new();
    while let Some(c) = bq.next() {
        out.push(c);
    }
    out
}

#[test]
fn smoke_test() {
    let mut bq = BufferQueue::new();
    assert_eq!(bq.has(1), false);
    assert_eq!(bq.peek(), None);
    assert_eq!(bq.next(), None);

    bq.push_back(String::from("abc"));
    assert_eq!(bq.has(1), true);
    assert_eq!(bq.has(3), true);
    assert_eq!(bq.has(4), false);

    assert_eq!(bq.peek(), Some('a'));
    assert_eq!(bq.next(), Some('a'));
    assert_eq!(bq.peek(), Some('b'));
    assert_eq!(bq.peek(), Some('b'));
    assert_eq!(bq.next(), Some('b'));
    assert_eq!(bq.peek(), Some('c'));
    assert_eq!(bq.next(), Some('c'));
    assert_eq!(bq.peek(), None);
    assert_eq!(bq.next(), None);
}

#[test]
fn can_pop_front() {
    let mut bq = BufferQueue::new();
    bq.push_back(String::from("abc"));

    assert_eq!(bq.pop_front(2), Some(String::from("ab")));
    assert_eq!(bq.peek(), Some('c'));
    assert_eq!(bq.pop_front(2), None);
    assert_eq!(bq.next(), Some('c'));
    assert_eq!(bq.next(), None);
}

#[test]
fn can_unconsume() {
    let mut bq = BufferQueue::new();
    bq.push_back(String::from("abc"));
    assert_eq!(bq.next(), Some('a'));

    bq.push_front(String::from("xy"));
    assert_eq!(bq.next(), Some('x'));
    assert_eq!(bq.next(), Some('y'));
    assert_eq!(bq.next(), Some('b'));
    assert_eq!(bq.next(), Some('c'));
    assert_eq!(bq.next(), None);
}

#[test]
fn can_pop_data() {
    let mut bq = BufferQueue::new();
    bq.push_back(String::from("abc\0def"));
    assert_eq!(bq.pop_data(), Some(DataRunOrChar::DataRun(String::from("abc"))));
    assert_eq!(bq.pop_data(), Some(DataRunOrChar::OneChar('\0')));
    assert_eq!(bq.pop_data(), Some(DataRunOrChar::DataRun(String::from("def"))));
    assert_eq!(bq.pop_data(), None);
}

#[test]
fn data_span_test() {
    for &c in ['&', '\0'].iter() {
        for x in 0..48usize {
            for y in 0..48usize {
                let mut s = String::new();
                pad(&mut s, x);
                s.push(c);
                pad(&mut s, y);

                assert_eq!(x, data_span(s.as_str()));
            }
        }
    }
}

#[test]
fn data_span_stops_at_each_trigger() {
    for &c in ['\0', '\r', '&', '-', '<'].iter() {
        let mut s = String::from("plain text");
        s.push(c);
        s.push_str("more");
        assert_eq!(data_span(s.as_str()), 10);
    }
}

#[test]
fn data_span_without_trigger_is_whole_length() {
    assert_eq!(data_span(""), 0);
    assert_eq!(data_span("hello, world!"), 13);
    assert_eq!(data_span("a\nb\tc>d"), 7);
}

#[test]
fn data_span_counts_bytes_not_characters() {
    // Two bytes, three bytes and four bytes before the trigger.
    assert_eq!(data_span("\u{e9}<"), 2);
    assert_eq!(data_span("\u{4e2d}&"), 3);
    assert_eq!(data_span("\u{1f600}-"), 4);
    assert_eq!(data_span("\u{e9}\u{4e2d}\u{1f600}"), 9);
}

#[test]
fn data_span_trigger_first() {
    assert_eq!(data_span("<a>"), 0);
    assert_eq!(data_span("\0"), 0);
    assert_eq!(data_span("--"), 0);
}

#[test]
fn empty_queue_has_nothing() {
    let mut bq = BufferQueue::new();
    assert_eq!(bq.has(0), true);
    assert_eq!(bq.has(1), false);
    assert_eq!(bq.peek(), None);
    assert_eq!(bq.next(), None);
    assert_eq!(bq.pop_data(), None);
    assert_eq!(bq.pop_front(1), None);
    assert_eq!(bq.pop_front(0), Some(String::new()));
}

#[test]
fn availability_follows_pushes_and_reads() {
    let mut bq = BufferQueue::new();
    bq.push_back(String::from("abc"));
    bq.push_back(String::from("de"));
    assert!(bq.has(5));
    assert!(!bq.has(6));
    assert_eq!(bq.next(), Some('a'));
    assert!(bq.has(4));
    assert!(!bq.has(5));
    bq.push_front(String::from("xyz"));
    assert!(bq.has(7));
    assert!(!bq.has(8));
    assert_eq!(bq.pop_front(4), Some(String::from("xyzb")));
    assert!(bq.has(3));
    assert!(!bq.has(4));
    assert_eq!(bq.pop_data(), Some(DataRunOrChar::OneChar('c')));
    assert!(bq.has(2));
    assert!(!bq.has(3));
    assert_eq!(bq.pop_data(), Some(DataRunOrChar::DataRun(String::from("de"))));
    assert!(bq.has(0));
    assert!(!bq.has(1));
}

#[test]
fn availability_counts_characters_not_bytes() {
    let mut bq = BufferQueue::new();
    bq.push_back(String::from("\u{e9}\u{4e2d}\u{1f600}<"));
    assert!(bq.has(4));
    assert!(!bq.has(5));
    assert_eq!(
        bq.pop_data(),
        Some(DataRunOrChar::DataRun(String::from("\u{e9}\u{4e2d}\u{1f600}")))
    );
    assert!(bq.has(1));
    assert!(!bq.has(2));
    assert_eq!(bq.pop_data(), Some(DataRunOrChar::OneChar('<')));
    assert!(!bq.has(1));
    assert_eq!(bq.pop_data(), None);
}

#[test]
fn next_walks_multibyte_text() {
    let mut bq = BufferQueue::new();
    bq.push_back(String::from("a\u{e9}\u{4e2d}\u{1f600}z"));
    assert_eq!(bq.next(), Some('a'));
    assert_eq!(bq.peek(), Some('\u{e9}'));
    assert_eq!(bq.next(), Some('\u{e9}'));
    assert_eq!(bq.next(), Some('\u{4e2d}'));
    assert_eq!(bq.peek(), Some('\u{1f600}'));
    assert_eq!(bq.next(), Some('\u{1f600}'));
    assert_eq!(bq.next(), Some('z'));
    assert_eq!(bq.next(), None);
}

#[test]
fn order_is_kept_across_chunks() {
    let mut bq = BufferQueue::new();
    bq.push_back(String::from("ab"));
    bq.push_back(String::new());
    bq.push_back(String::from("cd"));
    bq.push_back(String::from("e"));
    assert_eq!(drain(&mut bq), "abcde");
}

#[test]
fn empty_chunks_are_never_seen() {
    let mut bq = BufferQueue::new();
    bq.push_back(String::new());
    bq.push_front(String::new());
    assert!(!bq.has(1));
    assert_eq!(bq.peek(), None);
    bq.push_back(String::from("a"));
    assert_eq!(bq.peek(), Some('a'));
    assert_eq!(bq.pop_data(), Some(DataRunOrChar::OneChar('a')));
    assert_eq!(bq.pop_data(), None);
}

#[test]
fn unconsume_round_trip() {
    let mut bq = BufferQueue::new();
    bq.push_back(String::from("he"));
    bq.push_back(String::from("llo <b>"));
    let s = bq.pop_front(4).unwrap();
    assert_eq!(s, "hell");
    bq.push_front(s.clone());
    assert!(bq.has(9));
    assert!(!bq.has(10));
    assert_eq!(bq.peek(), Some('h'));
    assert_eq!(bq.pop_front(4), Some(s));
    assert_eq!(drain(&mut bq), "o <b>");
}

#[test]
fn pop_front_is_all_or_nothing() {
    let mut bq = BufferQueue::new();
    bq.push_back(String::from("ab"));
    assert_eq!(bq.pop_front(3), None);
    assert!(bq.has(2));
    assert_eq!(bq.peek(), Some('a'));
    assert_eq!(bq.pop_front(2), Some(String::from("ab")));
    assert_eq!(bq.pop_front(1), None);
}

#[test]
fn pop_front_spans_chunks() {
    let mut bq = BufferQueue::new();
    bq.push_back(String::from("a\u{e9}"));
    bq.push_back(String::from("\u{4e2d}b"));
    assert_eq!(bq.pop_front(3), Some(String::from("a\u{e9}\u{4e2d}")));
    assert_eq!(bq.next(), Some('b'));
    assert_eq!(bq.next(), None);
}

#[test]
fn exhaustion_is_not_sticky() {
    let mut bq = BufferQueue::new();
    assert_eq!(bq.next(), None);
    assert_eq!(bq.next(), None);
    bq.push_back(String::from("q"));
    assert_eq!(bq.next(), Some('q'));
    assert_eq!(bq.next(), None);
    bq.push_back(String::from("r"));
    assert_eq!(bq.peek(), Some('r'));
    assert_eq!(bq.next(), Some('r'));
}

#[test]
fn pop_data_never_crosses_a_chunk() {
    let mut bq = BufferQueue::new();
    bq.push_back(String::from("abc"));
    bq.push_back(String::from("def"));
    assert_eq!(bq.pop_data(), Some(DataRunOrChar::DataRun(String::from("abc"))));
    assert_eq!(bq.pop_data(), Some(DataRunOrChar::DataRun(String::from("def"))));
    assert_eq!(bq.pop_data(), None);
}

#[test]
fn pop_data_gives_a_one_byte_run_as_a_character() {
    let mut bq = BufferQueue::new();
    bq.push_back(String::from("a<b"));
    assert_eq!(bq.pop_data(), Some(DataRunOrChar::OneChar('a')));
    assert_eq!(bq.pop_data(), Some(DataRunOrChar::OneChar('<')));
    assert_eq!(bq.pop_data(), Some(DataRunOrChar::OneChar('b')));
    assert_eq!(bq.pop_data(), None);
}

#[test]
fn pop_data_gives_one_wide_character_as_a_run() {
    let mut bq = BufferQueue::new();
    bq.push_back(String::from("\u{e9}-"));
    assert_eq!(bq.pop_data(), Some(DataRunOrChar::DataRun(String::from("\u{e9}"))));
    assert_eq!(bq.pop_data(), Some(DataRunOrChar::OneChar('-')));
    assert_eq!(bq.pop_data(), None);
}

#[test]
fn pop_data_gives_each_trigger_alone() {
    let mut bq = BufferQueue::new();
    bq.push_back(String::from("\0\r&-<"));
    assert_eq!(bq.pop_data(), Some(DataRunOrChar::OneChar('\0')));
    assert_eq!(bq.pop_data(), Some(DataRunOrChar::OneChar('\r')));
    assert_eq!(bq.pop_data(), Some(DataRunOrChar::OneChar('&')));
    assert_eq!(bq.pop_data(), Some(DataRunOrChar::OneChar('-')));
    assert_eq!(bq.pop_data(), Some(DataRunOrChar::OneChar('<')));
    assert_eq!(bq.pop_data(), None);
}

#[test]
fn pop_data_reproduces_the_input() {
    let input = "<p>Tom &amp; Jerry -- a \u{201c}classic\u{201d}\r\n\0end";
    let mut bq = BufferQueue::new();
    bq.push_back(String::from(&input[..10]));
    bq.push_back(String::from(&input[10..]));
    let mut out = String::new();
    while let Some(piece) = bq.pop_data() {
        match piece {
            DataRunOrChar::DataRun(s) => {
                assert!(!s.is_empty());
                assert!(!s.contains(|c| matches!(c, '\0' | '\r' | '&' | '-' | '<')));
                out.push_str(&s);
            }
            DataRunOrChar::OneChar(c) => {
                assert!(matches!(c, '\0' | '\r' | '&' | '-' | '<') || c.is_ascii());
                out.push(c);
            }
        }
    }
    assert_eq!(out, input);
    assert!(!bq.has(1));
}

#[test]
fn pop_data_after_partial_read() {
    let mut bq = BufferQueue::new();
    bq.push_back(String::from("abcd<e"));
    assert_eq!(bq.next(), Some('a'));
    assert_eq!(bq.pop_data(), Some(DataRunOrChar::DataRun(String::from("bcd"))));
    assert_eq!(bq.peek(), Some('<'));
    assert!(bq.has(2));
    assert!(!bq.has(3));
}
