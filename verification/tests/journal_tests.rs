use clip_history::journal::{encode_entry, replay_into, replay_log};
use clip_history::store::{Entry, Kind, Store};

fn entry(s: &str, kind: Kind) -> Entry {
    Entry { content: String::from(s), kind }
}

fn log_bytes(entries: &[Entry]) -> Vec<u8> {
    let mut log = Vec::new();
    for e in entries {
        log.append(&mut encode_entry(e));
    }
    log
}

#[test]
fn record_format_is_tag_length_newline_content_newline() {
    let rec = encode_entry(&entry("hi", Kind::Text));
    assert_eq!(rec, vec![b't', b'2', b'\n', b'h', b'i', b'\n']);
    let rec = encode_entry(&entry("img", Kind::Image));
    assert_eq!(rec, vec![b'i', b'3', b'\n', b'i', b'm', b'g', b'\n']);
}

#[test]
fn multi_digit_lengths_and_multibyte_content() {
    let long = "x".repeat(12);
    let rec = encode_entry(&entry(&long, Kind::Text));
    assert_eq!(&rec[0..4], &[b't', b'1', b'2', b'\n']);
    // UTF-8 length counts bytes, not characters
    let rec = encode_entry(&entry("é", Kind::Text));
    assert_eq!(rec[1], b'2');
}

#[test]
fn replay_recovers_entries_in_file_order() {
    let written = [entry("one", Kind::Text), entry("two", Kind::Image), entry("three", Kind::Text)];
    let log = log_bytes(&written);
    let read = replay_log(&log);
    assert_eq!(read.len(), 3);
    for (w, r) in written.iter().zip(read.iter()) {
        assert_eq!(w.content, r.content);
        assert_eq!(w.kind, r.kind);
    }
}

#[test]
fn truncated_final_record_is_dropped() {
    let written = [entry("kept", Kind::Text), entry("torn", Kind::Text)];
    let mut log = log_bytes(&written);
    log.pop();
    log.pop();
    let read = replay_log(&log);
    assert_eq!(read.len(), 1);
    assert_eq!(read[0].content, "kept");
}

#[test]
fn corrupt_prefix_recovers_nothing() {
    let read = replay_log(&vec![b'q', b'3', b'\n']);
    assert!(read.is_empty());
    let read = replay_log(&vec![b't', b'\n']);
    assert!(read.is_empty());
}

#[test]
fn replay_equals_inserting_in_order() {
    let written = [
        entry("a", Kind::Text),
        entry("b", Kind::Text),
        entry("a", Kind::Text),  // duplicate: dedup applies on replay too
        entry("c", Kind::Image),
    ];
    let log = log_bytes(&written);
    let read = replay_log(&log);

    let mut replayed = Store::new();
    replay_into(&mut replayed, &read);

    let mut direct = Store::new();
    for e in &written {
        direct.set(e.content.clone(), e.kind);
    }

    let a = replayed.list(None);
    let b = direct.list(None);
    assert_eq!(a.len(), b.len());
    for (x, y) in a.iter().zip(b.iter()) {
        assert_eq!(x.content, y.content);
        assert_eq!(x.kind, y.kind);
    }
    assert_eq!(replayed.len(), 3);
}

#[test]
fn replay_respects_capacity() {
    let written: Vec<Entry> =
        (0..60).map(|i| entry(&format!("n{}", i), Kind::Text)).collect();
    let log = log_bytes(&written);
    let read = replay_log(&log);
    assert_eq!(read.len(), 60);
    let mut store = Store::new();
    replay_into(&mut store, &read);
    assert_eq!(store.len(), 50);
    let listed = store.list(None);
    assert_eq!(listed[0].content, "n59");
    assert_eq!(listed[49].content, "n10");
}
