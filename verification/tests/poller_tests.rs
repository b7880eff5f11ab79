use clip_history::codec::{image_data_to_base64, ImageBuf};
use clip_history::facade::{set_data_payload, Payload};
use clip_history::poller::{
    encode_image_read, EncodedImageRead, ImageRead, PollState, TextRead,
};
use clip_history::store::{Kind, Store};

fn small_image() -> ImageBuf {
    ImageBuf { width: 1, height: 1, bytes: vec![10, 20, 30, 255] }
}

#[test]
fn new_text_is_inserted_and_snapshot_updated() {
    let mut store = Store::new();
    let mut poll = PollState::new(String::new());
    poll.observe_text(&mut store, TextRead::Value(String::from("copied")));
    assert_eq!(store.len(), 1);
    assert_eq!(poll.last_text, "copied");
    // the same observation again: unchanged snapshot, no new entry
    poll.observe_text(&mut store, TextRead::Value(String::from("copied")));
    assert_eq!(store.len(), 1);
}

#[test]
fn empty_text_and_failures_change_nothing() {
    let mut store = Store::new();
    let mut poll = PollState::new(String::from("seed"));
    poll.observe_text(&mut store, TextRead::Value(String::new()));
    assert_eq!(store.len(), 0);
    assert_eq!(poll.last_text, "seed");
    poll.observe_text(&mut store, TextRead::Failed);
    assert_eq!(store.len(), 0);
    assert_eq!(poll.last_text, "seed");
}

#[test]
fn unavailable_text_resets_snapshot_so_same_paste_is_new() {
    let mut store = Store::new();
    let mut poll = PollState::new(String::from("seed"));
    // the startup text is the snapshot, so observing it again inserts nothing
    poll.observe_text(&mut store, TextRead::Value(String::from("seed")));
    assert_eq!(store.len(), 0);
    // an external clear, then the same paste: now recognized as new
    poll.observe_text(&mut store, TextRead::Unavailable);
    assert_eq!(poll.last_text, "");
    poll.observe_text(&mut store, TextRead::Value(String::from("seed")));
    assert_eq!(store.len(), 1);
}

#[test]
fn image_is_encoded_then_inserted_once() {
    let mut store = Store::new();
    let mut poll = PollState::new(String::new());
    let expected = image_data_to_base64(&small_image());
    poll.observe_image(&mut store, ImageRead::Value(small_image()));
    assert_eq!(store.len(), 1);
    let listed = store.list(None);
    assert_eq!(listed[0].kind, Kind::Image);
    assert_eq!(listed[0].content, expected);
    assert_eq!(poll.last_image.as_deref(), Some(expected.as_str()));
    // same image again: snapshot equality suppresses it
    poll.observe_image(&mut store, ImageRead::Value(small_image()));
    assert_eq!(store.len(), 1);
    // unavailable resets the snapshot; the same image then reads as new
    poll.observe_image(&mut store, ImageRead::Unavailable);
    assert_eq!(poll.last_image, None);
    poll.observe_image(&mut store, ImageRead::Value(small_image()));
    assert_eq!(store.len(), 1);  // dedup in the store still rejects it
}

#[test]
fn one_iteration_can_enqueue_both_kinds() {
    let mut store = Store::new();
    let mut poll = PollState::new(String::new());
    poll.poll_iteration(
        &mut store,
        TextRead::Value(String::from("text part")),
        ImageRead::Value(small_image()),
    );
    assert_eq!(store.len(), 2);
    let listed = store.list(None);
    assert_eq!(listed[0].kind, Kind::Image);
    assert_eq!(listed[1].kind, Kind::Text);
}

#[test]
fn encode_image_read_runs_the_codec_up_front() {
    match encode_image_read(ImageRead::Value(small_image())) {
        EncodedImageRead::Value(s) => assert_eq!(s, image_data_to_base64(&small_image())),
        _ => panic!("an available image must come back encoded"),
    }
    assert!(matches!(encode_image_read(ImageRead::Unavailable), EncodedImageRead::Unavailable));
    assert!(matches!(encode_image_read(ImageRead::Failed), EncodedImageRead::Failed));
}

#[test]
fn encoded_observation_matches_direct_observation() {
    let mut store_direct = Store::new();
    let mut poll_direct = PollState::new(String::new());
    poll_direct.observe_image(&mut store_direct, ImageRead::Value(small_image()));

    let mut store_enc = Store::new();
    let mut poll_enc = PollState::new(String::new());
    let enc = image_data_to_base64(&small_image());
    let accepted = poll_enc.observe_image_encoded(&mut store_enc, EncodedImageRead::Value(enc));

    assert_eq!(accepted.expect("accepted").content, image_data_to_base64(&small_image()));
    assert_eq!(poll_direct.last_image, poll_enc.last_image);
    let (a, b) = (store_direct.list(None), store_enc.list(None));
    assert_eq!(a.len(), b.len());
    assert_eq!(a[0].content, b[0].content);
    assert_eq!(a[0].kind, b[0].kind);
}

#[test]
fn set_data_payload_text_passes_through() {
    match set_data_payload(String::from("hello"), Kind::Text) {
        Ok(Payload::Text(t)) => assert_eq!(t, "hello"),
        other => panic!("unexpected payload: {:?}", other.is_ok()),
    }
}

#[test]
fn set_data_payload_image_decodes_the_entry() {
    let img = small_image();
    let text = image_data_to_base64(&img);
    match set_data_payload(text, Kind::Image) {
        Ok(Payload::Image(out)) => {
            assert_eq!(out.width, 1);
            assert_eq!(out.height, 1);
            assert_eq!(out.bytes, img.bytes);
        },
        other => panic!("unexpected payload: {:?}", other.is_ok()),
    }
    assert!(set_data_payload(String::from("***"), Kind::Image).is_err());
}
