use clip_history::journal::{encode_entry, replay_log};
use clip_history::poller::{ImageRead, PollState, TextRead};
use clip_history::shared::SharedStore;
use clip_history::store::{Entry, Kind};

#[test]
fn shared_store_serializes_operations() {
    let shared = SharedStore::new();
    assert!(shared.set(String::from("first"), Kind::Text));
    assert!(shared.set(String::from("second"), Kind::Text));
    assert!(!shared.set(String::from("first"), Kind::Text));
    assert_eq!(shared.len(), 2);

    let listed = shared.list(None);
    assert_eq!(listed.len(), 2);
    assert_eq!(listed[0].content, "second");
    assert_eq!(listed[1].content, "first");

    assert!(shared.delete("first", Kind::Text));
    assert!(!shared.delete("first", Kind::Text));
    assert_eq!(shared.len(), 1);

    shared.clear();
    assert_eq!(shared.len(), 0);
}

#[test]
fn shared_store_capacity_holds_under_lock() {
    let shared = SharedStore::new();
    for i in 0..70 {
        shared.set(format!("item-{}", i), Kind::Text);
    }
    assert_eq!(shared.len(), 50);
    let listed = shared.list(Some("item-6"));
    // item-20 through item-69 survive; of those, item-60 through item-69 match
    assert_eq!(listed.len(), 10);
    assert_eq!(listed[0].content, "item-69");
    assert_eq!(listed[9].content, "item-60");
}

#[test]
fn observe_runs_a_poll_iteration_under_the_lock() {
    let shared = SharedStore::new();
    let mut poll = PollState::new(String::new());
    let (t, i) = shared.observe(
        &mut poll,
        TextRead::Value(String::from("copied")),
        ImageRead::Unavailable,
    );
    assert_eq!(t.expect("text accepted").content, "copied");
    assert!(i.is_none());
    assert_eq!(shared.len(), 1);

    let (t, _) = shared.observe(
        &mut poll,
        TextRead::Value(String::from("copied")),
        ImageRead::Unavailable,
    );
    assert!(t.is_none());
    assert_eq!(shared.len(), 1);
}

#[test]
fn replay_feeds_the_shared_store() {
    let mut log = Vec::new();
    for s in ["a", "b", "a"] {
        log.append(&mut encode_entry(&Entry { content: String::from(s), kind: Kind::Text }));
    }
    let entries = replay_log(&log);
    let shared = SharedStore::new();
    shared.replay(&entries);
    assert_eq!(shared.len(), 2);
    let listed = shared.list(None);
    assert_eq!(listed[0].content, "b");
    assert_eq!(listed[1].content, "a");
}
