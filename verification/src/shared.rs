//! The history store behind its single mutual-exclusion lock, realized with
//! a verified reader-writer lock whose invariant is the store's own. Every
//! operation acquires the lock for its full duration and releases it on
//! every path, so operations are linearizable with respect to each other:
//! no caller observes a partially applied insertion, eviction or deletion,
//! and the history invariants hold whenever the lock is free.

use vstd::prelude::*;
use vstd::rwlock::{RwLock, RwLockPredicate};
use crate::poller::{encode_image_read, image_step, image_step_encoded, opt_string_view,
    text_step, ImageRead, PollState, TextRead};
use crate::store::{entries_view, list_spec, no_dups, opt_view, spec_insert, Entry, Kind, Store};
use crate::journal::replay_into;
use crate::MAX_ITEMS;

verus! {

/// The lock's invariant: the guarded store satisfies the history invariants.
pub struct StorePred {}

impl RwLockPredicate<Store> for StorePred {
    open spec fn inv(self, v: Store) -> bool {
        v.inv()
    }
}

/// A history shared between the poller and any number of facade callers.
pub struct SharedStore {
    lock: RwLock<Store, StorePred>,
}

impl SharedStore {
    /// A shared history, created empty.
    pub fn new() -> SharedStore {
        SharedStore { lock: RwLock::new(Store::new(), Ghost(StorePred {})) }
    }

    /// Atomic insert: the dedup, eviction and capacity rules of `Store::set`
    /// apply to the one complete, invariant-satisfying history state this
    /// call observes; in particular the insert is accepted exactly when that
    /// state did not already hold the entry.
    pub fn set(&self, content: String, kind: Kind) -> (accepted: bool)
        ensures
            exists|h: Seq<(Seq<char>, Kind)>|
                h.len() <= MAX_ITEMS && no_dups(h) && accepted == !(#[trigger] h.contains(
                    (content@, kind),
                )),
    {
        let ghost key = (content@, kind);
        let (mut store, handle) = self.lock.acquire_write();
        let ghost h = store@;
        let accepted = store.set(content, kind);
        handle.release_write(store);
        proof {
            assert(h.len() <= MAX_ITEMS && no_dups(h) && accepted == !h.contains(key));
        }
        accepted
    }

    /// Atomic read: the result is the listing of one complete history state
    /// that satisfied the invariants at some instant during the call — never
    /// a torn mixture of two states.
    pub fn list(&self, filter: Option<&str>) -> (r: Vec<Entry>)
        ensures
            exists|h: Seq<(Seq<char>, Kind)>|
                h.len() <= MAX_ITEMS && no_dups(h) && entries_view(r@) == #[trigger] list_spec(
                    h,
                    opt_view(filter),
                ),
    {
        let handle = self.lock.acquire_read();
        let ghost h = handle.view()@;
        let r = handle.borrow().list(filter);
        handle.release_read();
        proof {
            assert(h.len() <= MAX_ITEMS && no_dups(h) && entries_view(r@) == list_spec(
                h,
                opt_view(filter),
            ));
        }
        r
    }

    /// Atomic delete of the entry equal to `(content, kind)`: it is found
    /// exactly when the one complete history state this call observes held it.
    pub fn delete(&self, content: &str, kind: Kind) -> (found: bool)
        ensures
            exists|h: Seq<(Seq<char>, Kind)>|
                h.len() <= MAX_ITEMS && no_dups(h) && found == #[trigger] h.contains(
                    (content@, kind),
                ),
    {
        let (mut store, handle) = self.lock.acquire_write();
        let ghost h = store@;
        let found = store.delete(content, kind);
        handle.release_write(store);
        proof {
            assert(h.len() <= MAX_ITEMS && no_dups(h) && found == h.contains((content@, kind)));
        }
        found
    }

    /// Atomically empties the history.
    pub fn clear(&self) {
        let (mut store, handle) = self.lock.acquire_write();
        store.clear();
        handle.release_write(store);
    }

    /// The length of one valid history state: never above capacity.
    pub fn len(&self) -> (n: usize)
        ensures
            n <= MAX_ITEMS,
    {
        let handle = self.lock.acquire_read();
        let n = handle.borrow().len();
        handle.release_read();
        n
    }

    /// One poller iteration applied under the write lock. The clipboard is
    /// read and the image encoded before the lock is taken; only the
    /// insertion decisions run inside, so facade callers wait for at most
    /// the two insertion decisions. The snapshot moves, and the observed
    /// history state changes, exactly as one `text_step` then one
    /// `image_step` say; the returned entries are the ones the store
    /// accepted, owed to the durable log.
    pub fn observe(&self, poll: &mut PollState, text: TextRead, image: ImageRead) -> (r: (
        Option<Entry>,
        Option<Entry>,
    ))
        requires
            image matches ImageRead::Value(img) ==> img.wf(),
        ensures
            r.0 matches Some(e) ==> e.kind == Kind::Text,
            r.1 matches Some(e) ==> e.kind == Kind::Image,
            exists|h: Seq<(Seq<char>, Kind)>|
                {
                    let (lt, h1) = #[trigger] text_step(old(poll).last_text@, h, text);
                    let (li, h2) = image_step(opt_string_view(old(poll).last_image), h1, image);
                    &&& h.len() <= MAX_ITEMS
                    &&& no_dups(h)
                    &&& final(poll).last_text@ == lt
                    &&& opt_string_view(final(poll).last_image) == li
                    &&& (r.0 matches Some(e) ==> h1 == spec_insert(h, e@) && h1 != h)
                    &&& (r.0 is None ==> h1 == h)
                    &&& (r.1 matches Some(e) ==> h2 == spec_insert(h1, e@) && h2 != h1)
                    &&& (r.1 is None ==> h2 == h1)
                },
    {
        let ghost gtext = text;
        let ghost gimage = image;
        // the codec runs before the lock is taken
        let encoded = encode_image_read(image);
        let (mut store, handle) = self.lock.acquire_write();
        let ghost h = store@;
        let ghost lt0 = poll.last_text@;
        let ghost li0 = opt_string_view(poll.last_image);
        let accepted_text = poll.observe_text(&mut store, text);
        let ghost h1 = store@;
        let accepted_image = poll.observe_image_encoded(&mut store, encoded);
        let ghost h2 = store@;
        handle.release_write(store);
        proof {
            assert((poll.last_text@, h1) == text_step(lt0, h, gtext));
            assert(image_step_encoded(li0, h1, encoded) == image_step(li0, h1, gimage));
            assert((opt_string_view(poll.last_image), h2) == image_step(li0, h1, gimage));
        }
        (accepted_text, accepted_image)
    }

    /// Replays journal entries into the shared history, oldest first, under
    /// the same capacity and dedup rules as runtime inserts.
    pub fn replay(&self, entries: &Vec<Entry>) {
        let (mut store, handle) = self.lock.acquire_write();
        replay_into(&mut store, entries);
        handle.release_write(store);
    }
}

} // verus!
