//! Poller logic: change detection against the last-observed clipboard
//! snapshot, one slot per content kind, feeding accepted entries to the
//! store. The loop itself (clipboard reads and the fixed-interval sleep)
//! lives outside; these functions decide what each observation does.

use vstd::prelude::*;
use crate::codec::{b64_of, png_of, image_data_to_base64, ImageBuf};
use crate::store::{spec_insert, str_eq, Entry, Kind, Store};

verus! {

/// What an attempt to read the clipboard text produced: a value, "no text
/// content available", or a failure of the read itself.
pub enum TextRead {
    Value(String),
    Unavailable,
    Failed,
}

/// What an attempt to read the clipboard image produced.
pub enum ImageRead {
    Value(ImageBuf),
    Unavailable,
    Failed,
}

/// An image observation with the codec work already done: the encoded text
/// of the available image. Lets a caller run the codec before taking any
/// lock, so the lock is held for no more than the insertion decisions.
pub enum EncodedImageRead {
    Value(String),
    Unavailable,
    Failed,
}

/// The value of an optional string.
pub open spec fn opt_string_view(o: Option<String>) -> Option<Seq<char>> {
    match o {
        Option::None => Option::None,
        Option::Some(s) => Option::Some(s@),
    }
}

/// The snapshot and history after one text observation: a non-empty text
/// that differs from the snapshot updates the snapshot and is inserted;
/// "not available" resets the snapshot to empty, so that an identical paste
/// after an intervening external clear is recognized as new; a failed read
/// changes nothing and the loop goes on.
pub open spec fn text_step(last: Seq<char>, h: Seq<(Seq<char>, Kind)>, r: TextRead) -> (
    Seq<char>,
    Seq<(Seq<char>, Kind)>,
) {
    match r {
        TextRead::Value(t) => if t@.len() > 0 && t@ != last {
            (t@, spec_insert(h, (t@, Kind::Text)))
        } else {
            (last, h)
        },
        TextRead::Unavailable => (Seq::empty(), h),
        TextRead::Failed => (last, h),
    }
}

/// The snapshot and history after one image observation: an available image
/// is encoded through the codec, and inserted exactly when the encoded text
/// differs from the snapshot; "not available" resets the snapshot to none;
/// a failed read changes nothing.
pub open spec fn image_step(
    last: Option<Seq<char>>,
    h: Seq<(Seq<char>, Kind)>,
    r: ImageRead,
) -> (Option<Seq<char>>, Seq<(Seq<char>, Kind)>) {
    match r {
        ImageRead::Value(img) => {
            let enc = b64_of(png_of(img.width, img.height, img.bytes@));
            if last == Option::Some(enc) {
                (last, h)
            } else {
                (Option::Some(enc), spec_insert(h, (enc, Kind::Image)))
            }
        },
        ImageRead::Unavailable => (Option::None, h),
        ImageRead::Failed => (last, h),
    }
}

/// `image_step`, stated over the already-encoded text.
pub open spec fn image_step_encoded(
    last: Option<Seq<char>>,
    h: Seq<(Seq<char>, Kind)>,
    r: EncodedImageRead,
) -> (Option<Seq<char>>, Seq<(Seq<char>, Kind)>) {
    match r {
        EncodedImageRead::Value(enc) => if last == Option::Some(enc@) {
            (last, h)
        } else {
            (Option::Some(enc@), spec_insert(h, (enc@, Kind::Image)))
        },
        EncodedImageRead::Unavailable => (Option::None, h),
        EncodedImageRead::Failed => (last, h),
    }
}

/// Runs the codec on an observed image, turning the observation into its
/// encoded form: the two forms take any snapshot and history to the same
/// place, so the codec work can happen before any lock is taken.
pub fn encode_image_read(read: ImageRead) -> (r: EncodedImageRead)
    requires
        read matches ImageRead::Value(img) ==> img.wf(),
    ensures
        forall|last: Option<Seq<char>>, h: Seq<(Seq<char>, Kind)>|
            #[trigger] image_step_encoded(last, h, r) == image_step(last, h, read),
{
    match read {
        ImageRead::Value(img) => {
            let enc = image_data_to_base64(&img);
            EncodedImageRead::Value(enc)
        },
        ImageRead::Unavailable => EncodedImageRead::Unavailable,
        ImageRead::Failed => EncodedImageRead::Failed,
    }
}

/// The poller's snapshot: the last-observed text and the last-observed
/// encoded image, tracked independently because the clipboard can expose a
/// text and an image representation at once.
pub struct PollState {
    pub last_text: String,
    pub last_image: Option<String>,
}

impl PollState {
    /// A fresh snapshot: the text the clipboard held at startup (or empty),
    /// and no observed image.
    pub fn new(initial_text: String) -> (s: PollState)
        ensures
            s.last_text@ == initial_text@,
            s.last_image is None,
    {
        PollState { last_text: initial_text, last_image: None }
    }

    /// Applies one text observation to the snapshot and the store. Returns
    /// the entry the store accepted, if any, so that a durable log can
    /// record it before the observation is acknowledged.
    pub fn observe_text(&mut self, store: &mut Store, read: TextRead) -> (r: Option<Entry>)
        requires
            old(store).inv(),
        ensures
            final(store).inv(),
            (final(self).last_text@, final(store)@) == text_step(
                old(self).last_text@,
                old(store)@,
                read,
            ),
            final(self).last_image == old(self).last_image,
            match r {
                Option::Some(e) => e.kind == Kind::Text && final(store)@ == spec_insert(
                    old(store)@,
                    e@,
                ) && final(store)@ != old(store)@,
                Option::None => final(store)@ == old(store)@,
            },
    {
        match read {
            TextRead::Value(t) => {
                if !t.as_str().is_empty() && !str_eq(t.as_str(), self.last_text.as_str()) {
                    let ghost h0 = store@;
                    self.last_text = t.clone();
                    let entry = Entry { content: t, kind: Kind::Text };
                    let accepted = store.set(entry.content.clone(), entry.kind);
                    if accepted {
                        proof {
                            crate::store::lemma_dedup(h0, entry@);
                        }
                        Some(entry)
                    } else {
                        None
                    }
                } else {
                    None
                }
            },
            TextRead::Unavailable => {
                self.last_text = String::new();
                None
            },
            TextRead::Failed => None,
        }
    }

    /// Applies one image observation to the snapshot and the store. Returns
    /// the entry the store accepted, if any, for the durable log.
    pub fn observe_image(&mut self, store: &mut Store, read: ImageRead) -> (r: Option<Entry>)
        requires
            old(store).inv(),
            read matches ImageRead::Value(img) ==> img.wf(),
        ensures
            final(store).inv(),
            (opt_string_view(final(self).last_image), final(store)@) == image_step(
                opt_string_view(old(self).last_image),
                old(store)@,
                read,
            ),
            final(self).last_text == old(self).last_text,
            match r {
                Option::Some(e) => e.kind == Kind::Image && final(store)@ == spec_insert(
                    old(store)@,
                    e@,
                ) && final(store)@ != old(store)@,
                Option::None => final(store)@ == old(store)@,
            },
    {
        match read {
            ImageRead::Value(img) => {
                let enc = image_data_to_base64(&img);
                self.observe_image_encoded(store, EncodedImageRead::Value(enc))
            },
            ImageRead::Unavailable => self.observe_image_encoded(
                store,
                EncodedImageRead::Unavailable,
            ),
            ImageRead::Failed => self.observe_image_encoded(store, EncodedImageRead::Failed),
        }
    }

    /// Applies one image observation whose encoding was already computed.
    /// Returns the entry the store accepted, if any, for the durable log.
    pub fn observe_image_encoded(&mut self, store: &mut Store, read: EncodedImageRead) -> (r:
        Option<Entry>)
        requires
            old(store).inv(),
        ensures
            final(store).inv(),
            (opt_string_view(final(self).last_image), final(store)@) == image_step_encoded(
                opt_string_view(old(self).last_image),
                old(store)@,
                read,
            ),
            final(self).last_text == old(self).last_text,
            match r {
                Option::Some(e) => e.kind == Kind::Image && final(store)@ == spec_insert(
                    old(store)@,
                    e@,
                ) && final(store)@ != old(store)@,
                Option::None => final(store)@ == old(store)@,
            },
    {
        match read {
            EncodedImageRead::Value(enc) => {
                let same = match &self.last_image {
                    Some(prev) => str_eq(prev.as_str(), enc.as_str()),
                    None => false,
                };
                if !same {
                    let ghost h0 = store@;
                    let entry = Entry { content: enc.clone(), kind: Kind::Image };
                    let accepted = store.set(enc.clone(), Kind::Image);
                    self.last_image = Some(enc);
                    if accepted {
                        proof {
                            crate::store::lemma_dedup(h0, entry@);
                        }
                        Some(entry)
                    } else {
                        None
                    }
                } else {
                    None
                }
            },
            EncodedImageRead::Unavailable => {
                self.last_image = None;
                None
            },
            EncodedImageRead::Failed => None,
        }
    }

    /// One polling iteration: the text observation, then the image
    /// observation. A single iteration may thus enqueue zero, one, or two
    /// entries (at most one of each kind), and never terminates the loop.
    pub fn poll_iteration(&mut self, store: &mut Store, text: TextRead, image: ImageRead)
        requires
            old(store).inv(),
            image matches ImageRead::Value(img) ==> img.wf(),
        ensures
            final(store).inv(),
            ({
                let (lt, h1) = text_step(old(self).last_text@, old(store)@, text);
                let (li, h2) = image_step(opt_string_view(old(self).last_image), h1, image);
                final(self).last_text@ == lt && opt_string_view(final(self).last_image) == li
                    && final(store)@ == h2
            }),
    {
        let _text_entry = self.observe_text(store, text);
        let _image_entry = self.observe_image(store, image);
    }
}

} // verus!
