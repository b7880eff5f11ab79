//! The history store: a capacity-bounded, order-preserving, deduplicating
//! collection of clipboard entries, oldest first.

use vstd::prelude::*;
use crate::MAX_ITEMS;

verus! {

/// Classification of a clipboard entry: plain text or an encoded image.
#[derive(Clone, Copy, PartialEq, Eq, Structural, Debug)]
pub enum Kind {
    Text,
    Image,
}

/// One recorded clipboard item. For `Kind::Text` the content is the text
/// itself; for `Kind::Image` it is the portable encoding produced by the
/// codec, never raw pixels. Entries are immutable once created.
pub struct Entry {
    pub content: String,
    pub kind: Kind,
}

impl View for Entry {
    type V = (Seq<char>, Kind);

    open spec fn view(&self) -> (Seq<char>, Kind) {
        (self.content@, self.kind)
    }
}

impl Entry {
    /// An identical copy; entry equality is byte equality of `(content, kind)`.
    pub fn duplicate(&self) -> (r: Entry)
        ensures
            r@ == self@,
    {
        Entry { content: self.content.clone(), kind: self.kind }
    }
}

/// The values of a sequence of entries.
pub open spec fn entries_view(s: Seq<Entry>) -> Seq<(Seq<char>, Kind)> {
    s.map(|i: int, e: Entry| e@)
}

/// No two entries of the history are equal (set-like uniqueness on a sequence).
pub open spec fn no_dups(h: Seq<(Seq<char>, Kind)>) -> bool {
    forall|i: int, j: int| 0 <= i < j < h.len() ==> h[i] != h[j]
}

/// What an insertion evicts first: at capacity, the single oldest entry.
pub open spec fn spec_evict(h: Seq<(Seq<char>, Kind)>) -> Seq<(Seq<char>, Kind)> {
    if h.len() >= MAX_ITEMS {
        h.drop_first()
    } else {
        h
    }
}

/// The history after inserting `e`: unchanged if `e` is already present,
/// otherwise `e` is appended at the newest end after eviction if needed.
pub open spec fn spec_insert(
    h: Seq<(Seq<char>, Kind)>,
    e: (Seq<char>, Kind),
) -> Seq<(Seq<char>, Kind)> {
    if h.contains(e) {
        h
    } else {
        spec_evict(h).push(e)
    }
}

/// The history after inserting every element of `es` in order.
pub open spec fn insert_all(
    h: Seq<(Seq<char>, Kind)>,
    es: Seq<(Seq<char>, Kind)>,
) -> Seq<(Seq<char>, Kind)>
    decreases es.len(),
{
    if es.len() == 0 {
        h
    } else {
        spec_insert(insert_all(h, es.drop_last()), es.last())
    }
}

/// `n` occurs in `h` starting at position `i`.
pub open spec fn contains_at(h: Seq<char>, n: Seq<char>, i: int) -> bool {
    0 <= i && i + n.len() <= h.len() && h.subrange(i, i + n.len()) == n
}

/// `n` occurs somewhere in `h` (substring containment; the empty `n` always does).
pub open spec fn contains_sub(h: Seq<char>, n: Seq<char>) -> bool {
    exists|i: int| contains_at(h, n, i)
}

/// Character-exact string equality.
pub fn str_eq(a: &str, b: &str) -> (r: bool)
    ensures
        r == (a@ == b@),
{
    let alen = a.unicode_len();
    let blen = b.unicode_len();
    if alen != blen {
        return false;
    }
    let mut i: usize = 0;
    while i < alen
        invariant
            i <= alen,
            alen == a@.len(),
            alen == b@.len(),
            forall|k: int| 0 <= k < i ==> a@[k] == b@[k],
        decreases alen - i,
    {
        if a.get_char(i) != b.get_char(i) {
            return false;
        }
        i += 1;
    }
    proof {
        assert(a@ =~= b@);
    }
    true
}

/// Whether `n` occurs in `h` starting exactly at position `i`.
fn match_at(h: &str, n: &str, i: usize, nlen: usize) -> (r: bool)
    requires
        nlen == n@.len(),
        i + nlen <= h@.len(),
        h@.len() <= usize::MAX,
    ensures
        r == contains_at(h@, n@, i as int),
{
    let mut j: usize = 0;
    while j < nlen
        invariant
            j <= nlen,
            nlen == n@.len(),
            i + nlen <= h@.len(),
            h@.len() <= usize::MAX,
            forall|k: int| 0 <= k < j ==> h@[i + k] == n@[k],
        decreases nlen - j,
    {
        if h.get_char(i + j) != n.get_char(j) {
            proof {
                assert(h@.subrange(i as int, i + nlen) != n@) by {
                    assert(h@.subrange(i as int, i + nlen)[j as int] != n@[j as int]);
                }
            }
            return false;
        }
        j += 1;
    }
    proof {
        assert(h@.subrange(i as int, i + nlen) =~= n@);
    }
    true
}

/// Case-sensitive substring containment.
pub fn str_contains(h: &str, n: &str) -> (r: bool)
    ensures
        r == contains_sub(h@, n@),
{
    let nlen = n.unicode_len();
    if nlen == 0 {
        proof {
            assert(contains_at(h@, n@, 0)) by {
                assert(h@.subrange(0, 0) =~= n@);
            }
        }
        return true;
    }
    let hlen = h.unicode_len();
    if nlen > hlen {
        return false;
    }
    let mut i: usize = 0;
    while i <= hlen - nlen
        invariant
            hlen == h@.len(),
            nlen == n@.len(),
            0 < nlen <= hlen,
            i <= hlen - nlen + 1,
            forall|k: int| 0 <= k < i ==> !contains_at(h@, n@, k),
        decreases hlen + 1 - nlen - i,
    {
        if match_at(h, n, i, nlen) {
            return true;
        }
        i += 1;
    }
    false
}

/// Whether an entry value passes a filter: an absent filter matches all,
/// a present one matches entries whose content contains it.
pub open spec fn matches_filter(e: (Seq<char>, Kind), f: Option<Seq<char>>) -> bool {
    match f {
        Option::None => true,
        Option::Some(n) => contains_sub(e.0, n),
    }
}

/// The filter predicate as a function value, for use with `Seq::filter`.
pub open spec fn filter_pred(f: Option<Seq<char>>) -> spec_fn((Seq<char>, Kind)) -> bool {
    |e: (Seq<char>, Kind)| matches_filter(e, f)
}

/// What listing returns: the matching entries, newest first.
pub open spec fn list_spec(
    h: Seq<(Seq<char>, Kind)>,
    f: Option<Seq<char>>,
) -> Seq<(Seq<char>, Kind)> {
    h.filter(filter_pred(f)).reverse()
}

/// The value of an optional filter string.
pub open spec fn opt_view(f: Option<&str>) -> Option<Seq<char>> {
    match f {
        Option::None => Option::None,
        Option::Some(s) => Option::Some(s@),
    }
}

proof fn lemma_filter_singleton(e: (Seq<char>, Kind), f: Option<Seq<char>>)
    ensures
        seq![e].filter(filter_pred(f)) == if matches_filter(e, f) {
            seq![e]
        } else {
            Seq::<(Seq<char>, Kind)>::empty()
        },
{
    reveal_with_fuel(Seq::filter, 3);
    let s = seq![e];
    assert(s.drop_last() =~= Seq::<(Seq<char>, Kind)>::empty());
    assert(Seq::<(Seq<char>, Kind)>::empty().filter(filter_pred(f))
        =~= Seq::<(Seq<char>, Kind)>::empty());
    if matches_filter(e, f) {
        assert(s.filter(filter_pred(f)) =~= seq![e]);
    } else {
        assert(s.filter(filter_pred(f)) =~= Seq::<(Seq<char>, Kind)>::empty());
    }
}

proof fn lemma_reverse_add(a: Seq<(Seq<char>, Kind)>, b: Seq<(Seq<char>, Kind)>)
    ensures
        (a + b).reverse() == b.reverse() + a.reverse(),
{
    assert((a + b).reverse() =~= b.reverse() + a.reverse());
}

/// One step of scanning the history from the newest end: the suffix from `i`
/// lists as the suffix from `i + 1` with `h[i]` (its oldest entry) appended
/// at the end exactly when it matches.
proof fn lemma_list_spec_step(h: Seq<(Seq<char>, Kind)>, f: Option<Seq<char>>, i: int)
    requires
        0 <= i < h.len(),
    ensures
        list_spec(h.skip(i), f) == if matches_filter(h[i], f) {
            list_spec(h.skip(i + 1), f).push(h[i])
        } else {
            list_spec(h.skip(i + 1), f)
        },
{
    let rest = h.skip(i + 1);
    let one = seq![h[i]];
    assert(h.skip(i) =~= one + rest);
    Seq::filter_distributes_over_add(one, rest, filter_pred(f));
    lemma_filter_singleton(h[i], f);
    lemma_reverse_add(one.filter(filter_pred(f)), rest.filter(filter_pred(f)));
    if matches_filter(h[i], f) {
        assert(one.reverse() =~= one);
        assert(rest.filter(filter_pred(f)).reverse() + one =~= rest.filter(
            filter_pred(f),
        ).reverse().push(h[i]));
    } else {
        assert(Seq::<(Seq<char>, Kind)>::empty().reverse()
            =~= Seq::<(Seq<char>, Kind)>::empty());
        assert(rest.filter(filter_pred(f)).reverse() + Seq::<(Seq<char>, Kind)>::empty()
            =~= rest.filter(filter_pred(f)).reverse());
    }
}

/// The bounded, deduplicating, order-preserving history container.
///
/// Every operation takes the whole container by `&self` or `&mut self`, so
/// with respect to any outside lock each operation is atomic: no caller can
/// observe a partially applied insertion or eviction.
pub struct Store {
    items: Vec<Entry>,
}

impl View for Store {
    type V = Seq<(Seq<char>, Kind)>;

    closed spec fn view(&self) -> Seq<(Seq<char>, Kind)> {
        entries_view(self.items@)
    }
}

impl Store {
    /// The history invariants: bounded length and no duplicate entries.
    pub open spec fn inv(&self) -> bool {
        self@.len() <= MAX_ITEMS && no_dups(self@)
    }

    /// A history created empty.
    pub fn new() -> (s: Store)
        ensures
            s@ == Seq::<(Seq<char>, Kind)>::empty(),
            s.inv(),
    {
        let s = Store { items: Vec::new() };
        proof {
            assert(s@ =~= Seq::<(Seq<char>, Kind)>::empty());
        }
        s
    }

    pub fn len(&self) -> (n: usize)
        ensures
            n == self@.len(),
    {
        self.items.len()
    }

    /// Position of the first entry equal to `(content, kind)`, if any.
    fn find_index(&self, content: &str, kind: Kind) -> (r: Option<usize>)
        ensures
            match r {
                Option::Some(i) => i < self@.len() && self@[i as int] == (content@, kind)
                    && forall|j: int| 0 <= j < i ==> self@[j] != (content@, kind),
                Option::None => !self@.contains((content@, kind)),
            },
    {
        let mut i: usize = 0;
        while i < self.items.len()
            invariant
                i <= self.items@.len(),
                self@.len() == self.items@.len(),
                forall|j: int| 0 <= j < i ==> self@[j] != (content@, kind),
            decreases self.items@.len() - i,
        {
            let e = &self.items[i];
            if e.kind == kind && str_eq(e.content.as_str(), content) {
                return Some(i);
            }
            i += 1;
        }
        proof {
            assert(!self@.contains((content@, kind)));
        }
        None
    }

    /// Insert: rejected (returns false) if an equal entry already exists;
    /// otherwise the oldest entry is evicted first when the history is at
    /// capacity, and the new entry is appended at the newest end.
    pub fn set(&mut self, content: String, kind: Kind) -> (accepted: bool)
        requires
            old(self).inv(),
        ensures
            final(self).inv(),
            accepted == !old(self)@.contains((content@, kind)),
            final(self)@ == spec_insert(old(self)@, (content@, kind)),
    {
        let ghost h0 = self@;
        let ghost key = (content@, kind);
        match self.find_index(content.as_str(), kind) {
            Some(_) => false,
            None => {
                proof {
                    assert(forall|x: int| 0 <= x < h0.len() ==> h0[x] != key);
                }
                if self.items.len() >= MAX_ITEMS {
                    self.items.remove(0);
                    proof {
                        assert(self@ =~= h0.drop_first());
                    }
                }
                let ghost h1 = self@;
                self.items.push(Entry { content, kind });
                proof {
                    assert(self@ =~= h1.push(key));
                    assert(self@ =~= spec_insert(h0, key));
                    assert forall|i: int, j: int| 0 <= i < j < self@.len() implies self@[i]
                        != self@[j] by {
                        if j < self@.len() - 1 {
                            if h0.len() >= MAX_ITEMS {
                                assert(self@[i] == h0[i + 1]);
                                assert(self@[j] == h0[j + 1]);
                            }
                        } else {
                            if h0.len() >= MAX_ITEMS {
                                assert(self@[i] == h0[i + 1]);
                            }
                            assert(self@[j] == key);
                        }
                    }
                }
                true
            }
        }
    }

    /// Empties the history unconditionally.
    pub fn clear(&mut self)
        ensures
            final(self)@ == Seq::<(Seq<char>, Kind)>::empty(),
            final(self).inv(),
    {
        self.items.clear();
        proof {
            assert(self@ =~= Seq::<(Seq<char>, Kind)>::empty());
        }
    }

    /// Removes the entry equal to `(content, kind)`; returns false if absent.
    /// By uniqueness (I2) at most one entry can match.
    pub fn delete(&mut self, content: &str, kind: Kind) -> (found: bool)
        requires
            old(self).inv(),
        ensures
            final(self).inv(),
            found == old(self)@.contains((content@, kind)),
            !found ==> final(self)@ == old(self)@,
            found ==> final(self)@ == old(self)@.remove_value((content@, kind)),
    {
        let ghost h0 = self@;
        let ghost key = (content@, kind);
        match self.find_index(content, kind) {
            Some(i) => {
                self.items.remove(i);
                proof {
                    h0.index_of_first_ensures(key);
                    let idx = h0.index_of_first(key).unwrap();
                    assert(idx == i as int);
                    assert(self@ =~= h0.remove(i as int));
                    assert forall|a: int, b: int| 0 <= a < b < self@.len() implies self@[a]
                        != self@[b] by {
                        let a0: int = if a < i as int { a } else { a + 1 };
                        let b0: int = if b < i as int { b } else { b + 1 };
                        assert(self@[a] == h0[a0]);
                        assert(self@[b] == h0[b0]);
                    }
                }
                true
            }
            None => false,
        }
    }

    /// Entries whose content contains `filter` (all of them, when it is
    /// absent), newest first. Read-only: takes `&self`.
    pub fn list(&self, filter: Option<&str>) -> (r: Vec<Entry>)
        ensures
            entries_view(r@) == list_spec(self@, opt_view(filter)),
    {
        let ghost h = self@;
        let ghost f = opt_view(filter);
        let mut r: Vec<Entry> = Vec::new();
        let n = self.items.len();
        let mut i: usize = n;
        proof {
            assert(h.skip(n as int) =~= Seq::<(Seq<char>, Kind)>::empty());
            assert(Seq::<(Seq<char>, Kind)>::empty().filter(filter_pred(f))
                =~= Seq::<(Seq<char>, Kind)>::empty());
            assert(entries_view(r@) =~= list_spec(h.skip(n as int), f));
        }
        while i > 0
            invariant
                i <= n,
                n == self.items@.len(),
                h == self@,
                f == opt_view(filter),
                entries_view(r@) == list_spec(h.skip(i as int), f),
            decreases i,
        {
            i -= 1;
            let e = &self.items[i];
            let keep = match filter {
                None => true,
                Some(fs) => str_contains(e.content.as_str(), fs),
            };
            let ghost r0 = entries_view(r@);
            if keep {
                r.push(e.duplicate());
            }
            proof {
                lemma_list_spec_step(h, f, i as int);
                if keep {
                    assert(entries_view(r@) =~= r0.push(h[i as int]));
                }
            }
        }
        proof {
            assert(h.skip(0) =~= h);
        }
        r
    }
}

/// Dedup law: after inserting `e` the history contains `e`, and inserting the
/// same `e` again leaves the history unchanged (so by the contract of `set`
/// the second call returns false).
pub proof fn lemma_dedup(h: Seq<(Seq<char>, Kind)>, e: (Seq<char>, Kind))
    ensures
        spec_insert(h, e).contains(e),
        spec_insert(spec_insert(h, e), e) == spec_insert(h, e),
{
    if !h.contains(e) {
        let v = spec_evict(h).push(e);
        assert(v.contains(e)) by {
            assert(v[v.len() - 1] == e);
        }
    }
}

proof fn lemma_insert_all_distinct(es: Seq<(Seq<char>, Kind)>)
    requires
        no_dups(es),
    ensures
        insert_all(Seq::empty(), es) == if es.len() <= MAX_ITEMS {
            es
        } else {
            es.subrange(es.len() - MAX_ITEMS, es.len() as int)
        },
    decreases es.len(),
{
    let empty = Seq::<(Seq<char>, Kind)>::empty();
    if es.len() == 0 {
        assert(insert_all(empty, es) =~= es);
    } else {
        let prefix = es.drop_last();
        let e = es.last();
        assert(no_dups(prefix)) by {
            assert(forall|i: int, j: int|
                0 <= i < j < prefix.len() ==> prefix[i] == es[i] && prefix[j] == es[j]);
        }
        lemma_insert_all_distinct(prefix);
        let hp = insert_all(empty, prefix);
        let n = es.len();
        assert forall|k: int| 0 <= k < hp.len() implies hp[k] != e by {
            if prefix.len() <= MAX_ITEMS {
                assert(hp[k] == es[k]);
            } else {
                assert(hp[k] == es[k + prefix.len() - MAX_ITEMS]);
            }
        }
        assert(!hp.contains(e));
        assert(insert_all(empty, es) == spec_evict(hp).push(e));
        if prefix.len() < MAX_ITEMS {
            assert(spec_evict(hp).push(e) =~= es);
        } else if prefix.len() == MAX_ITEMS {
            assert(spec_evict(hp).push(e) =~= es.subrange(1, n as int));
        } else {
            assert(hp == es.subrange(n - 1 - MAX_ITEMS, n - 1));
            assert(spec_evict(hp).push(e) =~= es.subrange(n - MAX_ITEMS, n as int));
        }
    }
}

/// Capacity law: inserting more than `MAX_ITEMS` pairwise-distinct entries
/// into an empty history retains exactly the `MAX_ITEMS` most recent ones in
/// insertion order, the oldest evicted first.
pub proof fn lemma_capacity(es: Seq<(Seq<char>, Kind)>)
    requires
        no_dups(es),
        es.len() > MAX_ITEMS,
    ensures
        insert_all(Seq::empty(), es).len() == MAX_ITEMS,
        insert_all(Seq::empty(), es) == es.subrange(es.len() - MAX_ITEMS, es.len() as int),
{
    lemma_insert_all_distinct(es);
}

proof fn lemma_filter_true(h: Seq<(Seq<char>, Kind)>)
    ensures
        h.filter(filter_pred(Option::None)) == h,
    decreases h.len(),
{
    reveal_with_fuel(Seq::filter, 2);
    if h.len() == 0 {
        assert(h.filter(filter_pred(Option::None)) =~= h);
    } else {
        lemma_filter_true(h.drop_last());
        assert(h.filter(filter_pred(Option::None)) =~= h);
    }
}

/// Order law: with no filter, listing returns exactly the history reversed,
/// that is, in strictly newest-first insertion order.
pub proof fn lemma_list_all(h: Seq<(Seq<char>, Kind)>)
    ensures
        list_spec(h, Option::None) == h.reverse(),
{
    lemma_filter_true(h);
}

proof fn lemma_filter_elements(
    s: Seq<(Seq<char>, Kind)>,
    pred: spec_fn((Seq<char>, Kind)) -> bool,
    x: (Seq<char>, Kind),
)
    requires
        s.filter(pred).contains(x),
    ensures
        s.contains(x),
        pred(x),
    decreases s.len(),
{
    reveal_with_fuel(Seq::filter, 2);
    if s.len() == 0 {
    } else {
        let fil = s.filter(pred);
        let rest = s.drop_last().filter(pred);
        if pred(s.last()) && x == s.last() {
            assert(s.contains(x)) by {
                assert(s[s.len() - 1] == x);
            }
        } else {
            assert(rest.contains(x)) by {
                let k = choose|k: int| 0 <= k < fil.len() && fil[k] == x;
                if pred(s.last()) {
                    assert(fil == rest.push(s.last()));
                    assert(rest[k] == x);
                } else {
                    assert(fil == rest);
                }
            }
            lemma_filter_elements(s.drop_last(), pred, x);
            let k = choose|k: int| 0 <= k < s.drop_last().len() && s.drop_last()[k] == x;
            assert(s[k] == x);
        }
    }
}

proof fn lemma_reverse_contains(s: Seq<(Seq<char>, Kind)>, x: (Seq<char>, Kind))
    ensures
        s.reverse().contains(x) <==> s.contains(x),
{
    if s.reverse().contains(x) {
        let k = choose|k: int| 0 <= k < s.reverse().len() && s.reverse()[k] == x;
        assert(s[s.len() - 1 - k] == x);
    }
    if s.contains(x) {
        let k = choose|k: int| 0 <= k < s.len() && s[k] == x;
        assert(s.reverse()[s.len() - 1 - k] == x);
    }
}

/// Filter law: a filtered listing holds exactly those entries of the history
/// whose content contains the filter; the listing itself is the newest-first
/// ordering of that subset (the reverse of the history restricted to it).
pub proof fn lemma_list_filter(h: Seq<(Seq<char>, Kind)>, n: Seq<char>)
    ensures
        forall|e: (Seq<char>, Kind)|
            #[trigger] list_spec(h, Option::Some(n)).contains(e) <==> h.contains(e)
                && contains_sub(e.0, n),
        list_spec(h, Option::Some(n)) == h.filter(filter_pred(Option::Some(n))).reverse(),
{
    let pred = filter_pred(Option::Some(n));
    let fil = h.filter(pred);
    assert forall|e: (Seq<char>, Kind)|
        #[trigger] list_spec(h, Option::Some(n)).contains(e) <==> h.contains(e)
            && contains_sub(e.0, n) by {
        lemma_reverse_contains(fil, e);
        if fil.contains(e) {
            lemma_filter_elements(h, pred, e);
        }
        if h.contains(e) && contains_sub(e.0, n) {
            let k = choose|k: int| 0 <= k < h.len() && h[k] == e;
            h.lemma_filter_contains(pred, k);
        }
    }
}

/// Delete law: removing a present entry from a duplicate-free history removes
/// exactly that one entry; every other entry stays, and the length drops by one.
pub proof fn lemma_delete(h: Seq<(Seq<char>, Kind)>, e: (Seq<char>, Kind))
    requires
        no_dups(h),
        h.contains(e),
    ensures
        h.remove_value(e).len() == h.len() - 1,
        !h.remove_value(e).contains(e),
        forall|x: (Seq<char>, Kind)|
            x != e ==> (#[trigger] h.remove_value(e).contains(x) <==> h.contains(x)),
{
    h.index_of_first_ensures(e);
    let i = h.index_of_first(e).unwrap();
    let v = h.remove(i);
    assert forall|k: int| 0 <= k < v.len() implies v[k] != e by {
        if k < i {
            assert(v[k] == h[k]);
        } else {
            assert(v[k] == h[k + 1]);
        }
    }
    assert(!v.contains(e));
    assert forall|x: (Seq<char>, Kind)| x != e implies (#[trigger] v.contains(x) <==> h.contains(
        x,
    )) by {
        if v.contains(x) {
            let k = choose|k: int| 0 <= k < v.len() && v[k] == x;
            if k < i {
                assert(h[k] == x);
            } else {
                assert(h[k + 1] == x);
            }
        }
        if h.contains(x) {
            let k = choose|k: int| 0 <= k < h.len() && h[k] == x;
            if k < i {
                assert(v[k] == x);
            } else {
                assert(v[k - 1] == x);
            }
        }
    }
}

} // verus!
