//! Durable log: an append-only record of accepted entries, replayed at
//! startup. Each record is one kind tag byte, the content's byte length in
//! decimal, a newline, the content's UTF-8 bytes, and a trailing newline, so
//! a truncated final write loses at most the unfinished record and never the
//! prior ones. The file reads and writes themselves stay with the caller;
//! this module turns entries into record bytes and log bytes back into
//! entries.

use vstd::prelude::*;
use vstd::string::StrSliceExecFns;
use vstd::string::StringSliceAdditionalSpecFns;
use vstd::utf8::{decode_utf8, encode_utf8, encode_utf8_decode_utf8, encode_utf8_valid_utf8,
    valid_utf8};
use crate::store::{entries_view, insert_all, Entry, Kind, Store};

verus! {

/// The tag byte that marks a record's kind: `t` for text, `i` for image.
pub open spec fn kind_tag(k: Kind) -> u8 {
    match k {
        Kind::Text => 116u8,
        Kind::Image => 105u8,
    }
}

/// The kind a tag byte stands for, if any.
pub open spec fn tag_kind(t: u8) -> Option<Kind> {
    if t == 116u8 {
        Option::Some(Kind::Text)
    } else if t == 105u8 {
        Option::Some(Kind::Image)
    } else {
        Option::None
    }
}

/// An ASCII decimal digit.
pub open spec fn is_digit(b: u8) -> bool {
    48 <= b <= 57
}

/// The decimal digits of a non-negative number, most significant first.
pub open spec fn digits_of(n: int) -> Seq<u8>
    recommends
        n >= 0,
    decreases n,
{
    if n < 10 {
        seq![(48 + n) as u8]
    } else {
        digits_of(n / 10).push((48 + n % 10) as u8)
    }
}

/// The number a run of decimal digits denotes.
pub open spec fn digits_value(ds: Seq<u8>) -> int
    decreases ds.len(),
{
    if ds.len() == 0 {
        0
    } else {
        digits_value(ds.drop_last()) * 10 + (ds.last() - 48)
    }
}

/// The length of the maximal digit prefix of `b`.
pub open spec fn digit_run(b: Seq<u8>) -> int
    decreases b.len(),
{
    if b.len() == 0 || !is_digit(b[0]) {
        0
    } else {
        1 + digit_run(b.drop_first())
    }
}

/// The record written for one entry.
pub open spec fn record_of(c: Seq<char>, k: Kind) -> Seq<u8> {
    seq![kind_tag(k)] + digits_of(encode_utf8(c).len() as int) + seq![10u8] + encode_utf8(c)
        + seq![10u8]
}

/// The whole log written for the entries `es`, oldest first.
pub open spec fn log_of(es: Seq<(Seq<char>, Kind)>) -> Seq<u8>
    decreases es.len(),
{
    if es.len() == 0 {
        Seq::empty()
    } else {
        record_of(es.first().0, es.first().1) + log_of(es.drop_first())
    }
}

/// The entries a log's bytes parse into, oldest first. Parsing stops at the
/// first malformed or truncated record, recovering everything before it.
pub open spec fn parse_log(b: Seq<u8>) -> Seq<(Seq<char>, Kind)>
    decreases b.len(),
{
    if b.len() == 0 {
        Seq::empty()
    } else {
        match tag_kind(b[0]) {
            Option::None => Seq::empty(),
            Option::Some(k) => {
                let rest = b.drop_first();
                let d = digit_run(rest);
                if d <= 0 || d >= rest.len() || rest[d] != 10u8 {
                    Seq::empty()
                } else {
                    let n = digits_value(rest.take(d));
                    let after = rest.skip(d + 1);
                    if n < 0 || after.len() < n + 1 || after[n] != 10u8 || !valid_utf8(
                        after.take(n),
                    ) {
                        Seq::empty()
                    } else {
                        seq![(decode_utf8(after.take(n)), k)] + parse_log(after.skip(n + 1))
                    }
                }
            },
        }
    }
}

/// Relies on `String::from_utf8`: it succeeds exactly on valid UTF-8 input
/// and returns the string of those very bytes.
#[verifier::external_body]
fn string_from_utf8(v: Vec<u8>) -> (r: Option<String>)
    ensures
        r is Some <==> valid_utf8(v@),
        r matches Some(s) ==> encode_utf8(s@) == v@,
{
    String::from_utf8(v).ok()
}

/// The decimal digits of `m`, as bytes.
fn digits_vec(m: usize) -> (r: Vec<u8>)
    ensures
        r@ == digits_of(m as int),
    decreases m,
{
    if m < 10 {
        let mut v: Vec<u8> = Vec::new();
        v.push(48u8 + (m as u8));
        proof {
            assert(v@ =~= digits_of(m as int));
        }
        v
    } else {
        let mut v = digits_vec(m / 10);
        v.push(48u8 + ((m % 10) as u8));
        proof {
            assert(v@ =~= digits_of(m as int));
        }
        v
    }
}

/// The record bytes to append to the log for one accepted entry. The caller
/// appends them to the log file and flushes before acknowledging.
pub fn encode_entry(e: &Entry) -> (r: Vec<u8>)
    ensures
        r@ == record_of(e.content@, e.kind),
{
    let mut out: Vec<u8> = Vec::new();
    out.push(match e.kind {
        Kind::Text => 116u8,
        Kind::Image => 105u8,
    });
    let mut bytes = e.content.as_str().as_bytes_vec();
    let mut digits = digits_vec(bytes.len());
    out.append(&mut digits);
    out.push(10u8);
    out.append(&mut bytes);
    out.push(10u8);
    proof {
        assert(out@ =~= record_of(e.content@, e.kind));
    }
    out
}

/// Parses one record starting at `pos`; `None` means the tail from `pos`
/// holds no complete well-formed record and parsing stops there.
fn parse_record(b: &Vec<u8>, pos: usize) -> (r: Option<(Entry, usize)>)
    requires
        pos <= b@.len(),
    ensures
        match r {
            Option::None => parse_log(b@.skip(pos as int)) == Seq::<(Seq<char>, Kind)>::empty(),
            Option::Some(en) => pos < en.1 <= b@.len() && parse_log(b@.skip(pos as int))
                == seq![en.0@] + parse_log(b@.skip(en.1 as int)),
        },
{
    let ghost s = b@.skip(pos as int);
    let blen = b.len();
    if pos >= blen {
        return None;
    }
    let tag = b[pos];
    let kind = if tag == 116u8 {
        Kind::Text
    } else if tag == 105u8 {
        Kind::Image
    } else {
        proof {
            assert(s[0] == tag);
        }
        return None;
    };
    let ghost rest = s.drop_first();
    proof {
        assert(rest =~= b@.skip(pos + 1));
    }
    // measure the digit run after the tag
    let limit = blen - (pos + 1);
    let mut d: usize = 0;
    while d < limit && 48 <= b[pos + 1 + d] && b[pos + 1 + d] <= 57
        invariant
            d <= limit,
            blen == b@.len(),
            pos < blen,
            limit == blen - (pos + 1),
            rest == b@.skip(pos + 1),
            forall|k: int| 0 <= k < d ==> is_digit(rest[k]),
        decreases limit - d,
    {
        proof {
            assert(rest[d as int] == b@[pos + 1 + d]);
        }
        d += 1;
    }
    proof {
        lemma_digit_run_exact(rest, d as int);
    }
    if d == 0 {
        return None;
    }
    if d >= limit || b[pos + 1 + d] != 10u8 {
        proof {
            if pos + 1 + d < b@.len() {
                assert(rest[d as int] == b@[pos + 1 + d]);
            }
        }
        return None;
    }
    proof {
        assert(rest[d as int] == b@[pos + 1 + d]);
    }
    // read the digits' value, stopping if it cannot fit a length
    let mut val: u128 = 0;
    let mut i: usize = 0;
    let mut too_big = false;
    while i < d && !too_big
        invariant
            i <= d,
            blen == b@.len(),
            pos < blen,
            d < blen - pos,
            rest == b@.skip(pos + 1),
            forall|k: int| 0 <= k < d ==> is_digit(rest[k]),
            !too_big ==> val <= usize::MAX as u128 && val == digits_value(rest.take(i as int)),
            too_big ==> digits_value(rest.take(d as int)) > usize::MAX as int,
        decreases d - i,
    {
        proof {
            assert(rest[i as int] == b@[pos + 1 + i]);
        }
        let digit = b[pos + 1 + i] - 48;
        let ghost prev = rest.take(i as int);
        proof {
            assert(rest.take(i + 1).drop_last() =~= prev);
            assert(rest.take(i + 1).last() == rest[i as int]);
        }
        val = val * 10 + (digit as u128);
        if val > usize::MAX as u128 {
            too_big = true;
            proof {
                lemma_digits_value_grows(rest.take(d as int), i + 1);
                assert(rest.take(d as int).take(i + 1) =~= rest.take(i + 1));
            }
        }
        i += 1;
    }
    if too_big {
        proof {
            let n = digits_value(rest.take(d as int));
            let after = rest.skip(d + 1);
            assert(after.len() < n + 1);
        }
        return None;
    }
    let n = val as usize;
    let ghost after = rest.skip(d + 1);
    proof {
        assert(rest.take(d as int) =~= rest.take(i as int));
        assert(after =~= b@.skip(pos + 1 + d + 1));
    }
    // the content plus its trailing newline must be present in full
    let after_start = pos + d + 2;
    let after_len = blen - after_start;
    if n >= after_len {
        return None;
    }
    if b[after_start + n] != 10u8 {
        proof {
            assert(after[n as int] == b@[after_start + n]);
        }
        return None;
    }
    proof {
        assert(after[n as int] == b@[after_start + n]);
    }
    let mut content: Vec<u8> = Vec::new();
    let mut j: usize = 0;
    while j < n
        invariant
            j <= n,
            blen == b@.len(),
            after_start + n < blen,
            after_start == pos + d + 2,
            after == b@.skip(pos + 1 + d + 1),
            content@ =~= after.take(j as int),
        decreases n - j,
    {
        content.push(b[after_start + j]);
        j += 1;
    }
    proof {
        assert(content@ =~= after.take(n as int));
    }
    match string_from_utf8(content) {
        None => {
            return None;
        },
        Some(text) => {
            let next = after_start + n + 1;
            proof {
                encode_utf8_decode_utf8(text@);
                assert(after.skip(n + 1) =~= b@.skip(next as int));
                assert(parse_log(b@.skip(pos as int)) == seq![(text@, kind)] + parse_log(
                    b@.skip(next as int),
                ));
            }
            Some((Entry { content: text, kind }, next))
        },
    }
}

/// The entries a log's bytes hold, oldest first; everything before the first
/// malformed or truncated record is recovered.
pub fn replay_log(b: &Vec<u8>) -> (r: Vec<Entry>)
    ensures
        entries_view(r@) == parse_log(b@),
{
    proof {
        assert(b@.skip(0) =~= b@);
    }
    replay_from(b, 0)
}

fn replay_from(b: &Vec<u8>, pos: usize) -> (r: Vec<Entry>)
    requires
        pos <= b@.len(),
    ensures
        entries_view(r@) == parse_log(b@.skip(pos as int)),
    decreases b@.len() - pos,
{
    match parse_record(b, pos) {
        None => {
            let r: Vec<Entry> = Vec::new();
            proof {
                assert(entries_view(r@) =~= parse_log(b@.skip(pos as int)));
            }
            r
        },
        Some((e, next)) => {
            let mut r = replay_from(b, next);
            let ghost tail = r@;
            r.insert(0, e);
            proof {
                assert(entries_view(r@) =~= seq![e@] + entries_view(tail));
            }
            r
        },
    }
}

/// Replays parsed entries into a store, oldest first, under the same
/// capacity and dedup rules as runtime inserts.
pub fn replay_into(store: &mut Store, entries: &Vec<Entry>)
    requires
        old(store).inv(),
    ensures
        final(store).inv(),
        final(store)@ == insert_all(old(store)@, entries_view(entries@)),
{
    let ghost h0 = store@;
    let ghost vs = entries_view(entries@);
    let mut i: usize = 0;
    proof {
        assert(vs.take(0) =~= Seq::<(Seq<char>, Kind)>::empty());
    }
    while i < entries.len()
        invariant
            i <= entries@.len(),
            store.inv(),
            vs == entries_view(entries@),
            store@ == insert_all(h0, vs.take(i as int)),
        decreases entries@.len() - i,
    {
        let e = entries[i].duplicate();
        let _accepted = store.set(e.content, e.kind);
        proof {
            assert(vs.take(i + 1).drop_last() =~= vs.take(i as int));
            assert(vs.take(i + 1).last() == vs[i as int]);
        }
        i += 1;
    }
    proof {
        assert(vs.take(vs.len() as int) =~= vs);
    }
}

proof fn lemma_digit_run_exact(s: Seq<u8>, d: int)
    requires
        0 <= d <= s.len(),
        forall|k: int| 0 <= k < d ==> is_digit(s[k]),
        d == s.len() || !is_digit(s[d]),
    ensures
        digit_run(s) == d,
    decreases d,
{
    if d == 0 {
    } else {
        assert(is_digit(s[0]));
        lemma_digit_run_exact(s.drop_first(), d - 1);
    }
}

/// A longer digit run never denotes a smaller number.
proof fn lemma_digits_value_grows(ds: Seq<u8>, i: int)
    requires
        0 <= i <= ds.len(),
        forall|k: int| 0 <= k < ds.len() ==> is_digit(ds[k]),
    ensures
        digits_value(ds) >= digits_value(ds.take(i)),
        digits_value(ds.take(i)) >= 0,
    decreases ds.len(),
{
    if ds.len() == 0 {
        assert(ds.take(i) =~= ds);
    } else if i == ds.len() {
        assert(ds.take(i) =~= ds);
        lemma_digits_value_grows(ds.drop_last(), i - 1);
    } else {
        lemma_digits_value_grows(ds.drop_last(), i);
        assert(ds.drop_last().take(i) =~= ds.take(i));
        assert(is_digit(ds.last()));
    }
}

proof fn lemma_digits_of_digits(n: int)
    requires
        n >= 0,
    ensures
        digits_of(n).len() >= 1,
        forall|k: int| 0 <= k < digits_of(n).len() ==> is_digit(#[trigger] digits_of(n)[k]),
    decreases n,
{
    if n < 10 {
    } else {
        lemma_digits_of_digits(n / 10);
    }
}

proof fn lemma_digits_value_of(n: int)
    requires
        n >= 0,
    ensures
        digits_value(digits_of(n)) == n,
    decreases n,
{
    reveal_with_fuel(digits_value, 3);
    if n < 10 {
        assert(digits_of(n).drop_last() =~= Seq::<u8>::empty());
        assert(digits_of(n).last() == (48 + n) as u8);
    } else {
        lemma_digits_value_of(n / 10);
        assert(digits_of(n).drop_last() =~= digits_of(n / 10));
        assert(digits_of(n).last() == (48 + n % 10) as u8);
    }
}

/// Parsing a well-formed record off the front of a log recovers the entry
/// it was written from, and goes on with the bytes after it.
proof fn lemma_parse_record(c: Seq<char>, k: Kind, rest: Seq<u8>)
    ensures
        parse_log(record_of(c, k) + rest) == seq![(c, k)] + parse_log(rest),
{
    let bytes = encode_utf8(c);
    let m = bytes.len() as int;
    let ds = digits_of(m);
    let b = record_of(c, k) + rest;
    lemma_digits_of_digits(m);
    lemma_digits_value_of(m);
    assert(b[0] == kind_tag(k));
    assert(tag_kind(b[0]) == Option::Some(k));
    let r1 = b.drop_first();
    assert(r1 =~= ds + seq![10u8] + bytes + seq![10u8] + rest);
    assert forall|j: int| 0 <= j < ds.len() implies is_digit(r1[j]) by {
        assert(r1[j] == ds[j]);
    }
    assert(r1[ds.len() as int] == 10u8);
    lemma_digit_run_exact(r1, ds.len() as int);
    assert(r1.take(ds.len() as int) =~= ds);
    let after = r1.skip(ds.len() as int + 1);
    assert(after =~= bytes + seq![10u8] + rest);
    assert(after.len() >= m + 1);
    assert(after[m] == 10u8);
    assert(after.take(m) =~= bytes);
    encode_utf8_valid_utf8(c);
    encode_utf8_decode_utf8(c);
    assert(after.skip(m + 1) =~= rest);
    assert(parse_log(b) == seq![(c, k)] + parse_log(rest));
}

/// Replay law, log side: parsing the log written for `es` yields exactly
/// `es`, every entry and nothing else, oldest first.
pub proof fn lemma_log_round_trip(es: Seq<(Seq<char>, Kind)>)
    ensures
        parse_log(log_of(es)) == es,
    decreases es.len(),
{
    if es.len() == 0 {
        assert(parse_log(log_of(es)) =~= es);
    } else {
        lemma_parse_record(es.first().0, es.first().1, log_of(es.drop_first()));
        lemma_log_round_trip(es.drop_first());
        assert(es.first() == (es.first().0, es.first().1));
        assert(parse_log(log_of(es)) =~= es);
    }
}

/// Appending one more entry's record extends the log bytes at the end, so an
/// append-only file stays the log of all accepted entries in order.
pub proof fn lemma_log_snoc(es: Seq<(Seq<char>, Kind)>, e: (Seq<char>, Kind))
    ensures
        log_of(es.push(e)) == log_of(es) + record_of(e.0, e.1),
    decreases es.len(),
{
    reveal_with_fuel(log_of, 3);
    if es.len() == 0 {
        assert(es.push(e).first() == e);
        assert(es.push(e).drop_first() =~= Seq::<(Seq<char>, Kind)>::empty());
        assert(log_of(es) =~= Seq::<u8>::empty());
        assert(log_of(es.push(e)) =~= log_of(es) + record_of(e.0, e.1));
    } else {
        assert(es.push(e).drop_first() =~= es.drop_first().push(e));
        lemma_log_snoc(es.drop_first(), e);
        assert(es.push(e).first() == es.first());
        assert(log_of(es.push(e)) =~= log_of(es) + record_of(e.0, e.1));
    }
}

/// Replay law: replaying the log written for `es` into an empty store yields
/// the same history as inserting `es` in order into an empty store.
pub proof fn lemma_replay(es: Seq<(Seq<char>, Kind)>)
    ensures
        insert_all(Seq::empty(), parse_log(log_of(es))) == insert_all(Seq::empty(), es),
{
    lemma_log_round_trip(es);
}

} // verus!
