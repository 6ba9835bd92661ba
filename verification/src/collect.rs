//! Collecting the headers while objects are met: the header row, with the
//! user's separators, and the keys as flattening made them.

use vstd::prelude::*;
use crate::config::FlattenerView;
use crate::convert::Json2CsvView;
use crate::error::Error;
use crate::headers::{HeaderCollection, HeaderCollectionView, strictly_sorted};
use crate::restore::{restore_key, restore_keys, lemma_restore_keys_concat};

verus! {

/// `headers` followed by the keys of `keys` not met before, each once, in
/// the order in which they are first met.
pub open spec fn extend_ordered(headers: Seq<Seq<char>>, keys: Seq<Seq<char>>) -> Seq<Seq<char>>
    decreases keys.len(),
{
    if keys.len() == 0 {
        headers
    } else {
        let r = extend_ordered(headers, keys.drop_last());
        if r.contains(keys.last()) {
            r
        } else {
            r.push(keys.last())
        }
    }
}

/// The keys of `keys`, each once, in the order in which they are first met.
pub open spec fn first_occurrences(keys: Seq<Seq<char>>) -> Seq<Seq<char>> {
    extend_ordered(Seq::empty(), keys)
}

/// Two different keys of `keys` look the same once the user's separators
/// are put back: there are fewer restored keys than keys.
pub open spec fn keys_collide(f: FlattenerView, keys: Seq<Seq<char>>) -> bool {
    restore_keys(f, keys).to_set().len() != keys.to_set().len()
}

/// `row` is the header row for the keys `keys`: the restored keys, each
/// once, in the order in which they are first met when `j` preserves the
/// order of keys, and strictly sorted otherwise.
pub open spec fn is_header_row(j: Json2CsvView, keys: Seq<Seq<char>>, row: Seq<Seq<char>>) -> bool {
    let restored = restore_keys(j.flattener, keys);
    if j.preserve_key_order {
        row == first_occurrences(restored)
    } else {
        strictly_sorted(row) && row.to_set() == restored.to_set()
    }
}

/// The keys of a concatenation are those of both parts.
pub proof fn lemma_to_set_concat(a: Seq<Seq<char>>, b: Seq<Seq<char>>)
    ensures
        (a + b).to_set() == a.to_set() + b.to_set(),
{
    assert forall|x: Seq<char>| (a + b).to_set().contains(x) <==> (a.to_set() + b.to_set()).contains(
        x,
    ) by {
        if (a + b).to_set().contains(x) {
            let k = choose|k: int| 0 <= k < (a + b).len() && (a + b)[k] == x;
            if k < a.len() {
                assert(a[k] == x);
            } else {
                assert(b[k - a.len()] == x);
            }
        }
        if a.to_set().contains(x) {
            let k = choose|k: int| 0 <= k < a.len() && a[k] == x;
            assert((a + b)[k] == x);
        }
        if b.to_set().contains(x) {
            let k = choose|k: int| 0 <= k < b.len() && b[k] == x;
            assert((a + b)[k + a.len()] == x);
        }
    }
    assert((a + b).to_set() =~= a.to_set() + b.to_set());
}

/// The set of a one-element sequence.
pub proof fn lemma_singleton_to_set(x: Seq<char>)
    ensures
        seq![x].to_set() == Set::<Seq<char>>::empty().insert(x),
{
    assert(seq![x][0] == x);
    assert(seq![x].to_set() =~= Set::<Seq<char>>::empty().insert(x));
}

/// The set of a sequence after an insertion of `x` into a collection: the
/// sequence grows by `x` unless it holds `x` already.
pub proof fn lemma_added_to_set(s: Seq<Seq<char>>, x: Seq<char>)
    ensures
        s.push(x).to_set() == s.to_set().insert(x),
        s.contains(x) ==> s.to_set() == s.to_set().insert(x),
{
    lemma_to_set_concat(s, seq![x]);
    lemma_singleton_to_set(x);
    assert(s + seq![x] =~= s.push(x));
    assert(s.to_set() + Set::empty().insert(x) =~= s.to_set().insert(x));
    if s.contains(x) {
        assert(s.to_set() =~= s.to_set().insert(x));
    }
}

/// Meeting the keys `a` and then the keys `b` gives the order of first
/// occurrence of `a + b`.
pub proof fn lemma_extend_ordered_concat(h: Seq<Seq<char>>, a: Seq<Seq<char>>, b: Seq<Seq<char>>)
    ensures
        extend_ordered(extend_ordered(h, a), b) == extend_ordered(h, a + b),
    decreases b.len(),
{
    if b.len() == 0 {
        assert(a + b =~= a);
    } else {
        lemma_extend_ordered_concat(h, a, b.drop_last());
        assert((a + b).drop_last() =~= a + b.drop_last());
        assert((a + b).last() == b.last());
    }
}

/// The headers met so far while reading objects: the header row under
/// construction and the keys as flattening made them.
pub struct HeaderState {
    /// The header row under construction, with the user's separators.
    pub headers: HeaderCollection,
    /// The keys as flattening made them, sorted.
    pub orig_headers: HeaderCollection,
}

/// The mathematical value of a [`HeaderState`].
pub struct HeaderStateView {
    pub headers: HeaderCollectionView,
    pub orig_headers: HeaderCollectionView,
}

impl View for HeaderState {
    type V = HeaderStateView;

    open spec fn view(&self) -> HeaderStateView {
        HeaderStateView { headers: self.headers@, orig_headers: self.orig_headers@ }
    }
}

/// `new` is `old` after meeting the flattened keys `keys`, in order: each
/// restored key is inserted into the header row and each key into the
/// collection of flattened keys.
pub open spec fn absorbed(
    f: FlattenerView,
    old: HeaderStateView,
    new: HeaderStateView,
    keys: Seq<Seq<char>>,
) -> bool {
    let restored = restore_keys(f, keys);
    &&& new.headers.ordered == old.headers.ordered
    &&& new.orig_headers.ordered == old.orig_headers.ordered
    &&& new.headers.well_formed()
    &&& new.orig_headers.well_formed()
    &&& old.headers.ordered ==> new.headers.headers == extend_ordered(old.headers.headers, restored)
    &&& new.headers.headers.to_set() == old.headers.headers.to_set() + restored.to_set()
    &&& old.orig_headers.ordered ==> new.orig_headers.headers == extend_ordered(
        old.orig_headers.headers,
        keys,
    )
    &&& new.orig_headers.headers.to_set() == old.orig_headers.headers.to_set() + keys.to_set()
}

/// `s` is the state of `j` after meeting the flattened keys `keys`.
pub open spec fn collected(j: Json2CsvView, s: HeaderStateView, keys: Seq<Seq<char>>) -> bool {
    let restored = restore_keys(j.flattener, keys);
    &&& s.headers.ordered == j.preserve_key_order
    &&& s.headers.well_formed()
    &&& j.preserve_key_order ==> s.headers.headers == first_occurrences(restored)
    &&& s.headers.headers.to_set() == restored.to_set()
    &&& !s.orig_headers.ordered
    &&& s.orig_headers.well_formed()
    &&& s.orig_headers.headers.to_set() == keys.to_set()
}

/// Meeting more keys after `keys` gives the state of meeting them all.
pub proof fn lemma_collected_absorbed(
    j: Json2CsvView,
    old: HeaderStateView,
    new: HeaderStateView,
    keys: Seq<Seq<char>>,
    more: Seq<Seq<char>>,
)
    requires
        collected(j, old, keys),
        absorbed(j.flattener, old, new, more),
    ensures
        collected(j, new, keys + more),
{
    let f = j.flattener;
    lemma_restore_keys_concat(f, keys, more);
    lemma_to_set_concat(keys, more);
    lemma_to_set_concat(restore_keys(f, keys), restore_keys(f, more));
    if j.preserve_key_order {
        lemma_extend_ordered_concat(Seq::empty(), restore_keys(f, keys), restore_keys(f, more));
    }
}

/// Inserting one more flattened key `k`, restored into the header row and
/// as it is into the flattened keys, extends the keys met by `k`.
pub proof fn lemma_absorbed_push(
    f: FlattenerView,
    start: HeaderStateView,
    before: HeaderStateView,
    after: HeaderStateView,
    keys: Seq<Seq<char>>,
    k: Seq<char>,
)
    requires
        absorbed(f, start, before, keys),
        after.headers.ordered == before.headers.ordered,
        after.headers.well_formed(),
        before.headers.ordered ==> after.headers.headers == (if before.headers.headers.contains(
            restore_key(f, k),
        ) {
            before.headers.headers
        } else {
            before.headers.headers.push(restore_key(f, k))
        }),
        !before.headers.ordered ==> after.headers.headers.to_set()
            == before.headers.headers.to_set().insert(restore_key(f, k)),
        after.orig_headers.ordered == before.orig_headers.ordered,
        after.orig_headers.well_formed(),
        before.orig_headers.ordered ==> after.orig_headers.headers == (
        if before.orig_headers.headers.contains(k) {
            before.orig_headers.headers
        } else {
            before.orig_headers.headers.push(k)
        }),
        !before.orig_headers.ordered ==> after.orig_headers.headers.to_set()
            == before.orig_headers.headers.to_set().insert(k),
    ensures
        absorbed(f, start, after, keys.push(k)),
{
    let rk = restore_key(f, k);
    let more = keys.push(k);
    assert(more.drop_last() =~= keys);
    assert(restore_keys(f, more) =~= restore_keys(f, keys).push(rk));
    assert(restore_keys(f, more).drop_last() =~= restore_keys(f, keys));
    lemma_added_to_set(before.headers.headers, rk);
    lemma_added_to_set(before.orig_headers.headers, k);
    lemma_added_to_set(keys, k);
    lemma_added_to_set(restore_keys(f, keys), rk);
    assert(after.headers.headers.to_set() =~= start.headers.headers.to_set() + restore_keys(
        f,
        more,
    ).to_set());
    assert(after.orig_headers.headers.to_set() =~= start.orig_headers.headers.to_set()
        + more.to_set());
}

/// What the headers collected for the keys `keys` decide: there is nothing
/// to write exactly when there is no key, a collision is reported exactly
/// when two keys look the same once restored, and the headers collected
/// form the header row.
pub proof fn lemma_collected_decisions(j: Json2CsvView, s: HeaderStateView, keys: Seq<Seq<char>>)
    requires
        collected(j, s, keys),
    ensures
        s.headers.headers.len() == 0 <==> keys.len() == 0,
        s.headers.headers.len() != s.orig_headers.headers.len() <==> keys_collide(j.flattener, keys),
        is_header_row(j, keys, s.headers.headers),
{
    let restored = restore_keys(j.flattener, keys);
    s.headers.headers.unique_seq_to_set();
    s.orig_headers.headers.unique_seq_to_set();
    if keys.len() > 0 {
        assert(restored.to_set().contains(restored[0]));
    }
    if s.headers.headers.len() > 0 {
        assert(s.headers.headers.to_set().contains(s.headers.headers[0]));
    }
}

impl HeaderState {
    /// Checks the headers met: `Ok(None)` when there is none, so that there
    /// is nothing to write; the error [`Error::FlattenedKeysCollision`] when
    /// there are fewer headers than flattened keys, so that two keys look
    /// the same; and the header row otherwise.
    pub fn finish(self) -> (r: Result<Option<HeaderCollection>, Error>)
        ensures
            self@.headers.headers.len() == 0 ==> r matches Ok(None),
            self@.headers.headers.len() != 0 && self@.headers.headers.len()
                != self@.orig_headers.headers.len() ==> r matches Err(
                Error::FlattenedKeysCollision,
            ),
            self@.headers.headers.len() != 0 && self@.headers.headers.len()
                == self@.orig_headers.headers.len() ==> (r matches Ok(Some(h)) && h@
                == self@.headers),
    {
        if self.headers.is_empty() {
            return Ok(None);
        }
        if self.headers.len() != self.orig_headers.len() {
            return Err(Error::FlattenedKeysCollision);
        }
        Ok(Some(self.headers))
    }
}

} // verus!
