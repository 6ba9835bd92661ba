//! Properties of the conversion as a whole.

use vstd::prelude::*;
use vstd::relations::injective_on;
use vstd::set_lib::{lemma_map_size, lemma_map_size_bound};
use crate::config::{ArrayFormattingView, FlattenerView};
use crate::flat::LeafView;
use crate::restore::internal_flattener;
use crate::text::{
    lemma_replaced_adds_nothing, lemma_replaced_char_concat, lemma_replaced_leaves_no_pattern,
    lemma_replaced_one_char, lemma_replaced_without_pattern, replaced,
};
use crate::collect::first_occurrences;
use crate::collect::{
    HeaderStateView, absorbed, collected, keys_collide, lemma_collected_absorbed,
};
use crate::collect::lemma_collected_decisions;
use crate::convert::{
    Json2CsvView, all_keys, converts, first_failure, flat_results, lemma_all_ok_no_failure,
    lemma_first_failure_prefix,
};
use crate::error::ErrorView;
use crate::flat::FlattenErrorView;
use crate::restore::restore_entries;
use crate::record::{field_text, lookup, record_of};
use crate::restore::{restore_key, restore_keys};
use crate::flat::{EntryView, keys_of};

verus! {

broadcast use vstd::seq_lib::seq_to_set_is_finite;

/// A collision is reported exactly when two different flattened keys look
/// the same once the user's separators are put back.
pub proof fn lemma_collision_iff_clash(f: FlattenerView, keys: Seq<Seq<char>>)
    ensures
        keys_collide(f, keys) <==> exists|a: Seq<char>, b: Seq<char>|
            #![trigger keys.contains(a), keys.contains(b)]
            keys.contains(a) && keys.contains(b) && a != b && restore_key(f, a) == restore_key(f, b),
{
    let g = |k: Seq<char>| restore_key(f, k);
    let s = keys.to_set();
    keys.lemma_to_set_map_commutes(g);
    assert(restore_keys(f, keys) == keys.map_values(g));
    let image = s.map(g);
    assert(restore_keys(f, keys).to_set() == image);
    if exists|a: Seq<char>, b: Seq<char>|
        #![trigger keys.contains(a), keys.contains(b)]
        keys.contains(a) && keys.contains(b) && a != b && restore_key(f, a) == restore_key(f, b) {
        let (a, b) = choose|a: Seq<char>, b: Seq<char>|
            #![trigger keys.contains(a), keys.contains(b)]
            keys.contains(a) && keys.contains(b) && a != b && restore_key(f, a) == restore_key(f, b);
        let rest = s.remove(a);
        assert(rest.map(g) =~= image) by {
            assert forall|y: Seq<char>| image.contains(y) implies rest.map(g).contains(y) by {
                let x = choose|x: Seq<char>| s.contains(x) && g(x) == y;
                if x == a {
                    assert(rest.contains(b) && g(b) == y);
                } else {
                    assert(rest.contains(x));
                }
            }
        }
        lemma_map_size_bound(rest, image, g);
        assert(s.contains(a));
    } else {
        assert(injective_on(g, s)) by {
            assert forall|x1: Seq<char>, x2: Seq<char>|
                s.contains(x1) && s.contains(x2) && #[trigger] g(x1) == #[trigger] g(x2) implies x1 == x2 by {
                assert(keys.contains(x1) && keys.contains(x2));
            }
        }
        lemma_map_size(s, image, g);
    }
}

/// Meeting the objects of a stream one at a time, as
/// [`Json2Csv::add_object`](crate::convert::Json2Csv::add_object) does,
/// collects the same headers as converting them all at once: after the
/// last object the state is that of all their keys, which decides, as
/// [`lemma_collected_decisions`](crate::collect::lemma_collected_decisions)
/// states, the header row and the errors of
/// [`Json2Csv::convert_from_array`](crate::convert::Json2Csv::convert_from_array).
pub proof fn lemma_stream_collects(j: Json2CsvView, objects: Seq<serde_json::Value>, states: Seq<HeaderStateView>)
    requires
        states.len() == objects.len() + 1,
        collected(j, states[0], Seq::empty()),
        forall|i: int|
            0 <= i < objects.len() ==> #[trigger] flat_results(j, objects)[i] is Ok && absorbed(
                j.flattener,
                states[i],
                states[i + 1],
                keys_of(flat_results(j, objects)[i]->Ok_0),
            ),
    ensures
        collected(j, states.last(), all_keys(flat_results(j, objects))),
    decreases objects.len(),
{
    let results = flat_results(j, objects);
    if objects.len() > 0 {
        let n = objects.len() - 1;
        let prefix = objects.take(n as int);
        assert(flat_results(j, prefix) =~= results.drop_last());
        assert forall|i: int| 0 <= i < prefix.len() implies #[trigger] flat_results(j, prefix)[i] is Ok
            && absorbed(
            j.flattener,
            states.drop_last()[i],
            states.drop_last()[i + 1],
            keys_of(flat_results(j, prefix)[i]->Ok_0),
        ) by {
            assert(flat_results(j, prefix)[i] == results[i]);
            assert(results[i] is Ok);
        }
        lemma_stream_collects(j, prefix, states.drop_last());
        assert(results[n as int] is Ok);
        lemma_collected_absorbed(
            j,
            states[n as int],
            states[n + 1],
            all_keys(results.drop_last()),
            keys_of(results[n as int]->Ok_0),
        );
    } else {
        assert(all_keys(results) =~= Seq::empty());
    }
}

/// What converting a stream gives once every object was met: what
/// [`HeaderState::finish`](crate::collect::HeaderState::finish) decides on
/// the last state `state`, and, when there is a header row, that row
/// followed by [`build_record`](crate::record::build_record) of it on each
/// flattened object `kept` that
/// [`Json2Csv::add_object`](crate::convert::Json2Csv::add_object) returned.
pub open spec fn streamed(state: HeaderStateView, kept: Seq<Seq<EntryView>>) -> Result<
    Seq<Seq<Seq<char>>>,
    ErrorView,
> {
    let headers = state.headers.headers;
    if headers.len() == 0 {
        Ok(Seq::empty())
    } else if headers.len() != state.orig_headers.headers.len() {
        Err(ErrorView::FlattenedKeysCollision)
    } else {
        Ok(seq![headers] + kept.map_values(|m: Seq<EntryView>| record_of(headers, m)))
    }
}

/// Converting a stream gives what converting the same objects as an array
/// gives: meeting every object with `add_object` from `start_headers`, then
/// `finish` and `build_record` on each object kept, yields the rows, or the
/// collision, of [`Json2Csv::convert_from_array`](crate::convert::Json2Csv::convert_from_array).
pub proof fn lemma_stream_matches_array(
    j: Json2CsvView,
    objects: Seq<serde_json::Value>,
    states: Seq<HeaderStateView>,
    kept: Seq<Seq<EntryView>>,
)
    requires
        states.len() == objects.len() + 1,
        kept.len() == objects.len(),
        collected(j, states[0], Seq::empty()),
        forall|i: int|
            0 <= i < objects.len() ==> #[trigger] flat_results(j, objects)[i] is Ok && absorbed(
                j.flattener,
                states[i],
                states[i + 1],
                keys_of(flat_results(j, objects)[i]->Ok_0),
            ) && kept[i] == restore_entries(j.flattener, flat_results(j, objects)[i]->Ok_0),
    ensures
        converts(j, objects, streamed(states.last(), kept)),
{
    let results = flat_results(j, objects);
    let keys = all_keys(results);
    lemma_stream_collects(j, objects, states);
    lemma_collected_decisions(j, states.last(), keys);
    assert forall|i: int| 0 <= i < results.len() implies #[trigger] results[i] is Ok by {
        assert(flat_results(j, objects)[i] is Ok);
    }
    lemma_all_ok_no_failure(results);
    if objects.len() == 0 {
        assert(states.last() == states[0]);
        assert(keys =~= Seq::<Seq<char>>::empty());
    }
    let r = streamed(states.last(), kept);
    if let Ok(rows) = r {
        if rows.len() > 0 {
            let headers = states.last().headers.headers;
            assert forall|i: int| 0 <= i < objects.len() implies #[trigger] rows[i + 1] == record_of(
                rows[0],
                restore_entries(j.flattener, results[i]->Ok_0),
            ) by {
                assert(rows[i + 1] == record_of(headers, kept[i]));
            }
        }
    }
}

/// Converting a stream stops at the first object that cannot be flattened,
/// with the error that converting the same objects as an array gives.
pub proof fn lemma_stream_error_matches_array(
    j: Json2CsvView,
    objects: Seq<serde_json::Value>,
    k: int,
    e: FlattenErrorView,
)
    requires
        0 <= k < objects.len(),
        forall|i: int| 0 <= i < k ==> #[trigger] flat_results(j, objects)[i] is Ok,
        flat_results(j, objects)[k] == Err::<Seq<EntryView>, FlattenErrorView>(e),
    ensures
        converts(j, objects, Err(ErrorView::Flattening(e))),
{
    let results = flat_results(j, objects);
    let prefix = results.take(k);
    assert forall|i: int| 0 <= i < prefix.len() implies #[trigger] prefix[i] is Ok by {
        assert(prefix[i] == results[i]);
    }
    lemma_all_ok_no_failure(prefix);
    assert(results.take(k + 1).drop_last() =~= prefix);
    lemma_first_failure_prefix(results, k + 1);
}

/// Every record has one field per header, and its field at a position is
/// the field of the value of the key that heads that position, whatever
/// order the keys of the object come in.
pub proof fn lemma_record_matches_headers(headers: Seq<Seq<char>>, entries: Seq<EntryView>)
    ensures
        record_of(headers, entries).len() == headers.len(),
        forall|i: int|
            0 <= i < headers.len() ==> #[trigger] record_of(headers, entries)[i] == field_text(
                lookup(entries, headers[i]),
            ),
{
}

} // verus!

verus! {

/// The settings used for flattening differ from the user's only in the key
/// separator, which becomes U+241D, and, for surrounded array positions, in
/// the texts around them, which become U+241E and U+241F: whether empty
/// arrays and empty objects are kept is the user's choice, and plain array
/// formatting stays plain.
pub proof fn lemma_internal_keeps_user_settings(f: FlattenerView)
    ensures
        internal_flattener(f).preserve_empty_arrays == f.preserve_empty_arrays,
        internal_flattener(f).preserve_empty_objects == f.preserve_empty_objects,
        internal_flattener(f).key_separator == seq!['\u{241D}'],
        (f.array_formatting is Plain ==> internal_flattener(f).array_formatting is Plain),
        (f.array_formatting is Surrounded ==> internal_flattener(f).array_formatting
            == (ArrayFormattingView::Surrounded { start: seq!['\u{241E}'], end: seq!['\u{241F}'] })),
{
}

/// A restored key holds none of the marks used while flattening, provided
/// the user's separators hold none: every mark is put back, however many
/// there are.
pub proof fn lemma_restored_key_has_no_marks(f: FlattenerView, key: Seq<char>)
    requires
        !f.key_separator.contains('\u{241D}'),
        (f.array_formatting matches ArrayFormattingView::Surrounded { start, end } ==> {
            &&& !start.contains('\u{241D}') && !start.contains('\u{241E}') && !start.contains('\u{241F}')
            &&& !end.contains('\u{241D}') && !end.contains('\u{241F}')
        }),
    ensures
        !restore_key(f, key).contains('\u{241D}'),
        (f.array_formatting is Surrounded ==> !restore_key(f, key).contains('\u{241E}')
            && !restore_key(f, key).contains('\u{241F}')),
{
    let k1 = replaced(key, seq!['\u{241D}'], f.key_separator);
    lemma_replaced_leaves_no_pattern(key, '\u{241D}', f.key_separator);
    assert(crate::restore::key_mark() == seq!['\u{241D}']);
    if let ArrayFormattingView::Surrounded { start, end } = f.array_formatting {
        let k2 = replaced(k1, seq!['\u{241F}'], end);
        lemma_replaced_leaves_no_pattern(k1, '\u{241F}', end);
        lemma_replaced_adds_nothing(k1, seq!['\u{241F}'], end, '\u{241D}');
        lemma_replaced_leaves_no_pattern(k2, '\u{241E}', start);
        lemma_replaced_adds_nothing(k2, seq!['\u{241E}'], start, '\u{241D}');
        lemma_replaced_adds_nothing(k2, seq!['\u{241E}'], start, '\u{241F}');
        assert(crate::restore::array_end_mark() == seq!['\u{241F}']);
        assert(crate::restore::array_start_mark() == seq!['\u{241E}']);
    }
}

/// Restoring a flattened object restores the key of every entry, whatever
/// its value, and keeps every value and the order of the entries.
pub proof fn lemma_restore_entries_restores_every_key(f: FlattenerView, entries: Seq<EntryView>)
    ensures
        restore_entries(f, entries).len() == entries.len(),
        keys_of(restore_entries(f, entries)) == restore_keys(f, keys_of(entries)),
        forall|i: int|
            0 <= i < entries.len() ==> (#[trigger] restore_entries(f, entries)[i]).key == restore_key(
                f,
                entries[i].key,
            ) && restore_entries(f, entries)[i].value == entries[i].value,
{
    assert(keys_of(restore_entries(f, entries)) =~= restore_keys(f, keys_of(entries)));
}

/// Entry `q` is the last entry of `entries` with key `key`.
pub open spec fn is_last_with_key(entries: Seq<EntryView>, key: Seq<char>, q: int) -> bool {
    &&& 0 <= q < entries.len()
    &&& entries[q].key == key
    &&& forall|r: int| q < r < entries.len() ==> entries[r].key != key
}

/// A key's value is that of the last entry with the key, and there is none
/// when no entry has the key.
pub proof fn lemma_lookup_last_entry(entries: Seq<EntryView>, key: Seq<char>)
    ensures
        (forall|q: int| 0 <= q < entries.len() ==> entries[q].key != key) ==> lookup(entries, key)
            is None,
        forall|q: int| #[trigger] is_last_with_key(entries, key, q) ==> lookup(entries, key) == Some(
            entries[q].value,
        ),
    decreases entries.len(),
{
    if entries.len() > 0 {
        let init = entries.drop_last();
        lemma_lookup_last_entry(init, key);
        assert forall|q: int| #[trigger] is_last_with_key(entries, key, q) implies lookup(entries, key)
            == Some(entries[q].value) by {
            if q < entries.len() - 1 {
                assert(entries.last().key != key);
                assert(is_last_with_key(init, key, q));
            }
        }
        if forall|q: int| 0 <= q < entries.len() ==> entries[q].key != key {
            assert(entries[entries.len() - 1].key != key);
            assert forall|q: int| 0 <= q < init.len() implies init[q].key != key by {
                assert(init[q] == entries[q]);
            }
        }
    }
}

/// In the rows of a conversion, the field of an object under a header is
/// its value under that header: the whole string for a string, the JSON
/// text for a boolean or a number, and an empty field for `null`, an empty
/// array, an empty object, or when no key of the object restores to the
/// header.
pub proof fn lemma_converted_field(
    j: Json2CsvView,
    objects: Seq<serde_json::Value>,
    rows: Seq<Seq<Seq<char>>>,
    i: int,
    p: int,
)
    requires
        converts(j, objects, Ok(rows)),
        rows.len() > 0,
        0 <= i < objects.len(),
        0 <= p < rows[0].len(),
    ensures
        ({
            let entries = flat_results(j, objects)[i]->Ok_0;
            let header = rows[0][p];
            let field = rows[i + 1][p];
            &&& (forall|q: int|
                0 <= q < entries.len() ==> restore_key(j.flattener, entries[q].key) != header)
                ==> field == Seq::<char>::empty()
            &&& forall|q: int|
                #[trigger] is_last_with_key(restore_entries(j.flattener, entries), header, q) ==> {
                    &&& entries[q].value matches LeafView::Text(s) ==> field == s
                    &&& entries[q].value matches LeafView::Scalar(t) ==> field == t
                    &&& (entries[q].value is Null || entries[q].value is Array
                        || entries[q].value is Object) ==> field == Seq::<char>::empty()
                }
        }),
{
    let f = j.flattener;
    let entries = flat_results(j, objects)[i]->Ok_0;
    let restored = restore_entries(f, entries);
    let header = rows[0][p];
    assert(rows[i + 1] == record_of(rows[0], restored));
    lemma_record_matches_headers(rows[0], restored);
    lemma_restore_entries_restores_every_key(f, entries);
    lemma_lookup_last_entry(restored, header);
    if forall|q: int| 0 <= q < entries.len() ==> restore_key(f, entries[q].key) != header {
        assert forall|q: int| 0 <= q < restored.len() implies restored[q].key != header by {
            assert(restored[q].key == restore_key(f, entries[q].key));
        }
    }
    assert forall|q: int| #[trigger] is_last_with_key(restored, header, q) implies restored[q].value
        == entries[q].value by {}
}

/// Restoring a key works piece by piece: the restored `x + y` is the
/// restored `x` followed by the restored `y`.
pub proof fn lemma_restore_key_concat(f: FlattenerView, x: Seq<char>, y: Seq<char>)
    ensures
        restore_key(f, x + y) == restore_key(f, x) + restore_key(f, y),
{
    let sep = f.key_separator;
    lemma_replaced_char_concat(x, y, '\u{241D}', sep);
    assert(crate::restore::key_mark() == seq!['\u{241D}']);
    if let ArrayFormattingView::Surrounded { start, end } = f.array_formatting {
        assert(crate::restore::array_end_mark() == seq!['\u{241F}']);
        assert(crate::restore::array_start_mark() == seq!['\u{241E}']);
        let x1 = replaced(x, seq!['\u{241D}'], sep);
        let y1 = replaced(y, seq!['\u{241D}'], sep);
        lemma_replaced_char_concat(x1, y1, '\u{241F}', end);
        let x2 = replaced(x1, seq!['\u{241F}'], end);
        let y2 = replaced(y1, seq!['\u{241F}'], end);
        lemma_replaced_char_concat(x2, y2, '\u{241E}', start);
    }
}

/// What restoring does to one character, when the user's separators hold
/// no mark: the key mark becomes the user's key separator, the array marks
/// become the user's texts around array positions when positions are
/// surrounded, and every other character stays.  With
/// [`lemma_restore_key_concat`] this fixes the restored form of every key.
pub proof fn lemma_restore_key_one_char(f: FlattenerView, d: char)
    requires
        !f.key_separator.contains('\u{241D}') && !f.key_separator.contains('\u{241E}')
            && !f.key_separator.contains('\u{241F}'),
        (f.array_formatting matches ArrayFormattingView::Surrounded { start, end } ==> {
            &&& !start.contains('\u{241D}') && !start.contains('\u{241E}') && !start.contains('\u{241F}')
            &&& !end.contains('\u{241D}') && !end.contains('\u{241E}') && !end.contains('\u{241F}')
        }),
    ensures
        d == '\u{241D}' ==> restore_key(f, seq![d]) == f.key_separator,
        (f.array_formatting matches ArrayFormattingView::Surrounded { start, end } ==> {
            &&& d == '\u{241E}' ==> restore_key(f, seq![d]) == start
            &&& d == '\u{241F}' ==> restore_key(f, seq![d]) == end
        }),
        (f.array_formatting is Plain || (d != '\u{241E}' && d != '\u{241F}')) && d != '\u{241D}'
            ==> restore_key(f, seq![d]) == seq![d],
{
    let sep = f.key_separator;
    assert(crate::restore::key_mark() == seq!['\u{241D}']);
    lemma_replaced_one_char(d, '\u{241D}', sep);
    let k1 = replaced(seq![d], seq!['\u{241D}'], sep);
    if let ArrayFormattingView::Surrounded { start, end } = f.array_formatting {
        assert(crate::restore::array_end_mark() == seq!['\u{241F}']);
        assert(crate::restore::array_start_mark() == seq!['\u{241E}']);
        if d == '\u{241D}' {
            lemma_replaced_without_pattern(sep, '\u{241F}', end);
            lemma_replaced_without_pattern(sep, '\u{241E}', start);
        } else {
            lemma_replaced_one_char(d, '\u{241F}', end);
            let k2 = replaced(seq![d], seq!['\u{241F}'], end);
            if d == '\u{241F}' {
                lemma_replaced_without_pattern(end, '\u{241E}', start);
            } else {
                lemma_replaced_one_char(d, '\u{241E}', start);
            }
        }
    }
}

/// `x` is met in `s` before `y` is: some element of `s` is `x`, and neither
/// it nor an earlier one is `y`.
pub open spec fn met_before(s: Seq<Seq<char>>, x: Seq<char>, y: Seq<char>) -> bool {
    exists|p: int| 0 <= p < s.len() && s[p] == x && forall|q: int| 0 <= q <= p ==> s[q] != y
}

/// Of any two elements of `r`, the earlier one is met in `s` before the
/// later one.
pub open spec fn in_order_met(s: Seq<Seq<char>>, r: Seq<Seq<char>>) -> bool {
    forall|i: int, j: int|
        #![trigger r[i], r[j]]
        0 <= i && i < j && j < r.len() ==> met_before(s, r[i], r[j])
}

/// The headers of a converter that preserves the order of keys hold every
/// key once, and a key comes before another exactly when it is met first.
pub proof fn lemma_first_occurrences_order(s: Seq<Seq<char>>)
    ensures
        first_occurrences(s).no_duplicates(),
        first_occurrences(s).to_set() == s.to_set(),
        in_order_met(s, first_occurrences(s)),
    decreases s.len(),
{
    let r = first_occurrences(s);
    if s.len() == 0 {
        assert(r =~= Seq::<Seq<char>>::empty());
        assert(s.to_set() =~= Set::<Seq<char>>::empty());
        assert(r.to_set() =~= Set::<Seq<char>>::empty());
        assert(r.len() == 0);
    } else {
        let init = s.drop_last();
        let x = s.last();
        let r0 = first_occurrences(init);
        lemma_first_occurrences_order(init);
        assert(in_order_met(init, r0));
        assert(r == (if r0.contains(x) { r0 } else { r0.push(x) }));
        crate::collect::lemma_added_to_set(r0, x);
        crate::collect::lemma_added_to_set(init, x);
        assert(init.push(x) =~= s);
        assert forall|i: int, j: int| #![trigger r[i], r[j]] 0 <= i && i < j && j < r.len() implies
            met_before(s, r[i], r[j]) by {
            if j < r0.len() {
                assert(r[i] == r0[i] && r[j] == r0[j]);
                assert(met_before(init, r0[i], r0[j]));
                let p = choose|p: int|
                    0 <= p < init.len() && init[p] == r0[i] && forall|q: int| 0 <= q <= p ==> init[q] != r0[j];
                assert(s[p] == init[p]);
                assert forall|q: int| 0 <= q <= p implies s[q] != r[j] by {
                    assert(s[q] == init[q]);
                }
                assert(0 <= p < s.len() && s[p] == r[i] && forall|q: int| 0 <= q <= p ==> s[q] != r[j]);
            } else {
                assert(!r0.contains(x) && r[j] == x && r[i] == r0[i]);
                assert(r0.to_set().contains(r0[i]));
                let p = choose|p: int| 0 <= p < init.len() && init[p] == r0[i];
                assert(s[p] == init[p]);
                assert forall|q: int| 0 <= q <= p implies s[q] != x by {
                    if s[q] == x {
                        assert(init[q] == x);
                        assert(init.to_set().contains(x));
                    }
                }
                assert(0 <= p < s.len() && s[p] == r[i] && forall|q: int| 0 <= q <= p ==> s[q] != r[j]);
            }
        }
        assert(r == first_occurrences(s));
        assert(in_order_met(s, r));
        if !r0.contains(x) {
            assert forall|a: int, b: int| 0 <= a < r.len() && 0 <= b < r.len() && a != b implies r[a]
                != r[b] by {
                if a < r0.len() && b < r0.len() {
                } else if a < r0.len() {
                    assert(r0.contains(r0[a]));
                } else {
                    assert(r0.contains(r0[b]));
                }
            }
        }
    }
}

} // verus!
