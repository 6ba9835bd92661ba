//! The converter: it flattens JSON objects with separators of its own,
//! puts the user's separators back into the keys, collects the header row
//! and builds one CSV record per object.

use vstd::prelude::*;
use crate::collect::{
    HeaderState, absorbed, collected, is_header_row, keys_collide, lemma_absorbed_push,
    lemma_collected_absorbed, lemma_collected_decisions,
};
use crate::config::{ArrayFormatting, Flattener, FlattenerView};
use crate::error::{Error, ErrorView};
use crate::flat::{Entry, EntryView, FlattenErrorView, entries_view, flatten_object, flattened, keys_of};
use crate::headers::{HeaderCollection, texts};
use crate::record::{build_record, record_of, rows_view};
use crate::restore::{
    array_end_mark, array_start_mark, internal_flattener, key_mark, restore_entries, restore_key,
    restore_keys,
};
use crate::text::replace_all;
use serde_json::Value;

verus! {

/// What flattening each of `objects` with the internal settings of `j` gives.
pub open spec fn flat_results(j: Json2CsvView, objects: Seq<Value>) -> Seq<
    Result<Seq<EntryView>, FlattenErrorView>,
> {
    objects.map_values(|o: Value| flattened(internal_flattener(j.flattener), o))
}

/// The error of the first object that could not be flattened, if any.
pub open spec fn first_failure(results: Seq<Result<Seq<EntryView>, FlattenErrorView>>) -> Option<
    FlattenErrorView,
>
    decreases results.len(),
{
    if results.len() == 0 {
        None
    } else {
        match first_failure(results.drop_last()) {
            Some(e) => Some(e),
            None => match results.last() {
                Ok(_) => None,
                Err(e) => Some(e),
            },
        }
    }
}

/// The keys of all flattened objects, object after object, each object's
/// keys in the order of its entries.
pub open spec fn all_keys(results: Seq<Result<Seq<EntryView>, FlattenErrorView>>) -> Seq<
    Seq<char>,
>
    decreases results.len(),
{
    if results.len() == 0 {
        Seq::empty()
    } else {
        all_keys(results.drop_last()) + match results.last() {
            Ok(entries) => keys_of(entries),
            Err(_) => Seq::empty(),
        }
    }
}

/// When no object failed, every object was flattened.
pub proof fn lemma_no_failure_all_ok(results: Seq<Result<Seq<EntryView>, FlattenErrorView>>)
    requires
        first_failure(results) is None,
    ensures
        forall|i: int| 0 <= i < results.len() ==> #[trigger] results[i] is Ok,
    decreases results.len(),
{
    if results.len() > 0 {
        lemma_no_failure_all_ok(results.drop_last());
        assert forall|i: int| 0 <= i < results.len() implies #[trigger] results[i] is Ok by {
            if i < results.len() - 1 {
                assert(results.drop_last()[i] == results[i]);
            }
        }
    }
}

/// When every object was flattened, no object failed.
pub proof fn lemma_all_ok_no_failure(results: Seq<Result<Seq<EntryView>, FlattenErrorView>>)
    requires
        forall|i: int| 0 <= i < results.len() ==> #[trigger] results[i] is Ok,
    ensures
        first_failure(results) is None,
    decreases results.len(),
{
    if results.len() > 0 {
        assert forall|i: int| 0 <= i < results.drop_last().len() implies #[trigger] results.drop_last()[i] is Ok by {
            assert(results.drop_last()[i] == results[i]);
        }
        lemma_all_ok_no_failure(results.drop_last());
        assert(results[results.len() - 1] is Ok);
    }
}

/// The first failure of a prefix that fails is the first failure of all.
pub proof fn lemma_first_failure_prefix(
    results: Seq<Result<Seq<EntryView>, FlattenErrorView>>,
    k: int,
)
    requires
        0 <= k <= results.len(),
        first_failure(results.take(k)) is Some,
    ensures
        first_failure(results) == first_failure(results.take(k)),
    decreases results.len() - k,
{
    if k < results.len() {
        assert(results.take(k + 1).drop_last() =~= results.take(k));
        lemma_first_failure_prefix(results, k + 1);
    } else {
        assert(results.take(k) =~= results);
    }
}

/// The strings of a slice, copied.
fn copy_strings(strings: &[String]) -> (r: Vec<String>)
    ensures
        texts(r@) == texts(strings@),
{
    let mut r: Vec<String> = Vec::new();
    let mut i: usize = 0;
    while i < strings.len()
        invariant
            i <= strings@.len(),
            texts(r@) == texts(strings@).take(i as int),
        decreases strings@.len() - i,
    {
        let s = strings[i].clone();
        let ghost before = r@;
        r.push(s);
        assert(texts(r@) =~= texts(before).push(s@));
        assert(texts(strings@).take(i + 1) =~= texts(strings@).take(i as int).push(s@));
        i = i + 1;
        assert(texts(r@) =~= texts(strings@).take(i as int));
    }
    assert(texts(strings@).take(i as int) =~= texts(strings@));
    r
}

/// `r` is what converting `objects` with `j` gives.
///
/// Nothing is written for an empty input.  Otherwise every object is
/// flattened with the internal settings, and the first object that cannot
/// be flattened decides the error.  When no object has a key, nothing is
/// written.  When two different keys look the same once the user's
/// separators are put back, the error is [`ErrorView::FlattenedKeysCollision`].
/// Otherwise the rows are the header row, then one record per object in
/// order.
pub open spec fn converts(
    j: Json2CsvView,
    objects: Seq<Value>,
    r: Result<Seq<Seq<Seq<char>>>, ErrorView>,
) -> bool {
    let results = flat_results(j, objects);
    let keys = all_keys(results);
    match r {
        Err(ErrorView::Flattening(e)) => objects.len() > 0 && first_failure(results) == Some(e),
        Err(ErrorView::FlattenedKeysCollision) => {
            &&& objects.len() > 0
            &&& first_failure(results) is None
            &&& keys.len() > 0
            &&& keys_collide(j.flattener, keys)
        },
        Ok(rows) => if objects.len() == 0 || (first_failure(results) is None && keys.len() == 0) {
            rows.len() == 0
        } else {
            &&& first_failure(results) is None
            &&& !keys_collide(j.flattener, keys)
            &&& rows.len() == objects.len() + 1
            &&& is_header_row(j, keys, rows[0])
            &&& forall|i: int|
                0 <= i < objects.len() ==> #[trigger] rows[i + 1] == record_of(
                    rows[0],
                    restore_entries(j.flattener, results[i]->Ok_0),
                )
        },
    }
}

/// The value of the result of a conversion.
pub open spec fn conversion_view(r: Result<Vec<Vec<String>>, Error>) -> Result<
    Seq<Seq<Seq<char>>>,
    ErrorView,
> {
    match r {
        Ok(rows) => Ok(rows_view(rows@)),
        Err(e) => Err(e@),
    }
}

/// The converter's configuration.
#[derive(Debug, PartialEq, Eq)]
pub struct Json2Csv {
    /// The settings used for flattening.
    flattener: Flattener,
    /// The settings given by the user.
    original_flattener: Flattener,
    /// Whether headers keep the order in which keys are first met.
    preserve_key_order: bool,
}

/// The mathematical value of a [`Json2Csv`]: the user's flattening settings
/// and whether the order of keys is preserved.
pub struct Json2CsvView {
    pub flattener: FlattenerView,
    pub preserve_key_order: bool,
}

impl View for Json2Csv {
    type V = Json2CsvView;

    closed spec fn view(&self) -> Json2CsvView {
        Json2CsvView {
            flattener: self.original_flattener@,
            preserve_key_order: self.preserve_key_order,
        }
    }
}

impl Clone for Json2Csv {
    /// A converter with the same settings.
    fn clone(&self) -> (j: Json2Csv)
        ensures
            j@ == self@,
    {
        proof {
            use_type_invariant(self);
        }
        Json2Csv {
            flattener: self.flattener.duplicate(),
            original_flattener: self.original_flattener.duplicate(),
            preserve_key_order: self.preserve_key_order,
        }
    }
}

impl Json2Csv {
    #[verifier::type_invariant]
    spec fn inv(self) -> bool {
        self.flattener@ == internal_flattener(self.original_flattener@)
    }

    /// A converter that flattens as `flattener` says, with headers sorted.
    #[must_use]
    pub fn new(flattener: Flattener) -> (j: Json2Csv)
        ensures
            j@ == (Json2CsvView { flattener: flattener@, preserve_key_order: false }),
    {
        let key_sep = "\u{241D}";
        let array_start = "\u{241E}";
        let array_end = "\u{241F}";
        proof {
            reveal_strlit("\u{241D}");
            reveal_strlit("\u{241E}");
            reveal_strlit("\u{241F}");
            assert(key_sep@ =~= key_mark());
            assert(array_start@ =~= array_start_mark());
            assert(array_end@ =~= array_end_mark());
        }
        let internal = match flattener.array_formatting() {
            ArrayFormatting::Plain => flattener.duplicate().set_key_separator(key_sep),
            ArrayFormatting::Surrounded { start: _, end: _ } => flattener.duplicate().set_key_separator(
                key_sep,
            ).set_array_formatting(
                ArrayFormatting::Surrounded {
                    start: array_start.to_owned(),
                    end: array_end.to_owned(),
                },
            ),
        };
        Json2Csv { flattener: internal, original_flattener: flattener, preserve_key_order: false }
    }

    /// Sets whether the headers keep the order in which keys are first met
    /// (`true`) or are sorted (`false`).
    #[must_use]
    pub fn preserve_key_order(self, preserve: bool) -> (j: Json2Csv)
        ensures
            j@ == (Json2CsvView { preserve_key_order: preserve, ..self@ }),
    {
        proof {
            use_type_invariant(&self);
        }
        Json2Csv { preserve_key_order: preserve, ..self }
    }

    /// The state before any object is met: no header, and a header row
    /// that keeps the order of keys when this converter preserves it.
    pub fn start_headers(&self) -> (s: HeaderState)
        ensures
            collected(self@, s@, Seq::empty()),
    {
        let s = HeaderState {
            headers: HeaderCollection::new(self.preserve_key_order),
            orig_headers: HeaderCollection::new(false),
        };
        assert(restore_keys(self@.flattener, Seq::empty()) =~= Seq::<Seq<char>>::empty());
        assert(s@.headers.headers.to_set() =~= Set::<Seq<char>>::empty());
        assert(s@.orig_headers.headers.to_set() =~= Set::<Seq<char>>::empty());
        s
    }

    /// Flattens `object` and meets its keys: each key, with the user's
    /// separators put back, goes into the header row, and each flattened key
    /// into the collection of flattened keys.  Returns the flattened object
    /// with the user's separators in its keys, or the flattening error, in
    /// which case `state` is left as it was.
    pub fn add_object(&self, state: &mut HeaderState, object: &Value) -> (r: Result<
        Vec<Entry>,
        Error,
    >)
        ensures
            match flattened(internal_flattener(self@.flattener), *object) {
                Ok(entries) => (r matches Ok(map) && entries_view(map@) == restore_entries(
                    self@.flattener,
                    entries,
                )) && absorbed(self@.flattener, old(state)@, final(state)@, keys_of(entries)),
                Err(e) => (r matches Err(err) && err@ == ErrorView::Flattening(e)) && final(state)@
                    == old(state)@,
            },
    {
        proof {
            use_type_invariant(self);
        }
        let entries = match flatten_object(&self.flattener, object) {
            Ok(entries) => entries,
            Err(e) => return Err(Error::Flattening(e)),
        };
        let ghost f = self@.flattener;
        let ghost es = entries_view(entries@);
        let ghost start = state@;
        proof {
            use_type_invariant(&state.headers);
            use_type_invariant(&state.orig_headers);
            assert(keys_of(es).take(0) =~= Seq::<Seq<char>>::empty());
            assert(restore_keys(f, Seq::empty()) =~= Seq::<Seq<char>>::empty());
            assert(Seq::<Seq<char>>::empty().to_set() =~= Set::<Seq<char>>::empty());
            assert(start.headers.headers.to_set() + Set::empty() =~= start.headers.headers.to_set());
            assert(start.orig_headers.headers.to_set() + Set::empty()
                =~= start.orig_headers.headers.to_set());
        }
        let mut map: Vec<Entry> = Vec::new();
        let mut i: usize = 0;
        while i < entries.len()
            invariant
                i <= entries@.len(),
                es == entries_view(entries@),
                f == self@.flattener,
                absorbed(f, start, state@, keys_of(es).take(i as int)),
                entries_view(map@) == restore_entries(f, es.take(i as int)),
            decreases entries@.len() - i,
        {
            let key = self.transform_key(entries[i].key.as_str());
            let ghost before = state@;
            let ghost ks = keys_of(es).take(i as int);
            state.orig_headers.insert(entries[i].key.clone());
            state.headers.insert(key.clone());
            let value = entries[i].value.duplicate();
            let ghost new_entry = EntryView { key: key@, value: value@ };
            let ghost map_before = map@;
            map.push(Entry { key, value });
            proof {
                assert(keys_of(es).take(i + 1) =~= ks.push(es[i as int].key));
                lemma_absorbed_push(f, start, before, state@, ks, es[i as int].key);
                assert(entries_view(map@) =~= entries_view(map_before).push(new_entry));
                assert(restore_entries(f, es.take(i + 1)) =~= restore_entries(
                    f,
                    es.take(i as int),
                ).push(new_entry));
            }
            i = i + 1;
        }
        proof {
            assert(keys_of(es).take(i as int) =~= keys_of(es));
            assert(es.take(i as int) =~= es);
        }
        Ok(map)
    }

    /// The flattened object `orig_map` with the user's separators put back
    /// into its keys.
    pub fn transform_map(&self, orig_map: Vec<Entry>) -> (map: Vec<Entry>)
        ensures
            entries_view(map@) == restore_entries(self@.flattener, entries_view(orig_map@)),
    {
        let mut map: Vec<Entry> = Vec::new();
        let mut i: usize = 0;
        while i < orig_map.len()
            invariant
                i <= orig_map@.len(),
                entries_view(map@) == restore_entries(
                    self@.flattener,
                    entries_view(orig_map@).take(i as int),
                ),
            decreases orig_map@.len() - i,
        {
            let key = self.transform_key(orig_map[i].key.as_str());
            let value = orig_map[i].value.duplicate();
            let ghost before = map@;
            let ghost entry = EntryView { key: key@, value: value@ };
            map.push(Entry { key, value });
            assert(entries_view(map@) =~= entries_view(before).push(entry));
            assert(restore_entries(self@.flattener, entries_view(orig_map@).take(i + 1))
                =~= restore_entries(self@.flattener, entries_view(orig_map@).take(i as int)).push(
                entry,
            ));
            i = i + 1;
        }
        assert(entries_view(orig_map@).take(i as int) =~= entries_view(orig_map@));
        map
    }

    /// Flattens every object and collects the headers: the header row and
    /// the flattened keys.  Fails with the error of the first object that
    /// cannot be flattened.
    fn collect_headers(&self, objects: &[Value]) -> (r: Result<HeaderState, Error>)
        ensures
            match r {
                Ok(s) => first_failure(flat_results(self@, objects@)) is None && collected(
                    self@,
                    s@,
                    all_keys(flat_results(self@, objects@)),
                ),
                Err(e) => (first_failure(flat_results(self@, objects@)) matches Some(fe) && e@
                    == ErrorView::Flattening(fe)),
            },
    {
        let ghost results = flat_results(self@, objects@);
        let mut state = self.start_headers();
        let mut i: usize = 0;
        proof {
            assert(results.take(0) =~= Seq::<Result<Seq<EntryView>, FlattenErrorView>>::empty());
        }
        while i < objects.len()
            invariant
                i <= objects@.len(),
                results == flat_results(self@, objects@),
                first_failure(results.take(i as int)) is None,
                collected(self@, state@, all_keys(results.take(i as int))),
            decreases objects@.len() - i,
        {
            let ghost before = state@;
            let added = self.add_object(&mut state, &objects[i]);
            proof {
                assert(results[i as int] == flattened(internal_flattener(self@.flattener), objects@[i as int]));
                assert(results.take(i + 1).drop_last() =~= results.take(i as int));
                assert(results.take(i + 1).last() == results[i as int]);
            }
            match added {
                Ok(_) => {
                    proof {
                        let es = results[i as int]->Ok_0;
                        lemma_collected_absorbed(self@, before, state@, all_keys(results.take(i as int)), keys_of(es));
                    }
                },
                Err(e) => {
                    proof {
                        lemma_first_failure_prefix(results, i + 1);
                    }
                    return Err(e);
                },
            }
            i = i + 1;
        }
        proof {
            assert(results.take(i as int) =~= results);
        }
        Ok(state)
    }

    /// Converts `objects` into CSV rows: the header row followed by one
    /// record per object, or no row at all when there is nothing to write.
    /// The headers are the union of the keys of the flattened objects, with
    /// the user's separators; they are sorted, or in the order in which keys
    /// are first met when the order of keys is preserved.
    ///
    /// # Errors
    /// Fails when an object cannot be flattened (it is not an object, or
    /// two of its values flatten to the same key), and when two keys that
    /// differ look the same once flattened with the user's separators.
    pub fn convert_from_array(&self, objects: &[Value]) -> (r: Result<Vec<Vec<String>>, Error>)
        ensures
            converts(self@, objects@, conversion_view(r)),
    {
        let ghost results = flat_results(self@, objects@);
        let ghost keys = all_keys(results);
        let ghost f = self@.flattener;
        if objects.len() == 0 {
            let rows: Vec<Vec<String>> = Vec::new();
            assert(rows_view(rows@) =~= Seq::empty());
            return Ok(rows);
        }
        let state = match self.collect_headers(objects) {
            Ok(state) => state,
            Err(e) => return Err(e),
        };
        let ghost sv = state@;
        proof {
            lemma_collected_decisions(self@, sv, keys);
        }
        let headers = match state.finish() {
            Ok(Some(headers)) => headers,
            Ok(None) => {
                let rows: Vec<Vec<String>> = Vec::new();
                assert(rows_view(rows@) =~= Seq::empty());
                return Ok(rows);
            },
            Err(e) => return Err(e),
        };
        proof {
            lemma_no_failure_all_ok(results);
        }
        let header_row = copy_strings(headers.iter());
        let mut rows: Vec<Vec<String>> = Vec::new();
        rows.push(header_row);
        let mut i: usize = 0;
        while i < objects.len()
            invariant
                i <= objects@.len(),
                results == flat_results(self@, objects@),
                f == self@.flattener,
                forall|k: int| 0 <= k < results.len() ==> #[trigger] results[k] is Ok,
                rows@.len() == i + 1,
                texts(rows@[0]@) == headers@.headers,
                forall|k: int|
                    0 <= k < i ==> texts(#[trigger] rows@[k + 1]@) == record_of(
                        headers@.headers,
                        restore_entries(f, results[k]->Ok_0),
                    ),
            decreases objects@.len() - i,
        {
            proof {
                use_type_invariant(self);
                assert(results[i as int] == flattened(internal_flattener(f), objects@[i as int]));
            }
            let entries = match flatten_object(&self.flattener, &objects[i]) {
                Ok(entries) => entries,
                Err(e) => {
                    proof {
                        assert(results[i as int] is Ok);
                    }
                    return Err(Error::Flattening(e));
                },
            };
            let map = self.transform_map(entries);
            let record = build_record(&headers, map.as_slice());
            rows.push(record);
            i = i + 1;
        }
        proof {
            let rv = rows_view(rows@);
            assert(rv[0] == headers@.headers);
            assert forall|k: int| 0 <= k < objects@.len() implies #[trigger] rv[k + 1] == record_of(
                rv[0],
                restore_entries(f, results[k]->Ok_0),
            ) by {
                assert(rv[k + 1] == texts(rows@[k + 1]@));
            }
        }
        Ok(rows)
    }

    /// Puts the user's separators back into a key made with the internal
    /// settings.
    pub fn transform_key(&self, key: &str) -> (r: String)
        ensures
            r@ == restore_key(self@.flattener, key@),
    {
        proof {
            use_type_invariant(self);
            reveal_strlit("\u{241D}");
        }
        let key = replace_all(
            key,
            self.flattener.key_separator(),
            self.original_flattener.key_separator(),
        );
        match self.original_flattener.array_formatting() {
            ArrayFormatting::Plain => key,
            ArrayFormatting::Surrounded { start: os, end: oe } => {
                match self.flattener.array_formatting() {
                    ArrayFormatting::Surrounded { start: s, end: e } => {
                        let key = replace_all(key.as_str(), e.as_str(), oe.as_str());
                        replace_all(key.as_str(), s.as_str(), os.as_str())
                    },
                    ArrayFormatting::Plain => {
                        // Both settings use the same kind of array formatting.
                        proof {
                            assert(false);
                        }
                        key
                    },
                }
            },
        }
    }
}

} // verus!
