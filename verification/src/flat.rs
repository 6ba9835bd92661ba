//! Flattened JSON objects: the key and value pairs that flattening a JSON
//! object yields, and the call into `flatten_json_object` that computes them.

use vstd::prelude::*;
use serde_json::Value;
use crate::config::{ArrayFormatting, Flattener, FlattenerView};

verus! {

#[verifier::external_type_specification]
#[verifier::external_body]
pub struct ExValue(serde_json::Value);

/// A value left in a flattened object: never an array or an object with
/// content, since those are flattened away.
#[derive(Clone, Debug, PartialEq, Eq)]
pub enum Leaf {
    /// JSON `null`.
    Null,
    /// A boolean or a number, as JSON text (`true`, `2.5`).
    Scalar(String),
    /// A string.
    Text(String),
    /// An empty array, kept because empty arrays are preserved.
    Array,
    /// An empty object, kept because empty objects are preserved.
    Object,
}

/// The mathematical value of a [`Leaf`].
pub enum LeafView {
    Null,
    Scalar(Seq<char>),
    Text(Seq<char>),
    Array,
    Object,
}

impl Leaf {
    /// A copy with the same value.
    pub fn duplicate(&self) -> (r: Leaf)
        ensures
            r@ == self@,
    {
        match self {
            Leaf::Null => Leaf::Null,
            Leaf::Scalar(s) => Leaf::Scalar(s.clone()),
            Leaf::Text(s) => Leaf::Text(s.clone()),
            Leaf::Array => Leaf::Array,
            Leaf::Object => Leaf::Object,
        }
    }
}

impl View for Leaf {
    type V = LeafView;

    open spec fn view(&self) -> LeafView {
        match self {
            Leaf::Null => LeafView::Null,
            Leaf::Scalar(s) => LeafView::Scalar(s@),
            Leaf::Text(s) => LeafView::Text(s@),
            Leaf::Array => LeafView::Array,
            Leaf::Object => LeafView::Object,
        }
    }
}

/// One key of a flattened object with its value.
#[derive(Clone, Debug, PartialEq, Eq)]
pub struct Entry {
    pub key: String,
    pub value: Leaf,
}

/// The mathematical value of an [`Entry`].
pub struct EntryView {
    pub key: Seq<char>,
    pub value: LeafView,
}

impl View for Entry {
    type V = EntryView;

    open spec fn view(&self) -> EntryView {
        EntryView { key: self.key@, value: self.value@ }
    }
}

/// The values of a sequence of entries.
pub open spec fn entries_view(entries: Seq<Entry>) -> Seq<EntryView> {
    entries.map_values(|e: Entry| e@)
}

/// The keys of a sequence of entries, in order.
pub open spec fn keys_of(entries: Seq<EntryView>) -> Seq<Seq<char>> {
    entries.map_values(|e: EntryView| e.key)
}

/// Why an object could not be flattened.
#[derive(Clone, Debug, PartialEq, Eq)]
pub enum FlattenError {
    /// The value to flatten is not a JSON object.
    FirstLevelMustBeAnObject,
    /// Two values of the object flatten to the same key, which is given.
    KeyWillBeOverwritten(String),
}

/// The mathematical value of a [`FlattenError`].
pub enum FlattenErrorView {
    FirstLevelMustBeAnObject,
    KeyWillBeOverwritten(Seq<char>),
}

impl View for FlattenError {
    type V = FlattenErrorView;

    open spec fn view(&self) -> FlattenErrorView {
        match self {
            FlattenError::FirstLevelMustBeAnObject => FlattenErrorView::FirstLevelMustBeAnObject,
            FlattenError::KeyWillBeOverwritten(k) => FlattenErrorView::KeyWillBeOverwritten(k@),
        }
    }
}

/// The value of the result of flattening one object.
pub open spec fn flat_view(r: Result<Vec<Entry>, FlattenError>) -> Result<
    Seq<EntryView>,
    FlattenErrorView,
> {
    match r {
        Ok(entries) => Ok(entries_view(entries@)),
        Err(e) => Err(e@),
    }
}

/// The key and value pairs of the object that
/// `flatten_json_object::Flattener::flatten` builds from `object` under the
/// settings `flattener`, in the order of that object, or the error it
/// reports.
pub uninterp spec fn flattened_pairs(flattener: FlattenerView, object: Value) -> Result<
    Seq<(Seq<char>, Value)>,
    FlattenErrorView,
>;

/// The [`Leaf`] that stands for a value left in a flattened object; for a
/// boolean or a number its text is what `serde_json` prints for it.
pub uninterp spec fn leaf_of(value: Value) -> LeafView;

/// What flattening `object` under the settings `flattener` gives: its
/// entries, each value taken as a [`Leaf`], or the error.
pub open spec fn flattened(flattener: FlattenerView, object: Value) -> Result<
    Seq<EntryView>,
    FlattenErrorView,
> {
    match flattened_pairs(flattener, object) {
        Ok(pairs) => Ok(
            pairs.map_values(|p: (Seq<char>, Value)| EntryView { key: p.0, value: leaf_of(p.1) }),
        ),
        Err(e) => Err(e),
    }
}

/// The keys and values of a sequence of pairs.
pub open spec fn pairs_view(pairs: Seq<(String, Value)>) -> Seq<(Seq<char>, Value)> {
    pairs.map_values(|p: (String, Value)| (p.0@, p.1))
}

/// Calls `flatten_json_object::Flattener::flatten` on `object`, with a
/// flattener set up as `flattener` says.  The contract claims that the pairs
/// returned are the keys and values of the object that `flatten` builds, in
/// its order, or that the error is the one `flatten` reports, variant for
/// variant; and that no key occurs twice, since that object is a map.
/// `flatten` returns an object whenever it succeeds.
#[verifier::external_body]
fn flatten_pairs(flattener: &Flattener, object: &Value) -> (r: Result<Vec<(String, Value)>, FlattenError>)
    ensures
        match r {
            Ok(pairs) => flattened_pairs(flattener@, *object) == Ok::<_, FlattenErrorView>(pairs_view(pairs@)),
            Err(e) => flattened_pairs(flattener@, *object) == Err::<Seq<(Seq<char>, Value)>, _>(e@),
        },
        r matches Ok(pairs) ==> pairs_view(pairs@).map_values(|p: (Seq<char>, Value)| p.0).no_duplicates(),
{
    let array_formatting = match flattener.array_formatting() {
        ArrayFormatting::Plain => flatten_json_object::ArrayFormatting::Plain,
        ArrayFormatting::Surrounded { start, end } => flatten_json_object::ArrayFormatting::Surrounded { start: start.clone(), end: end.clone() },
    };
    let outside = flatten_json_object::Flattener::new().set_key_separator(flattener.key_separator()).set_array_formatting(array_formatting)
        .set_preserve_empty_arrays(flattener.preserve_empty_arrays()).set_preserve_empty_objects(flattener.preserve_empty_objects());
    match outside.flatten(object) {
        Ok(flat) => Ok(flat.as_object().into_iter().flatten().map(|(key, value)| (key.clone(), value.clone())).collect()),
        Err(flatten_json_object::Error::FirstLevelMustBeAnObject) => Err(FlattenError::FirstLevelMustBeAnObject),
        Err(flatten_json_object::Error::KeyWillBeOverwritten(key)) => Err(FlattenError::KeyWillBeOverwritten(key)),
    }
}

/// Tells the kinds of JSON values apart for a value of a flattened object;
/// a boolean or a number is printed with `serde_json`'s `to_string`.  The
/// contract names the result.
#[verifier::external_body]
fn leaf_from_value(value: &Value) -> (leaf: Leaf)
    ensures
        leaf@ == leaf_of(*value),
{
    match value {
        Value::Null => Leaf::Null,
        Value::String(s) => Leaf::Text(s.clone()),
        Value::Array(_) => Leaf::Array,
        Value::Object(_) => Leaf::Object,
        scalar => Leaf::Scalar(scalar.to_string()),
    }
}

/// Flattens `object` under the settings `flattener`: its entries, with no
/// key twice, or the error.
pub(crate) fn flatten_object(flattener: &Flattener, object: &Value) -> (r: Result<Vec<Entry>, FlattenError>)
    ensures
        flat_view(r) == flattened(flattener@, *object),
        r matches Ok(entries) ==> keys_of(entries_view(entries@)).no_duplicates(),
{
    let pairs = match flatten_pairs(flattener, object) {
        Ok(pairs) => pairs,
        Err(e) => return Err(e),
    };
    let ghost pv = pairs_view(pairs@);
    let ghost expected = pv.map_values(|p: (Seq<char>, Value)| EntryView { key: p.0, value: leaf_of(p.1) });
    let mut entries: Vec<Entry> = Vec::new();
    let mut i: usize = 0;
    while i < pairs.len()
        invariant
            i <= pairs@.len(),
            pv == pairs_view(pairs@),
            expected == pv.map_values(|p: (Seq<char>, Value)| EntryView { key: p.0, value: leaf_of(p.1) }),
            entries_view(entries@) == expected.take(i as int),
        decreases pairs@.len() - i,
    {
        let value = leaf_from_value(&pairs[i].1);
        let entry = Entry { key: pairs[i].0.clone(), value };
        let ghost before = entries@;
        entries.push(entry);
        assert(entries_view(entries@) =~= entries_view(before).push(entry@));
        assert(expected.take(i + 1) =~= expected.take(i as int).push(entry@));
        i = i + 1;
    }
    assert(expected.take(i as int) =~= expected);
    assert(keys_of(expected) =~= pv.map_values(|p: (Seq<char>, Value)| p.0));
    Ok(entries)
}

} // verus!
