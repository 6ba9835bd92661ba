//! The CSV record of a flattened object under a header row.

use vstd::prelude::*;
use crate::flat::{Entry, EntryView, Leaf, LeafView, entries_view};
use crate::headers::{HeaderCollection, texts};

verus! {

/// The value of the last entry of `entries` with key `key`: a later entry
/// overrides an earlier one, as when the entries are inserted into a map.
pub open spec fn lookup(entries: Seq<EntryView>, key: Seq<char>) -> Option<LeafView>
    decreases entries.len(),
{
    if entries.len() == 0 {
        None
    } else if entries.last().key == key {
        Some(entries.last().value)
    } else {
        lookup(entries.drop_last(), key)
    }
}

/// The CSV field for a value: a string as it is, a boolean or a number as
/// its JSON text, and an empty field for `null`, an empty array, an empty
/// object or a missing key.
pub open spec fn field_text(value: Option<LeafView>) -> Seq<char> {
    match value {
        Some(LeafView::Text(s)) => s,
        Some(LeafView::Scalar(s)) => s,
        _ => Seq::empty(),
    }
}

/// The CSV record of a flattened object under the header row `headers`.
pub open spec fn record_of(headers: Seq<Seq<char>>, entries: Seq<EntryView>) -> Seq<Seq<char>> {
    headers.map_values(|h: Seq<char>| field_text(lookup(entries, h)))
}

/// The texts of rows of strings.
pub open spec fn rows_view(rows: Seq<Vec<String>>) -> Seq<Seq<Seq<char>>> {
    rows.map_values(|r: Vec<String>| texts(r@))
}

/// The value of the last entry of `map` whose key is `key`.
fn find_value<'a>(map: &'a [Entry], key: &String) -> (r: Option<&'a Leaf>)
    ensures
        match r {
            Some(value) => lookup(entries_view(map@), key@) == Some(value@),
            None => lookup(entries_view(map@), key@) is None,
        },
{
    let mut j: usize = map.len();
    assert(entries_view(map@).take(j as int) =~= entries_view(map@));
    while j > 0
        invariant
            j <= map@.len(),
            lookup(entries_view(map@), key@) == lookup(entries_view(map@).take(j as int), key@),
        decreases j,
    {
        let ghost prefix = entries_view(map@).take(j as int);
        assert(prefix.last() == map@[j - 1]@);
        if map[j - 1].key == *key {
            return Some(&map[j - 1].value);
        }
        assert(prefix.drop_last() =~= entries_view(map@).take(j - 1));
        j = j - 1;
    }
    None
}

/// The CSV record of the flattened object `map` under `headers`: for each
/// header, in order, the field of the value of that key.
pub fn build_record(headers: &HeaderCollection, map: &[Entry]) -> (record: Vec<String>)
    ensures
        texts(record@) == record_of(headers@.headers, entries_view(map@)),
{
    let names = headers.iter();
    let mut record: Vec<String> = Vec::new();
    let mut i: usize = 0;
    while i < names.len()
        invariant
            i <= names@.len(),
            texts(names@) == headers@.headers,
            texts(record@) == record_of(headers@.headers, entries_view(map@)).take(i as int),
        decreases names@.len() - i,
    {
        let field = match find_value(map, &names[i]) {
            Some(Leaf::Text(s)) => s.clone(),
            Some(Leaf::Scalar(s)) => s.clone(),
            // Any array or object left must be empty, and it is only left when
            // empty arrays or objects are preserved: like `null`, it gives an
            // empty field.
            Some(Leaf::Null) | Some(Leaf::Array) | Some(Leaf::Object) => String::new(),
            None => String::new(),
        };
        let ghost full = record_of(headers@.headers, entries_view(map@));
        assert(field@ == full[i as int]);
        let ghost before = record@;
        record.push(field);
        assert(texts(record@) =~= texts(before).push(field@));
        assert(full.take(i + 1) =~= full.take(i as int).push(field@));
        i = i + 1;
        assert(texts(record@) =~= record_of(headers@.headers, entries_view(map@)).take(i as int));
    }
    assert(record_of(headers@.headers, entries_view(map@)).take(i as int) =~= record_of(
        headers@.headers,
        entries_view(map@),
    ));
    record
}

} // verus!
