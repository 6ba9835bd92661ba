//! Putting the user's separators back into the keys that flattening made
//! with separators of the converter's own.

use vstd::prelude::*;
use crate::config::{ArrayFormattingView, FlattenerView};
use crate::flat::EntryView;
use crate::text::replaced;

verus! {

/// The key separator used while flattening: U+241D, a control picture that
/// does not occur in ordinary keys.
pub open spec fn key_mark() -> Seq<char> {
    seq!['\u{241D}']
}

/// The text that opens an array position while flattening (U+241E).
pub open spec fn array_start_mark() -> Seq<char> {
    seq!['\u{241E}']
}

/// The text that closes an array position while flattening (U+241F).
pub open spec fn array_end_mark() -> Seq<char> {
    seq!['\u{241F}']
}

/// The settings used for flattening: those of the user, with the key
/// separator and the text around array positions replaced by the marks,
/// so that keys that only look alike once joined can still be told apart.
pub open spec fn internal_flattener(f: FlattenerView) -> FlattenerView {
    FlattenerView {
        key_separator: key_mark(),
        array_formatting: match f.array_formatting {
            ArrayFormattingView::Plain => ArrayFormattingView::Plain,
            ArrayFormattingView::Surrounded { .. } => ArrayFormattingView::Surrounded {
                start: array_start_mark(),
                end: array_end_mark(),
            },
        },
        ..f
    }
}

/// A key produced with the internal settings, with the user's separators
/// put back in place of the marks.
pub open spec fn restore_key(f: FlattenerView, key: Seq<char>) -> Seq<char> {
    let k = replaced(key, key_mark(), f.key_separator);
    match f.array_formatting {
        ArrayFormattingView::Plain => k,
        ArrayFormattingView::Surrounded { start, end } => replaced(
            replaced(k, array_end_mark(), end),
            array_start_mark(),
            start,
        ),
    }
}

/// Every key of `keys` with the user's separators put back.
pub open spec fn restore_keys(f: FlattenerView, keys: Seq<Seq<char>>) -> Seq<Seq<char>> {
    keys.map_values(|k: Seq<char>| restore_key(f, k))
}

/// Every entry of `entries` with the user's separators put back into its key.
pub open spec fn restore_entries(f: FlattenerView, entries: Seq<EntryView>) -> Seq<EntryView> {
    entries.map_values(|e: EntryView| EntryView { key: restore_key(f, e.key), value: e.value })
}

/// Restoring keys commutes with concatenation.
pub proof fn lemma_restore_keys_concat(f: FlattenerView, a: Seq<Seq<char>>, b: Seq<Seq<char>>)
    ensures
        restore_keys(f, a + b) == restore_keys(f, a) + restore_keys(f, b),
{
    assert(restore_keys(f, a + b) =~= restore_keys(f, a) + restore_keys(f, b));
}

} // verus!
