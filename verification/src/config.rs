//! The flattening settings: how nested keys are joined, how array positions
//! are written, and whether empty arrays and objects are kept.  `Flattener`
//! holds as plain values what `flatten_json_object::Flattener` is
//! configured with; the flattening itself is done by that crate.

use vstd::prelude::*;

verus! {

/// How a position inside an array is written into a flattened key.
#[derive(Clone, Debug, PartialEq, Eq)]
pub enum ArrayFormatting {
    /// The position is written like any other key, after the key separator.
    Plain,
    /// The position is written between `start` and `end`, with no key separator.
    Surrounded { start: String, end: String },
}

/// The mathematical value of an [`ArrayFormatting`].
pub enum ArrayFormattingView {
    Plain,
    Surrounded { start: Seq<char>, end: Seq<char> },
}

impl View for ArrayFormatting {
    type V = ArrayFormattingView;

    open spec fn view(&self) -> ArrayFormattingView {
        match self {
            ArrayFormatting::Plain => ArrayFormattingView::Plain,
            ArrayFormatting::Surrounded { start, end } => ArrayFormattingView::Surrounded {
                start: start@,
                end: end@,
            },
        }
    }
}

impl ArrayFormatting {
    /// A copy with the same value.
    pub fn duplicate(&self) -> (r: ArrayFormatting)
        ensures
            r@ == self@,
    {
        match self {
            ArrayFormatting::Plain => ArrayFormatting::Plain,
            ArrayFormatting::Surrounded { start, end } => ArrayFormatting::Surrounded {
                start: start.clone(),
                end: end.clone(),
            },
        }
    }
}

/// The settings of a flattening.
#[derive(Clone, Debug, PartialEq, Eq)]
pub struct Flattener {
    key_separator: String,
    array_formatting: ArrayFormatting,
    preserve_empty_arrays: bool,
    preserve_empty_objects: bool,
}

/// The mathematical value of a [`Flattener`].
pub struct FlattenerView {
    pub key_separator: Seq<char>,
    pub array_formatting: ArrayFormattingView,
    pub preserve_empty_arrays: bool,
    pub preserve_empty_objects: bool,
}

impl View for Flattener {
    type V = FlattenerView;

    closed spec fn view(&self) -> FlattenerView {
        FlattenerView {
            key_separator: self.key_separator@,
            array_formatting: self.array_formatting@,
            preserve_empty_arrays: self.preserve_empty_arrays,
            preserve_empty_objects: self.preserve_empty_objects,
        }
    }
}

/// The default settings: keys joined by `.`, array positions written as
/// plain keys, empty arrays and objects dropped.
pub open spec fn default_flattener() -> FlattenerView {
    FlattenerView {
        key_separator: seq!['.'],
        array_formatting: ArrayFormattingView::Plain,
        preserve_empty_arrays: false,
        preserve_empty_objects: false,
    }
}

impl Flattener {
    /// The default settings.
    pub fn new() -> (f: Flattener)
        ensures
            f@ == default_flattener(),
    {
        let key_separator = ".".to_owned();
        proof {
            reveal_strlit(".");
            assert(key_separator@ =~= seq!['.']);
        }
        Flattener {
            key_separator,
            array_formatting: ArrayFormatting::Plain,
            preserve_empty_arrays: false,
            preserve_empty_objects: false,
        }
    }

    /// A copy with the same settings.
    pub fn duplicate(&self) -> (f: Flattener)
        ensures
            f@ == self@,
    {
        Flattener {
            key_separator: self.key_separator.clone(),
            array_formatting: self.array_formatting.duplicate(),
            preserve_empty_arrays: self.preserve_empty_arrays,
            preserve_empty_objects: self.preserve_empty_objects,
        }
    }

    /// Changes the text that joins the keys of nested values.
    pub fn set_key_separator(self, key_separator: &str) -> (f: Flattener)
        ensures
            f@ == (FlattenerView { key_separator: key_separator@, ..self@ }),
    {
        Flattener { key_separator: key_separator.to_owned(), ..self }
    }

    /// Changes how array positions are written.
    pub fn set_array_formatting(self, array_formatting: ArrayFormatting) -> (f: Flattener)
        ensures
            f@ == (FlattenerView { array_formatting: array_formatting@, ..self@ }),
    {
        Flattener { array_formatting, ..self }
    }

    /// Changes whether empty arrays are kept as values.
    pub fn set_preserve_empty_arrays(self, value: bool) -> (f: Flattener)
        ensures
            f@ == (FlattenerView { preserve_empty_arrays: value, ..self@ }),
    {
        Flattener { preserve_empty_arrays: value, ..self }
    }

    /// Changes whether empty objects are kept as values.
    pub fn set_preserve_empty_objects(self, value: bool) -> (f: Flattener)
        ensures
            f@ == (FlattenerView { preserve_empty_objects: value, ..self@ }),
    {
        Flattener { preserve_empty_objects: value, ..self }
    }

    /// The text that joins the keys of nested values.
    pub fn key_separator(&self) -> (s: &str)
        ensures
            s@ == self@.key_separator,
    {
        self.key_separator.as_str()
    }

    /// How array positions are written.
    pub fn array_formatting(&self) -> (a: &ArrayFormatting)
        ensures
            a@ == self@.array_formatting,
    {
        &self.array_formatting
    }

    /// Whether empty arrays are kept.
    pub fn preserve_empty_arrays(&self) -> (b: bool)
        ensures
            b == self@.preserve_empty_arrays,
    {
        self.preserve_empty_arrays
    }

    /// Whether empty objects are kept.
    pub fn preserve_empty_objects(&self) -> (b: bool)
        ensures
            b == self@.preserve_empty_objects,
    {
        self.preserve_empty_objects
    }
}

} // verus!
