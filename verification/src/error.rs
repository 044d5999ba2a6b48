//! Error and warning values raised while validating taxonomy input and
//! converting between the flat and the path-keyed shapes.

use vstd::prelude::*;

verus! {

/// The record field whose validation failed.
#[derive(Clone, Copy, Debug, PartialEq, Eq, Structural)]
pub enum Field {
    /// The record's own identifier.
    Name,
    /// The record's optional parent identifier.
    Parent,
    /// The record's display title.
    Title,
}

/// A fatal defect in taxonomy input: a malformed identifier or title, a
/// parent pointer that resolves to nothing, or a path that has no final
/// segment. Each variant carries the offending raw text where there is any.
#[derive(Debug)]
pub enum Error {
    /// An identifier was empty.
    EmptyIdentifier,
    /// An identifier contained the path separator.
    IdentifierContainsSlash { raw: String },
    /// An identifier was not already in kebab-case form.
    IdentifierNotKebabCase { raw: String },
    /// A title carried leading or trailing whitespace.
    TitleSurroundingWhitespace { raw: String },
    /// A parent identifier did not name any entry of the collection.
    MissingEntry { name: String },
    /// An entry's parent chain ran through a cycle longer than a direct
    /// self-reference; `name` is the entry whose walk found it.
    CycleDetected { name: String },
    /// A path decomposed into no final segment.
    PathWithoutName,
}

/// A fatal defect found while reading one raw record, tagged with the
/// record's raw name and the field that failed.
#[derive(Debug)]
pub struct RecordError {
    /// The raw `name` field of the record that failed.
    pub record: String,
    /// Which field of the record failed validation.
    pub field: Field,
    /// The underlying validation failure.
    pub error: Error,
}

/// A non-fatal advisory: processing continues, but the input is not in the
/// preferred form.
#[derive(Debug)]
pub enum Warning {
    /// A title was accepted although it is not in title case; `suggested`
    /// holds the title-cased form.
    TitleNotTitleCase { raw: String, suggested: String },
    /// An entry's parent pointer named the entry itself; the entry was
    /// treated as a root.
    SelfReferentialParent { name: String },
}

} // verus!
