//! The record types of the two taxonomy shapes, their mathematical views,
//! and the validation of raw records read from an external source.

use vstd::prelude::*;
use crate::error::Field;
use crate::error::RecordError;
use crate::error::Warning;
use crate::ident::Identifier;
use crate::ident::identifier_error_for;
use crate::ident::valid_identifier;
use crate::title::Title;
use crate::title::title_warning_for;
use crate::title::trimmed;

verus! {

/// The views of a vector of strings.
pub open spec fn str_views(v: Seq<String>) -> Seq<Seq<char>> {
    v.map_values(|s: String| s@)
}

/// The view of an optional identifier.
pub open spec fn opt_id_view(o: Option<Identifier>) -> Option<Seq<char>> {
    match o {
        Option::None => None,
        Option::Some(id) => Some(id@),
    }
}

/// A taxonomy entry in the flat shape: its own name plus an optional parent
/// pointer, with the carried class, synonyms and title.
#[derive(Debug)]
pub struct CollectionEntry {
    /// Class of this taxonomy entry.
    pub class_name: String,
    /// Identifier for this taxonomy entry.
    pub name: Identifier,
    /// Parent identifier of this taxonomy entry.
    pub parent: Option<Identifier>,
    /// Synonyms for this taxonomy entry.
    pub synonyms: Vec<String>,
    /// Title for this taxonomy entry.
    pub title: Title,
}

/// A taxonomy entry in the path-keyed shape: no parent field, since the
/// ancestry is encoded by the owning path key.
#[derive(Debug)]
pub struct MapEntry {
    /// Class of this taxonomy entry.
    pub class_name: String,
    /// Synonyms for this taxonomy entry.
    pub synonyms: Vec<String>,
    /// Human-readable title for this taxonomy entry.
    pub title: Title,
}

/// One raw record as an external source hands it over, before validation.
#[derive(Debug)]
pub struct RawRecord {
    /// The raw `name` field.
    pub name: String,
    /// The raw `parent` field, absent for a root entry.
    pub parent: Option<String>,
    /// The raw `className` field.
    pub class_name: String,
    /// The raw `synonyms` field.
    pub synonyms: Vec<String>,
    /// The raw `title` field.
    pub title: String,
}

/// The mathematical content of a flat entry.
#[verifier::ext_equal]
pub struct EntryView {
    pub class_name: Seq<char>,
    pub name: Seq<char>,
    pub parent: Option<Seq<char>>,
    pub synonyms: Seq<Seq<char>>,
    pub title: Seq<char>,
}

/// The mathematical content of a path-keyed entry.
#[verifier::ext_equal]
pub struct MapEntryView {
    pub class_name: Seq<char>,
    pub synonyms: Seq<Seq<char>>,
    pub title: Seq<char>,
}

/// The mathematical content of a raw record.
#[verifier::ext_equal]
pub struct RawRecordView {
    pub name: Seq<char>,
    pub parent: Option<Seq<char>>,
    pub class_name: Seq<char>,
    pub synonyms: Seq<Seq<char>>,
    pub title: Seq<char>,
}

impl View for CollectionEntry {
    type V = EntryView;

    open spec fn view(&self) -> EntryView {
        EntryView {
            class_name: self.class_name@,
            name: self.name@,
            parent: opt_id_view(self.parent),
            synonyms: str_views(self.synonyms@),
            title: self.title@,
        }
    }
}

impl View for MapEntry {
    type V = MapEntryView;

    open spec fn view(&self) -> MapEntryView {
        MapEntryView {
            class_name: self.class_name@,
            synonyms: str_views(self.synonyms@),
            title: self.title@,
        }
    }
}

impl View for RawRecord {
    type V = RawRecordView;

    open spec fn view(&self) -> RawRecordView {
        RawRecordView {
            name: self.name@,
            parent: match self.parent {
                Option::None => None,
                Option::Some(p) => Some(p@),
            },
            class_name: self.class_name@,
            synonyms: str_views(self.synonyms@),
            title: self.title@,
        }
    }
}

/// What a path-keyed entry carries over from a flat entry: everything but
/// the name and the parent pointer.
pub open spec fn map_entry_of(e: EntryView) -> MapEntryView {
    MapEntryView { class_name: e.class_name, synonyms: e.synonyms, title: e.title }
}

/// The flat entry that a valid raw record denotes.
pub open spec fn record_entry(r: RawRecordView) -> EntryView {
    EntryView {
        class_name: r.class_name,
        name: r.name,
        parent: r.parent,
        synonyms: r.synonyms,
        title: r.title,
    }
}

/// A raw record passes validation when its name is a valid identifier, its
/// parent (if present) is one too, and its title has no surrounding
/// whitespace.
pub open spec fn record_ok(r: RawRecordView) -> bool {
    &&& valid_identifier(r.name)
    &&& (r.parent matches Some(p) ==> valid_identifier(p))
    &&& trimmed(r.title)
}

/// The error that record validation reports: the first failing field in the
/// order name, parent, title, tagged with the record's raw name.
pub open spec fn record_error_for(re: RecordError, r: RawRecordView) -> bool {
    &&& re.record@ == r.name
    &&& if !valid_identifier(r.name) {
        re.field == Field::Name && identifier_error_for(re.error, r.name)
    } else if r.parent is Some && !valid_identifier(r.parent->0) {
        re.field == Field::Parent && identifier_error_for(re.error, r.parent->0)
    } else {
        re.field == Field::Title && !trimmed(r.title) && (
        re.error matches crate::error::Error::TitleSurroundingWhitespace { raw } && raw@
            == r.title)
    }
}

/// Copies a vector of strings.
pub fn clone_strings(v: &Vec<String>) -> (r: Vec<String>)
    ensures
        str_views(r@) == str_views(v@),
{
    let mut out: Vec<String> = Vec::new();
    let n = v.len();
    let mut i: usize = 0;
    while i < n
        invariant
            i <= n,
            n == v@.len(),
            out@.len() == i,
            forall|j: int| 0 <= j < i ==> out@[j]@ == v@[j]@,
        decreases n - i,
    {
        out.push(v[i].clone());
        i += 1;
    }
    proof {
        assert(str_views(out@) =~~= str_views(v@));
    }
    out
}

impl Clone for CollectionEntry {
    fn clone(&self) -> (r: Self)
        ensures
            r@ == self@,
    {
        let parent: Option<Identifier> = match &self.parent {
            None => None,
            Some(p) => Some(p.clone()),
        };
        let r = CollectionEntry {
            class_name: self.class_name.clone(),
            name: self.name.clone(),
            parent,
            synonyms: clone_strings(&self.synonyms),
            title: self.title.clone(),
        };
        proof {
            assert(r@ =~~= self@);
        }
        r
    }
}

impl Clone for MapEntry {
    fn clone(&self) -> (r: Self)
        ensures
            r@ == self@,
    {
        let r = MapEntry {
            class_name: self.class_name.clone(),
            synonyms: clone_strings(&self.synonyms),
            title: self.title.clone(),
        };
        proof {
            assert(r@ =~~= self@);
        }
        r
    }
}

impl CollectionEntry {
    /// Validates one raw record field by field, in the order name, parent,
    /// title; the class name and the synonyms carry over unvalidated. The
    /// first failure is reported with the failing field and the record's raw
    /// name; a title in the wrong case only attaches a warning.
    pub fn parse_record(r: &RawRecord) -> (res: Result<
        (CollectionEntry, Option<Warning>),
        RecordError,
    >)
        ensures
            res matches Ok((e, w)) ==> record_ok(r@) && e@ == record_entry(r@)
                && title_warning_for(w, r@.title),
            record_ok(r@) ==> res is Ok,
            res matches Err(re) ==> !record_ok(r@) && record_error_for(re, r@),
    {
        let name = match Identifier::parse(r.name.as_str()) {
            Ok(n) => n,
            Err(e) => {
                return Err(
                    RecordError { record: r.name.clone(), field: Field::Name, error: e },
                );
            },
        };
        let parent: Option<Identifier> = match &r.parent {
            None => None,
            Some(p) => match Identifier::parse(p.as_str()) {
                Ok(pi) => Some(pi),
                Err(e) => {
                    return Err(
                        RecordError { record: r.name.clone(), field: Field::Parent, error: e },
                    );
                },
            },
        };
        let (title, warning) = match Title::parse(r.title.as_str()) {
            Ok(tw) => tw,
            Err(e) => {
                return Err(
                    RecordError { record: r.name.clone(), field: Field::Title, error: e },
                );
            },
        };
        let e = CollectionEntry {
            class_name: r.class_name.clone(),
            name,
            parent,
            synonyms: clone_strings(&r.synonyms),
            title,
        };
        proof {
            assert(e@ =~~= record_entry(r@));
        }
        Ok((e, warning))
    }
}

} // verus!
