//! A hierarchical taxonomy kept in two interchangeable shapes: a flat
//! collection of parent-pointer records keyed by identifier, and a nested,
//! path-keyed map. The crate validates the identifier, title and path types
//! and converts between the two shapes in either direction.

pub mod collection;
pub mod entry;
pub mod error;
pub mod ident;
pub mod map;
pub mod path;
pub mod title;

pub use collection::Collection;
pub use entry::CollectionEntry;
pub use entry::MapEntry;
pub use entry::RawRecord;
pub use error::Error;
pub use error::Field;
pub use error::RecordError;
pub use error::Warning;
pub use ident::Identifier;
pub use map::TaxonomyMap;
pub use path::Path;
pub use title::Title;
