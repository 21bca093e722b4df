//! Reading the directory records of a DICOMDIR: the flat, offset-linked record
//! sequence of a DICOM media directory, its typed fields, and the hierarchy
//! that the offsets describe.
//!
//! - `object`: the attributes of a decoded DICOM object, found by tag.
//! - `tags`: the tags of the directory-record attributes, read from the
//!   standard data dictionary.
//! - `record`: one directory record and its typed fields.
//! - `directory`: the directory as a whole: its records, their count and the
//!   files they refer to.
//! - `hierarchy`, `walk`, `tree`: the hierarchy of the records, what
//!   reconstructing it means, and the reconstruction itself.
//! - `shape`, `laws`: what holds of every reconstructed hierarchy.
//! - `text`: comparing and joining character strings.

pub mod directory;
pub mod hierarchy;
pub mod laws;
pub mod object;
pub mod record;
pub mod shape;
pub mod tags;
pub mod text;
pub mod tree;
pub mod walk;

pub use directory::{DicomDir, ExtractionError, OpenError, ReadFailure};
pub use hierarchy::{Link, MalformedTree, TreeNode};
pub use object::{DataSet, Element, Item, Value};
pub use record::{DirectoryRecord, RecordLinks, RecordType};
pub use tags::Tag;
pub use tree::RecordTree;
