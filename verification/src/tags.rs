//! Attribute tags, and the tags of the directory-record attributes as the
//! standard data dictionary declares them.
//!
//! The functions that read the dictionary are trusted: each states the group
//! and element number that the dictionary gives the constant it reads.

use vstd::prelude::*;

verus! {

/// A DICOM attribute tag: group number and element number.
#[derive(Clone, Copy, PartialEq, Eq, Structural, Debug, Hash)]
pub struct Tag {
    pub group: u16,
    pub element: u16,
}

/// The tag of Directory Record Sequence, (0004,1220).
pub open spec fn directory_record_sequence_tag() -> Tag {
    Tag { group: 0x0004, element: 0x1220 }
}

/// The tag of Offset of the Next Directory Record, (0004,1400).
pub open spec fn offset_of_the_next_directory_record_tag() -> Tag {
    Tag { group: 0x0004, element: 0x1400 }
}

/// The tag of Offset of Referenced Lower-Level Directory Entity, (0004,1420).
pub open spec fn offset_of_referenced_lower_level_directory_entity_tag() -> Tag {
    Tag { group: 0x0004, element: 0x1420 }
}

/// The tag of Directory Record Type, (0004,1430).
pub open spec fn directory_record_type_tag() -> Tag {
    Tag { group: 0x0004, element: 0x1430 }
}

/// The tag of Referenced File ID, (0004,1500).
pub open spec fn referenced_file_id_tag() -> Tag {
    Tag { group: 0x0004, element: 0x1500 }
}

/// The tag of Referenced SOP Class UID in File, (0004,1510).
pub open spec fn referenced_sop_class_uid_in_file_tag() -> Tag {
    Tag { group: 0x0004, element: 0x1510 }
}

/// The tag of Referenced SOP Instance UID in File, (0004,1511).
pub open spec fn referenced_sop_instance_uid_in_file_tag() -> Tag {
    Tag { group: 0x0004, element: 0x1511 }
}

/// The tag of Referenced Transfer Syntax UID in File, (0004,1512).
pub open spec fn referenced_transfer_syntax_uid_in_file_tag() -> Tag {
    Tag { group: 0x0004, element: 0x1512 }
}

/// Reads `dicom_dictionary_std::tags::DIRECTORY_RECORD_SEQUENCE`.
/// Trusted: the dictionary declares that constant as `Tag(0x0004, 0x1220)`.
#[verifier::external_body]
pub(crate) fn directory_record_sequence() -> (tag: Tag)
    ensures
        tag == directory_record_sequence_tag(),
{
    let tag = dicom_dictionary_std::tags::DIRECTORY_RECORD_SEQUENCE;
    Tag { group: tag.group(), element: tag.element() }
}

/// Reads `dicom_dictionary_std::tags::OFFSET_OF_THE_NEXT_DIRECTORY_RECORD`.
/// Trusted: the dictionary declares that constant as `Tag(0x0004, 0x1400)`.
#[verifier::external_body]
pub(crate) fn offset_of_the_next_directory_record() -> (tag: Tag)
    ensures
        tag == offset_of_the_next_directory_record_tag(),
{
    let tag = dicom_dictionary_std::tags::OFFSET_OF_THE_NEXT_DIRECTORY_RECORD;
    Tag { group: tag.group(), element: tag.element() }
}

/// Reads `dicom_dictionary_std::tags::OFFSET_OF_REFERENCED_LOWER_LEVEL_DIRECTORY_ENTITY`.
/// Trusted: the dictionary declares that constant as `Tag(0x0004, 0x1420)`.
#[verifier::external_body]
pub(crate) fn offset_of_referenced_lower_level_directory_entity() -> (tag: Tag)
    ensures
        tag == offset_of_referenced_lower_level_directory_entity_tag(),
{
    let tag = dicom_dictionary_std::tags::OFFSET_OF_REFERENCED_LOWER_LEVEL_DIRECTORY_ENTITY;
    Tag { group: tag.group(), element: tag.element() }
}

/// Reads `dicom_dictionary_std::tags::DIRECTORY_RECORD_TYPE`.
/// Trusted: the dictionary declares that constant as `Tag(0x0004, 0x1430)`.
#[verifier::external_body]
pub(crate) fn directory_record_type() -> (tag: Tag)
    ensures
        tag == directory_record_type_tag(),
{
    let tag = dicom_dictionary_std::tags::DIRECTORY_RECORD_TYPE;
    Tag { group: tag.group(), element: tag.element() }
}

/// Reads `dicom_dictionary_std::tags::REFERENCED_FILE_ID`.
/// Trusted: the dictionary declares that constant as `Tag(0x0004, 0x1500)`.
#[verifier::external_body]
pub(crate) fn referenced_file_id() -> (tag: Tag)
    ensures
        tag == referenced_file_id_tag(),
{
    let tag = dicom_dictionary_std::tags::REFERENCED_FILE_ID;
    Tag { group: tag.group(), element: tag.element() }
}

/// Reads `dicom_dictionary_std::tags::REFERENCED_SOP_CLASS_UID_IN_FILE`.
/// Trusted: the dictionary declares that constant as `Tag(0x0004, 0x1510)`.
#[verifier::external_body]
pub(crate) fn referenced_sop_class_uid_in_file() -> (tag: Tag)
    ensures
        tag == referenced_sop_class_uid_in_file_tag(),
{
    let tag = dicom_dictionary_std::tags::REFERENCED_SOP_CLASS_UID_IN_FILE;
    Tag { group: tag.group(), element: tag.element() }
}

/// Reads `dicom_dictionary_std::tags::REFERENCED_SOP_INSTANCE_UID_IN_FILE`.
/// Trusted: the dictionary declares that constant as `Tag(0x0004, 0x1511)`.
#[verifier::external_body]
pub(crate) fn referenced_sop_instance_uid_in_file() -> (tag: Tag)
    ensures
        tag == referenced_sop_instance_uid_in_file_tag(),
{
    let tag = dicom_dictionary_std::tags::REFERENCED_SOP_INSTANCE_UID_IN_FILE;
    Tag { group: tag.group(), element: tag.element() }
}

/// Reads `dicom_dictionary_std::tags::REFERENCED_TRANSFER_SYNTAX_UID_IN_FILE`.
/// Trusted: the dictionary declares that constant as `Tag(0x0004, 0x1512)`.
#[verifier::external_body]
pub(crate) fn referenced_transfer_syntax_uid_in_file() -> (tag: Tag)
    ensures
        tag == referenced_transfer_syntax_uid_in_file_tag(),
{
    let tag = dicom_dictionary_std::tags::REFERENCED_TRANSFER_SYNTAX_UID_IN_FILE;
    Tag { group: tag.group(), element: tag.element() }
}

} // verus!
