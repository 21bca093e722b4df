//! Directory records: the typed fields of one entry of the record sequence,
//! read from the attributes of its item.

use vstd::prelude::*;
use crate::object::{lemma_lookup, Item};
use crate::tags::{
    directory_record_type, directory_record_type_tag, offset_of_referenced_lower_level_directory_entity,
    offset_of_referenced_lower_level_directory_entity_tag, offset_of_the_next_directory_record,
    offset_of_the_next_directory_record_tag, referenced_file_id, referenced_file_id_tag,
    referenced_sop_class_uid_in_file, referenced_sop_class_uid_in_file_tag,
    referenced_sop_instance_uid_in_file, referenced_sop_instance_uid_in_file_tag,
    referenced_transfer_syntax_uid_in_file, referenced_transfer_syntax_uid_in_file_tag,
};
use crate::text::{join, join_strings, same_text, texts};

verus! {

/// The kind of a directory record, as its Directory Record Type names it.
#[derive(Clone, Copy, PartialEq, Eq, Structural, Debug, Hash)]
pub enum RecordType {
    /// `PATIENT`
    Patient,
    /// `STUDY`
    Study,
    /// `SERIES`
    Series,
    /// `IMAGE`
    Image,
    /// `RT DOSE`
    RtDose,
    /// `RT STRUCTURE SET`
    RtStructureSet,
    /// `RT PLAN`
    RtPlan,
    /// `RT TREAT RECORD`
    RtTreatRecord,
    /// `PRESENTATION`
    Presentation,
    /// `WAVEFORM`
    Waveform,
    /// `SR DOCUMENT`
    SrDocument,
    /// `KEY OBJECT DOC`
    KeyObjectDoc,
    /// `SPECTROSCOPY`
    Spectroscopy,
    /// `RAW DATA`
    RawData,
    /// `REGISTRATION`
    Registration,
    /// `FIDUCIAL`
    Fiducial,
    /// `HANGING PROTOCOL`
    HangingProtocol,
    /// `ENCAP DOC`
    EncapDoc,
    /// `VALUE MAP`
    ValueMap,
    /// `STEREOMETRIC`
    Stereometric,
    /// `PALETTE`
    Palette,
    /// `IMPLANT`
    Implant,
    /// `IMPLANT ASSY`
    ImplantAssy,
    /// `IMPLANT GROUP`
    ImplantGroup,
    /// `PLAN`
    Plan,
    /// `MEASUREMENT`
    Measurement,
    /// `SURFACE`
    Surface,
    /// `SURFACE SCAN`
    SurfaceScan,
    /// `TRACT`
    Tract,
    /// `ASSESSMENT`
    Assessment,
    /// `RADIOTHERAPY`
    Radiotherapy,
    /// `PRIVATE`
    Private,
    /// Any other value, and a record that names no type.
    Unknown,
}

impl RecordType {
    /// The record type that a Directory Record Type value names.
    pub open spec fn classify(text: Seq<char>) -> RecordType {
        if text == "PATIENT"@ {
            RecordType::Patient
        } else if text == "STUDY"@ {
            RecordType::Study
        } else if text == "SERIES"@ {
            RecordType::Series
        } else if text == "IMAGE"@ {
            RecordType::Image
        } else if text == "RT DOSE"@ {
            RecordType::RtDose
        } else if text == "RT STRUCTURE SET"@ {
            RecordType::RtStructureSet
        } else if text == "RT PLAN"@ {
            RecordType::RtPlan
        } else if text == "RT TREAT RECORD"@ {
            RecordType::RtTreatRecord
        } else if text == "PRESENTATION"@ {
            RecordType::Presentation
        } else if text == "WAVEFORM"@ {
            RecordType::Waveform
        } else if text == "SR DOCUMENT"@ {
            RecordType::SrDocument
        } else if text == "KEY OBJECT DOC"@ {
            RecordType::KeyObjectDoc
        } else if text == "SPECTROSCOPY"@ {
            RecordType::Spectroscopy
        } else if text == "RAW DATA"@ {
            RecordType::RawData
        } else if text == "REGISTRATION"@ {
            RecordType::Registration
        } else if text == "FIDUCIAL"@ {
            RecordType::Fiducial
        } else if text == "HANGING PROTOCOL"@ {
            RecordType::HangingProtocol
        } else if text == "ENCAP DOC"@ {
            RecordType::EncapDoc
        } else if text == "VALUE MAP"@ {
            RecordType::ValueMap
        } else if text == "STEREOMETRIC"@ {
            RecordType::Stereometric
        } else if text == "PALETTE"@ {
            RecordType::Palette
        } else if text == "IMPLANT"@ {
            RecordType::Implant
        } else if text == "IMPLANT ASSY"@ {
            RecordType::ImplantAssy
        } else if text == "IMPLANT GROUP"@ {
            RecordType::ImplantGroup
        } else if text == "PLAN"@ {
            RecordType::Plan
        } else if text == "MEASUREMENT"@ {
            RecordType::Measurement
        } else if text == "SURFACE"@ {
            RecordType::Surface
        } else if text == "SURFACE SCAN"@ {
            RecordType::SurfaceScan
        } else if text == "TRACT"@ {
            RecordType::Tract
        } else if text == "ASSESSMENT"@ {
            RecordType::Assessment
        } else if text == "RADIOTHERAPY"@ {
            RecordType::Radiotherapy
        } else if text == "PRIVATE"@ {
            RecordType::Private
        } else {
            RecordType::Unknown
        }
    }

    /// The record type that a Directory Record Type value names; `Unknown`
    /// for a value that is none of the known ones.
    pub fn from_text(text: &str) -> (r: RecordType)
        ensures
            r == RecordType::classify(text@),
    {
        if same_text(text, "PATIENT") {
            RecordType::Patient
        } else if same_text(text, "STUDY") {
            RecordType::Study
        } else if same_text(text, "SERIES") {
            RecordType::Series
        } else if same_text(text, "IMAGE") {
            RecordType::Image
        } else if same_text(text, "RT DOSE") {
            RecordType::RtDose
        } else if same_text(text, "RT STRUCTURE SET") {
            RecordType::RtStructureSet
        } else if same_text(text, "RT PLAN") {
            RecordType::RtPlan
        } else if same_text(text, "RT TREAT RECORD") {
            RecordType::RtTreatRecord
        } else if same_text(text, "PRESENTATION") {
            RecordType::Presentation
        } else if same_text(text, "WAVEFORM") {
            RecordType::Waveform
        } else if same_text(text, "SR DOCUMENT") {
            RecordType::SrDocument
        } else if same_text(text, "KEY OBJECT DOC") {
            RecordType::KeyObjectDoc
        } else if same_text(text, "SPECTROSCOPY") {
            RecordType::Spectroscopy
        } else if same_text(text, "RAW DATA") {
            RecordType::RawData
        } else if same_text(text, "REGISTRATION") {
            RecordType::Registration
        } else if same_text(text, "FIDUCIAL") {
            RecordType::Fiducial
        } else if same_text(text, "HANGING PROTOCOL") {
            RecordType::HangingProtocol
        } else if same_text(text, "ENCAP DOC") {
            RecordType::EncapDoc
        } else if same_text(text, "VALUE MAP") {
            RecordType::ValueMap
        } else if same_text(text, "STEREOMETRIC") {
            RecordType::Stereometric
        } else if same_text(text, "PALETTE") {
            RecordType::Palette
        } else if same_text(text, "IMPLANT") {
            RecordType::Implant
        } else if same_text(text, "IMPLANT ASSY") {
            RecordType::ImplantAssy
        } else if same_text(text, "IMPLANT GROUP") {
            RecordType::ImplantGroup
        } else if same_text(text, "PLAN") {
            RecordType::Plan
        } else if same_text(text, "MEASUREMENT") {
            RecordType::Measurement
        } else if same_text(text, "SURFACE") {
            RecordType::Surface
        } else if same_text(text, "SURFACE SCAN") {
            RecordType::SurfaceScan
        } else if same_text(text, "TRACT") {
            RecordType::Tract
        } else if same_text(text, "ASSESSMENT") {
            RecordType::Assessment
        } else if same_text(text, "RADIOTHERAPY") {
            RecordType::Radiotherapy
        } else if same_text(text, "PRIVATE") {
            RecordType::Private
        } else {
            RecordType::Unknown
        }
    }
}

/// The offsets by which a record is linked into the hierarchy: where its own
/// item begins, and where the items of its next sibling and of its first
/// child begin. A next or lower offset of zero names no record.
#[derive(Clone, Copy, PartialEq, Eq, Structural, Debug)]
pub struct RecordLinks {
    pub offset: u32,
    pub next: u32,
    pub lower: u32,
}

/// What a directory record holds.
pub struct RecordView {
    pub record_type: RecordType,
    pub referenced_file_id: Seq<Seq<char>>,
    pub referenced_sop_class_uid: Option<Seq<char>>,
    pub referenced_sop_instance_uid: Option<Seq<char>>,
    pub referenced_transfer_syntax_uid: Option<Seq<char>>,
    pub links: RecordLinks,
}

impl RecordView {
    /// Whether the record refers to a file.
    pub open spec fn has_file_reference(self) -> bool {
        self.referenced_file_id.len() > 0
    }

    /// The file id as one string, its components joined by backslashes;
    /// absent where the record refers to no file.
    pub open spec fn file_path(self) -> Option<Seq<char>> {
        if self.has_file_reference() {
            Some(join(self.referenced_file_id))
        } else {
            None
        }
    }
}

/// The offset that an offset attribute gives: zero where it is absent.
pub open spec fn offset_or_none(number: Option<u32>) -> u32 {
    match number {
        Some(offset) => offset,
        None => 0,
    }
}

/// The directory record that an item of the record sequence describes. Each
/// field is read by itself: an attribute that is missing, or whose value has
/// not the expected form, leaves its field absent and the others as they are.
pub open spec fn record_of(item: Item) -> RecordView {
    RecordView {
        record_type: match item.attributes.text_of(directory_record_type_tag()) {
            Some(text) => RecordType::classify(text),
            None => RecordType::Unknown,
        },
        referenced_file_id: item.attributes.components_of(referenced_file_id_tag()),
        referenced_sop_class_uid: item.attributes.text_of(referenced_sop_class_uid_in_file_tag()),
        referenced_sop_instance_uid: item.attributes.text_of(
            referenced_sop_instance_uid_in_file_tag(),
        ),
        referenced_transfer_syntax_uid: item.attributes.text_of(
            referenced_transfer_syntax_uid_in_file_tag(),
        ),
        links: RecordLinks {
            offset: item.offset,
            next: offset_or_none(
                item.attributes.number_of(offset_of_the_next_directory_record_tag()),
            ),
            lower: offset_or_none(
                item.attributes.number_of(offset_of_referenced_lower_level_directory_entity_tag()),
            ),
        },
    }
}

/// What an optional string holds.
pub open spec fn optional_text(string: Option<String>) -> Option<Seq<char>> {
    match string {
        Some(s) => Some(s@),
        None => None,
    }
}

/// One entry of the directory record sequence.
#[derive(Debug)]
pub struct DirectoryRecord {
    record_type: RecordType,
    referenced_file_id: Vec<String>,
    referenced_sop_class_uid: Option<String>,
    referenced_sop_instance_uid: Option<String>,
    referenced_transfer_syntax_uid: Option<String>,
    links: RecordLinks,
}

impl View for DirectoryRecord {
    type V = RecordView;

    closed spec fn view(&self) -> RecordView {
        RecordView {
            record_type: self.record_type,
            referenced_file_id: texts(self.referenced_file_id@),
            referenced_sop_class_uid: optional_text(self.referenced_sop_class_uid),
            referenced_sop_instance_uid: optional_text(self.referenced_sop_instance_uid),
            referenced_transfer_syntax_uid: optional_text(self.referenced_transfer_syntax_uid),
            links: self.links,
        }
    }
}

impl DirectoryRecord {
    /// Reads the record that an item of the record sequence describes.
    pub fn from_item(item: &Item) -> (record: DirectoryRecord)
        ensures
            record@ == record_of(*item),
    {
        let record_type = match item.attributes.string_of(directory_record_type()) {
            Some(text) => RecordType::from_text(text.as_str()),
            None => RecordType::Unknown,
        };
        let next = match item.attributes.u32_of(offset_of_the_next_directory_record()) {
            Some(offset) => offset,
            None => 0,
        };
        let lower = match item.attributes.u32_of(
            offset_of_referenced_lower_level_directory_entity(),
        ) {
            Some(offset) => offset,
            None => 0,
        };
        DirectoryRecord {
            record_type,
            referenced_file_id: item.attributes.strings_of(referenced_file_id()),
            referenced_sop_class_uid: item.attributes.string_of(referenced_sop_class_uid_in_file()),
            referenced_sop_instance_uid: item.attributes.string_of(
                referenced_sop_instance_uid_in_file(),
            ),
            referenced_transfer_syntax_uid: item.attributes.string_of(
                referenced_transfer_syntax_uid_in_file(),
            ),
            links: RecordLinks { offset: item.offset, next, lower },
        }
    }

    /// The kind of the record.
    pub fn record_type(&self) -> (r: RecordType)
        ensures
            r == self@.record_type,
    {
        self.record_type
    }

    /// The components of the path of the file that the record refers to, in
    /// order; none where it refers to no file.
    pub fn referenced_file_id(&self) -> (r: &Vec<String>)
        ensures
            texts(r@) == self@.referenced_file_id,
    {
        &self.referenced_file_id
    }

    /// The file id as one string, its components joined by backslashes;
    /// absent where the record refers to no file.
    pub fn referenced_file_path(&self) -> (r: Option<String>)
        ensures
            optional_text(r) == self@.file_path(),
    {
        if self.referenced_file_id.len() > 0 {
            Some(join_strings(&self.referenced_file_id))
        } else {
            None
        }
    }

    /// The SOP class UID of the file that the record refers to.
    pub fn referenced_sop_class_uid(&self) -> (r: Option<&String>)
        ensures
            optional_text_ref(r) == self@.referenced_sop_class_uid,
    {
        self.referenced_sop_class_uid.as_ref()
    }

    /// The SOP instance UID of the file that the record refers to.
    pub fn referenced_sop_instance_uid(&self) -> (r: Option<&String>)
        ensures
            optional_text_ref(r) == self@.referenced_sop_instance_uid,
    {
        self.referenced_sop_instance_uid.as_ref()
    }

    /// The transfer syntax UID of the file that the record refers to.
    pub fn referenced_transfer_syntax_uid(&self) -> (r: Option<&String>)
        ensures
            optional_text_ref(r) == self@.referenced_transfer_syntax_uid,
    {
        self.referenced_transfer_syntax_uid.as_ref()
    }

    /// The offsets that link the record into the hierarchy.
    pub fn links(&self) -> (r: RecordLinks)
        ensures
            r == self@.links,
    {
        self.links
    }
}

/// What a list of directory records holds, record by record.
pub open spec fn record_views(records: Seq<DirectoryRecord>) -> Seq<RecordView> {
    Seq::new(records.len(), |i: int| records[i]@)
}

/// What an optional borrowed string holds.
pub open spec fn optional_text_ref(string: Option<&String>) -> Option<Seq<char>> {
    match string {
        Some(s) => Some(s@),
        None => None,
    }
}

/// A record whose item carries none of the file-reference attributes refers
/// to no file: its file id has no component and its three UIDs are absent,
/// whatever else the item holds.
pub proof fn lemma_record_without_file_reference(item: Item)
    requires
        !item.attributes.carries(referenced_file_id_tag()),
        !item.attributes.carries(referenced_sop_class_uid_in_file_tag()),
        !item.attributes.carries(referenced_sop_instance_uid_in_file_tag()),
        !item.attributes.carries(referenced_transfer_syntax_uid_in_file_tag()),
    ensures
        record_of(item).referenced_file_id == Seq::<Seq<char>>::empty(),
        !record_of(item).has_file_reference(),
        record_of(item).file_path() is None,
        record_of(item).referenced_sop_class_uid is None,
        record_of(item).referenced_sop_instance_uid is None,
        record_of(item).referenced_transfer_syntax_uid is None,
{
    lemma_lookup(item.attributes, referenced_file_id_tag());
    lemma_lookup(item.attributes, referenced_sop_class_uid_in_file_tag());
    lemma_lookup(item.attributes, referenced_sop_instance_uid_in_file_tag());
    lemma_lookup(item.attributes, referenced_transfer_syntax_uid_in_file_tag());
}

} // verus!
