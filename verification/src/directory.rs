//! The directory as a whole: the attributes of a loaded DICOMDIR, its record
//! sequence, and what can be asked of the records together.

use vstd::prelude::*;
use crate::object::{DataSet, Item};
use crate::record::{record_of, record_views, DirectoryRecord, RecordView};
use crate::tags::{
    directory_record_sequence, directory_record_sequence_tag, referenced_file_id,
    referenced_file_id_tag,
};
use crate::text::{join, join_strings, texts};
use crate::tree::{links_of, RecordTree};
use crate::walk::reconstruction;

verus! {

/// Why the attributes of a file could not be had.
#[derive(Clone, Copy, PartialEq, Eq, Structural, Debug)]
pub enum ReadFailure {
    /// There is no file at the path.
    NotFound,
    /// The file could not be read.
    Io,
    /// The file meta information could not be parsed.
    FileMeta,
    /// The file is encoded in a transfer syntax that cannot be decoded.
    TransferSyntax,
}

/// The directory could not be opened.
#[derive(Clone, Copy, PartialEq, Eq, Structural, Debug)]
pub struct OpenError {
    pub cause: ReadFailure,
}

/// The record sequence could not be taken out of the directory.
#[derive(Clone, Copy, PartialEq, Eq, Structural, Debug)]
pub enum ExtractionError {
    /// The directory holds no Directory Record Sequence.
    MissingElement,
    /// The Directory Record Sequence is there, but its value is no sequence
    /// of items.
    MalformedSequence,
}

/// The file ids of the records that refer to a file, in the order of the
/// records: for each such record the components of its file id, joined by
/// backslashes.
pub open spec fn referenced_file_ids(records: Seq<RecordView>) -> Seq<Seq<char>> {
    records.filter_map(|record: RecordView| record.file_path())
}

/// Whether one of the records refers to a file by the id `id`.
pub open spec fn names_file(records: Seq<RecordView>, id: Seq<char>) -> bool {
    exists|i: int| 0 <= i < records.len() && (#[trigger] records[i]).file_path() == Some(id)
}

/// The file ids are those of the records that refer to a file, and no others;
/// so there are no more of them than records.
pub proof fn lemma_referenced_file_ids(records: Seq<RecordView>)
    ensures
        referenced_file_ids(records).len() <= records.len(),
        forall|id: Seq<char>| #[trigger]
            referenced_file_ids(records).contains(id) <==> names_file(records, id),
    decreases records.len(),
{
    let ids = referenced_file_ids(records);
    if records.len() > 0 {
        let rest = records.drop_last();
        let rest_ids = referenced_file_ids(rest);
        let last = records.last();
        lemma_referenced_file_ids(rest);
        assert forall|id: Seq<char>| #[trigger] ids.contains(id) <==> names_file(records, id) by {
            if ids.contains(id) {
                let k = choose|k: int| 0 <= k < ids.len() && ids[k] == id;
                if k < rest_ids.len() {
                    assert(rest_ids[k] == id);
                    assert(rest_ids.contains(id));
                    let i = choose|i: int|
                        0 <= i < rest.len() && (#[trigger] rest[i]).file_path() == Some(id);
                    assert(records[i].file_path() == Some(id));
                } else {
                    assert(records[records.len() - 1].file_path() == Some(id));
                }
            }
            if names_file(records, id) {
                let i = choose|i: int|
                    0 <= i < records.len() && (#[trigger] records[i]).file_path() == Some(id);
                if i < rest.len() {
                    assert(rest[i].file_path() == Some(id));
                    assert(rest_ids.contains(id));
                    let k = choose|k: int| 0 <= k < rest_ids.len() && rest_ids[k] == id;
                    assert(ids[k] == id);
                } else {
                    assert(ids[ids.len() - 1] == id);
                }
            }
        }
    }
}

/// One record gives its file id, or nothing where it refers to no file.
pub proof fn lemma_referenced_file_ids_of_one(record: RecordView)
    ensures
        referenced_file_ids(seq![record]) == match record.file_path() {
            Some(id) => seq![id],
            None => Seq::empty(),
        },
{
    let one = seq![record];
    assert(one.drop_last() =~= Seq::<RecordView>::empty());
    assert(referenced_file_ids(one.drop_last()) =~= Seq::<Seq<char>>::empty());
    assert(one.last() == record);
    assert(referenced_file_ids(one) =~= match record.file_path() {
        Some(id) => seq![id],
        None => Seq::empty(),
    });
}

/// The file ids keep the order of the records: two lists of records, one
/// after the other, give the file ids of the first followed by those of the
/// second.
pub proof fn lemma_referenced_file_ids_in_order(first: Seq<RecordView>, second: Seq<RecordView>)
    ensures
        referenced_file_ids(first + second) == referenced_file_ids(first) + referenced_file_ids(
            second,
        ),
    decreases second.len(),
{
    if second.len() == 0 {
        assert(first + second =~= first);
        assert(referenced_file_ids(first + second) =~= referenced_file_ids(first)
            + referenced_file_ids(second));
    } else {
        lemma_referenced_file_ids_in_order(first, second.drop_last());
        assert((first + second).drop_last() =~= first + second.drop_last());
        assert((first + second).last() == second.last());
        assert(referenced_file_ids(first + second) =~= referenced_file_ids(first)
            + referenced_file_ids(second));
    }
}

/// The records can be taken out of a directory exactly where its record
/// sequence can, whatever the items hold: each item gives one record, and a
/// field that cannot be read leaves only that field absent.
pub proof fn lemma_records_follow_items(directory: DicomDir)
    ensures
        match directory.items() {
            Ok(items) => {
                &&& directory.records() is Ok
                &&& directory.records()->Ok_0.len() == items.len()
                &&& forall|i: int|
                    0 <= i < items.len() ==> (#[trigger] directory.records()->Ok_0[i]) == record_of(
                        items[i],
                    )
            },
            Err(error) => directory.records() == Err::<Seq<RecordView>, ExtractionError>(error),
        },
{
}

/// A loaded DICOMDIR.
#[derive(Debug)]
pub struct DicomDir {
    file: DataSet,
}

impl DicomDir {
    /// The attributes of the directory.
    pub closed spec fn object(&self) -> DataSet {
        self.file
    }

    /// The items of the Directory Record Sequence.
    pub open spec fn items(&self) -> Result<Seq<Item>, ExtractionError> {
        match self.object().lookup(directory_record_sequence_tag()) {
            None => Err(ExtractionError::MissingElement),
            Some(element) => match element.value.sequence() {
                Some(items) => Ok(items),
                None => Err(ExtractionError::MalformedSequence),
            },
        }
    }

    /// The directory records, in the order of the record sequence.
    pub open spec fn records(&self) -> Result<Seq<RecordView>, ExtractionError> {
        match self.items() {
            Ok(items) => Ok(items.map_values(|item: Item| record_of(item))),
            Err(error) => Err(error),
        }
    }

    /// Makes a directory of what loading a file gave: of its attributes where
    /// it succeeded; where it failed, there is no directory, and the error
    /// names the cause.
    pub fn new(loaded: Result<DataSet, ReadFailure>) -> (r: Result<DicomDir, OpenError>)
        ensures
            match loaded {
                Ok(object) => r is Ok && r->Ok_0.object() == object,
                Err(cause) => r == Err::<DicomDir, OpenError>(OpenError { cause }),
            },
    {
        match loaded {
            Ok(object) => Ok(DicomDir { file: object }),
            Err(cause) => Err(OpenError { cause }),
        }
    }

    /// The items of the Directory Record Sequence.
    fn record_items(&self) -> (r: Result<&Vec<Item>, ExtractionError>)
        ensures
            match r {
                Ok(items) => self.items() == Ok::<Seq<Item>, ExtractionError>(items@),
                Err(error) => self.items() == Err::<Seq<Item>, ExtractionError>(error),
            },
    {
        match self.file.element(directory_record_sequence()) {
            None => Err(ExtractionError::MissingElement),
            Some(element) => match element.value.items() {
                Some(items) => Ok(items),
                None => Err(ExtractionError::MalformedSequence),
            },
        }
    }

    /// Whether the record sequence can be taken out of the directory, and
    /// if not, why.
    pub fn check_directory_record_sequence(&self) -> (r: Result<(), ExtractionError>)
        ensures
            match r {
                Ok(_) => self.items() is Ok,
                Err(error) => self.items() == Err::<Seq<Item>, ExtractionError>(error),
            },
    {
        match self.record_items() {
            Ok(_) => Ok(()),
            Err(error) => Err(error),
        }
    }

    /// The directory records, in the order of the record sequence.
    pub fn get_directory_record_sequence(&self) -> (r: Result<
        Vec<DirectoryRecord>,
        ExtractionError,
    >)
        ensures
            match r {
                Ok(records) => self.records() == Ok::<Seq<RecordView>, ExtractionError>(
                    record_views(records@),
                ),
                Err(error) => self.records() == Err::<Seq<RecordView>, ExtractionError>(error),
            },
    {
        let items = match self.record_items() {
            Ok(items) => items,
            Err(error) => { return Err(error); },
        };
        let mut records: Vec<DirectoryRecord> = Vec::new();
        let mut i: usize = 0;
        while i < items.len()
            invariant
                i <= items.len(),
                records@.len() == i,
                forall|j: int| 0 <= j < i ==> (#[trigger] records@[j])@ == record_of(items@[j]),
            decreases items.len() - i,
        {
            records.push(DirectoryRecord::from_item(&items[i]));
            i += 1;
        }
        assert(record_views(records@) =~= items@.map_values(|item: Item| record_of(item)));
        Ok(records)
    }

    /// The file ids of the records that refer to a file, in the order of the
    /// record sequence; each is the components of the record's file id joined
    /// by backslashes. Records that refer to no file are passed over.
    pub fn get_referenced_file_ids(&self) -> (r: Vec<String>)
        requires
            self.items() is Ok,
        ensures
            texts(r@) == referenced_file_ids(self.records()->Ok_0),
            r@.len() <= self.items()->Ok_0.len(),
    {
        let items = match self.record_items() {
            Ok(items) => items,
            Err(_) => { return Vec::new(); },
        };
        let ghost records = items@.map_values(|item: Item| record_of(item));
        let tag = referenced_file_id();
        let mut ids: Vec<String> = Vec::new();
        let mut i: usize = 0;
        while i < items.len()
            invariant
                i <= items.len(),
                tag == referenced_file_id_tag(),
                records == items@.map_values(|item: Item| record_of(item)),
                texts(ids@) == referenced_file_ids(records.take(i as int)),
                ids@.len() <= i,
            decreases items.len() - i,
        {
            let ghost before = texts(ids@);
            assert(records.take(i + 1).drop_last() =~= records.take(i as int));
            assert(records.take(i + 1).last() == record_of(items@[i as int]));
            match items[i].attributes.element(tag) {
                Some(element) => match element.value.strings() {
                    Some(parts) => {
                        if parts.len() > 0 {
                            ids.push(join_strings(parts));
                            assert(texts(ids@) =~= before + seq![join(texts(parts@))]);
                        }
                    },
                    None => {},
                },
                None => {},
            }
            i += 1;
        }
        assert(records.take(items.len() as int) =~= records);
        ids
    }

    /// The hierarchy of the directory records, reconstructed from the
    /// offsets that link them. Links that cannot be followed are marked in
    /// the hierarchy; only a record sequence that cannot be taken out of the
    /// directory is an error.
    pub fn get_record_tree(&self) -> (r: Result<RecordTree, ExtractionError>)
        ensures
            match r {
                Ok(tree) => self.records() is Ok && tree@ == reconstruction(
                    links_of(self.records()->Ok_0),
                ),
                Err(error) => self.records() == Err::<Seq<RecordView>, ExtractionError>(error),
            },
    {
        match self.get_directory_record_sequence() {
            Ok(records) => Ok(RecordTree::reconstruct(&records)),
            Err(error) => Err(error),
        }
    }

    /// The number of entries of the record sequence.
    pub fn len(&self) -> (r: usize)
        requires
            self.items() is Ok,
        ensures
            r == self.items()->Ok_0.len(),
    {
        match self.record_items() {
            Ok(items) => items.len(),
            Err(_) => 0,
        }
    }
}

} // verus!
