use dicomdir::{
    DataSet, DicomDir, Element, ExtractionError, Item, OpenError, ReadFailure, RecordType, Tag,
    Value,
};

const RECORD_SEQUENCE: Tag = Tag { group: 0x0004, element: 0x1220 };
const NEXT_OFFSET: Tag = Tag { group: 0x0004, element: 0x1400 };
const LOWER_OFFSET: Tag = Tag { group: 0x0004, element: 0x1420 };
const RECORD_TYPE: Tag = Tag { group: 0x0004, element: 0x1430 };
const FILE_ID: Tag = Tag { group: 0x0004, element: 0x1500 };

fn strings(tag: Tag, parts: &[&str]) -> Element {
    Element { tag, value: Value::Strings(parts.iter().map(|s| s.to_string()).collect()) }
}

fn number(tag: Tag, n: u32) -> Element {
    Element { tag, value: Value::Unsigned(vec![n]) }
}

fn record(offset: u32, kind: &str, next: u32, lower: u32, file: Option<&[&str]>) -> Item {
    let mut elements = vec![
        number(NEXT_OFFSET, next),
        number(LOWER_OFFSET, lower),
        strings(RECORD_TYPE, &[kind]),
    ];
    if let Some(parts) = file {
        elements.push(strings(FILE_ID, parts));
    }
    Item { offset, attributes: DataSet { elements } }
}

fn directory(items: Vec<Item>) -> DicomDir {
    let object = DataSet {
        elements: vec![
            strings(Tag { group: 0x0004, element: 0x1130 }, &["DISC1"]),
            Element { tag: RECORD_SEQUENCE, value: Value::Sequence(items) },
        ],
    };
    DicomDir::new(Ok(object)).expect("a loaded object makes a directory")
}

#[test]
fn patient_study_image_scenario() {
    let dir = directory(vec![
        record(400, "PATIENT", 0, 500, None),
        record(500, "STUDY", 0, 600, None),
        record(600, "IMAGE", 0, 0, Some(&["DICOM", "IMG001"])),
    ]);
    assert_eq!(dir.len(), 3);
    assert_eq!(dir.get_referenced_file_ids(), vec!["DICOM\\IMG001".to_string()]);
}

#[test]
fn empty_record_sequence_is_valid() {
    let dir = directory(vec![]);
    assert_eq!(dir.check_directory_record_sequence(), Ok(()));
    assert_eq!(dir.len(), 0);
    assert_eq!(dir.get_referenced_file_ids(), Vec::<String>::new());
    assert_eq!(dir.get_directory_record_sequence().unwrap().len(), 0);
    let tree = dir.get_record_tree().unwrap();
    assert_eq!(tree.len(), 0);
    assert_eq!(tree.roots(), Vec::<usize>::new());
}

#[test]
fn len_counts_the_items_whatever_the_links() {
    // the links are nonsense: the count does not depend on them
    let dir = directory(vec![
        record(10, "IMAGE", 10, 10, None),
        record(10, "IMAGE", 999, 0, None),
        record(0, "SERIES", 0, 0, None),
        record(7, "", 0, 0, None),
    ]);
    assert_eq!(dir.len(), 4);
    assert_eq!(dir.get_directory_record_sequence().unwrap().len(), 4);
}

#[test]
fn file_ids_keep_the_order_of_the_records() {
    let dir = directory(vec![
        record(100, "PATIENT", 0, 200, None),
        record(200, "IMAGE", 300, 0, Some(&["A", "B", "C"])),
        record(300, "IMAGE", 400, 0, Some(&[])),
        record(400, "IMAGE", 500, 0, Some(&["ONLY"])),
        record(500, "STUDY", 0, 0, None),
        record(600, "IMAGE", 0, 0, Some(&["Z", "1"])),
    ]);
    let ids = dir.get_referenced_file_ids();
    assert_eq!(ids, vec!["A\\B\\C".to_string(), "ONLY".to_string(), "Z\\1".to_string()]);
    assert!(ids.len() <= dir.len());
}

#[test]
fn file_id_that_is_no_string_is_passed_over() {
    let mut odd = record(100, "IMAGE", 0, 0, None);
    odd.attributes.elements.push(number(FILE_ID, 5));
    let dir = directory(vec![odd, record(200, "IMAGE", 0, 0, Some(&["X"]))]);
    assert_eq!(dir.get_referenced_file_ids(), vec!["X".to_string()]);
    let records = dir.get_directory_record_sequence().unwrap();
    assert!(records[0].referenced_file_id().is_empty());
}

#[test]
fn missing_record_sequence_is_reported() {
    let object = DataSet { elements: vec![strings(FILE_ID, &["X"])] };
    let dir = DicomDir::new(Ok(object)).unwrap();
    assert_eq!(dir.check_directory_record_sequence(), Err(ExtractionError::MissingElement));
    assert_eq!(
        dir.get_directory_record_sequence().err(),
        Some(ExtractionError::MissingElement)
    );
    assert_eq!(dir.get_record_tree().err(), Some(ExtractionError::MissingElement));
}

#[test]
fn record_sequence_that_is_no_sequence_is_reported() {
    let object = DataSet { elements: vec![strings(RECORD_SEQUENCE, &["PATIENT"])] };
    let dir = DicomDir::new(Ok(object)).unwrap();
    assert_eq!(dir.check_directory_record_sequence(), Err(ExtractionError::MalformedSequence));
    assert_eq!(
        dir.get_directory_record_sequence().err(),
        Some(ExtractionError::MalformedSequence)
    );
    assert_eq!(dir.get_record_tree().err(), Some(ExtractionError::MalformedSequence));

    let object = DataSet { elements: vec![Element { tag: RECORD_SEQUENCE, value: Value::Other }] };
    let dir = DicomDir::new(Ok(object)).unwrap();
    assert_eq!(dir.check_directory_record_sequence(), Err(ExtractionError::MalformedSequence));
}

#[test]
fn first_record_sequence_element_decides() {
    let object = DataSet {
        elements: vec![
            Element { tag: RECORD_SEQUENCE, value: Value::Sequence(vec![record(1, "PATIENT", 0, 0, None)]) },
            Element { tag: RECORD_SEQUENCE, value: Value::Other },
        ],
    };
    let dir = DicomDir::new(Ok(object)).unwrap();
    assert_eq!(dir.len(), 1);
}

#[test]
fn failed_load_gives_open_error() {
    for cause in [
        ReadFailure::NotFound,
        ReadFailure::Io,
        ReadFailure::FileMeta,
        ReadFailure::TransferSyntax,
    ] {
        match DicomDir::new(Err(cause)) {
            Ok(_) => panic!("no directory may come of a failed load"),
            Err(error) => assert_eq!(error, OpenError { cause }),
        }
    }
}

#[test]
fn records_of_a_directory_are_typed() {
    let dir = directory(vec![
        record(400, "PATIENT", 0, 500, None),
        record(500, "STUDY", 0, 600, None),
        record(600, "SERIES", 0, 700, None),
        record(700, "IMAGE", 0, 0, Some(&["DICOM", "IMG001"])),
    ]);
    let records = dir.get_directory_record_sequence().unwrap();
    let kinds: Vec<RecordType> = records.iter().map(|r| r.record_type()).collect();
    assert_eq!(
        kinds,
        vec![RecordType::Patient, RecordType::Study, RecordType::Series, RecordType::Image]
    );
    assert_eq!(records[3].referenced_file_id(), &vec!["DICOM".to_string(), "IMG001".to_string()]);
    assert_eq!(records[0].links().offset, 400);
    assert_eq!(records[0].links().lower, 500);
    assert_eq!(records[0].links().next, 0);
}

#[test]
fn tree_of_a_directory() {
    let dir = directory(vec![
        record(400, "PATIENT", 900, 500, None),
        record(500, "STUDY", 0, 600, None),
        record(600, "SERIES", 0, 700, None),
        record(700, "IMAGE", 800, 0, Some(&["DICOM", "IMG001"])),
        record(800, "IMAGE", 0, 0, Some(&["DICOM", "IMG002"])),
        record(900, "PATIENT", 0, 0, None),
    ]);
    let tree = dir.get_record_tree().unwrap();
    assert_eq!(tree.len(), 6);
    assert_eq!(tree.roots(), vec![0, 5]);
    assert_eq!(tree.children(0), vec![1]);
    assert_eq!(tree.children(1), vec![2]);
    assert_eq!(tree.children(2), vec![3, 4]);
    assert_eq!(tree.children(3), Vec::<usize>::new());
    assert_eq!(tree.children(5), Vec::<usize>::new());
    assert_eq!(tree.visit_order(), &vec![0, 1, 2, 3, 4, 5]);
}

#[test]
fn test_dicom_dir() {
    let object = DataSet {
        elements: vec![Element {
            tag: RECORD_SEQUENCE,
            value: Value::Sequence(vec![
                record(400, "PATIENT", 0, 500, None),
                record(500, "STUDY", 0, 0, None),
            ]),
        }],
    };
    let dicom_dir_result = DicomDir::new(Ok(object));
    let Ok(dicom_dir) = dicom_dir_result else {
        println!("could not load dicom_dir");
        return;
    };
    let directory_record_sequence = dicom_dir.get_directory_record_sequence().unwrap();
    assert_eq!(directory_record_sequence.len(), 2);
    println!("dicom_dir.len() {:?}", dicom_dir.len());
    assert_eq!(dicom_dir.len(), 2);
}
