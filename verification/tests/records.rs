use dicomdir::{DataSet, DirectoryRecord, Element, Item, RecordLinks, RecordType, Tag, Value};

fn tag(group: u16, element: u16) -> Tag {
    Tag { group, element }
}

fn strings(t: Tag, parts: &[&str]) -> Element {
    Element { tag: t, value: Value::Strings(parts.iter().map(|s| s.to_string()).collect()) }
}

fn item(offset: u32, elements: Vec<Element>) -> Item {
    Item { offset, attributes: DataSet { elements } }
}

#[test]
fn every_field_is_read_from_its_own_attribute() {
    let record = DirectoryRecord::from_item(&item(
        1234,
        vec![
            Element { tag: tag(0x0004, 0x1400), value: Value::Unsigned(vec![2000]) },
            Element { tag: tag(0x0004, 0x1410), value: Value::Unsigned(vec![0xFFFF]) },
            Element { tag: tag(0x0004, 0x1420), value: Value::Unsigned(vec![3000]) },
            strings(tag(0x0004, 0x1430), &["IMAGE"]),
            strings(tag(0x0004, 0x1500), &["DIR", "SUB", "FILE"]),
            strings(tag(0x0004, 0x1510), &["1.2.840.10008.5.1.4.1.1.2"]),
            strings(tag(0x0004, 0x1511), &["1.2.3.4.5"]),
            strings(tag(0x0004, 0x1512), &["1.2.840.10008.1.2.1"]),
        ],
    ));
    assert_eq!(record.record_type(), RecordType::Image);
    assert_eq!(
        record.referenced_file_id(),
        &vec!["DIR".to_string(), "SUB".to_string(), "FILE".to_string()]
    );
    assert_eq!(
        record.referenced_sop_class_uid(),
        Some(&"1.2.840.10008.5.1.4.1.1.2".to_string())
    );
    assert_eq!(record.referenced_sop_instance_uid(), Some(&"1.2.3.4.5".to_string()));
    assert_eq!(
        record.referenced_transfer_syntax_uid(),
        Some(&"1.2.840.10008.1.2.1".to_string())
    );
    assert_eq!(record.links(), RecordLinks { offset: 1234, next: 2000, lower: 3000 });
    assert_eq!(record.referenced_file_path(), Some("DIR\\SUB\\FILE".to_string()));
}

#[test]
fn patient_and_study_records_refer_to_no_file() {
    for kind in ["PATIENT", "STUDY"] {
        let record = DirectoryRecord::from_item(&item(
            8,
            vec![
                strings(tag(0x0004, 0x1430), &[kind]),
                strings(tag(0x0010, 0x0010), &["DOE^JOHN"]),
            ],
        ));
        assert!(record.referenced_file_id().is_empty());
        assert_eq!(record.referenced_file_path(), None);
        assert_eq!(record.referenced_sop_class_uid(), None);
        assert_eq!(record.referenced_sop_instance_uid(), None);
        assert_eq!(record.referenced_transfer_syntax_uid(), None);
    }
}

#[test]
fn empty_item_gives_an_empty_record() {
    let record = DirectoryRecord::from_item(&item(0, vec![]));
    assert_eq!(record.record_type(), RecordType::Unknown);
    assert!(record.referenced_file_id().is_empty());
    assert_eq!(record.referenced_sop_class_uid(), None);
    assert_eq!(record.links(), RecordLinks { offset: 0, next: 0, lower: 0 });
}

#[test]
fn fields_of_unexpected_form_are_absent() {
    let record = DirectoryRecord::from_item(&item(
        16,
        vec![
            strings(tag(0x0004, 0x1400), &["2000"]),
            Element { tag: tag(0x0004, 0x1420), value: Value::Unsigned(vec![]) },
            Element { tag: tag(0x0004, 0x1430), value: Value::Unsigned(vec![1]) },
            Element { tag: tag(0x0004, 0x1500), value: Value::Other },
            Element { tag: tag(0x0004, 0x1510), value: Value::Sequence(vec![]) },
            Element { tag: tag(0x0004, 0x1511), value: Value::Unsigned(vec![7]) },
            strings(tag(0x0004, 0x1512), &["1.2.840.10008.1.2"]),
        ],
    ));
    assert_eq!(record.record_type(), RecordType::Unknown);
    assert!(record.referenced_file_id().is_empty());
    assert_eq!(record.referenced_sop_class_uid(), None);
    assert_eq!(record.referenced_sop_instance_uid(), None);
    assert_eq!(record.referenced_transfer_syntax_uid(), Some(&"1.2.840.10008.1.2".to_string()));
    assert_eq!(record.links(), RecordLinks { offset: 16, next: 0, lower: 0 });
}

#[test]
fn first_number_of_an_offset_counts() {
    let record = DirectoryRecord::from_item(&item(
        16,
        vec![Element { tag: tag(0x0004, 0x1400), value: Value::Unsigned(vec![77, 88]) }],
    ));
    assert_eq!(record.links().next, 77);
}

#[test]
fn multi_valued_uid_is_joined() {
    let record = DirectoryRecord::from_item(&item(
        16,
        vec![strings(tag(0x0004, 0x1510), &["1.2", "3.4"])],
    ));
    assert_eq!(record.referenced_sop_class_uid(), Some(&"1.2\\3.4".to_string()));
}

#[test]
fn record_types_by_name() {
    let known = [
        ("PATIENT", RecordType::Patient),
        ("STUDY", RecordType::Study),
        ("SERIES", RecordType::Series),
        ("IMAGE", RecordType::Image),
        ("RT DOSE", RecordType::RtDose),
        ("RT STRUCTURE SET", RecordType::RtStructureSet),
        ("RT PLAN", RecordType::RtPlan),
        ("RT TREAT RECORD", RecordType::RtTreatRecord),
        ("PRESENTATION", RecordType::Presentation),
        ("WAVEFORM", RecordType::Waveform),
        ("SR DOCUMENT", RecordType::SrDocument),
        ("KEY OBJECT DOC", RecordType::KeyObjectDoc),
        ("SPECTROSCOPY", RecordType::Spectroscopy),
        ("RAW DATA", RecordType::RawData),
        ("REGISTRATION", RecordType::Registration),
        ("FIDUCIAL", RecordType::Fiducial),
        ("HANGING PROTOCOL", RecordType::HangingProtocol),
        ("ENCAP DOC", RecordType::EncapDoc),
        ("VALUE MAP", RecordType::ValueMap),
        ("STEREOMETRIC", RecordType::Stereometric),
        ("PALETTE", RecordType::Palette),
        ("IMPLANT", RecordType::Implant),
        ("IMPLANT ASSY", RecordType::ImplantAssy),
        ("IMPLANT GROUP", RecordType::ImplantGroup),
        ("PLAN", RecordType::Plan),
        ("MEASUREMENT", RecordType::Measurement),
        ("SURFACE", RecordType::Surface),
        ("SURFACE SCAN", RecordType::SurfaceScan),
        ("TRACT", RecordType::Tract),
        ("ASSESSMENT", RecordType::Assessment),
        ("RADIOTHERAPY", RecordType::Radiotherapy),
        ("PRIVATE", RecordType::Private),
    ];
    for (name, kind) in known {
        assert_eq!(RecordType::from_text(name), kind, "{}", name);
    }
}

#[test]
fn unrecognised_record_types_are_unknown() {
    for name in ["", "patient", "PATIENT ", " PATIENT", "IMAGES", "MRDR", "PATIENT\\STUDY", "Ü"] {
        assert_eq!(RecordType::from_text(name), RecordType::Unknown, "{:?}", name);
    }
}

#[test]
fn file_path_of_a_single_component() {
    let record = DirectoryRecord::from_item(&item(
        16,
        vec![strings(tag(0x0004, 0x1500), &["IMG001"])],
    ));
    assert_eq!(record.referenced_file_path(), Some("IMG001".to_string()));
    let record = DirectoryRecord::from_item(&item(16, vec![strings(tag(0x0004, 0x1500), &[""])]));
    assert_eq!(record.referenced_file_path(), Some(String::new()));
    let record = DirectoryRecord::from_item(&item(16, vec![strings(tag(0x0004, 0x1500), &[])]));
    assert_eq!(record.referenced_file_path(), None);
}
