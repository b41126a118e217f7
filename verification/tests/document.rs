use pdf_cos::cos::DictNode;
use pdf_cos::cos::Dict;
use pdf_cos::document::{
    get_doc_metadata, read_trailer, read_xref, scan_tail, window_offset, xref_section, CHUNK_SIZE,
};
use pdf_cos::object::{ends_inside_stream, read_object};
use pdf_cos::error::{Expected, PdfError};
use pdf_cos::object::{extract_all, extract_object};
use pdf_cos::xref::{XRefEntry, XRefTable};

fn minimal_file() -> (Vec<u8>, usize, usize) {
    let mut file = Vec::new();
    file.extend_from_slice(b"%PDF-1.4\n");
    let object_at = file.len();
    file.extend_from_slice(b"1 0 obj\n<< /Type /Catalog >>\nendobj\n");
    let xref_at = file.len();
    file.extend_from_slice(b"xref\n0 2\n0000000000 65535 f \n");
    file.extend_from_slice(format!("{:010} 00000 n \n", object_at).as_bytes());
    file.extend_from_slice(b"trailer\n<< /Size 2 /Root 1 0 R >>\nstartxref\n");
    file.extend_from_slice(format!("{}\n%%EOF\n", xref_at).as_bytes());
    (file, object_at, xref_at)
}

#[test]
fn bootstrap_of_a_minimal_file() {
    let (file, object_at, _) = minimal_file();
    let (trailer, xref) = get_doc_metadata(&file).unwrap();
    match &trailer {
        DictNode::Dict(d) => {
            assert!(d.contains_key("Root"));
            assert_eq!(d.get("Root"), Some(&DictNode::ObjectReference(1, 0)));
            assert_eq!(d.get("Size"), Some(&DictNode::Int(2)));
        }
        _ => panic!("the trailer is no dictionary"),
    }
    assert_eq!(xref.len(), 2);
    assert_eq!(
        xref,
        XRefTable(vec![
            XRefEntry { offset: 0, generation_id: 65535, is_free: true },
            XRefEntry { offset: object_at as u64, generation_id: 0, is_free: false },
        ])
    );
    let found = extract_all(&file, &xref);
    assert_eq!(found.len(), 1);
    assert_eq!(found[0].id, 1);
    let (value, stream) = found[0].outcome.clone().unwrap();
    assert_eq!(stream, None);
    match value {
        DictNode::Dict(d) => assert_eq!(d.get("Type"), Some(&DictNode::Str("/Catalog".to_string()))),
        _ => panic!("the object is no dictionary"),
    }
}

#[test]
fn only_the_window_at_the_end_is_scanned() {
    let (tail, _, xref_at) = minimal_file();
    let mut file = vec![b'%'; 3 * CHUNK_SIZE];
    file.push(b'\n');
    let shift = file.len();
    let mut moved = Vec::new();
    moved.extend_from_slice(b"1 0 obj\n<< /Type /Catalog >>\nendobj\n");
    let xref_offset = shift + moved.len();
    moved.extend_from_slice(b"xref\n0 2\n0000000000 65535 f \n");
    moved.extend_from_slice(format!("{:010} 00000 n \n", shift).as_bytes());
    moved.extend_from_slice(b"trailer\n<< /Size 2 /Root 1 0 R >>\nstartxref\n");
    moved.extend_from_slice(format!("{}\n%%EOF\n", xref_offset).as_bytes());
    file.extend_from_slice(&moved);
    let (_, xref) = get_doc_metadata(&file).unwrap();
    assert_eq!(xref.entry(1).unwrap().offset, shift as u64);
    let found = extract_all(&file, &xref);
    assert_eq!(found.len(), 1);
    assert!(found[0].outcome.is_ok());
    let _ = (tail, xref_at);

    let mut buried = b"trailer\n<< /Size 2 >>\nstartxref\n9\n".to_vec();
    buried.extend_from_slice(&vec![b' '; CHUNK_SIZE]);
    assert_eq!(
        get_doc_metadata(&buried),
        Err(PdfError::FormatAssumption {
            position: CHUNK_SIZE,
            expected: Expected::StartXRefMarker
        })
    );
}

#[test]
fn tail_scan() {
    let tail = scan_tail(b"junk\ntrailer\n<< /Size 65\n/Root 1 0 R >>\nstartxref\n118424\n%%EOF\n")
        .unwrap();
    assert_eq!(tail.trailer, b"<< /Size 65/Root 1 0 R >>".to_vec());
    assert_eq!(tail.xref_offset, 118424);
}

#[test]
fn tail_without_markers() {
    assert_eq!(
        scan_tail(b"trailer\n<< >>\n%%EOF\n").err(),
        Some(PdfError::FormatAssumption { position: 20, expected: Expected::StartXRefMarker })
    );
    assert_eq!(
        scan_tail(b"trailer\n<< >>\nstartxref").err(),
        Some(PdfError::FormatAssumption { position: 23, expected: Expected::StartXRefMarker })
    );
    assert_eq!(
        scan_tail(b"<< >>\nstartxref\n12\n").err(),
        Some(PdfError::FormatAssumption { position: 0, expected: Expected::TrailerMarker })
    );
    assert_eq!(
        scan_tail(b"").err(),
        Some(PdfError::FormatAssumption { position: 0, expected: Expected::StartXRefMarker })
    );
}

#[test]
fn offset_line_must_be_a_number() {
    assert_eq!(
        scan_tail(b"trailer\n<< >>\nstartxref\n-5\n").err(),
        Some(PdfError::Parse { position: 24, expected: Expected::Integer })
    );
    assert_eq!(
        scan_tail(b"trailer\n<< >>\nstartxref\n12\r\n").err(),
        Some(PdfError::Parse { position: 24, expected: Expected::Integer })
    );
    assert_eq!(
        scan_tail(b"trailer\n<< >>\nstartxref\n\n12\n").err(),
        Some(PdfError::Parse { position: 24, expected: Expected::Integer })
    );
    assert_eq!(scan_tail(b"trailer\n<< >>\nstartxref\n12").unwrap().xref_offset, 12);
}

#[test]
fn trailer_must_be_a_dictionary() {
    assert_eq!(
        read_trailer(b"trailer\n[ 1 2 ]\nstartxref\n12\n"),
        Err(PdfError::Parse { position: 0, expected: Expected::Object })
    );
    assert_eq!(
        read_trailer(b"trailer\n<< /Size\nstartxref\n12\n"),
        Err(PdfError::Grammar { position: 0, expected: Expected::Object })
    );
    let (trailer, offset) = read_trailer(b"trailer\n<< /Size 3 >>\nstartxref\n12\n").unwrap();
    assert_eq!(offset, 12);
    assert!(matches!(trailer, DictNode::Dict(_)));
}

#[test]
fn section_text_ends_with_the_trailer_line() {
    assert_eq!(
        xref_section(b"xref\r\n0 1\r\n0000000000 65535 f\r\ntrailer\r\n<< >>\r\n"),
        Ok(b"xref\n0 1\n0000000000 65535 f\ntrailer\n".to_vec())
    );
    assert_eq!(xref_section(b"xref\ntrailer"), Ok(b"xref\ntrailer\n".to_vec()));
    assert_eq!(
        xref_section(b"xref\n0 1\n"),
        Err(PdfError::Io { position: 9, expected: Expected::TrailerMarker })
    );
    assert_eq!(
        xref_section(b""),
        Err(PdfError::Io { position: 0, expected: Expected::TrailerMarker })
    );
}

#[test]
fn table_from_the_bytes_at_its_offset() {
    let table = read_xref(b"xref\r\n0 2\r\n0000000000 65535 f\r\n0000000017 00000 n\r\ntrailer\r\n")
        .unwrap();
    assert_eq!(
        table,
        XRefTable(vec![
            XRefEntry { offset: 0, generation_id: 65535, is_free: true },
            XRefEntry { offset: 17, generation_id: 0, is_free: false },
        ])
    );
}

#[test]
fn offset_outside_the_file() {
    let file = b"trailer\n<< /Size 1 >>\nstartxref\n999\n".to_vec();
    assert_eq!(
        get_doc_metadata(&file),
        Err(PdfError::Io { position: file.len(), expected: Expected::BytesAtOffset })
    );
}

#[test]
fn one_failure_leaves_the_other_objects() {
    let mut file = Vec::new();
    file.extend_from_slice(b"%PDF-1.4\n");
    let first = file.len();
    file.extend_from_slice(b"1 0 obj\n<< /A 1 >>\nendobj\n");
    let broken = file.len();
    file.extend_from_slice(b"2 0 obj\n<< /A ((2) >>\nendobj\n");
    let third = file.len();
    file.extend_from_slice(b"3 0 obj\n[ 3 ]\nendobj\n");
    let table = XRefTable(vec![
        XRefEntry { offset: 0, generation_id: 65535, is_free: true },
        XRefEntry { offset: first as u64, generation_id: 0, is_free: false },
        XRefEntry { offset: broken as u64, generation_id: 0, is_free: false },
        XRefEntry { offset: 1 << 40, generation_id: 0, is_free: false },
        XRefEntry { offset: third as u64, generation_id: 0, is_free: false },
    ]);
    let found = extract_all(&file, &table);
    assert_eq!(found.len(), 4);
    assert_eq!(found[0].id, 1);
    assert_eq!(found[1].id, 2);
    assert_eq!(found[2].id, 3);
    assert_eq!(found[3].id, 4);
    assert!(found[0].outcome.is_ok());
    assert_eq!(
        found[1].outcome,
        Err(PdfError::Grammar { position: broken + 8, expected: Expected::Object })
    );
    assert_eq!(
        found[2].outcome,
        Err(PdfError::Io { position: file.len(), expected: Expected::BytesAtOffset })
    );
    assert_eq!(found[3].outcome, Ok((DictNode::Array(vec![DictNode::Int(3)]), None)));
    for extraction in &found {
        assert_eq!(extraction.outcome, extract_object(&file, &table.0[extraction.id]));
    }
}

#[test]
fn minimal_file_with_written_trailer() {
    let mut root = Dict::new();
    root.insert("Size".to_string(), DictNode::Int(2));
    root.insert("Root".to_string(), DictNode::ObjectReference(1, 0));
    let trailer = DictNode::Dict(root);
    assert!(trailer.reads_back());
    for (free, used) in [("0", "9"), ("0000000000", "0000000009")] {
        let mut file = b"%PDF-1.4\n".to_vec();
        let object_at = file.len();
        file.extend_from_slice(b"1 0 obj\n<< /Type /Catalog >>\nendobj\n");
        let xref_at = file.len();
        file.extend_from_slice(format!("xref\n0 2\n{} 65535 f \n{} 00000 n \ntrailer\n", free, used).as_bytes());
        file.extend_from_slice(&trailer.to_cos_text());
        file.extend_from_slice(format!("\nstartxref\n{}\n%%EOF", xref_at).as_bytes());
        assert_eq!(object_at, 9);
        assert_eq!(
            get_doc_metadata(&file),
            Ok((
                trailer.clone(),
                XRefTable(vec![
                    XRefEntry { offset: 0, generation_id: 65535, is_free: true },
                    XRefEntry { offset: 9, generation_id: 0, is_free: false },
                ])
            ))
        );
    }
}

#[test]
fn window_starts_a_chunk_before_the_end() {
    assert_eq!(window_offset(0), 0);
    assert_eq!(window_offset(CHUNK_SIZE), 0);
    assert_eq!(window_offset(CHUNK_SIZE + 1), 1);
    assert_eq!(window_offset(usize::MAX), usize::MAX - CHUNK_SIZE);
}

#[test]
fn bytes_that_end_inside_a_stream() {
    let cut = read_object(b"7 0 obj\n<< /Length 9 >>\nstream\nabc");
    assert!(ends_inside_stream(&cut));
    let whole = read_object(b"7 0 obj\n<< /Length 3 >>\nstream\nabc");
    assert!(!ends_inside_stream(&whole));
    assert!(!ends_inside_stream(&read_object(b"7 0 obj\n")));
    assert!(!ends_inside_stream(&read_object(b"7 0 obj\n((\nendobj\n")));
}
