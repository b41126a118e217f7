use pdf_cos::cos::{Dict, DictNode};
use pdf_cos::error::{Expected, PdfError};
use pdf_cos::object::{
    deliver, is_flate, length_of, locate_object, read_object, stream_span, ObjectText, Sentinel,
};
use pdf_cos::parser::parse_object;

const HELLO: [u8; 14] = [243, 72, 205, 201, 201, 215, 81, 40, 207, 47, 202, 73, 1, 0];

#[test]
fn text_up_to_endobj() {
    let bytes = b"7 0 obj\n<< /A 1\n/B 2 >>\nendobj\n";
    assert_eq!(
        locate_object(bytes),
        Ok(ObjectText { body: 8, at: 24, sentinel: Sentinel::EndObj })
    );
    let mut expected = Dict::new();
    expected.insert("A".to_string(), DictNode::Int(1));
    expected.insert("B".to_string(), DictNode::Int(2));
    assert_eq!(read_object(bytes), Ok((DictNode::Dict(expected), None)));
}

#[test]
fn text_before_stream_on_the_same_line_is_kept() {
    let bytes = b"7 0 obj\n<< /Length 3 >> stream\nabc\nendstream\nendobj\n";
    assert_eq!(
        locate_object(bytes),
        Ok(ObjectText { body: 8, at: 24, sentinel: Sentinel::Stream })
    );
    let (value, stream) = read_object(bytes).unwrap();
    assert_eq!(value, parse_object(b"<< /Length 3 >>").unwrap());
    assert_eq!(stream, Some(b"abc".to_vec()));
}

#[test]
fn stream_has_priority_in_its_line() {
    let bytes = b"7 0 obj\n1 endobj stream\nendstream";
    assert_eq!(
        locate_object(bytes),
        Ok(ObjectText { body: 8, at: 17, sentinel: Sentinel::Stream })
    );
    let bytes = b"7 0 obj\n1 endobj\nstream\n";
    assert_eq!(
        locate_object(bytes),
        Ok(ObjectText { body: 8, at: 10, sentinel: Sentinel::EndObj })
    );
}

#[test]
fn endstream_ends_the_text_without_a_payload() {
    let bytes = b"7 0 obj\n[ 1 ]\nendstream\nendobj\n";
    assert_eq!(
        locate_object(bytes),
        Ok(ObjectText { body: 8, at: 14, sentinel: Sentinel::EndStream })
    );
    assert_eq!(read_object(bytes), Ok((DictNode::Array(vec![DictNode::Int(1)]), None)));
}

#[test]
fn no_sentinel_is_an_io_error() {
    assert_eq!(
        locate_object(b"7 0 obj\n<< /A 1 >>\n"),
        Err(PdfError::Io { position: 19, expected: Expected::ObjectSentinel })
    );
    assert_eq!(
        locate_object(b"7 0 obj endobj"),
        Err(PdfError::Io { position: 14, expected: Expected::ObjectSentinel })
    );
    assert_eq!(
        read_object(b""),
        Err(PdfError::Io { position: 0, expected: Expected::ObjectSentinel })
    );
}

#[test]
fn payload_by_declared_length() {
    let bytes = b"7 0 obj\n<< /Length 9 >>\nstream\r\nendstream\nendstream\nendobj\n";
    let (_, stream) = read_object(bytes).unwrap();
    assert_eq!(stream, Some(b"endstream".to_vec()));
}

#[test]
fn payload_up_to_endstream() {
    let by_reference = b"7 0 obj\n<< /Length 8 0 R >>\nstream\nabcd\nendstream\nendobj\n";
    let (_, stream) = read_object(by_reference).unwrap();
    assert_eq!(stream, Some(b"abcd\n".to_vec()));
    let too_long = b"7 0 obj\n<< /Length 900 >>\nstream\nabcd\nendstream\nendobj\n";
    let (_, stream) = read_object(too_long).unwrap();
    assert_eq!(stream, Some(b"abcd\n".to_vec()));
    let negative = b"7 0 obj\n<< /Length -1 >>\nstream\nabcd\nendstream\nendobj\n";
    let (_, stream) = read_object(negative).unwrap();
    assert_eq!(stream, Some(b"abcd\n".to_vec()));
}

#[test]
fn payload_without_end() {
    let bytes = b"7 0 obj\n<< /A 1 >>\nstream\nabcd\n";
    assert_eq!(
        read_object(bytes),
        Err(PdfError::Io { position: 26, expected: Expected::StreamPayload })
    );
}

#[test]
fn span_of_a_payload() {
    let value = parse_object(b"<< /Length 2 >>").unwrap();
    assert_eq!(stream_span(b"stream\nab", 0, &value), Ok((7, 9)));
    assert_eq!(stream_span(b"stream\r\nab", 0, &value), Ok((8, 10)));
    assert_eq!(stream_span(b"streamab", 0, &value), Ok((6, 8)));
    assert_eq!(stream_span(b"stream\na", 0, &value), Err(7));
    assert_eq!(stream_span(b"stream\naendstream", 0, &value), Ok((7, 9)));
    assert_eq!(stream_span(b"stream\naendstream", 0, &DictNode::Int(0)), Ok((7, 8)));
    assert_eq!(length_of(&value), Some(2));
    assert_eq!(length_of(&DictNode::Int(2)), None);
    assert_eq!(length_of(&parse_object(b"<< /Length /x >>").unwrap()), None);
}

#[test]
fn flate_stream_is_decoded() {
    let mut bytes = b"5 0 obj\n<< /Length 14 /Filter /FlateDecode >>\nstream\n".to_vec();
    bytes.extend_from_slice(&HELLO);
    bytes.extend_from_slice(b"\nendstream\nendobj\n");
    let (_, stream) = read_object(&bytes).unwrap();
    assert_eq!(stream, Some(b"Hello, world".to_vec()));

    let mut bytes = b"5 0 obj\n<< /Length 14 /Filter [ /FlateDecode ] >>\nstream\n".to_vec();
    bytes.extend_from_slice(&HELLO);
    bytes.extend_from_slice(b"\nendstream\nendobj\n");
    let (_, stream) = read_object(&bytes).unwrap();
    assert_eq!(stream, Some(b"Hello, world".to_vec()));
}

#[test]
fn other_filters_leave_the_bytes() {
    let mut bytes = b"5 0 obj\n<< /Length 14 /Filter /LZWDecode >>\nstream\n".to_vec();
    bytes.extend_from_slice(&HELLO);
    bytes.extend_from_slice(b"\nendstream\nendobj\n");
    let (_, stream) = read_object(&bytes).unwrap();
    assert_eq!(stream, Some(HELLO.to_vec()));
}

#[test]
fn broken_flate_stream_is_a_decompress_error() {
    let bytes = b"5 0 obj\n<< /Length 4 /Filter /FlateDecode >>\nstream\n\xff\xff\xff\xff\nendstream\nendobj\n";
    assert_eq!(
        read_object(bytes),
        Err(PdfError::Decompress { position: 52, expected: Expected::DeflateData })
    );
}

#[test]
fn filter_names() {
    assert!(is_flate(&parse_object(b"<< /Filter /FlateDecode >>").unwrap()));
    assert!(is_flate(&parse_object(b"<< /Filter [/FlateDecode] >>").unwrap()));
    assert!(!is_flate(&parse_object(b"<< /Filter [/A85 /FlateDecode] >>").unwrap()));
    assert!(!is_flate(&parse_object(b"<< /Filter [] >>").unwrap()));
    assert!(!is_flate(&parse_object(b"<< /Filter [1] >>").unwrap()));
    assert!(!is_flate(&parse_object(b"<< /Filter (/FlateDecode) >>").unwrap()));
    assert!(!is_flate(&parse_object(b"<< /Length 1 >>").unwrap()));
    assert!(!is_flate(&parse_object(b"/FlateDecode").unwrap()));
}

#[test]
fn delivery() {
    assert_eq!(deliver(3, false, vec![1, 2], None), Ok(vec![1, 2]));
    assert_eq!(deliver(3, false, vec![1, 2], Some(vec![9])), Ok(vec![1, 2]));
    assert_eq!(deliver(3, true, vec![1, 2], Some(vec![9])), Ok(vec![9]));
    assert_eq!(
        deliver(3, true, vec![1, 2], None),
        Err(PdfError::Decompress { position: 3, expected: Expected::DeflateData })
    );
}

#[test]
fn text_of_the_value_is_looked_for_in_the_first_window() {
    let mut bytes = b"5 0 obj\n".to_vec();
    bytes.extend_from_slice(&vec![b' '; 10240]);
    bytes.extend_from_slice(b"[ 1 ]\nendobj\n");
    assert_eq!(
        read_object(&bytes),
        Err(PdfError::Io { position: 10240, expected: Expected::ObjectSentinel })
    );
    let mut bytes = b"5 0 obj\n<< /Length 20000 >>\nstream\n".to_vec();
    bytes.extend_from_slice(&vec![b'x'; 20000]);
    bytes.extend_from_slice(b"\nendstream\nendobj\n");
    let (_, stream) = read_object(&bytes).unwrap();
    assert_eq!(stream, Some(vec![b'x'; 20000]));
}
