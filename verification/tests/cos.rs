use pdf_cos::cos::{Dict, DictNode};
use pdf_cos::error::{Expected, PdfError};
use pdf_cos::grammar::{Rule, Token};
use pdf_cos::parser::{parse_object, parse_tree, Rdp, StringInput};

#[test]
fn test_key() {
    let mut parser = Rdp::new(StringInput::new("/Hello"));
    assert!(parser.key());
    assert!(parser.end());

    let mut parser = Rdp::new(StringInput::new("\n\n /Hello\t"));
    parser.skip();
    assert!(parser.key());
    parser.skip();
    assert!(parser.end());
}

#[test]
fn test_int() {
    let mut parser = Rdp::new(StringInput::new("45678"));
    assert!(parser.integer());
    assert!(parser.end());

    let mut parser = Rdp::new(StringInput::new("0"));
    assert!(parser.integer());
    assert!(parser.end());

    let mut parser = Rdp::new(StringInput::new("-35"));
    assert!(parser.integer());
    assert!(parser.end());
}

#[test]
fn test_float() {
    let mut parser = Rdp::new(StringInput::new("3.14"));
    assert!(parser.float());
    assert!(parser.end());

    let mut parser = Rdp::new(StringInput::new("-214.946"));
    assert!(parser.float());
    assert!(parser.end());

    let mut parser = Rdp::new(StringInput::new("0.02"));
    assert!(parser.float());
    assert!(parser.end());
}

#[test]
fn test_string() {
    let mut parser = Rdp::new(StringInput::new("(A)"));
    assert!(parser.string());
    assert!(parser.end());

    let mut parser = Rdp::new(StringInput::new(
        "<d83abc5b1b9bea6e1b372681e568f886><d83abc5b1b9bea6e1b372681e568f886>",
    ));
    assert!(parser.string());
    assert!(parser.string());
    assert!(parser.end());
}

#[test]
fn test_object_reference() {
    let mut parser = Rdp::new(StringInput::new("34 0 R"));
    assert!(parser.reference());

    let queue = vec![
        Token::new(Rule::Reference, 0, 6),
        Token::new(Rule::Integer, 0, 2),
        Token::new(Rule::Integer, 3, 4),
    ];
    assert_eq!(parser.queue(), &queue);
}

#[test]
fn test_array() {
    let mut parser = Rdp::new(StringInput::new("[ 342 -124 6421 ]"));
    assert!(parser.array());

    let queue = vec![
        Token::new(Rule::Array, 0, 17),
        Token::new(Rule::BeginArray, 0, 1),
        Token::new(Rule::Integer, 2, 5),
        Token::new(Rule::Integer, 6, 10),
        Token::new(Rule::Integer, 11, 15),
        Token::new(Rule::EndArray, 16, 17),
    ];
    assert_eq!(parser.queue(), &queue);
}

#[test]
fn test_nested_array() {
    let mut parser = Rdp::new(StringInput::new("[ 342 [-124] ]"));
    assert!(parser.array());

    let queue = vec![
        Token::new(Rule::Array, 0, 14),
        Token::new(Rule::BeginArray, 0, 1),
        Token::new(Rule::Integer, 2, 5),
        Token::new(Rule::Array, 6, 12),
        Token::new(Rule::BeginArray, 6, 7),
        Token::new(Rule::Integer, 7, 11),
        Token::new(Rule::EndArray, 11, 12),
        Token::new(Rule::EndArray, 13, 14),
    ];
    assert_eq!(parser.queue(), &queue);
}

#[test]
fn test_empty_array() {
    let mut parser = Rdp::new(StringInput::new("[  ]"));
    assert!(parser.array());

    let queue = vec![
        Token::new(Rule::Array, 0, 4),
        Token::new(Rule::BeginArray, 0, 1),
        Token::new(Rule::EndArray, 3, 4),
    ];
    assert_eq!(parser.queue(), &queue);
}

#[test]
fn test_keypair() {
    let mut parser = Rdp::new(StringInput::new("/Size 65"));
    assert!(parser.keypair());

    let queue = vec![
        Token::new(Rule::Keypair, 0, 8),
        Token::new(Rule::Key, 0, 5),
        Token::new(Rule::Integer, 6, 8),
    ];
    assert_eq!(parser.queue(), &queue);
}

#[test]
fn test_key_keypair() {
    let mut parser = Rdp::new(StringInput::new("/Type/Font/Subtype/TrueType"));
    assert!(parser.keypair());
    assert!(parser.keypair());
    assert!(parser.end());

    let queue = vec![
        Token::new(Rule::Keypair, 0, 10),
        Token::new(Rule::Key, 0, 5),
        Token::new(Rule::Key, 5, 10),
        Token::new(Rule::Keypair, 10, 27),
        Token::new(Rule::Key, 10, 18),
        Token::new(Rule::Key, 18, 27),
    ];
    assert_eq!(parser.queue(), &queue);
}

#[test]
fn test_dictionary() {
    let dict = "<< /Length 5 0 R /Filter /FlateDecode >>";
    let mut parser = Rdp::new(StringInput::new(dict));
    assert!(parser.dictionary());
    assert!(parser.end());
    let queue = vec![
        Token::new(Rule::Dictionary, 0, 40),
        Token::new(Rule::BeginDict, 0, 2),
        Token::new(Rule::Keypair, 3, 16),
        Token::new(Rule::Key, 3, 10),
        Token::new(Rule::Reference, 11, 16),
        Token::new(Rule::Integer, 11, 12),
        Token::new(Rule::Integer, 13, 14),
        Token::new(Rule::Keypair, 17, 37),
        Token::new(Rule::Key, 17, 24),
        Token::new(Rule::Key, 25, 37),
        Token::new(Rule::EndDict, 38, 40),
    ];
    assert_eq!(parser.queue(), &queue);
}

#[test]
fn test_dictionary_with_array() {
    let dict = r#"
        << /Size 65 /Root 35 0 R /Info 1 0 R 
        /ID
        [<d83abc5b1b9bea6e1b372681e568f886><d83abc5b1b9bea6e1b372681e568f886>]
        >>
    "#;
    let mut parser = Rdp::new(StringInput::new(dict));
    parser.skip();
    assert!(parser.dictionary());
    parser.skip();
    assert!(parser.end());
}

#[test]
fn test_complex_dictionary() {
    let dict = r#"
        <</Type/FontDescriptor/FontName/CAAAAA+TimesNewRomanPSMT
        /Flags 6
        /FontBBox[-568 -306 2000 1007]/ItalicAngle 0
        /Ascent 891
        /Descent -216
        /CapHeight 1006
        /StemV 80
        /FontFile2 8 0 R
        >>
    "#;
    let mut parser = Rdp::new(StringInput::new(dict));
    parser.skip();
    assert!(parser.dictionary());
    parser.skip();
    assert!(parser.end());
}

#[test]
fn test_parsing_atoms() {
    let mut parser = Rdp::new(StringInput::new("56"));
    assert!(parser.integer());
    let node = parser.parse();
    assert_eq!(node, Ok(DictNode::Int(56)));

    let mut parser = Rdp::new(StringInput::new("(Bonjour)"));
    assert!(parser.string());
    let node = parser.parse();
    assert_eq!(node, Ok(DictNode::Str("(Bonjour)".to_string())));

    let mut parser = Rdp::new(StringInput::new("true"));
    assert!(parser.boolean());
    let node = parser.parse();
    assert_eq!(node, Ok(DictNode::Bool(true)));
}

#[test]
fn test_parsing_refs() {
    let mut parser = Rdp::new(StringInput::new("30 0 R"));
    assert!(parser.reference());
    let node = parser.parse();
    assert_eq!(node, Ok(DictNode::ObjectReference(30, 0)));
}

#[test]
fn test_parsing_array() {
    let mut parser = Rdp::new(StringInput::new("[ 759 -124 ]"));
    assert!(parser.array());
    let node = parser.parse();
    assert_eq!(
        node,
        Ok(DictNode::Array([DictNode::Int(759), DictNode::Int(-124)].to_vec()))
    );
}

#[test]
fn test_parsing_dict() {
    let dict = "<< /Length 5 0 R /Filter /FlateDecode >>";
    let mut corresponding_map = Dict::new();
    corresponding_map.insert("Length".to_string(), DictNode::ObjectReference(5, 0));
    corresponding_map.insert("Filter".to_string(), DictNode::Str("/FlateDecode".to_string()));
    let mut parser = Rdp::new(StringInput::new(dict));
    assert!(parser.dictionary());
    let node = parser.parse();
    assert_eq!(node, Ok(DictNode::Dict(corresponding_map)));
}

#[test]
fn test_parsing_complex_dictionary() {
    let dict = r#"
        <</Type/FontDescriptor/FontName/CAAAAA+TimesNewRomanPSMT
        /Flags 6
        /FontBBox[-568 -306 2000 1007]/ItalicAngle 0
        /Ascent 891
        /Descent -216
        /CapHeight 1006
        /StemV 80
        /FontFile2 8 0 R
        >>
    "#;
    let bounding_box = DictNode::Array(
        [
            DictNode::Int(-568),
            DictNode::Int(-306),
            DictNode::Int(2000),
            DictNode::Int(1007),
        ]
        .to_vec(),
    );
    let mut corresponding_map = Dict::new();
    corresponding_map.insert("Type".to_string(), DictNode::Str("/FontDescriptor".to_string()));
    corresponding_map.insert(
        "FontName".to_string(),
        DictNode::Str("/CAAAAA+TimesNewRomanPSMT".to_string()),
    );
    corresponding_map.insert("Flags".to_string(), DictNode::Int(6));
    corresponding_map.insert("FontBBox".to_string(), bounding_box);
    corresponding_map.insert("ItalicAngle".to_string(), DictNode::Int(0));
    corresponding_map.insert("Ascent".to_string(), DictNode::Int(891));
    corresponding_map.insert("Descent".to_string(), DictNode::Int(-216));
    corresponding_map.insert("CapHeight".to_string(), DictNode::Int(1006));
    corresponding_map.insert("StemV".to_string(), DictNode::Int(80));
    corresponding_map.insert("FontFile2".to_string(), DictNode::ObjectReference(8, 0));
    let mut parser = Rdp::new(StringInput::new(dict));
    parser.skip();
    assert!(parser.dictionary());
    let node = parser.parse();
    assert_eq!(node, Ok(DictNode::Dict(corresponding_map)));
}

#[test]
fn test_parsing_real_world_dictionary() {
    let dict = "<</Type/Page/Parent 7 0 R/Resources 24 0 \
               R/MediaBox[0 0 612 792]/Annots[4 0 R 5 0 R \
               6 0 R ]/Group<</S/Transparency/CS/DeviceRGB/I \
               true>>/Contents 2 0 R>>";
    let mut parser = Rdp::new(StringInput::new(dict));
    assert!(parser.dictionary());
}

#[test]
fn test_parsing_uri_value() {
    let dict = "<</Type/Annot/Subtype/Link/Border[0 0 0] \
                /Rect[92.5 701.5 236.8 714.2]/A<</Type \
                /Action/S/URI/URI(mailto:human@alumni.ubc.ca)>> \
                >>";
    let mut parser = Rdp::new(StringInput::new(dict));
    assert!(parser.dictionary());
}

#[test]
fn test_whitespace_value() {
    let dict = "<</Producer(GNU Ghostscript 7.05)>>";
    let mut parser = Rdp::new(StringInput::new(dict));
    assert!(parser.dictionary());
}

#[test]
fn test_floating_point_in_dict() {
    let dict = "<</Type/ExtGState/Name/R4/TR/Identity/OPM 1/SM 0.02>>";
    let mut parser = Rdp::new(StringInput::new(dict));
    assert!(parser.dictionary());
}

#[test]
fn test_special_chars_in_string() {
    let dict = "<</Flags(/fi/fl/foo)>>";
    let mut parser = Rdp::new(StringInput::new(dict));
    assert!(parser.dictionary());
}

#[test]
fn reference_is_one_value_not_two_integers() {
    assert_eq!(parse_object(b"34 0 R"), Ok(DictNode::ObjectReference(34, 0)));
    assert_eq!(
        parse_object(b"[34 0 R]"),
        Ok(DictNode::Array(vec![DictNode::ObjectReference(34, 0)]))
    );
    assert_eq!(
        parse_object(b"[1 2 3 R]"),
        Ok(DictNode::Array(vec![DictNode::Int(1), DictNode::ObjectReference(2, 3)]))
    );
}

#[test]
fn array_keeps_source_order() {
    assert_eq!(
        parse_object(b"[ 759 -124 ]"),
        Ok(DictNode::Array(vec![DictNode::Int(759), DictNode::Int(-124)]))
    );
    assert_ne!(
        parse_object(b"[ 759 -124 ]"),
        Ok(DictNode::Array(vec![DictNode::Int(-124), DictNode::Int(759)]))
    );
}

#[test]
fn dictionary_with_reference_and_name() {
    let mut expected = Dict::new();
    expected.insert("Filter".to_string(), DictNode::Str("/FlateDecode".to_string()));
    expected.insert("Length".to_string(), DictNode::ObjectReference(5, 0));
    assert_eq!(
        parse_object(b"<< /Length 5 0 R /Filter /FlateDecode >>"),
        Ok(DictNode::Dict(expected))
    );
}

#[test]
fn dictionary_without_spaces() {
    let mut expected = Dict::new();
    expected.insert(
        "FontBBox".to_string(),
        DictNode::Array(vec![
            DictNode::Int(-568),
            DictNode::Int(-306),
            DictNode::Int(2000),
            DictNode::Int(1007),
        ]),
    );
    assert_eq!(
        parse_object(b"<</FontBBox[-568 -306 2000 1007]>>"),
        Ok(DictNode::Dict(expected))
    );
}

#[test]
fn unbalanced_parentheses_fail_closed() {
    assert_eq!(
        parse_object(b"((22)"),
        Err(PdfError::Grammar { position: 0, expected: Expected::Object })
    );
    let mut parser = Rdp::new(StringInput::new("((22)"));
    assert!(!parser.node());
    assert_eq!(parser.pos(), 0);
    assert!(parser.queue().is_empty());
}

#[test]
fn trailing_input_is_refused() {
    assert_eq!(
        parse_object(b"[1] ]"),
        Err(PdfError::Grammar { position: 4, expected: Expected::EndOfInput })
    );
    assert_eq!(parse_object(b"  [1] \n"), Ok(DictNode::Array(vec![DictNode::Int(1)])));
    assert_eq!(parse_object(b"[1] endobj"), Ok(DictNode::Array(vec![DictNode::Int(1)])));
}

#[test]
fn scalars() {
    assert_eq!(parse_object(b"true"), Ok(DictNode::Bool(true)));
    assert_eq!(parse_object(b"false"), Ok(DictNode::Bool(false)));
    assert_eq!(parse_object(b"-0.5"), Ok(DictNode::Float("-0.5".to_string())));
    assert_eq!(parse_object(b"3."), Ok(DictNode::Float("3.".to_string())));
    assert_eq!(parse_object(b"3"), Ok(DictNode::Int(3)));
    assert_eq!(parse_object(b"/Name"), Ok(DictNode::Str("/Name".to_string())));
    assert_eq!(parse_object(b"<AB12>"), Ok(DictNode::Str("<AB12>".to_string())));
    assert_eq!(parse_object(b"()"), Ok(DictNode::Str("()".to_string())));
    assert_eq!(
        parse_object(b"<>"),
        Err(PdfError::Grammar { position: 0, expected: Expected::Object })
    );
}

#[test]
fn integer_out_of_range_is_a_parse_error() {
    assert_eq!(parse_object(b"9223372036854775807"), Ok(DictNode::Int(i64::MAX)));
    assert_eq!(parse_object(b"-9223372036854775808"), Ok(DictNode::Int(i64::MIN)));
    assert_eq!(
        parse_object(b"9223372036854775808"),
        Err(PdfError::Parse { position: 0, expected: Expected::Integer })
    );
    assert_eq!(
        parse_object(b"[ 1 99999999999999999999 ]"),
        Err(PdfError::Parse { position: 4, expected: Expected::Integer })
    );
}

#[test]
fn nesting_has_a_ceiling() {
    let deep = "[".repeat(64) + &"]".repeat(64);
    assert!(parse_object(deep.as_bytes()).is_ok());
    let deeper = "[".repeat(65) + &"]".repeat(65);
    assert_eq!(
        parse_object(deeper.as_bytes()),
        Err(PdfError::Parse { position: 0, expected: Expected::ShallowerNesting })
    );
    let endless = "[".repeat(100000);
    assert_eq!(
        parse_object(endless.as_bytes()),
        Err(PdfError::Parse { position: 0, expected: Expected::ShallowerNesting })
    );
    let mut parser = Rdp::new(StringInput::new(&deeper));
    assert!(!parser.array());
    assert!(parser.depth_exceeded());
}

#[test]
fn long_arrays_are_read() {
    let mut text = String::from("[");
    let mut expected = Vec::new();
    for i in 0..50000 {
        text.push_str(" 7");
        expected.push(DictNode::Int(7));
        let _ = i;
    }
    text.push_str(" ]");
    assert_eq!(parse_object(text.as_bytes()), Ok(DictNode::Array(expected)));
}

#[test]
fn later_key_replaces_earlier() {
    let mut expected = Dict::new();
    expected.insert("A".to_string(), DictNode::Int(2));
    assert_eq!(parse_object(b"<< /A 1 /A 2 >>"), Ok(DictNode::Dict(expected)));
    let parsed = parse_object(b"<< /A 1 /A 2 >>").unwrap();
    match parsed {
        DictNode::Dict(d) => {
            assert_eq!(d.get("A"), Some(&DictNode::Int(2)));
            assert_eq!(d.get("B"), None);
            assert!(d.contains_key("A"));
        }
        _ => panic!("not a dictionary"),
    }
}

#[test]
fn dictionaries_compare_without_order() {
    let a = parse_object(b"<< /A 1 /B [2 3] >>").unwrap();
    let b = parse_object(b"<< /B [2 3] /A 1 >>").unwrap();
    let c = parse_object(b"<< /B [3 2] /A 1 >>").unwrap();
    let d = parse_object(b"<< /A 1 >>").unwrap();
    assert_eq!(a, b);
    assert_ne!(a, c);
    assert_ne!(a, d);
    assert_ne!(d, a);
    assert_eq!(a.clone(), a);
}

#[test]
fn names_with_bytes_beyond_ascii() {
    assert_eq!(
        parse_object("/Stra\u{df}e".as_bytes()),
        Ok(DictNode::Str("/Stra\u{df}e".to_string()))
    );
    assert_eq!(
        parse_object(b"/A\xff"),
        Err(PdfError::Parse { position: 0, expected: Expected::Utf8Text })
    );
}

#[test]
fn expectation_in_words() {
    assert_eq!(Expected::Object.describe(), "a COS object");
    assert_eq!(Expected::EndOfInput.describe(), "end of input");
    let e = PdfError::Grammar { position: 3, expected: Expected::Object };
    assert_eq!(e.position(), 3);
    assert_eq!(e.expected(), Expected::Object);
    assert_eq!(e.shifted(4), PdfError::Grammar { position: 7, expected: Expected::Object });
}

#[test]
fn parse_tree_of_a_reference_in_an_array() {
    assert_eq!(
        parse_tree(b" [ 34 0 R ]\n"),
        Ok(vec![
            Token::new(Rule::Array, 1, 11),
            Token::new(Rule::BeginArray, 1, 2),
            Token::new(Rule::Reference, 3, 9),
            Token::new(Rule::Integer, 3, 5),
            Token::new(Rule::Integer, 6, 7),
            Token::new(Rule::EndArray, 10, 11),
        ])
    );
    assert_eq!(
        parse_tree(b"[ 34 0 R"),
        Err(PdfError::Grammar { position: 0, expected: Expected::Object })
    );
    assert_eq!(
        parse_tree(b"1 2"),
        Err(PdfError::Grammar { position: 2, expected: Expected::EndOfInput })
    );
}

#[test]
fn parser_over_bytes() {
    let mut parser = Rdp::new(StringInput::from_bytes(b"<AB> /C"));
    assert!(parser.node());
    assert_eq!(parser.pos(), 4);
    parser.skip();
    assert!(parser.node());
    assert!(parser.end());
    assert!(!parser.node());
    assert!(!parser.depth_exceeded());
    assert_eq!(parser.parse(), Ok(DictNode::Str("<AB>".to_string())));
    let empty = Rdp::new(StringInput::new(""));
    assert_eq!(
        empty.parse(),
        Err(PdfError::Parse { position: 0, expected: Expected::Object })
    );
}
