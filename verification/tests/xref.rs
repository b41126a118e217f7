use pdf_cos::error::{Expected, PdfError};
use pdf_cos::parser::StringInput;
use pdf_cos::xref::{parse_xref, Rdp, Rule, Token, XRefEntry, XRefTable};

#[test]
fn test_parsing_int() {
    let mut parser = Rdp::new(StringInput::new("0"));
    assert!(parser.integer());
    assert!(parser.end());

    let mut parser = Rdp::new(StringInput::new("0000118424"));
    assert!(parser.integer());
    assert!(parser.end());
}

#[test]
fn test_parsing_xref_elements() {
    let mut parser = Rdp::new(StringInput::new("1 2 f \n"));
    assert!(parser.xref_entry());
    assert!(parser.end());

    let queue = vec![
        Token::new(Rule::XrefEntry, 0, 7),
        Token::new(Rule::Integer, 0, 1),
        Token::new(Rule::Integer, 2, 3),
        Token::new(Rule::Usage, 4, 5),
    ];
    assert_eq!(parser.queue(), &queue);

    let mut parser = Rdp::new(StringInput::new("xref\n"));
    assert!(parser.xref_begin());
    assert!(parser.end());

    let mut parser = Rdp::new(StringInput::new("trailer\n"));
    assert!(parser.xref_end());
    assert!(parser.end());

    let mut parser = Rdp::new(StringInput::new("0 65\n"));
    assert!(parser.xref_header());
    assert!(parser.end());
}

#[test]
fn test_parsing_xref() {
    let xref = "\n    xref\n  0 65\n 0000000000 65535 f\n 0000118424 00000 n\ntrailer\n";
    let expected_xref = XRefTable(
        [
            XRefEntry { offset: 0, generation_id: 65535, is_free: true },
            XRefEntry { offset: 118424, generation_id: 0, is_free: false },
        ]
        .to_vec(),
    );

    let mut parser = Rdp::new(StringInput::new(xref));
    parser.skip();
    assert!(parser.xref());
    let xref = parser.parse();
    assert_eq!(xref, Ok(expected_xref));
}

#[test]
fn section_of_two_entries_in_file_order() {
    let text = b"xref\n0 2\n0000000000 65535 f \n0000118424 00000 n \ntrailer\n";
    let expected = XRefTable(vec![
        XRefEntry { offset: 0, generation_id: 65535, is_free: true },
        XRefEntry { offset: 118424, generation_id: 0, is_free: false },
    ]);
    let table = parse_xref(text).unwrap();
    assert_eq!(table, expected);
    assert_eq!(table.len(), 2);
    assert_eq!(table.entry(0), Some(XRefEntry { offset: 0, generation_id: 65535, is_free: true }));
    assert_eq!(
        table.entry(1),
        Some(XRefEntry { offset: 118424, generation_id: 0, is_free: false })
    );
    assert_eq!(table.entry(2), None);
    let reversed = XRefTable(vec![
        XRefEntry { offset: 118424, generation_id: 0, is_free: false },
        XRefEntry { offset: 0, generation_id: 65535, is_free: true },
    ]);
    assert_ne!(table, reversed);
}

#[test]
fn declared_count_must_match() {
    let text = b"xref\n0 65\n0000000000 65535 f\n0000118424 00000 n\ntrailer\n";
    assert_eq!(
        parse_xref(text),
        Err(PdfError::Parse { position: 7, expected: Expected::DeclaredEntryCount })
    );
}

#[test]
fn malformed_entry_fails_the_whole_section() {
    let unknown_flag = b"xref\n0 2\n0000000000 65535 f \n0000118424 00000 x \ntrailer\n";
    assert_eq!(
        parse_xref(unknown_flag),
        Err(PdfError::FormatAssumption { position: 29, expected: Expected::XRefSection })
    );
    let missing_field = b"xref\n0 1\n0000000000 f \ntrailer\n";
    assert_eq!(
        parse_xref(missing_field),
        Err(PdfError::FormatAssumption { position: 9, expected: Expected::XRefSection })
    );
    assert_eq!(
        parse_xref(b""),
        Err(PdfError::FormatAssumption { position: 0, expected: Expected::XRefSection })
    );
    assert_eq!(
        parse_xref(b"xref\n0 1\n0000000000 65535 f \n0000000017 0 n\n"),
        Err(PdfError::FormatAssumption { position: 44, expected: Expected::XRefSection })
    );
}

#[test]
fn section_without_entries_is_an_empty_table() {
    assert_eq!(parse_xref(b"xref\n0 0\ntrailer\n"), Ok(XRefTable(vec![])));
    assert_eq!(parse_xref(b"xref\n7 0\n\ntrailer\n").map(|t| t.len()), Ok(0));
    assert_eq!(
        parse_xref(b"xref\n0 1\ntrailer\n"),
        Err(PdfError::Parse { position: 7, expected: Expected::DeclaredEntryCount })
    );
    assert_eq!(
        parse_xref(b"xref\n0 0\n0000000000 65535 f \ntrailer\n"),
        Err(PdfError::Parse { position: 7, expected: Expected::DeclaredEntryCount })
    );
    let mut parser = Rdp::new(StringInput::new("xref\n0 0\ntrailer\n"));
    assert!(parser.xref());
    assert!(parser.end());
    let queue = vec![
        Token::new(Rule::Xref, 0, 17),
        Token::new(Rule::XrefBegin, 0, 5),
        Token::new(Rule::XrefHeader, 5, 9),
        Token::new(Rule::Integer, 5, 6),
        Token::new(Rule::Integer, 7, 8),
        Token::new(Rule::XrefEnd, 9, 17),
    ];
    assert_eq!(parser.queue(), &queue);
    assert_eq!(parser.parse(), Ok(XRefTable(vec![])));
}

#[test]
fn text_behind_the_section_is_refused() {
    let text = b"xref\n0 1\n0000000000 65535 f \ntrailer\n<<";
    assert_eq!(
        parse_xref(text),
        Err(PdfError::Grammar { position: 37, expected: Expected::EndOfInput })
    );
    let text = b"xref\n0 1\n0000000000 65535 f \ntrailer\n \n\t\n";
    assert_eq!(parse_xref(text).map(|t| t.len()), Ok(1));
}

#[test]
fn offset_beyond_u64_is_a_parse_error() {
    let text = b"xref\n0 1\n18446744073709551616 0 n \ntrailer\n";
    assert_eq!(
        parse_xref(text),
        Err(PdfError::Parse { position: 9, expected: Expected::Integer })
    );
    let text = b"xref\n0 1\n18446744073709551615 0 n \ntrailer\n";
    assert_eq!(
        parse_xref(text),
        Ok(XRefTable(vec![XRefEntry { offset: u64::MAX, generation_id: 0, is_free: false }]))
    );
}
