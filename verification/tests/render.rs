use pdf_cos::cos::{Dict, DictNode};
use pdf_cos::parser::parse_object;
use pdf_cos::render::{float_literal, name_literal, name_text, string_literal};

fn sample() -> DictNode {
    let mut inner = Dict::new();
    inner.insert("S".to_string(), DictNode::Str("/Transparency".to_string()));
    inner.insert("I".to_string(), DictNode::Bool(true));
    let mut outer = Dict::new();
    outer.insert("Type".to_string(), DictNode::Str("/Page".to_string()));
    outer.insert("Parent".to_string(), DictNode::ObjectReference(7, 0));
    outer.insert(
        "MediaBox".to_string(),
        DictNode::Array(vec![
            DictNode::Int(0),
            DictNode::Int(0),
            DictNode::Int(612),
            DictNode::Float("792.5".to_string()),
        ]),
    );
    outer.insert("Group".to_string(), DictNode::Dict(inner));
    outer.insert("Title".to_string(), DictNode::Str("(GNU Ghostscript 7.05)".to_string()));
    outer.insert("ID".to_string(), DictNode::Str("<d83abc5b>".to_string()));
    outer.insert("Empty".to_string(), DictNode::Array(vec![]));
    outer.insert("Low".to_string(), DictNode::Int(i64::MIN));
    outer.insert("No".to_string(), DictNode::Bool(false));
    DictNode::Dict(outer)
}

#[test]
fn text_of_values() {
    assert_eq!(DictNode::Int(-124).to_cos_text(), b"-124 ".to_vec());
    assert_eq!(DictNode::Int(0).to_cos_text(), b"0 ".to_vec());
    assert_eq!(DictNode::Int(i64::MAX).to_cos_text(), b"9223372036854775807 ".to_vec());
    assert_eq!(DictNode::Int(i64::MIN).to_cos_text(), b"-9223372036854775808 ".to_vec());
    assert_eq!(DictNode::Bool(true).to_cos_text(), b"true ".to_vec());
    assert_eq!(DictNode::Bool(false).to_cos_text(), b"false ".to_vec());
    assert_eq!(DictNode::ObjectReference(34, 0).to_cos_text(), b"34 0 R ".to_vec());
    assert_eq!(DictNode::Float("0.02".to_string()).to_cos_text(), b"0.02 ".to_vec());
    assert_eq!(DictNode::Str("/Name".to_string()).to_cos_text(), b"/Name ".to_vec());
    assert_eq!(
        DictNode::Array(vec![DictNode::Int(759), DictNode::Int(-124)]).to_cos_text(),
        b"[ 759 -124 ] ".to_vec()
    );
    assert_eq!(DictNode::Array(vec![]).to_cos_text(), b"[ ] ".to_vec());
    let mut dict = Dict::new();
    dict.insert("Length".to_string(), DictNode::ObjectReference(5, 0));
    dict.insert("Filter".to_string(), DictNode::Str("/FlateDecode".to_string()));
    assert_eq!(
        DictNode::Dict(dict).to_cos_text(),
        b"<< /Length 5 0 R /Filter /FlateDecode >> ".to_vec()
    );
    assert_eq!(DictNode::Dict(Dict::new()).to_cos_text(), b"<< >> ".to_vec());
}

#[test]
fn text_read_back_is_the_value() {
    let value = sample();
    assert_eq!(parse_object(&value.to_cos_text()), Ok(value.clone()));
    for scalar in [
        DictNode::Int(5),
        DictNode::Int(-5),
        DictNode::Bool(true),
        DictNode::ObjectReference(-1, 2),
        DictNode::Float("-3.".to_string()),
        DictNode::Str("()".to_string()),
        DictNode::Str("/A<B>".to_string()),
    ] {
        assert_eq!(parse_object(&scalar.to_cos_text()), Ok(scalar.clone()));
    }
    let integers = DictNode::Array(vec![
        DictNode::Int(1),
        DictNode::Int(2),
        DictNode::ObjectReference(3, 4),
        DictNode::Int(5),
        DictNode::Int(6),
        DictNode::Float("7.0".to_string()),
    ]);
    assert_eq!(parse_object(&integers.to_cos_text()), Ok(integers.clone()));
}

#[test]
fn shadowed_entries_read_back_as_the_same_mapping() {
    let mut dict = Dict::new();
    dict.insert("A".to_string(), DictNode::Int(1));
    dict.insert("A".to_string(), DictNode::Int(2));
    let value = DictNode::Dict(dict);
    assert_eq!(value.to_cos_text(), b"<< /A 1 /A 2 >> ".to_vec());
    assert_eq!(parse_object(&value.to_cos_text()), Ok(value.clone()));
}

#[test]
fn text_that_is_no_literal_does_not_read_back() {
    let bare = DictNode::Str("Bonjour".to_string());
    assert!(parse_object(&bare.to_cos_text()).is_err());
    let name = DictNode::Str("/Two words".to_string());
    assert_ne!(parse_object(&name.to_cos_text()), Ok(name.clone()));
    let holds_sentinel = DictNode::Str("/Xendobj".to_string());
    assert_ne!(parse_object(&holds_sentinel.to_cos_text()), Ok(holds_sentinel.clone()));
}

#[test]
fn literals() {
    assert!(name_text(b"FontBBox"));
    assert!(name_text(b"CAAAAA+TimesNewRomanPSMT"));
    assert!(name_text(b"A<B>"));
    assert!(name_text(b"A<"));
    assert!(!name_text(b""));
    assert!(!name_text(b"A B"));
    assert!(!name_text(b"A/B"));
    assert!(!name_text(b"A<<"));
    assert!(!name_text(b">>A"));
    assert!(!name_text(b"A[1]"));
    assert!(!name_text(b"Xendobj"));
    assert!(name_text(b"endob"));
    assert!(name_literal(b"/Name"));
    assert!(!name_literal(b"Name"));
    assert!(!name_literal(b"/"));
    assert!(string_literal(b"()"));
    assert!(string_literal(b"(mailto:human@alumni.ubc.ca)"));
    assert!(string_literal(b"<d83abc>"));
    assert!(!string_literal(b"<>"));
    assert!(!string_literal(b"(a(b)"));
    assert!(!string_literal(b"(a>"));
    assert!(!string_literal(b"("));
    assert!(float_literal(b"3.14"));
    assert!(float_literal(b"-3."));
    assert!(!float_literal(b".5"));
    assert!(!float_literal(b"3"));
    assert!(!float_literal(b"3.1 "));
    assert!(!float_literal(b"3.1.2"));
}

#[test]
fn values_that_read_back() {
    assert!(sample().reads_back());
    assert!(!DictNode::Str("Bonjour".to_string()).reads_back());
    assert!(!DictNode::Float("1e5".to_string()).reads_back());
    assert!(!DictNode::Array(vec![DictNode::Str("/a b".to_string())]).reads_back());
    let mut bad_key = Dict::new();
    bad_key.insert("two words".to_string(), DictNode::Int(1));
    assert!(!DictNode::Dict(bad_key).reads_back());
    let mut deep = DictNode::Int(1);
    for _ in 0..64 {
        deep = DictNode::Array(vec![deep]);
    }
    assert!(deep.reads_back());
    assert_eq!(parse_object(&deep.to_cos_text()), Ok(deep.clone()));
    let deeper = DictNode::Array(vec![deep]);
    assert!(!deeper.reads_back());
    assert!(parse_object(&deeper.to_cos_text()).is_err());
}
