use eijiro_parser::{parse_field, printer, Complement, Example, Explanation, Field};

#[test]
fn field_is_printed_with_its_parts() {
    let field = Field {
        ident: Some("名".to_string()),
        explanation: Explanation {
            body: "gloss".to_string(),
            complements: vec![
                Complement { body: "one".to_string() },
                Complement { body: "two".to_string() },
            ],
        },
        examples: vec![
            Example {
                sentence: "first".to_string(),
                complements: vec![Complement { body: "hidden".to_string() }],
            },
            Example { sentence: "second".to_string(), complements: vec![] },
        ],
    };
    assert_eq!(
        printer("word", &field),
        "word {名} : gloss\u{e2}\u{2014}\u{2020}one\u{e2}\u{2014}\u{2020}two\n        first\n        second"
    );
}

#[test]
fn field_without_a_tag_is_printed_with_empty_braces() {
    let field = Field {
        ident: None,
        explanation: Explanation { body: String::new(), complements: vec![] },
        examples: vec![],
    };
    assert_eq!(printer("", &field), " {} : ");
    assert_eq!(printer("a b", &field), "a b {} : ");
}

#[test]
fn parsed_field_is_printed() {
    let (headword, field) = parse_field("■xxx : aaa◆bbb◆ccc■ddd◆eee■fff").unwrap();
    assert_eq!(
        printer(&headword, &field),
        "xxx {} : aaa\u{e2}\u{2014}\u{2020}bbb\u{e2}\u{2014}\u{2020}ccc\n        ddd\n        fff"
    );
}
