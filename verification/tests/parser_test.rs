use noet::attribute::Attribute;
use noet::parse_tree::{Block, ParsedElement};
use noet::parser::Parser;

fn text(t: &str) -> ParsedElement {
    ParsedElement::Text(t.to_string())
}

#[test]
fn simple_text() {
    let mut parser = Parser::new("This is some simple text.");

    assert_eq!(parser.next(), Some(Ok(text("This is some simple text."))));
    assert!(parser.next().is_none());
}

#[test]
fn matching_paren_text() {
    let mut parser = Parser::new("This is some (simple) text.");

    assert_eq!(parser.next(), Some(Ok(text("This is some (simple) text."))));
    assert!(parser.next().is_none());
}

#[test]
fn matching_paren_start_text() {
    let mut parser = Parser::new("(simple)");

    assert_eq!(parser.next(), Some(Ok(text("(simple)"))));
    assert!(parser.next().is_none());
}

#[test]
fn paragraph() {
    let mut parser = Parser::new("This is some simple text.\n\nAnd this is a new paragraph.");

    assert_eq!(parser.next(), Some(Ok(text("This is some simple text."))));
    assert_eq!(parser.next(), Some(Ok(ParsedElement::HardLinebreak)));
    assert_eq!(parser.next(), Some(Ok(text("And this is a new paragraph."))));
    assert!(parser.next().is_none());
}

#[test]
fn function() {
    let mut parser = Parser::new("[#test first | second]");

    assert_eq!(
        parser.next(),
        Some(Ok(ParsedElement::Function(
            "test".to_string(),
            vec![],
            vec![text("first"), text("second")]
        )))
    );
    assert!(parser.next().is_none());
}

#[test]
fn function_arguments() {
    let mut parser = Parser::new("[#title Test Document]\n[#authors John Doe | Jane Doe]");

    assert_eq!(
        parser.next(),
        Some(Ok(ParsedElement::Function(
            "title".to_string(),
            vec![],
            vec![text("Test Document")]
        )))
    );
    assert_eq!(parser.next(), Some(Ok(text("\n"))));
    assert_eq!(
        parser.next(),
        Some(Ok(ParsedElement::Function(
            "authors".to_string(),
            vec![],
            vec![text("John Doe"), text("Jane Doe")]
        )))
    );
    assert!(parser.next().is_none());
}

#[test]
fn function_attribute() {
    let mut parser = Parser::new("[#test @abc @def(ghi) first | second]");

    assert_eq!(
        parser.next(),
        Some(Ok(ParsedElement::Function(
            "test".to_string(),
            vec![
                Attribute::new_flag("abc"),
                Attribute::new_value("def", "ghi")
            ],
            vec![text("first"), text("second")]
        )))
    );
    assert!(parser.next().is_none());
}

#[test]
fn function_multiline_argument() {
    let mut parser = Parser::new(
        "[#quote\nSome quote...\n\nSpread over multiple paragraphs.\nBecause edgecases!\n]",
    );

    assert_eq!(
        parser.next(),
        Some(Ok(ParsedElement::Function(
            "quote".to_string(),
            vec![],
            vec![ParsedElement::Block(Block::new(vec![
                text("Some quote..."),
                ParsedElement::HardLinebreak,
                text("Spread over multiple paragraphs.\nBecause edgecases!"),
            ]))]
        )))
    );
    assert!(parser.next().is_none());
}

#[test]
fn nested_functions() {
    let mut parser = Parser::new("[#list [#mi \\lambda x.M] |\n[#mi (M\\;N)]]");

    assert_eq!(
        parser.next(),
        Some(Ok(ParsedElement::Function(
            "list".to_string(),
            vec![],
            vec![
                ParsedElement::Function("mi".to_string(), vec![], vec![text("\\lambda x.M")]),
                ParsedElement::Function("mi".to_string(), vec![], vec![text("(M\\;N)")])
            ]
        )))
    );
    assert!(parser.next().is_none());
}

#[test]
fn space_after_paragraph() {
    let mut parser = Parser::new("Test \n\nTest");

    assert_eq!(parser.next(), Some(Ok(text("Test "))));
    assert_eq!(parser.next(), Some(Ok(ParsedElement::HardLinebreak)));
    assert_eq!(parser.next(), Some(Ok(text("Test"))));
    assert!(parser.next().is_none());
}

#[test]
fn double_whitespace_between_functions() {
    let mut parser = Parser::new(
        r#"[#title This is some document]

[#table @cols(2) @header
| Name | Score
| Apple | 4
| Banana | 8
| Pear | 9
]"#,
    );

    assert_eq!(
        parser.next(),
        Some(Ok(ParsedElement::Function(
            "title".to_string(),
            vec![],
            vec![text("This is some document")]
        )))
    );
    assert_eq!(parser.next(), Some(Ok(ParsedElement::HardLinebreak)));
    assert_eq!(
        parser.next(),
        Some(Ok(ParsedElement::Function(
            "table".to_string(),
            vec![
                Attribute::new_value("cols", "2"),
                Attribute::new_flag("header")
            ],
            vec![
                text("Name"),
                text("Score"),
                text("Apple"),
                text("4"),
                text("Banana"),
                text("8"),
                text("Pear"),
                text("9"),
            ]
        )))
    );
    assert!(parser.next().is_none());
}
