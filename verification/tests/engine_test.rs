use noet::argument::Argument;
use noet::attribute::{Attribute, Attrs};
use noet::context::Context;
use noet::error::Error;
use noet::evaluator::{BoundArg, Evaluator};
use noet::function::{FunctionDef, Param};
use noet::lexer::{Lexer, TokenType};
use noet::parse_tree::ParsedElement;
use noet::parser::Parser;
use noet::registry::FunctionRegistry;
use noet::value::EmptyValue;

#[test]
fn token_spans_cover_trimmed_input() {
    let input = "  some text (with) [#parens] and |bars| @attr\n\nnext  ";
    let trimmed: Vec<char> = input.trim().chars().collect();

    let mut lexer = Lexer::new(input);
    let mut pos = 0usize;
    let mut rebuilt = String::new();
    while let Some(token) = lexer.next() {
        assert_eq!(token.span.start, pos, "token spans must chain without gaps");
        assert!(token.span.end > token.span.start, "token spans are non-empty");
        for i in token.span.start..token.span.end {
            rebuilt.push(trimmed[i]);
        }
        pos = token.span.end;
    }
    assert_eq!(pos, trimmed.len(), "tokens must cover the whole trimmed input");
    assert_eq!(rebuilt, input.trim());
}

#[test]
fn lexer_token_kinds() {
    let mut lexer = Lexer::new("[#abc @d(e)|]\n\nx");
    let kinds: Vec<TokenType> = {
        let mut v = Vec::new();
        while let Some(token) = lexer.next() {
            v.push(token.token_type);
        }
        v
    };
    assert_eq!(
        kinds,
        vec![
            TokenType::LeftBracket,
            TokenType::FunctionIdentifier,
            TokenType::Whitespace,
            TokenType::AttributeIdentifier,
            TokenType::LeftParen,
            TokenType::Text,
            TokenType::RightParen,
            TokenType::ArgumentSeparator,
            TokenType::RightBracket,
            TokenType::HardLinebreak,
            TokenType::Text,
        ]
    );
}

#[test]
fn trivial_text_is_trimmed() {
    let mut parser = Parser::new("   hello world \t ");

    assert_eq!(
        parser.next(),
        Some(Ok(ParsedElement::Text("hello world".to_string())))
    );
    assert!(parser.next().is_none());
}

#[test]
fn unbalanced_open_paren_text() {
    let mut parser = Parser::new("a ( b");

    assert_eq!(parser.next(), Some(Ok(ParsedElement::Text("a ( b".to_string()))));
    assert!(parser.next().is_none());
}

#[test]
fn function_with_attribute_and_two_arguments() {
    let mut parser = Parser::new("[#test @lang(rust) first | second]");

    assert_eq!(
        parser.next(),
        Some(Ok(ParsedElement::Function(
            "test".to_string(),
            vec![Attribute::new_value("lang", "rust")],
            vec![
                ParsedElement::Text("first".to_string()),
                ParsedElement::Text("second".to_string())
            ]
        )))
    );
    assert!(parser.next().is_none());
}

#[test]
fn argument_trimming_keeps_inner_spaces() {
    let mut parser = Parser::new("[#test   first   |  second ]");

    assert_eq!(
        parser.next(),
        Some(Ok(ParsedElement::Function(
            "test".to_string(),
            vec![],
            vec![
                ParsedElement::Text("first".to_string()),
                ParsedElement::Text("second".to_string())
            ]
        )))
    );
    assert!(parser.next().is_none());
}

#[test]
fn empty_attribute_value() {
    let mut parser = Parser::new("[#test @key()]");

    assert_eq!(
        parser.next(),
        Some(Ok(ParsedElement::Function(
            "test".to_string(),
            vec![Attribute::new_value("key", "")],
            vec![]
        )))
    );
    assert!(parser.next().is_none());
}

#[test]
fn unclosed_function_is_a_parse_error() {
    let mut parser = Parser::new("[#test");

    match parser.next() {
        Some(Err(Error::Parse(_, _))) => (),
        other => panic!("expected a parse error, got {:?}", other),
    }
}

#[test]
fn eof_parse_error_description() {
    let mut parser = Parser::new("[");

    match parser.next() {
        Some(Err(e)) => assert_eq!(e.describe(), "Parse error: Reached EOF"),
        other => panic!("expected a parse error, got {:?}", other),
    }
}

#[test]
fn kind_mismatch_error_names_both_kinds() {
    let mut parser = Parser::new("[]");

    match parser.next() {
        Some(Err(e)) => assert_eq!(
            e.describe(),
            "Parse error: Expected token FunctionIdentifier but got RightBracket"
        ),
        other => panic!("expected a parse error, got {:?}", other),
    }
}

#[test]
fn separator_at_top_level_is_a_parse_error() {
    let mut parser = Parser::new("a | b");

    assert_eq!(parser.next(), Some(Ok(ParsedElement::Text("a ".to_string()))));
    match parser.next() {
        Some(Err(Error::Parse(_, _))) => (),
        other => panic!("expected a parse error, got {:?}", other),
    }
}

#[derive(Default)]
struct Recorder {
    calls: Vec<String>,
}

impl Context<EmptyValue> for Recorder {
    fn register_functions(registry: &mut FunctionRegistry) {
        registry.register_function(FunctionDef { id: 1, params: vec![Param::Text] }, "note");
        registry.register_function(
            FunctionDef { id: 2, params: vec![Param::VariadicText] },
            "all",
        );
        registry.register_function(FunctionDef { id: 3, params: vec![Param::Uint] }, "num");
        registry.register_function(FunctionDef { id: 4, params: vec![Param::Uint8] }, "small");
    }

    fn invoke(
        &mut self,
        _evaluator: &Evaluator<Self, EmptyValue>,
        id: u64,
        _attrs: &Attrs,
        args: Vec<BoundArg<EmptyValue>>,
    ) -> Result<Option<EmptyValue>, Error> {
        let mut args = args.into_iter();
        match id {
            1 => {
                if let Some(BoundArg::Text(value)) = args.next() {
                    self.calls.push(value);
                }
                Ok(None)
            }
            2 => {
                if let Some(BoundArg::Texts(values)) = args.next() {
                    for value in values.into_inner() {
                        self.calls.push(value);
                    }
                }
                Ok(None)
            }
            3 => Ok(None),
            4 => Ok(None),
            _ => Err(Error::Eval("Function not registered".to_string(), None)),
        }
    }
}

#[test]
fn document_without_calls_evaluates_to_nothing_under_empty_value() -> Result<(), Error> {
    let mut context = Recorder::default();
    let mut parser = Parser::new("just text (with parens)

and a second paragraph");

    let evaluator = Evaluator::new();
    let values = evaluator.evaluate_document(&mut context, &mut parser)?;

    assert!(values.is_empty());
    assert!(context.calls.is_empty());

    Ok(())
}

#[test]
fn side_effects_run_left_to_right() -> Result<(), Error> {
    let mut context = Recorder::default();
    let mut parser = Parser::new("[#note one] [#note two]\n\n[#note three]");

    let evaluator = Evaluator::new();
    evaluator.evaluate_document(&mut context, &mut parser)?;

    assert_eq!(
        context.calls,
        vec!["one".to_string(), "two".to_string(), "three".to_string()]
    );

    Ok(())
}

#[test]
fn variadic_with_no_arguments_binds_nothing() -> Result<(), Error> {
    let mut context = Recorder::default();
    let mut parser = Parser::new("[#all]");

    let evaluator = Evaluator::new();
    evaluator.evaluate_document(&mut context, &mut parser)?;

    assert!(context.calls.is_empty());

    Ok(())
}

#[test]
fn unregistered_function_is_an_evaluation_error() {
    let mut context = Recorder::default();
    let mut parser = Parser::new("[#missing]");

    let evaluator = Evaluator::new();
    match evaluator.evaluate_document(&mut context, &mut parser) {
        Err(e) => assert_eq!(e.describe(), "Eval error: Function 'missing' not found"),
        other => panic!("expected an evaluation error, got {:?}", other),
    }
}

#[test]
fn narrow_numeric_parameter_rejects_out_of_range() -> Result<(), Error> {
    let mut context = Recorder::default();
    let mut parser = Parser::new("[#small 255]");
    let evaluator = Evaluator::new();
    evaluator.evaluate_document(&mut context, &mut parser)?;

    let mut context = Recorder::default();
    let mut parser = Parser::new("[#small 300]");
    let evaluator = Evaluator::new();
    match evaluator.evaluate_document(&mut context, &mut parser) {
        Err(e) => assert_eq!(e.describe(), "Type error: Failed to convert '300' to u8"),
        other => panic!("expected a type error, got {:?}", other),
    }

    Ok(())
}

#[test]
fn missing_argument_error_names_the_type() {
    let mut context = Recorder::default();
    let mut parser = Parser::new("[#note]");

    let evaluator = Evaluator::new();
    match evaluator.evaluate_document(&mut context, &mut parser) {
        Err(e) => assert_eq!(
            e.describe(),
            "Type error: Argument of type text is missing a value"
        ),
        other => panic!("expected a type error, got {:?}", other),
    }
}

#[test]
fn numeric_argument_conversion_failure_is_a_type_error() {
    let mut context = Recorder::default();
    let mut parser = Parser::new("[#num twelve]");

    let evaluator = Evaluator::new();
    match evaluator.evaluate_document(&mut context, &mut parser) {
        Err(Error::Type(_, _)) => (),
        other => panic!("expected a type error, got {:?}", other),
    }
}

#[test]
fn missing_positional_argument_is_a_type_error() {
    let mut context = Recorder::default();
    let mut parser = Parser::new("[#note]");

    let evaluator = Evaluator::new();
    match evaluator.evaluate_document(&mut context, &mut parser) {
        Err(Error::Type(_, _)) => (),
        other => panic!("expected a type error, got {:?}", other),
    }
}

#[test]
fn unsigned_argument_parsing() {
    assert_eq!(<u32 as Argument>::parse_arg("1234"), Some(1234));
    assert_eq!(<u32 as Argument>::parse_arg("+7"), Some(7));
    assert_eq!(<u32 as Argument>::parse_arg("4294967295"), Some(u32::MAX));
    assert_eq!(<u32 as Argument>::parse_arg("4294967296"), None);
    assert_eq!(<u32 as Argument>::parse_arg(""), None);
    assert_eq!(<u32 as Argument>::parse_arg("-1"), None);
    assert_eq!(<u32 as Argument>::parse_arg("12a"), None);
    assert_eq!(<u8 as Argument>::parse_arg("255"), Some(255));
    assert_eq!(<u8 as Argument>::parse_arg("256"), None);
    assert_eq!(
        <u64 as Argument>::parse_arg("18446744073709551615"),
        Some(u64::MAX)
    );
    assert_eq!(<u64 as Argument>::parse_arg("18446744073709551616"), None);
}

#[test]
fn signed_argument_parsing() {
    assert_eq!(<i32 as Argument>::parse_arg("-2147483648"), Some(i32::MIN));
    assert_eq!(<i32 as Argument>::parse_arg("2147483647"), Some(i32::MAX));
    assert_eq!(<i32 as Argument>::parse_arg("2147483648"), None);
    assert_eq!(<i32 as Argument>::parse_arg("-2147483649"), None);
    assert_eq!(<i64 as Argument>::parse_arg("-0"), Some(0));
    assert_eq!(<i64 as Argument>::parse_arg("+42"), Some(42));
    assert_eq!(<i64 as Argument>::parse_arg("-"), None);
    assert_eq!(<i8 as Argument>::parse_arg("-128"), Some(i8::MIN));
    assert_eq!(<i8 as Argument>::parse_arg("-129"), None);
}

#[test]
fn boolean_and_string_argument_parsing() {
    assert_eq!(<bool as Argument>::parse_arg("true"), Some(true));
    assert_eq!(<bool as Argument>::parse_arg("false"), Some(false));
    assert_eq!(<bool as Argument>::parse_arg("TRUE"), None);
    assert_eq!(<bool as Argument>::parse_arg(""), None);
    assert_eq!(
        <String as Argument>::parse_arg("anything"),
        Some("anything".to_string())
    );
}

#[test]
fn attribute_lookup() -> Result<(), Error> {
    let attrs = Attrs::new(vec![
        Attribute::new_flag("header"),
        Attribute::new_value("cols", "2"),
        Attribute::new_value("title", "abc"),
    ]);

    assert!(attrs.has_flag("header"));
    assert!(!attrs.has_flag("cols"));
    assert!(!attrs.has_flag("absent"));
    assert_eq!(attrs.get_value::<u32>("cols")?, Some(2));
    assert_eq!(attrs.get_value::<u32>("absent")?, None);
    assert_eq!(attrs.get_value::<u32>("header")?, None);
    assert_eq!(attrs.get_value::<String>("title")?, Some("abc".to_string()));
    match attrs.get_value::<u32>("title") {
        Err(Error::Type(_, _)) => (),
        other => panic!("expected a type error, got {:?}", other),
    }

    Ok(())
}
