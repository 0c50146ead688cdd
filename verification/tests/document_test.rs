use noet::attribute::Attrs;
use noet::context::Context;
use noet::error::Error;
use noet::evaluator::{BoundArg, Evaluator};
use noet::function::{FunctionDef, Param};
use noet::parser::Parser;
use noet::registry::FunctionRegistry;
use noet::return_value::ReturnValue;
use noet::value::Value;

#[derive(Debug, PartialEq)]
pub enum Element {
    Text(String),
    Bold(Box<Element>),
    List(Vec<Element>),
    Block(Vec<Element>),
    Table(Vec<Element>, u32, bool),
    Linebreak,
}

impl Value for Element {
    fn linebreak() -> Option<Self> {
        Some(Element::Linebreak)
    }

    fn from_text_element(text: &str) -> Option<Self> {
        Some(Element::Text(text.to_string()))
    }

    fn from_block_element(elements: Vec<Self>) -> Option<Self> {
        Some(Element::Block(elements))
    }
}

#[derive(Default)]
pub struct Note {
    pub title: Option<String>,
}

impl Context<Element> for Note {
    fn register_functions(registry: &mut FunctionRegistry) {
        registry.register_function(FunctionDef { id: 1, params: vec![Param::Text] }, "title");
        registry.register_function(FunctionDef { id: 2, params: vec![Param::Value] }, "b");
        registry.register_function(
            FunctionDef { id: 3, params: vec![Param::VariadicValue] },
            "list",
        );
        registry.register_function(
            FunctionDef { id: 4, params: vec![Param::VariadicValue] },
            "table",
        );
    }

    fn invoke(
        &mut self,
        _evaluator: &Evaluator<Self, Element>,
        id: u64,
        attrs: &Attrs,
        args: Vec<BoundArg<Element>>,
    ) -> Result<Option<Element>, Error> {
        let mut args = args.into_iter();
        match id {
            1 => {
                if let Some(BoundArg::Text(title)) = args.next() {
                    self.title = Some(title);
                }
                ().to_result_of_option()
            }
            2 => {
                if let Some(BoundArg::Value(elem)) = args.next() {
                    Element::Bold(Box::new(elem)).to_result_of_option()
                } else {
                    Err(Error::Eval("Missing argument".to_string(), None))
                }
            }
            3 => {
                if let Some(BoundArg::Values(items)) = args.next() {
                    Some(Element::List(items.into_inner())).to_result_of_option()
                } else {
                    Err(Error::Eval("Missing arguments".to_string(), None))
                }
            }
            4 => {
                if let Some(BoundArg::Values(items)) = args.next() {
                    Ok(Some(Element::Table(
                        items.into_inner(),
                        attrs.get_value("cols")?.unwrap_or(1),
                        attrs.has_flag("header"),
                    )))
                } else {
                    Err(Error::Eval("Missing arguments".to_string(), None))
                }
            }
            _ => Err(Error::Eval("Function not registered".to_string(), None)),
        }
    }
}

fn parse_document(doc: &str) -> Result<(Note, Vec<Element>), Error> {
    let mut parser = Parser::new(doc);

    let mut context = Note::default();

    let evaluator = Evaluator::new();
    let evaluated = evaluator.evaluate_document(&mut context, &mut parser)?;

    Ok((context, evaluated))
}

#[test]
fn full_document() -> Result<(), Error> {
    let source = r#"[#title This is some document]

It contains a [#b first] paragraph and supports lists.

[#list
| first
| second
| third
]

It also supports tables!

[#table @cols(2) @header
| Name | Score
| Apple | 4
| Banana | 8
| Pear | 9
]"#;

    let (context, elements) = parse_document(source)?;

    assert_eq!(context.title, Some("This is some document".to_string()));
    assert_eq!(
        elements,
        vec![
            Element::Linebreak,
            Element::Text("It contains a ".to_string()),
            Element::Bold(Box::new(Element::Text("first".to_string()))),
            Element::Text(" paragraph and supports lists.".to_string()),
            Element::Linebreak,
            Element::List(vec![
                Element::Text("first".to_string()),
                Element::Text("second".to_string()),
                Element::Text("third".to_string()),
            ]),
            Element::Linebreak,
            Element::Text("It also supports tables!".to_string()),
            Element::Linebreak,
            Element::Table(
                vec![
                    Element::Text("Name".to_string()),
                    Element::Text("Score".to_string()),
                    Element::Text("Apple".to_string()),
                    Element::Text("4".to_string()),
                    Element::Text("Banana".to_string()),
                    Element::Text("8".to_string()),
                    Element::Text("Pear".to_string()),
                    Element::Text("9".to_string()),
                ],
                2,
                true
            )
        ]
    );

    Ok(())
}
