use noet::attribute::Attrs;
use noet::context::Context;
use noet::error::Error;
use noet::evaluator::{BoundArg, Evaluator};
use noet::function::{FunctionDef, Param};
use noet::parser::Parser;
use noet::registry::FunctionRegistry;
use noet::value::EmptyValue;

#[derive(Default)]
pub struct AttrContext {
    pub value: String,
    pub flag_lang: Option<String>,
    pub flag_export: bool,
    pub variadic_values: Vec<String>,
}

impl Context<EmptyValue> for AttrContext {
    fn register_functions(registry: &mut FunctionRegistry) {
        registry.register_function(FunctionDef { id: 1, params: vec![Param::Text] }, "test");
        registry.register_function(
            FunctionDef { id: 2, params: vec![Param::AttrText("lang".to_string())] },
            "attr",
        );
        registry.register_function(
            FunctionDef { id: 3, params: vec![Param::Flag("export".to_string())] },
            "flag-attr",
        );
        registry.register_function(
            FunctionDef { id: 4, params: vec![Param::VariadicText] },
            "variadic",
        );
    }

    fn invoke(
        &mut self,
        _evaluator: &Evaluator<Self, EmptyValue>,
        id: u64,
        _attrs: &Attrs,
        args: Vec<BoundArg<EmptyValue>>,
    ) -> Result<Option<EmptyValue>, Error> {
        let mut args = args.into_iter();
        match id {
            1 => {
                if let Some(BoundArg::Text(value)) = args.next() {
                    self.value = value;
                }
                Ok(None)
            }
            2 => {
                if let Some(BoundArg::AttrText(lang)) = args.next() {
                    self.flag_lang = lang;
                }
                Ok(None)
            }
            3 => {
                if let Some(BoundArg::Flag(present)) = args.next() {
                    self.flag_export = present;
                }
                Ok(None)
            }
            4 => {
                if let Some(BoundArg::Texts(values)) = args.next() {
                    self.variadic_values = values.into_inner();
                }
                Ok(None)
            }
            _ => Err(Error::Eval("Function not registered".to_string(), None)),
        }
    }
}

#[test]
fn test_config_evaluate_single_argument_function() {
    let mut context = AttrContext::default();

    let mut parser = Parser::new("[#test test]");

    let evaluator = Evaluator::new();
    evaluator.evaluate_document(&mut context, &mut parser).unwrap();

    assert_eq!(context.value, "test");
}

#[test]
fn test_config_evaluate_single_attribute_function() {
    let mut context = AttrContext::default();

    let mut parser = Parser::new("[#attr @lang(rust)]");

    let evaluator = Evaluator::new();
    evaluator.evaluate_document(&mut context, &mut parser).unwrap();

    assert_eq!(context.flag_lang, Some("rust".to_string()));
}

#[test]
fn test_config_evaluate_single_flag_attribute_function() {
    let mut context = AttrContext::default();

    let mut parser = Parser::new("[#flag-attr @export]");

    let evaluator = Evaluator::new();
    evaluator.evaluate_document(&mut context, &mut parser).unwrap();

    assert!(context.flag_export);
}

#[test]
fn test_config_evaluate_single_flag_attribute_function_not_present() {
    let mut context = AttrContext::default();

    let mut parser = Parser::new("[#flag-attr]");

    let evaluator = Evaluator::new();
    evaluator.evaluate_document(&mut context, &mut parser).unwrap();

    assert!(!context.flag_export);
}

#[test]
fn test_config_evaluate_variadic() {
    let mut context = AttrContext::default();

    let mut parser = Parser::new("[#variadic first | second | third]");

    let evaluator = Evaluator::new();
    evaluator.evaluate_document(&mut context, &mut parser).unwrap();

    assert_eq!(
        context.variadic_values,
        vec![
            "first".to_string(),
            "second".to_string(),
            "third".to_string()
        ]
    );
}
