use noet::attribute::Attrs;
use noet::context::Context;
use noet::error::Error;
use noet::evaluator::{BoundArg, Evaluator};
use noet::function::{FunctionDef, Param};
use noet::parser::Parser;
use noet::registry::FunctionRegistry;
use noet::value::EmptyValue;

#[derive(Default)]
pub struct CustomContext {
    pub version: u32,
    pub value: String,
    pub flag_lang: Option<String>,
    pub flag_export: bool,
    pub variadic_values: Vec<String>,
}

impl Context<EmptyValue> for CustomContext {
    fn register_functions(registry: &mut FunctionRegistry) {
        registry.register_function(FunctionDef { id: 1, params: vec![Param::Text] }, "test");
        registry.register_function(FunctionDef { id: 2, params: vec![Param::Uint] }, "version");
        registry.register_function(FunctionDef { id: 3, params: vec![Param::Text] }, "attr");
        registry.register_function(FunctionDef { id: 4, params: vec![Param::Text] }, "flag-attr");
        registry.register_function(
            FunctionDef { id: 5, params: vec![Param::VariadicText] },
            "variadic",
        );
    }

    fn invoke(
        &mut self,
        _evaluator: &Evaluator<Self, EmptyValue>,
        id: u64,
        attrs: &Attrs,
        args: Vec<BoundArg<EmptyValue>>,
    ) -> Result<Option<EmptyValue>, Error> {
        let mut args = args.into_iter();
        match id {
            1 => {
                if let Some(BoundArg::Text(value)) = args.next() {
                    self.value = value;
                }
                Ok(None)
            }
            2 => {
                if let Some(BoundArg::Uint(version)) = args.next() {
                    self.version = version as u32;
                }
                Ok(None)
            }
            3 => {
                self.flag_lang = attrs.get_value("lang")?;
                Ok(None)
            }
            4 => {
                self.flag_export = attrs.has_flag("export");
                Ok(None)
            }
            5 => {
                if let Some(BoundArg::Texts(values)) = args.next() {
                    self.variadic_values = values.into_inner();
                }
                Ok(None)
            }
            _ => Err(Error::Eval("Function not registered".to_string(), None)),
        }
    }
}

#[test]
fn config_test_evaluate_single_argument_function() -> Result<(), Error> {
    let mut context = CustomContext::default();

    let mut parser = Parser::new("[#test test]");

    let evaluator = Evaluator::new();
    evaluator.evaluate_document(&mut context, &mut parser)?;

    assert_eq!(context.value, "test");

    Ok(())
}

#[test]
fn evaluate_single_argument_function_numeric() -> Result<(), Error> {
    let mut context = CustomContext::default();

    let mut parser = Parser::new("[#version 1234]");

    let evaluator = Evaluator::new();
    evaluator.evaluate_document(&mut context, &mut parser)?;

    assert_eq!(context.version, 1234);

    Ok(())
}

#[test]
fn config_test_evaluate_single_attribute_function() -> Result<(), Error> {
    let mut context = CustomContext::default();

    let mut parser = Parser::new("[#attr @lang(rust) some code]");

    let evaluator = Evaluator::new();
    evaluator.evaluate_document(&mut context, &mut parser)?;

    assert_eq!(context.flag_lang, Some("rust".to_string()));

    Ok(())
}

#[test]
fn config_test_evaluate_single_flag_attribute_function() -> Result<(), Error> {
    let mut context = CustomContext::default();

    let mut parser = Parser::new("[#flag-attr @export some text]");

    let evaluator = Evaluator::new();
    evaluator.evaluate_document(&mut context, &mut parser)?;

    assert!(context.flag_export);

    Ok(())
}

#[test]
fn config_test_evaluate_single_flag_attribute_function_not_present() -> Result<(), Error> {
    let mut context = CustomContext::default();

    let mut parser = Parser::new("[#flag-attr Some text]");

    let evaluator = Evaluator::new();
    evaluator.evaluate_document(&mut context, &mut parser)?;

    assert!(!context.flag_export);

    Ok(())
}

#[test]
fn config_test_evaluate_variadic() -> Result<(), Error> {
    let mut context = CustomContext::default();

    let mut parser = Parser::new("[#variadic first | second | third]");

    let evaluator = Evaluator::new();
    evaluator.evaluate_document(&mut context, &mut parser)?;

    assert_eq!(
        context.variadic_values,
        vec![
            "first".to_string(),
            "second".to_string(),
            "third".to_string()
        ]
    );

    Ok(())
}
