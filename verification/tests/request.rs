use async_graphql_parser::types as parsed;
use async_graphql_parser::{parse_query, Positioned as Placed};
use async_graphql_value::{ConstValue, Name, Value as Written};
use graphql_context::describe::show_field;
use graphql_context::document::{
    Arguments, ConstDirective, Directive, Field, FragmentDefinition, FragmentSpread, Fragments,
    InlineFragment, OperationDefinition, OperationType, Selection, SelectionSet, Type,
    TypeCondition, VariableDefinition, Variables,
};
use graphql_context::scope::Scope;
use graphql_context::{
    Context, ContextDirective, Data, InputType, InputValue, InputValueError, IntrospectionMode,
    OneofObjectType, ParamSource, Pos, Positioned, QueryEnv, QueryEnvInner, SchemaEnv,
    SelectionField, ServerResult, Value,
};
use std::sync::Arc;

fn pos(pos: async_graphql_parser::Pos) -> Pos {
    Pos { line: pos.line, column: pos.column }
}

fn at<T, U>(placed: &Placed<T>, node: impl Fn(&T) -> U) -> Positioned<U> {
    Positioned::new(node(&placed.node), pos(placed.pos))
}

fn text(name: &Name) -> String {
    name.as_str().to_string()
}

fn input(value: &Written) -> InputValue {
    match value {
        Written::Variable(name) => InputValue::Variable(text(name)),
        Written::Null => InputValue::Null,
        Written::Number(number) => InputValue::Number(number.to_string()),
        Written::String(text) => InputValue::String(text.clone()),
        Written::Boolean(truth) => InputValue::Boolean(*truth),
        Written::Binary(bytes) => InputValue::Binary(bytes.to_vec()),
        Written::Enum(name) => InputValue::Enum(text(name)),
        Written::List(items) => InputValue::List(items.iter().map(input).collect()),
        Written::Object(map) => {
            InputValue::Object(map.iter().map(|(name, value)| (text(name), input(value))).collect())
        }
    }
}

fn constant(value: &ConstValue) -> Value {
    match value {
        ConstValue::Null => Value::Null,
        ConstValue::Number(number) => Value::Number(number.to_string()),
        ConstValue::String(text) => Value::String(text.clone()),
        ConstValue::Boolean(truth) => Value::Boolean(*truth),
        ConstValue::Binary(bytes) => Value::Binary(bytes.to_vec()),
        ConstValue::Enum(name) => Value::Enum(text(name)),
        ConstValue::List(items) => Value::List(items.iter().map(constant).collect()),
        ConstValue::Object(map) => {
            Value::Object(map.iter().map(|(name, value)| (text(name), constant(value))).collect())
        }
    }
}

fn arguments(arguments: &[(Placed<Name>, Placed<Written>)]) -> Arguments {
    arguments.iter().map(|(name, value)| (at(name, text), at(value, input))).collect()
}

fn directives(directives: &[Placed<parsed::Directive>]) -> Vec<Positioned<Directive>> {
    directives
        .iter()
        .map(|directive| {
            at(directive, |directive| Directive {
                name: at(&directive.name, text),
                arguments: arguments(&directive.arguments),
            })
        })
        .collect()
}

fn condition(condition: &parsed::TypeCondition) -> TypeCondition {
    TypeCondition { on: at(&condition.on, text) }
}

fn selection_set(set: &parsed::SelectionSet) -> SelectionSet {
    SelectionSet { items: set.items.iter().map(|item| at(item, selection)).collect() }
}

fn field(field: &parsed::Field) -> Field {
    Field {
        alias: field.alias.as_ref().map(|alias| at(alias, text)),
        name: at(&field.name, text),
        arguments: arguments(&field.arguments),
        directives: directives(&field.directives),
        selection_set: at(&field.selection_set, selection_set),
    }
}

fn selection(selection: &parsed::Selection) -> Selection {
    match selection {
        parsed::Selection::Field(placed) => Selection::Field(at(placed, field)),
        parsed::Selection::FragmentSpread(placed) => {
            Selection::FragmentSpread(at(placed, |spread| FragmentSpread {
                fragment_name: at(&spread.fragment_name, text),
                directives: directives(&spread.directives),
            }))
        }
        parsed::Selection::InlineFragment(placed) => {
            Selection::InlineFragment(at(placed, |fragment| InlineFragment {
                type_condition: fragment.type_condition.as_ref().map(|on| at(on, condition)),
                directives: directives(&fragment.directives),
                selection_set: at(&fragment.selection_set, selection_set),
            }))
        }
    }
}

fn operation(operation: &parsed::OperationDefinition) -> OperationDefinition {
    OperationDefinition {
        ty: OperationType::Query,
        variable_definitions: operation
            .variable_definitions
            .iter()
            .map(|definition| {
                at(definition, |definition| VariableDefinition {
                    name: at(&definition.name, text),
                    var_type: at(&definition.var_type, |ty| Type {
                        base: ty.base.to_string(),
                        nullable: ty.nullable,
                    }),
                    directives: directives(&definition.directives),
                    default_value: definition.default_value.as_ref().map(|value| at(value, constant)),
                })
            })
            .collect(),
        directives: directives(&operation.directives),
        selection_set: at(&operation.selection_set, selection_set),
    }
}

fn request(query: &str, sent: Vec<(&str, Value)>) -> QueryEnv<u32> {
    let document = parse_query(query).unwrap();
    let (_, parsed_operation) = document.operations.iter().next().unwrap();
    let mut fragments = Fragments::new();
    for (name, fragment) in &document.fragments {
        fragments.insert(
            text(name),
            at(fragment, |fragment| FragmentDefinition {
                type_condition: at(&fragment.type_condition, condition),
                directives: directives(&fragment.directives),
                selection_set: at(&fragment.selection_set, selection_set),
            }),
        );
    }
    let mut variables = Variables::new();
    for (name, value) in sent {
        variables.insert(name.to_string(), value);
    }
    QueryEnv::new(QueryEnvInner {
        variables,
        operation_name: None,
        operation: at(parsed_operation, operation),
        fragments,
        session_data: Arc::new(Data::default()),
        query_data: Arc::new(Data::default()),
        introspection_mode: IntrospectionMode::Enabled,
    })
}

fn find<'a>(set: &'a SelectionSet, name: &str) -> Option<&'a Positioned<Field>> {
    set.items.iter().find_map(|item| match &item.node {
        Selection::Field(field) if field.node.name.node == name => Some(field),
        Selection::InlineFragment(fragment) => find(&fragment.node.selection_set.node, name),
        _ => None,
    })
}

/// Runs `check` in the context of the field `obj` of a query.
fn in_obj(query: &str, sent: Vec<(&str, Value)>, check: impl Fn(&Context<'_, u32>)) {
    let env = request(query, sent);
    let schema = SchemaEnv { data: Data::default() };
    let set = &env.operation.node.selection_set;
    let root = env.create_context(&schema, None, set, None);
    let obj = find(&set.node, "obj").unwrap();
    check(&root.with_field(obj));
}

struct Int(i32);

impl InputType for Int {
    fn parse(value: Option<Value>) -> Result<Self, InputValueError> {
        match value {
            Some(Value::Number(text)) => Ok(Int(text.parse().unwrap())),
            other => Err(InputValueError {
                message: format!("not an Int: {:?}", other),
                extensions: Some(vec![("kind".to_string(), Value::Boolean(true))]),
            }),
        }
    }
}

struct Shown(String);

impl InputType for Shown {
    fn parse(value: Option<Value>) -> Result<Self, InputValueError> {
        Ok(Shown(format!("{:?}", value)))
    }
}

impl OneofObjectType for Shown {}

const NONE_INT: Option<fn() -> Int> = None;

fn collect_pairs(fields: Vec<SelectionField<'_, u32>>) -> Vec<(String, Option<String>)> {
    fields
        .iter()
        .map(|f| (f.name().to_string(), f.type_condition().map(str::to_string)))
        .collect()
}

fn names(fields: Vec<SelectionField<'_, u32>>) -> Vec<String> {
    fields.iter().map(|f| f.name().to_string()).collect()
}

fn obj(ctx: &Context<'_, u32>) {
    let (_, Int(n)) = ctx.param_value("n", NONE_INT).unwrap();
    let field = ctx.field();
    assert_eq!(field.type_condition(), None, "n={}", n);
    let pairs = collect_pairs(field.selection_set().collect());
    match n {
        1 => assert_eq!(
            pairs,
            vec![("a".into(), None), ("b".into(), None), ("c".into(), None)]
        ),
        2 | 3 => assert_eq!(
            pairs,
            vec![
                ("a".into(), None),
                ("b".into(), Some("MyObj".into())),
                ("c".into(), Some("MyObj".into())),
            ]
        ),
        4 => assert_eq!(pairs, vec![("a".into(), None)]),
        5 | 6 | 7 => assert_eq!(pairs, vec![("a".into(), Some("MyObj".into()))]),
        8 => {
            let fields = field.selection_set().collect();
            let detail = fields.iter().find(|f| f.name() == "detail").unwrap();
            assert_eq!(detail.type_condition(), Some("MyObj"));
            let detail_children = collect_pairs(detail.selection_set().collect());
            assert_eq!(detail_children, vec![("x".into(), None)]);
        }
        9 => {
            let look_fields = ctx.look_ahead().field("a").selection_fields();
            assert!(!look_fields.is_empty(), "expected look_ahead to find `a`");
            for f in &look_fields {
                assert_eq!(f.type_condition(), Some("MyObj"));
            }
        }
        10 => {}
        _ => panic!("unexpected n={}", n),
    }
}

#[test]
fn test_selection_field_type_condition() {
    for query in [
        r#"{ obj(n: 1) { a b c } }"#,
        r#"{ obj(n: 2) { a ... on MyObj { b c } } }"#,
        r#"{ obj(n: 3) { a ... F } } fragment F on MyObj { b c }"#,
        r#"{ obj(n: 4) { ... { a } } }"#,
        r#"{ obj(n: 5) { ... on MyObj { ... { a } } } }"#,
        r#"{ obj(n: 6) { ... on MyObj { ... on MyObj { a } } } }"#,
        r#"{ obj(n: 7) { ... on MyObj { ... F } } } fragment F on MyObj { a }"#,
        r#"{ obj(n: 8) { ... on MyObj { detail { x } } } }"#,
        r#"{ obj(n: 9) { ... on MyObj { a } } }"#,
        r#"{ ... on Query { obj(n: 10) { a } } }"#,
    ] {
        in_obj(query, vec![], obj);
    }
}

#[test]
fn fragments_do_not_change_which_fields_are_selected() {
    for query in [
        "{ obj { a b c }}",
        "{ obj { a ... { b c } }}",
        "{ obj { a ... BC }} fragment BC on MyObj { b c }",
    ] {
        in_obj(query, vec![], |ctx| {
            assert_eq!(names(ctx.field().selection_set().collect()), vec!["a", "b", "c"]);
        });
    }
}

#[test]
fn an_unknown_fragment_selects_nothing() {
    in_obj("{ obj { a ...Missing b } }", vec![], |ctx| {
        assert_eq!(names(ctx.field().selection_set().collect()), vec!["a", "b"]);
    });
}

#[test]
fn nested_fragments_are_read_in_place() {
    let query = "{ obj { a ...F d } } fragment F on X { b ... on Y { c ...G } e } \
                 fragment G on Z { f }";
    in_obj(query, vec![], |ctx| {
        let pairs = collect_pairs(ctx.field().selection_set().collect());
        let on = |name: &str, ty: Option<&str>| (name.to_string(), ty.map(str::to_string));
        assert_eq!(
            pairs,
            vec![
                on("a", None),
                on("b", Some("X")),
                on("c", Some("Y")),
                on("f", Some("Z")),
                on("e", Some("X")),
                on("d", None),
            ]
        );
    });
}

#[test]
fn the_end_of_the_fields_stays_the_end() {
    in_obj("{ obj { a } }", vec![], |ctx| {
        let mut fields = ctx.field().selection_set();
        assert_eq!(fields.next().map(|f| f.name().to_string()), Some("a".to_string()));
        assert!(fields.next().is_none());
        assert!(fields.next().is_none());
    });
}

#[test]
fn a_fragment_that_holds_itself_yields_its_fields_again_and_again() {
    in_obj("{ obj { ...F } } fragment F on X { a b ...F }", vec![], |ctx| {
        let mut fields = ctx.field().selection_set();
        let first: Vec<_> =
            (0..5).map(|_| fields.next().unwrap().name().to_string()).collect();
        assert_eq!(first, vec!["a", "b", "a", "b", "a"]);
    });
}

#[test]
fn a_cycle_that_is_not_reached_does_no_harm() {
    let query = "{ obj { a ...F } } fragment F on X { b { c } } fragment G on X { ...G }";
    in_obj(query, vec![], |ctx| {
        assert_eq!(names(ctx.field().selection_set().collect()), vec!["a", "b"]);
        assert!(ctx.look_ahead().field("b").field("c").is_present());
        assert!(ctx.field().debug_string().ends_with("[c { name: \"c\", selection_set: [] }] }] }"));
    });
    let query = "{ obj { ...F } } fragment F on X { a child { ...F } }";
    in_obj(query, vec![], |ctx| {
        assert_eq!(names(ctx.field().selection_set().collect()), vec!["a", "child"]);
        assert!(ctx.look_ahead().field("child").field("child").field("a").is_present());
    });
}

#[test]
fn looking_ahead_finds_nested_fields() {
    in_obj("{ obj { a } }", vec![], |ctx| {
        assert!(ctx.look_ahead().is_present());
        assert!(ctx.look_ahead().field("a").is_present());
        assert!(!ctx.look_ahead().field("detail").is_present());
        assert!(!ctx.look_ahead().field("detail").field("c").is_present());
    });
    in_obj("{ obj { detail { c } x: detail { d } } }", vec![], |ctx| {
        assert!(!ctx.look_ahead().field("a").is_present());
        assert!(ctx.look_ahead().field("detail").field("c").is_present());
        assert!(ctx.look_ahead().field("detail").field("d").is_present());
        assert_eq!(ctx.look_ahead().field("detail").selection_fields().len(), 2);
    });
}

#[test]
fn a_field_shows_its_name_and_selections() {
    in_obj("{ x: obj { a ... on T { b { c } } } }", vec![], |ctx| {
        assert_eq!(
            ctx.field().debug_string(),
            "obj { name: \"obj\", selection_set: [a { name: \"a\", selection_set: [] }, \
             b { name: \"b\", selection_set: [c { name: \"c\", selection_set: [] }] }] }"
        );
    });
}

#[test]
fn a_field_is_written_from_its_parts() {
    let inside = vec!["x".to_string(), "y".to_string(), "z".to_string()];
    assert_eq!(show_field("f", "'f'", &inside), "f { name: 'f', selection_set: [x, y, z] }");
    assert_eq!(show_field("f", "'f'", &vec![]), "f { name: 'f', selection_set: [] }");
}

#[test]
fn a_field_shows_a_name_with_quotes_escaped() {
    let place = Pos { line: 1, column: 1 };
    let strange = Positioned::new(
        Field {
            alias: None,
            name: Positioned::new("a\"b".to_string(), place),
            arguments: vec![],
            directives: vec![],
            selection_set: Positioned::new(SelectionSet { items: vec![] }, place),
        },
        place,
    );
    let env = request("{ obj }", vec![]);
    let schema = SchemaEnv { data: Data::default() };
    let ctx = env.create_context(&schema, None, &strange, None);
    assert_eq!(ctx.field().debug_string(), "a\"b { name: \"a\\\"b\", selection_set: [] }");
}

#[test]
fn an_alias_is_the_key_of_a_field_but_not_its_name() {
    in_obj("{ x: obj { y: a b } }", vec![], |ctx| {
        let field = ctx.field();
        assert_eq!(field.name(), "obj");
        assert_eq!(field.alias(), Some("x"));
        assert_eq!(ctx.path_node.unwrap().to_string(), "x");
        let fields = field.selection_set().collect();
        assert_eq!(fields[0].alias(), Some("y"));
        assert_eq!(fields[1].alias(), None);
    });
}

fn shown<T: std::fmt::Debug>(value: &T) -> String {
    format!("{:?}", value)
}

fn number(text: &str) -> Value {
    Value::Number(text.to_string())
}

#[test]
fn arguments_keep_their_order_and_lose_their_variables() {
    let query = "query($v: Int = 3, $w: [Int]) { obj(b: $v, a: [1, $w, {x: $v}]) }";
    in_obj(query, vec![("w", Value::List(vec![number("7")]))], |ctx| {
        let found = ctx.field().arguments().unwrap();
        let expected = vec![
            ("b".to_string(), number("3")),
            (
                "a".to_string(),
                Value::List(vec![
                    number("1"),
                    Value::List(vec![number("7")]),
                    Value::Object(vec![("x".to_string(), number("3"))]),
                ]),
            ),
        ];
        assert_eq!(shown(&found), shown(&expected));
    });
}

fn undefined(outcome: &ServerResult<Vec<ConstDirective>>) -> (String, Vec<Pos>) {
    match outcome {
        Err(error) => {
            assert!(error.path.is_empty());
            assert!(error.extensions.is_none());
            (error.message.clone(), error.locations.clone())
        }
        Ok(_) => panic!("a variable was not defined"),
    }
}

#[test]
fn directives_keep_their_order_and_lose_their_variables() {
    let query = "query($v: Boolean!) { obj @skip(if: $v) @mark(a: 1, b: E) }";
    in_obj(query, vec![("v", Value::Boolean(true))], |ctx| {
        let found = ctx.field().directives().unwrap();
        assert_eq!(found.len(), 2);
        assert_eq!(found[0].name.node, "skip");
        assert_eq!(found[0].arguments[0].0.node, "if");
        assert_eq!(shown(&found[0].arguments[0].1.node), "Boolean(true)");
        assert_eq!(found[0].arguments[0].1.pos, Pos { line: 1, column: 37 });
        assert_eq!(found[1].name.node, "mark");
        assert_eq!(shown(&found[1].arguments[0].1.node), "Number(\"1\")");
        assert_eq!(shown(&found[1].arguments[1].1.node), "Enum(\"E\")");
    });
    in_obj(query, vec![], |ctx| {
        let outcome = ctx.field().directives();
        assert_eq!(
            undefined(&outcome),
            ("Variable v is not defined.".to_string(), vec![Pos { line: 1, column: 33 }])
        );
    });
}

#[test]
fn an_undefined_variable_is_reported_at_the_name_of_its_argument() {
    in_obj("{ obj(a: 1, b: [$x, $y]) }", vec![("x", number("1"))], |ctx| {
        let error = ctx.field().arguments().unwrap_err();
        assert_eq!(error.message, "Variable x is not defined.");
        assert_eq!(error.locations, vec![Pos { line: 1, column: 13 }]);
    });
}

#[test]
fn a_variable_stands_for_what_was_sent_or_else_its_default_or_null() {
    let query = "query($sent: Int = 1, $kept: Int = 2, $free: Int, $owed: Int!) { obj }";
    in_obj(query, vec![("sent", number("9")), ("stray", number("5"))], |ctx| {
        let place = Pos { line: 4, column: 2 };
        assert_eq!(shown(&ctx.var_value("sent", place).unwrap()), "Number(\"9\")");
        assert_eq!(shown(&ctx.var_value("kept", place).unwrap()), "Number(\"2\")");
        assert_eq!(shown(&ctx.var_value("free", place).unwrap()), "Null");
        for name in ["owed", "stray", "other"] {
            let error = ctx.var_value(name, place).unwrap_err();
            assert_eq!(error.message, format!("Variable {} is not defined.", name));
            assert_eq!(error.locations, vec![place]);
        }
    });
}

#[test]
fn a_null_that_was_sent_beats_the_default() {
    in_obj("query($v: Int = 1) { obj }", vec![("v", Value::Null)], |ctx| {
        let found = ctx.var_value("v", Pos::default()).unwrap();
        assert_eq!(shown(&found), "Null");
    });
}

#[test]
fn variables_are_replaced_as_the_value_crate_replaces_them() {
    let query = "query($a: Int = 1, $b: String = \"two\", $c: Int!) { obj(\
                 p: [$a, [$b, null, true, E, 1.5], {k: $a, l: {m: $b}}], \
                 q: {first: $a, second: [$c], third: $b}, r: \"plain\", s: $b, t: -3) }";
    let document = parse_query(query).unwrap();
    let (_, parsed_operation) = document.operations.iter().next().unwrap();
    let parsed::Selection::Field(parsed_field) =
        &parsed_operation.node.selection_set.node.items[0].node
    else {
        panic!("a field was written");
    };
    let env = request(query, vec![]);
    let scope = Scope {
        definitions: &env.operation.node.variable_definitions,
        variables: &env.variables,
    };
    let mut failures = 0;
    for (_, value) in &parsed_field.node.arguments {
        let expected = value.node.clone().into_const_with(|name| {
            match name.as_str() {
                "a" => Ok(ConstValue::from(1)),
                "b" => Ok(ConstValue::from("two")),
                _ => Err(text(&name)),
            }
        });
        match (input(&value.node).into_const_with(&scope), expected) {
            (Ok(found), Ok(expected)) => assert_eq!(shown(&found), shown(&constant(&expected))),
            (Err(found), Err(expected)) => {
                assert_eq!(found, expected);
                failures += 1;
            }
            _ => panic!("one of them failed"),
        }
    }
    assert_eq!(failures, 1);
}

#[test]
fn an_argument_is_read_where_it_was_written() {
    in_obj("query($v: Int = 5) { obj(n: $v) }", vec![], |ctx| {
        let (place, Int(n)) = ctx.param_value("n", Some(|| Int(9))).unwrap();
        assert_eq!((place, n), (Pos { line: 1, column: 29 }, 5));
    });
}

#[test]
fn the_default_stands_in_only_for_an_argument_that_was_not_given() {
    in_obj("{ obj(m: 1) }", vec![], |ctx| {
        let (place, Int(n)) = ctx.param_value("n", Some(|| Int(9))).unwrap();
        assert_eq!((place, n), (Pos { line: 0, column: 0 }, 9));
    });
    in_obj("{ obj(n: null) }", vec![], |ctx| {
        let error = ctx.param_value("n", Some(|| Int(9))).err().unwrap();
        assert_eq!(error.message, "not an Int: Some(Null)");
        assert_eq!(error.locations, vec![Pos { line: 1, column: 10 }]);
        assert!(error.path.is_empty());
        assert_eq!(shown(&error.extensions), "Some([(\"kind\", Boolean(true))])");
    });
    in_obj("{ obj }", vec![], |ctx| {
        let error = ctx.param_value("n", NONE_INT).err().unwrap();
        assert_eq!(error.message, "not an Int: None");
        assert_eq!(error.locations, vec![Pos { line: 0, column: 0 }]);
    });
}

#[test]
fn an_argument_with_an_undefined_variable_is_not_read() {
    in_obj("{ obj(n: $v) }", vec![], |ctx| {
        let error = ctx.param_value("n", Some(|| Int(9))).err().unwrap();
        assert_eq!(error.message, "Variable v is not defined.");
        assert_eq!(error.locations, vec![Pos { line: 1, column: 10 }]);
    });
}

#[test]
fn where_an_argument_comes_from() {
    in_obj("{ obj(n: 4) }", vec![], |ctx| {
        let given = &ctx.item.node.arguments;
        assert!(matches!(
            ctx.find_param(given, "n", true),
            Ok(ParamSource::Given { pos: Pos { line: 1, column: 10 }, value: Some(Value::Number(_)) })
        ));
        assert!(matches!(ctx.find_param(given, "m", true), Ok(ParamSource::Default)));
        assert!(matches!(
            ctx.find_param(given, "m", false),
            Ok(ParamSource::Given { pos: Pos { line: 0, column: 0 }, value: None })
        ));
    });
}

#[test]
fn the_first_of_two_arguments_of_one_name_is_read() {
    in_obj("{ obj(n: 1, n: 2) }", vec![], |ctx| {
        let (_, Int(n)) = ctx.param_value("n", NONE_INT).unwrap();
        assert_eq!(n, 1);
    });
}

#[test]
fn a_directive_reads_its_arguments() {
    let env = request("query($v: Int = 8) { obj @mark(n: $v) }", vec![]);
    let schema = SchemaEnv { data: Data::default() };
    let directive = &find(&env.operation.node.selection_set.node, "obj").unwrap().node.directives[0];
    let ctx: ContextDirective<'_, u32> = env.create_context(&schema, None, directive, None);
    let (place, Int(n)) = ctx.param_value("n", NONE_INT).unwrap();
    assert_eq!((place, n), (Pos { line: 1, column: 35 }, 8));
    let (place, Int(n)) = ctx.param_value("m", Some(|| Int(3))).unwrap();
    assert_eq!((place, n), (Pos::default(), 3));
}

#[test]
fn all_arguments_make_one_object() {
    in_obj("query($v: Int = 5) { obj(b: $v, a: 2) }", vec![], |ctx| {
        let (place, Shown(text)) = ctx.oneof_param_value().unwrap();
        assert_eq!(place, Pos { line: 1, column: 22 });
        assert_eq!(
            text,
            "Some(Object([(\"b\", Number(\"5\")), (\"a\", Number(\"2\"))]))"
        );
    });
    in_obj("{ obj }", vec![], |ctx| {
        let (_, Shown(text)) = ctx.oneof_param_value().unwrap();
        assert_eq!(text, "Some(Object([]))");
    });
}

#[test]
fn a_repeated_name_keeps_its_place_and_takes_the_last_value() {
    in_obj("{ obj(a: 1, b: 2, a: 3) }", vec![], |ctx| {
        let (_, Shown(text)) = ctx.oneof_param_value().unwrap();
        assert_eq!(
            text,
            "Some(Object([(\"a\", Number(\"3\")), (\"b\", Number(\"2\"))]))"
        );
    });
}

#[test]
fn an_object_with_an_undefined_variable_is_not_read() {
    in_obj("{ obj(a: 1, b: $v, c: $w) }", vec![], |ctx| {
        let error = ctx.oneof_param_value::<Shown>().err().unwrap();
        assert_eq!(error.message, "Variable v is not defined.");
        assert_eq!(error.locations, vec![Pos { line: 1, column: 16 }]);
    });
}
