use graphql_context::document::{
    Field, Fragments, OperationDefinition, OperationType, SelectionSet, Variables,
};
use graphql_context::{
    Context, ContextBase, Data, DataContext, HeaderBytes, HeaderMapFull, IntrospectionMode, PathSegment, Pos,
    Positioned, QueryEnv, QueryEnvInner, SchemaEnv, ServerError, Value,
};
use http::{HeaderMap, HeaderValue};
use std::any::TypeId;
use std::sync::Arc;

fn placed<T>(node: T) -> Positioned<T> {
    Positioned::new(node, Pos { line: 1, column: 1 })
}

fn empty_set() -> Positioned<SelectionSet> {
    placed(SelectionSet { items: vec![] })
}

fn field(name: &str) -> Positioned<Field> {
    placed(Field {
        alias: None,
        name: placed(name.to_string()),
        arguments: vec![],
        directives: vec![],
        selection_set: empty_set(),
    })
}

fn env(session: Data<u32>, query: Data<u32>) -> QueryEnv<u32> {
    QueryEnv::new(QueryEnvInner {
        variables: Variables::new(),
        operation_name: Some("Op".to_string()),
        operation: placed(OperationDefinition {
            ty: OperationType::Query,
            variable_definitions: vec![],
            directives: vec![],
            selection_set: empty_set(),
        }),
        fragments: Fragments::new(),
        session_data: Arc::new(session),
        query_data: Arc::new(query),
        introspection_mode: IntrospectionMode::Disabled,
    })
}

fn with<D: 'static + Send + Sync>(value: u32) -> Data<u32> {
    let mut data = Data::default();
    data.insert::<D>(value);
    data
}

fn plain(bytes: &[u8]) -> HeaderBytes {
    HeaderBytes { bytes: bytes.to_vec(), sensitive: false }
}

fn in_context(check: impl Fn(&ContextBase<'_, (), u32>)) {
    let env = env(Data::default(), Data::default());
    let schema = SchemaEnv { data: Data::default() };
    check(&env.create_context(&schema, None, (), None));
}

#[test]
fn the_nearest_data_wins() {
    struct Key;
    let schema = SchemaEnv { data: with::<Key>(1) };
    let bare = env(Data::default(), Data::default());
    let session = env(with::<Key>(2), Data::default());
    let query = env(with::<Key>(2), with::<Key>(3));
    let execution = with::<Key>(4);
    let elsewhere = with::<String>(5);
    assert_eq!(bare.create_context(&schema, None, (), None).data_opt::<Key>(), Some(&1));
    assert_eq!(session.create_context(&schema, None, (), None).data_opt::<Key>(), Some(&2));
    assert_eq!(query.create_context(&schema, None, (), None).data_opt::<Key>(), Some(&3));
    let ctx = query.create_context(&schema, None, (), Some(&execution));
    assert_eq!(ctx.data_opt::<Key>(), Some(&4));
    assert_eq!(*ctx.data_unchecked::<Key>(), 4);
    assert_eq!(ctx.data::<Key>("Key").unwrap(), &4);
    assert_eq!(ctx.find_data(TypeId::of::<Key>()), Some(&4));
    let ctx = query.create_context(&schema, None, (), Some(&elsewhere));
    assert_eq!(ctx.data_opt::<Key>(), Some(&3));
    assert_eq!(ctx.data_opt::<String>(), Some(&5));
}

fn through_the_trait<'a>(ctx: &impl DataContext<'a, u32>) -> (Option<u32>, Result<u32, String>) {
    (
        ctx.data_opt::<String>().copied(),
        ctx.data::<u8>("u8").map(|found| *found).map_err(|error| error.message),
    )
}

#[test]
fn data_that_is_not_there_is_reported_by_its_type() {
    let env = env(with::<String>(7), Data::default());
    let schema = SchemaEnv { data: Data::default() };
    let ctx = env.create_context(&schema, None, (), None);
    assert_eq!(ctx.data_opt::<u8>(), None);
    let error = ctx.data::<u8>("u8").unwrap_err();
    assert_eq!(error.message, "Data `u8` does not exist.");
    assert!(error.extensions.is_none());
    assert_eq!(
        through_the_trait(&ctx),
        (Some(7), Err("Data `u8` does not exist.".to_string()))
    );
    assert_eq!(*DataContext::data_unchecked::<String>(&ctx), 7);
}

#[test]
fn data_inserted_last_is_found_and_merging_prefers_what_is_added() {
    let mut data: Data<u32> = Data::default();
    assert!(data.is_empty());
    assert_eq!(data.find(TypeId::of::<u8>()), None);
    data.insert::<u8>(1);
    assert_eq!(data.len(), 1);
    data.insert::<u16>(2);
    assert_eq!(data.len(), 2);
    data.insert::<u8>(3);
    assert_eq!(data.len(), 2);
    assert_eq!(data.find(TypeId::of::<u8>()), Some(&3));
    assert_eq!(data.find(TypeId::of::<u16>()), Some(&2));
    let mut added = with::<u16>(4);
    added.insert::<u32>(5);
    data.merge(added);
    assert_eq!(data.find(TypeId::of::<u8>()), Some(&3));
    assert_eq!(data.find(TypeId::of::<u16>()), Some(&4));
    assert_eq!(data.find(TypeId::of::<u32>()), Some(&5));
    assert_eq!(data.len(), 3);
    assert_eq!(data.debug_string(), "Data");
}

#[test]
fn a_header_is_contained_once_it_was_inserted() {
    in_context(|ctx| {
        let mut headers = HeaderMap::new();
        assert!(!ctx.http_header_contains(&headers, "Access-Control-Allow-Origin"));
        let previous =
            ctx.insert_http_header(&mut headers, "access-control-allow-origin", plain(b"*")).unwrap();
        assert_eq!(previous, None);
        assert!(ctx.http_header_contains(&headers, "Access-Control-Allow-Origin"));
        assert!(!ctx.http_header_contains(&headers, "Origin"));
    });
}

#[test]
fn inserting_a_header_again_overwrites_it() {
    in_context(|ctx| {
        let mut headers = HeaderMap::new();
        assert_eq!(ctx.insert_http_header(&mut headers, "Custom-Header", plain(b"1234")), Ok(None));
        assert_eq!(
            ctx.insert_http_header(&mut headers, "Custom-Header", plain(b"Hello World")),
            Ok(Some(plain(b"1234")))
        );
        let values: Vec<_> = headers.get_all("custom-header").iter().collect();
        assert_eq!(values, vec![&HeaderValue::from_static("Hello World")]);
    });
}

#[test]
fn appending_a_header_keeps_the_values_before_it() {
    in_context(|ctx| {
        let mut headers = HeaderMap::new();
        assert_eq!(ctx.append_http_header(&mut headers, "X-Other", plain(b"first")), Ok(false));
        ctx.insert_http_header(&mut headers, "set-cookie", plain(b"Chocolate Chip")).unwrap();
        assert_eq!(ctx.append_http_header(&mut headers, "Set-Cookie", plain(b"Macadamia")), Ok(true));
        assert_eq!(ctx.append_http_header(&mut headers, "SET-COOKIE", plain(b"Oat")), Ok(true));
        let values: Vec<_> = headers.get_all("set-cookie").iter().collect();
        assert_eq!(values, vec!["Chocolate Chip", "Macadamia", "Oat"]);
        assert_eq!(
            ctx.insert_http_header(&mut headers, "Set-Cookie", plain(b"Plain")),
            Ok(Some(plain(b"Chocolate Chip")))
        );
        assert_eq!(headers.get_all("set-cookie").iter().count(), 1);
        assert_eq!(headers.get("x-other").unwrap(), "first");
    });
}

#[test]
fn a_sensitive_header_stays_sensitive() {
    in_context(|ctx| {
        let mut headers = HeaderMap::new();
        let secret = || HeaderBytes { bytes: b"hidden".to_vec(), sensitive: true };
        ctx.append_http_header(&mut headers, "X-Key", secret()).unwrap();
        assert!(headers.get("x-key").unwrap().is_sensitive());
        assert_eq!(ctx.insert_http_header(&mut headers, "X-Key", secret()), Ok(Some(secret())));
        assert_eq!(ctx.insert_http_header(&mut headers, "X-Key", plain(b"1")), Ok(Some(secret())));
        assert!(!headers.get("x-key").unwrap().is_sensitive());
    });
}

#[test]
fn bytes_that_are_no_header_value_are_ignored() {
    in_context(|ctx| {
        let mut headers = HeaderMap::new();
        assert_eq!(ctx.insert_http_header(&mut headers, "X-A", plain(b"line\nbreak")), Ok(None));
        assert_eq!(ctx.append_http_header(&mut headers, "X-A", plain(b"\x7f")), Ok(false));
        assert!(headers.is_empty());
        assert_eq!(ctx.insert_http_header(&mut headers, "X-A", plain(b"tab\tand \xff")), Ok(None));
        assert_eq!(headers.get("x-a").unwrap().as_bytes(), b"tab\tand \xff");
    });
}

#[test]
fn a_text_that_is_no_header_name_is_not_contained() {
    in_context(|ctx| {
        let mut headers = HeaderMap::new();
        ctx.insert_http_header(&mut headers, "x-a", plain(b"1")).unwrap();
        for name in ["", "x a", "x:a", "\u{e9}", &"a".repeat(65536)] {
            assert!(!ctx.http_header_contains(&headers, name));
        }
        let long = "a".repeat(65535);
        assert_eq!(ctx.insert_http_header(&mut headers, &long, plain(b"1")), Ok(None));
        assert!(ctx.http_header_contains(&headers, &"A".repeat(65535)));
        assert_eq!(ctx.insert_http_header(&mut headers, "!#$%&'*+-.^_`|~09azAZ", plain(b"1")), Ok(None));
        assert!(ctx.http_header_contains(&headers, "!#$%&'*+-.^_`|~09AZaz"));
    });
}

#[test]
fn a_long_name_is_kept_with_zeros_for_what_may_not_stand_in_a_name() {
    in_context(|ctx| {
        let mut headers = HeaderMap::new();
        let long = |byte: &str| format!("{}{}", byte, "B".repeat(64));
        assert!(!ctx.http_header_contains(&headers, &long(" ")));
        assert_eq!(ctx.insert_http_header(&mut headers, &long(" "), plain(b"1")), Ok(None));
        assert_eq!(headers.keys().next().unwrap().as_str(), format!("\0{}", "b".repeat(64)));
        for byte in [" ", ":", "\0", "\x7f"] {
            assert!(ctx.http_header_contains(&headers, &long(byte)));
        }
        for name in [long("a"), long("\u{e9}"), " ".to_string() + &"b".repeat(63)] {
            assert!(!ctx.http_header_contains(&headers, &name));
        }
        assert_eq!(ctx.append_http_header(&mut headers, &long(":"), plain(b"2")), Ok(true));
        assert_eq!(
            ctx.insert_http_header(&mut headers, &long("("), plain(b"3")),
            Ok(Some(plain(b"1")))
        );
        assert_eq!(ctx.append_http_header(&mut headers, &long("\u{e9}"), plain(b"4")), Ok(false));
        assert!(ctx.http_header_contains(&headers, &long("  ")));
        assert_eq!(headers.keys_len(), 2);
    });
}

#[test]
fn a_long_static_name_is_kept_as_the_map_keeps_it() {
    const NAME: &str = "A name of more than sixty-four bytes, with blanks, commas and a \u{e9}";
    assert!(NAME.len() > 64);
    in_context(|ctx| {
        let mut direct = HeaderMap::new();
        direct.insert(NAME, HeaderValue::from_static("1"));
        let mut headers = HeaderMap::new();
        ctx.insert_http_header(&mut headers, NAME, plain(b"1")).unwrap();
        assert_eq!(headers, direct);
        assert!(ctx.http_header_contains(&direct, NAME));
    });
}

#[test]
fn a_full_header_map_refuses_more_headers() {
    in_context(|ctx| {
        let mut headers = HeaderMap::new();
        let mut count = 0;
        while let Ok(previous) = ctx.insert_http_header(&mut headers, &format!("h{}", count), plain(b"v")) {
            assert_eq!(previous, None);
            count += 1;
        }
        assert!(count >= 6554);
        assert_eq!(headers.keys_len(), count);
        assert_eq!(
            ctx.insert_http_header(&mut headers, "another", plain(b"v")),
            Err(HeaderMapFull)
        );
        assert_eq!(
            ctx.append_http_header(&mut headers, "another", plain(b"v")),
            Err(HeaderMapFull)
        );
        assert_eq!(headers.keys_len(), count);
        assert!(!ctx.http_header_contains(&headers, "another"));
    });
}

fn path_of<T>(ctx: &ContextBase<'_, T, u32>) -> String {
    ctx.path_node.map(|node| node.to_string()).unwrap_or_default()
}

#[test]
fn contexts_inside_a_context_extend_its_path() {
    let env = env(Data::default(), Data::default());
    let schema = SchemaEnv { data: Data::default() };
    let set = empty_set();
    let mut users = field("users");
    users.node.alias = Some(placed("people".to_string()));
    let name = field("name");
    let root = env.create_context(&schema, None, &set, None);
    let root = ContextBase { is_for_introspection: true, ..root };
    assert_eq!(path_of(&root), "");
    let list = root.with_field(&users);
    assert_eq!(path_of(&list), "people");
    let item = list.with_index(3);
    assert_eq!(path_of(&item), "people.3");
    assert_eq!(item.item.node.name.node, "users");
    let inner = item.with_selection_set(&set);
    assert_eq!(path_of(&inner), "people.3");
    let leaf = inner.with_field(&name);
    assert_eq!(path_of(&leaf), "people.3.name");
    assert!(leaf.is_for_introspection);
    assert_eq!(leaf.path_node.unwrap().field_name(), "name");
    assert_eq!(item.path_node.unwrap().field_name(), "people");
}

fn an_error() -> ServerError {
    ServerError {
        message: "broken".to_string(),
        locations: vec![Pos { line: 2, column: 5 }],
        path: vec![PathSegment::Index(9)],
        extensions: Some(vec![("code".to_string(), Value::Null)]),
    }
}

#[test]
fn an_error_is_placed_at_the_path_of_its_context() {
    let env = env(Data::default(), Data::default());
    let schema = SchemaEnv { data: Data::default() };
    let users = field("users");
    let root = env.create_context(&schema, None, (), None);
    let kept = root.set_error_path(an_error());
    assert_eq!(kept.path, vec![PathSegment::Index(9)]);
    let list: Context<'_, u32> = root.with_field(&users);
    let item = list.with_index(3);
    let moved = item.set_error_path(an_error());
    assert_eq!(
        moved.path,
        vec![PathSegment::Field("users".to_string()), PathSegment::Index(3)]
    );
    assert_eq!(moved.message, "broken");
    assert_eq!(moved.locations, vec![Pos { line: 2, column: 5 }]);
    assert_eq!(moved.extensions.unwrap()[0].0, "code");
}

#[test]
fn errors_are_reported_in_order() {
    in_context(|ctx| {
        let mut errors = vec![];
        ctx.add_error(&mut errors, an_error());
        ctx.add_error(&mut errors, ServerError::new("second".to_string(), None));
        assert_eq!(errors.len(), 2);
        assert_eq!(errors[0].message, "broken");
        assert_eq!(errors[1].message, "second");
        assert!(errors[1].locations.is_empty());
    });
}

#[test]
fn a_copied_context_stands_where_the_first_one_does() {
    let env = env(Data::default(), with::<u8>(6));
    let schema = SchemaEnv { data: Data::default() };
    let users = field("users");
    let root = env.create_context(&schema, None, (), None);
    let list = root.with_field(&users);
    let copy = list.clone();
    assert_eq!(path_of(&copy), "users");
    assert_eq!(copy.item.node.name.node, "users");
    assert_eq!(copy.data_opt::<u8>(), Some(&6));
    let shared = env.clone();
    assert_eq!(shared.operation_name.as_deref(), Some("Op"));
    assert_eq!(shared.introspection_mode, IntrospectionMode::Disabled);
}
