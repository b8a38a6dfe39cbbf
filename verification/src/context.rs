//! Query context.
use http::HeaderMap;
use std::any::TypeId;
use std::ops::Deref;
use vstd::prelude::*;
use vstd::string::StringExecFns;
use vstd::utf8::encode_utf8;

use crate::data::{
    missing_data, missing_data_message, type_id_of, type_key, well_typed, Data, DataContext,
};
use crate::document::{Directive, Field, SelectionSet};
use crate::env::{QueryEnv, SchemaEnv};
use crate::error::{
    fresh_error, path_views, Error, PathSegment, SegmentView, ServerError, ServerResult,
};
use crate::headers::{
    accepts_value, appended, header_contents, header_key, headers_append, headers_contain,
    headers_insert, inserted, is_header_value, names_header, sure_capacity, HeaderBytes,
    HeaderMapFull,
};
use crate::path::{segment_views, QueryPathNode, QueryPathSegment};
use crate::pos::{Pos, Positioned};
use crate::scope::{law_scope_binds, Scope};
use crate::value::{substitute, Bindings, InputValue, Value, ValueView};

verus! {

/// Context for `SelectionSet`
pub type ContextSelectionSet<'a, V> = ContextBase<'a, &'a Positioned<SelectionSet>, V>;

/// Context object for resolve field
pub type Context<'a, V> = ContextBase<'a, &'a Positioned<Field>, V>;

/// Context object for execute directive.
pub type ContextDirective<'a, V> = ContextBase<'a, &'a Positioned<Directive>, V>;

/// Query context.
#[verifier::reject_recursive_types(T)]
#[verifier::reject_recursive_types(V)]
pub struct ContextBase<'a, T, V> {
    /// The current path node being resolved.
    pub path_node: Option<QueryPathNode<'a>>,
    /// If `true` means the current field is for introspection.
    pub is_for_introspection: bool,
    /// What the context is about.
    pub item: T,
    /// The environment of the schema.
    pub schema_env: &'a SchemaEnv<V>,
    /// The environment of the query.
    pub query_env: &'a QueryEnv<V>,
    /// The data of this execution, if there is any.
    pub execute_data: Option<&'a Data<V>>,
}

impl<'a, T: Clone, V> Clone for ContextBase<'a, T, V> {
    fn clone(&self) -> (context: Self)
        ensures
            context.surroundings_of(*self),
            context.is_for_introspection == self.is_for_introspection,
            context.schema_env == self.schema_env,
            context.query_env == self.query_env,
            context.execute_data == self.execute_data,
            context.path_node == self.path_node,
            cloned::<T>(self.item, context.item),
    {
        ContextBase {
            path_node: self.path_node,
            is_for_introspection: self.is_for_introspection,
            item: self.item.clone(),
            schema_env: self.schema_env,
            query_env: self.query_env,
            execute_data: self.execute_data,
        }
    }
}

impl<'a, T, V> ContextBase<'a, T, V> {
    /// The path from the root of the query to what is being resolved.
    pub open spec fn path(&self) -> Seq<SegmentView> {
        match self.path_node {
            Some(node) => node.path(),
            None => Seq::empty(),
        }
    }

    /// Whether two contexts differ at most in their path and in what they are about.
    pub open spec fn surroundings_of<U>(&self, other: ContextBase<'a, U, V>) -> bool {
        &&& self.is_for_introspection == other.is_for_introspection
        &&& self.schema_env == other.schema_env
        &&& self.query_env == other.query_env
        &&& self.execute_data == other.execute_data
    }

    /// Whether `node` continues the path of this context.
    pub open spec fn continued_by(&self, node: QueryPathNode<'a>) -> bool {
        match self.path_node {
            Some(parent) => node.parent == Some(&parent),
            None => node.parent is None,
        }
    }

    /// A context for a field inside this one.
    pub fn with_field(&'a self, field: &'a Positioned<Field>) -> (context: Context<'a, V>)
        ensures
            context.surroundings_of(*self),
            context.is_for_introspection == self.is_for_introspection,
            context.schema_env == self.schema_env,
            context.query_env == self.query_env,
            context.execute_data == self.execute_data,
            context.item == field,
            context.path_node matches Some(node) && self.continued_by(node) && node.segment.view()
                == SegmentView::Name(field.node.key().node@),
            context.path() == self.path().push(SegmentView::Name(field.node.key().node@)),
            context.path_node matches Some(node) && (node.segment matches QueryPathSegment::Name(
                text,
            ) && (field.node.alias matches Some(alias) ==> text@ == alias.node@) && (
            field.node.alias is None ==> text@ == field.node.name.node@)),
            match self.path_node {
                Some(outer) => context.path_node->0.parent == Some(&outer)
                    && context.path_node->0.segments() == outer.segments().push(
                    context.path_node->0.segment,
                ),
                None => context.path_node->0.parent is None && context.path_node->0.segments()
                    == seq![context.path_node->0.segment],
            },
    {
        let context = ContextBase {
            path_node: Some(
                QueryPathNode {
                    parent: self.path_node.as_ref(),
                    segment: QueryPathSegment::Name(field.node.response_key().node.as_str()),
                },
            ),
            is_for_introspection: self.is_for_introspection,
            item: field,
            schema_env: self.schema_env,
            query_env: self.query_env,
            execute_data: self.execute_data,
        };
        assert(context.path() =~= self.path().push(SegmentView::Name(field.node.key().node@)));
        context
    }

    /// A context for a selection set at the same place.
    pub fn with_selection_set(&self, selection_set: &'a Positioned<SelectionSet>) -> (context:
        ContextSelectionSet<'a, V>)
        ensures
            context.surroundings_of(*self),
            context.is_for_introspection == self.is_for_introspection,
            context.schema_env == self.schema_env,
            context.query_env == self.query_env,
            context.execute_data == self.execute_data,
            context.item == selection_set,
            context.path_node == self.path_node,
    {
        ContextBase {
            path_node: self.path_node,
            is_for_introspection: self.is_for_introspection,
            item: selection_set,
            schema_env: self.schema_env,
            query_env: self.query_env,
            execute_data: self.execute_data,
        }
    }

    /// A context for an element of the list that this one is about.
    #[must_use]
    pub fn with_index(&'a self, idx: usize) -> (context: ContextBase<'a, T, V>) where T: Copy
        ensures
            context.surroundings_of(*self),
            context.is_for_introspection == self.is_for_introspection,
            context.schema_env == self.schema_env,
            context.query_env == self.query_env,
            context.execute_data == self.execute_data,
            context.item == self.item,
            context.path_node matches Some(node) && self.continued_by(node) && node.segment.view()
                == SegmentView::Index(idx),
            context.path() == self.path().push(SegmentView::Index(idx)),
            context.path_node matches Some(node) && node.segment == QueryPathSegment::Index(idx),
            match self.path_node {
                Some(outer) => context.path_node->0.parent == Some(&outer)
                    && context.path_node->0.segments() == outer.segments().push(
                    context.path_node->0.segment,
                ),
                None => context.path_node->0.parent is None && context.path_node->0.segments()
                    == seq![context.path_node->0.segment],
            },
    {
        let context = ContextBase {
            path_node: Some(
                QueryPathNode {
                    parent: self.path_node.as_ref(),
                    segment: QueryPathSegment::Index(idx),
                },
            ),
            is_for_introspection: self.is_for_introspection,
            item: self.item,
            schema_env: self.schema_env,
            query_env: self.query_env,
            execute_data: self.execute_data,
        };
        assert(context.path() =~= self.path().push(SegmentView::Index(idx)));
        context
    }

    /// Places an error at the path of this context; without a path the error stays as it is.
    pub fn set_error_path(&self, error: ServerError) -> (placed: ServerError)
        ensures
            self.path_node is None ==> placed == error,
            self.path_node is Some ==> path_views(placed.path@) == self.path(),
            self.path_node matches Some(node) ==> placed.path@.len() == node.segments().len() && (
            forall|i: int|
                0 <= i < placed.path@.len() ==> match (#[trigger] node.segments()[i]) {
                    QueryPathSegment::Name(name) => placed.path@[i] matches PathSegment::Field(text)
                        && text@ == name@,
                    QueryPathSegment::Index(index) => placed.path@[i] == PathSegment::Index(index),
                }),
            placed.message == error.message,
            placed.locations == error.locations,
            placed.extensions == error.extensions,
    {
        if let Some(node) = self.path_node {
            let path = node.to_owned_path();
            ServerError { path, ..error }
        } else {
            error
        }
    }

    /// Report a resolver error.
    ///
    /// When implementing `OutputType`, if an error occurs, call this function
    /// to report this error and return `Value::Null`.
    pub fn add_error(&self, errors: &mut Vec<ServerError>, error: ServerError)
        ensures
            final(errors)@ == old(errors)@.push(error),
    {
        errors.push(error);
    }
}

impl<'a, T, V> ContextBase<'a, T, V> {
    /// The data that can be seen from here: that of the execution, then that of the query, then
    /// that of the session, then that of the schema.
    pub open spec fn visible(&self) -> Map<TypeId, V> {
        let shared = self.schema_env.data@.union_prefer_right(
            self.query_env@.session_data@,
        ).union_prefer_right(self.query_env@.query_data@);
        match self.execute_data {
            Some(data) => shared.union_prefer_right(data@),
            None => shared,
        }
    }

    /// The nearest data wins: that of the execution, else that of the query, else that of the
    /// session, else that of the schema; there is none only if none of them has any.
    pub proof fn law_nearest_data_wins(&self, key: TypeId)
        ensures
            ({
                let execution = match self.execute_data {
                    Some(data) => data@,
                    None => Map::empty(),
                };
                let query = self.query_env@.query_data@;
                let session = self.query_env@.session_data@;
                let schema = self.schema_env.data@;
                if execution.contains_key(key) {
                    self.visible().contains_key(key) && self.visible()[key] == execution[key]
                } else if query.contains_key(key) {
                    self.visible().contains_key(key) && self.visible()[key] == query[key]
                } else if session.contains_key(key) {
                    self.visible().contains_key(key) && self.visible()[key] == session[key]
                } else if schema.contains_key(key) {
                    self.visible().contains_key(key) && self.visible()[key] == schema[key]
                } else {
                    !self.visible().contains_key(key)
                }
            }),
    {
    }

    /// If each part of the data holds every value under its own type, so does all that can be
    /// seen: what is found for a type is of that type.
    pub proof fn law_visible_is_well_typed(&self, type_of: spec_fn(V) -> TypeId)
        requires
            well_typed(self.schema_env.data@, type_of),
            well_typed(self.query_env@.session_data@, type_of),
            well_typed(self.query_env@.query_data@, type_of),
            self.execute_data matches Some(data) ==> well_typed(data@, type_of),
        ensures
            well_typed(self.visible(), type_of),
    {
    }

    /// The data under a type identifier.
    pub fn find_data(&self, key: TypeId) -> (data: Option<&'a V>)
        ensures
            match data {
                Some(data) => self.visible().contains_key(key) && *data == self.visible()[key],
                None => !self.visible().contains_key(key),
            },
            self.execute_data matches Some(execution) ==> execution@.contains_key(key) ==> data
                == Some(&execution@[key]),
            (self.execute_data matches Some(execution) ==> !execution@.contains_key(key)) ==> ({
                let query = self.query_env@.query_data@;
                let session = self.query_env@.session_data@;
                let schema = self.schema_env.data@;
                if query.contains_key(key) {
                    data == Some(&query[key])
                } else if session.contains_key(key) {
                    data == Some(&session[key])
                } else if schema.contains_key(key) {
                    data == Some(&schema[key])
                } else {
                    data is None
                }
            }),
    {
        if let Some(data) = self.execute_data {
            let found = data.find(key);
            if found.is_some() {
                return found;
            }
        }
        let env = self.query_env.deref();
        let found = env.query_data.find(key);
        if found.is_some() {
            return found;
        }
        let found = env.session_data.find(key);
        if found.is_some() {
            return found;
        }
        self.schema_env.data.find(key)
    }

    /// Gets the global data defined in the `Context` or `Schema`.
    ///
    /// If both `Schema` and `Query` have the same data type, the data in the
    /// `Query` is obtained.
    ///
    /// # Errors
    ///
    /// Returns a `Error` if the specified type data does not exist. The error calls the type
    /// `described`.
    pub fn data<D: 'static + Send + Sync>(&self, described: &str) -> (data: Result<&'a V, Error>)
        ensures
            match data {
                Ok(data) => self.visible().contains_key(type_key::<D>()) && *data
                    == self.visible()[type_key::<D>()],
                Err(error) => !self.visible().contains_key(type_key::<D>()) && error.message@
                    == missing_data_message(described@) && error.extensions is None,
            },
            data matches Err(error) ==> error.message@ == "Data `"@ + described@
                + "` does not exist."@,
    {
        match self.data_opt::<D>() {
            Some(data) => Ok(data),
            None => Err(missing_data(described)),
        }
    }

    /// Gets the global data defined in the `Context` or `Schema`, which must be there.
    pub fn data_unchecked<D: 'static + Send + Sync>(&self) -> (data: &'a V)
        requires
            self.visible().contains_key(type_key::<D>()),
        ensures
            *data == self.visible()[type_key::<D>()],
    {
        self.data_opt::<D>().unwrap()
    }

    /// Gets the global data defined in the `Context` or `Schema` or `None` if
    /// the specified type data does not exist.
    pub fn data_opt<D: 'static + Send + Sync>(&self) -> (data: Option<&'a V>)
        ensures
            match data {
                Some(data) => self.visible().contains_key(type_key::<D>()) && *data
                    == self.visible()[type_key::<D>()],
                None => !self.visible().contains_key(type_key::<D>()),
            },
    {
        self.find_data(type_id_of::<D>())
    }
}

impl<'a, T, V> DataContext<'a, V> for ContextBase<'a, T, V> {
    open spec fn visible_data(&self) -> Map<TypeId, V> {
        self.visible()
    }

    fn data<D: 'static + Send + Sync>(&self, described: &str) -> (data: Result<&'a V, Error>) {
        ContextBase::data::<D>(self, described)
    }

    fn data_unchecked<D: 'static + Send + Sync>(&self) -> (data: &'a V) {
        ContextBase::data_unchecked::<D>(self)
    }

    fn data_opt<D: 'static + Send + Sync>(&self) -> (data: Option<&'a V>) {
        ContextBase::data_opt::<D>(self)
    }
}

impl<'a, T, V> ContextBase<'a, T, V> {
    /// Returns whether the HTTP header `key` is currently set on the response
    pub fn http_header_contains(&self, headers: &HeaderMap, key: &str) -> (contained: bool)
        ensures
            contained == (names_header(encode_utf8(key@)) && header_contents(
                *headers,
            ).contains_key(header_key(encode_utf8(key@)))),
    {
        headers_contain(headers, key)
    }

    /// Sets a HTTP header to response.
    ///
    /// If the header was not currently set on the response, then `None` is
    /// returned.
    ///
    /// If the response already contained this header then the new value is
    /// associated with this key and __all the previous values are
    /// removed__, however only a the first previous value is returned.
    ///
    /// The text must name a header, as [`names_header`] says.
    /// Bytes that cannot be the value of a header are ignored, and `None` is returned.
    ///
    /// # Errors
    ///
    /// Returns [`HeaderMapFull`], and leaves the headers as they are, if there are too many. With
    /// fewer names than [`sure_capacity`] there never are; beyond that it depends on how the names
    /// are laid out in the map.
    pub fn insert_http_header(&self, headers: &mut HeaderMap, name: &str, value: HeaderBytes) -> (
    outcome: Result<Option<HeaderBytes>, HeaderMapFull>)
        requires
            is_header_value(value.bytes@) ==> names_header(encode_utf8(name@)),
        ensures
            match outcome {
                Ok(previous) => if is_header_value(value.bytes@) {
                    inserted(
                        header_contents(*old(headers)),
                        header_key(encode_utf8(name@)),
                        value.view(),
                        header_contents(*final(headers)),
                        previous,
                    )
                } else {
                    previous is None && *final(headers) == *old(headers)
                },
                Err(_) => is_header_value(value.bytes@) && header_contents(*final(headers))
                    == header_contents(*old(headers)) && header_contents(*old(headers)).dom().len()
                    >= sure_capacity(),
            },
            outcome is Err ==> header_contents(*old(headers)).dom().len() >= 6554,
            outcome matches Ok(previous) ==> is_header_value(value.bytes@) ==> ({
                let key = header_key(encode_utf8(name@));
                let before = header_contents(*old(headers));
                &&& header_contents(*final(headers)) == before.insert(
                    key,
                    seq![(value.bytes@, value.sensitive)],
                )
                &&& previous is Some <==> before.contains_key(key)
                &&& previous matches Some(first) ==> (first.bytes@, first.sensitive)
                    == before[key][0]
            }),
    {
        if accepts_value(&value.bytes) {
            match headers_insert(headers, name, value) {
                Ok(previous) => Ok(previous),
                Err(_) => Err(HeaderMapFull),
            }
        } else {
            Ok(None)
        }
    }

    /// Sets a HTTP header to response.
    ///
    /// If the header was not currently set on the response, then `false` is
    /// returned.
    ///
    /// If the response did have this header then the new value is appended to
    /// the end of the list of values currently associated with the key,
    /// however the key is not updated _(which is important for types that
    /// can be `==` without being identical)_.
    ///
    /// The text must name a header, as [`names_header`] says.
    /// Bytes that cannot be the value of a header are ignored, and `false` is returned.
    ///
    /// # Errors
    ///
    /// Returns [`HeaderMapFull`], and leaves the headers as they are, if there are too many. With
    /// fewer names than [`sure_capacity`] there never are; beyond that it depends on how the names
    /// are laid out in the map.
    pub fn append_http_header(&self, headers: &mut HeaderMap, name: &str, value: HeaderBytes) -> (
    outcome: Result<bool, HeaderMapFull>)
        requires
            is_header_value(value.bytes@) ==> names_header(encode_utf8(name@)),
        ensures
            match outcome {
                Ok(existed) => if is_header_value(value.bytes@) {
                    appended(
                        header_contents(*old(headers)),
                        header_key(encode_utf8(name@)),
                        value.view(),
                        header_contents(*final(headers)),
                        existed,
                    )
                } else {
                    !existed && *final(headers) == *old(headers)
                },
                Err(_) => is_header_value(value.bytes@) && header_contents(*final(headers))
                    == header_contents(*old(headers)) && header_contents(*old(headers)).dom().len()
                    >= sure_capacity(),
            },
            outcome is Err ==> header_contents(*old(headers)).dom().len() >= 6554,
            outcome matches Ok(existed) ==> is_header_value(value.bytes@) ==> ({
                let key = header_key(encode_utf8(name@));
                let before = header_contents(*old(headers));
                let given = (value.bytes@, value.sensitive);
                &&& existed == before.contains_key(key)
                &&& existed ==> header_contents(*final(headers)) == before.insert(
                    key,
                    before[key].push(given),
                )
                &&& !existed ==> header_contents(*final(headers)) == before.insert(key, seq![given])
            }),
    {
        if accepts_value(&value.bytes) {
            match headers_append(headers, name, value) {
                Ok(existed) => Ok(existed),
                Err(_) => Err(HeaderMapFull),
            }
        } else {
            Ok(false)
        }
    }
}

/// What is said of a variable that stands for nothing.
pub open spec fn undefined_message(name: Seq<char>) -> Seq<char> {
    "Variable "@ + name + " is not defined."@
}

/// Whether `outcome` is the value `expected`, or the error that the variable named there is not
/// defined, placed at `pos`.
pub open spec fn resolves_to(
    outcome: ServerResult<Value>,
    expected: Result<ValueView, Seq<char>>,
    pos: Pos,
) -> bool {
    match expected {
        Ok(value) => outcome matches Ok(found) && found.view() == value,
        Err(name) => outcome matches Err(error) && fresh_error(
            error,
            undefined_message(name),
            Some(pos),
        ),
    }
}

/// The error for a variable that stands for nothing.
fn undefined_variable(name: &str, pos: Pos) -> (error: ServerError)
    ensures
        fresh_error(error, undefined_message(name@), Some(pos)),
        error.message@ == "Variable "@ + name@ + " is not defined."@,
{
    let mut message: String = "Variable ".to_owned();
    message.append(name);
    message.append(" is not defined.");
    ServerError::new(message, Some(pos))
}

impl<'a, T, V> ContextBase<'a, T, V> {
    /// What each variable stands for.
    pub open spec fn bindings(&self) -> Bindings {
        Scope {
            definitions: &self.query_env@.operation.node.variable_definitions,
            variables: &self.query_env@.variables,
        }.bindings()
    }

    /// A name stands for what the operation and the client make of it: nothing if the operation
    /// does not declare it, else what the client sent, else the default of its first declaration,
    /// else `null` if the type admits it.
    pub proof fn law_context_binds(&self, name: Seq<char>)
        ensures
            (forall|i: int|
                0 <= i < self.query_env@.operation.node.variable_definitions@.len() ==> (
                #[trigger] self.query_env@.operation.node.variable_definitions@[i]).node.name.node@
                    != name) ==> self.bindings()(name) is None,
            forall|index: int|
                {
                    &&& 0 <= index < self.query_env@.operation.node.variable_definitions@.len()
                    &&& (#[trigger] self.query_env@.operation.node.variable_definitions@[index]).node.name.node@
                        == name
                    &&& forall|i: int|
                        0 <= i < index ==> (
                        #[trigger] self.query_env@.operation.node.variable_definitions@[i]).node.name.node@
                            != name
                } ==> self.bindings()(name) == ({
                    let definition =
                        self.query_env@.operation.node.variable_definitions@[index].node;
                    let sent = self.query_env@.variables@;
                    if sent.contains_key(name) {
                        Some(sent[name].view())
                    } else if definition.default_value is Some {
                        Some(definition.default_value->0.node.view())
                    } else if definition.var_type.node.nullable {
                        Some(ValueView::Null)
                    } else {
                        None
                    }
                }),
    {
        law_scope_binds(
            Scope {
                definitions: &self.query_env@.operation.node.variable_definitions,
                variables: &self.query_env@.variables,
            },
            name,
        );
    }

    /// The variables of the operation.
    fn scope(&self) -> (scope: Scope<'a>)
        ensures
            scope.bindings() == self.bindings(),
    {
        let env = self.query_env.deref();
        Scope {
            definitions: &env.operation.node.variable_definitions,
            variables: &env.variables,
        }
    }

    /// What a variable stands for.
    pub fn var_value(&self, name: &str, pos: Pos) -> (outcome: ServerResult<Value>)
        ensures
            match self.bindings()(name@) {
                Some(value) => outcome matches Ok(found) && found.view() == value,
                None => outcome matches Err(error) && fresh_error(
                    error,
                    undefined_message(name@),
                    Some(pos),
                ),
            },
            outcome matches Err(error) ==> error.message@ == "Variable "@ + name@
                + " is not defined."@ && error.locations@ == seq![pos],
            (forall|i: int|
                0 <= i < self.query_env@.operation.node.variable_definitions@.len() ==> (
                #[trigger] self.query_env@.operation.node.variable_definitions@[i]).node.name.node@
                    != name@) ==> outcome is Err,
            forall|index: int|
                {
                    &&& 0 <= index < self.query_env@.operation.node.variable_definitions@.len()
                    &&& (#[trigger] self.query_env@.operation.node.variable_definitions@[index]).node.name.node@
                        == name@
                    &&& forall|i: int|
                        0 <= i < index ==> (
                        #[trigger] self.query_env@.operation.node.variable_definitions@[i]).node.name.node@
                            != name@
                } ==> ({
                    let definition =
                        self.query_env@.operation.node.variable_definitions@[index].node;
                    let sent = self.query_env@.variables@;
                    if sent.contains_key(name@) {
                        outcome matches Ok(found) && found.view() == sent[name@].view()
                    } else if definition.default_value is Some {
                        outcome matches Ok(found) && found.view()
                            == definition.default_value->0.node.view()
                    } else if definition.var_type.node.nullable {
                        outcome matches Ok(found) && found.view() == ValueView::Null
                    } else {
                        outcome is Err
                    }
                }),
    {
        proof {
            self.law_context_binds(name@);
        }
        match self.scope().value_of(name) {
            Some(value) => Ok(value),
            None => Err(undefined_variable(name, pos)),
        }
    }

    /// A value with its variables replaced; an error is placed at `pos`.
    pub(crate) fn resolve_at(&self, value: &InputValue, pos: Pos) -> (outcome: ServerResult<Value>)
        ensures
            resolves_to(outcome, substitute(value.view(), self.bindings()), pos),
            substitute(value.view(), self.bindings()) matches Ok(expected) ==> outcome matches Ok(
                found,
            ) && found.view() == expected,
            substitute(value.view(), self.bindings()) matches Err(name) ==> outcome matches Err(
                error,
            ) && error.message@ == "Variable "@ + name + " is not defined."@ && error.locations@
                == seq![pos],
    {
        match value.into_const_with(&self.scope()) {
            Ok(value) => Ok(value),
            Err(name) => Err(undefined_variable(name.as_str(), pos)),
        }
    }

    /// A value with its variables replaced.
    pub fn resolve_input_value(&self, value: &Positioned<InputValue>) -> (outcome: ServerResult<
        Value,
    >)
        ensures
            resolves_to(outcome, substitute(value.node.view(), self.bindings()), value.pos),
            substitute(value.node.view(), self.bindings()) matches Ok(expected) ==> outcome matches
                Ok(found) && found.view() == expected,
            substitute(value.node.view(), self.bindings()) matches Err(name) ==> outcome matches
                Err(error) && error.message@ == "Variable "@ + name + " is not defined."@
                && error.locations@ == seq![value.pos],
    {
        self.resolve_at(&value.node, value.pos)
    }
}

/// The message for a variable that stands for nothing names it, and for data that is not there
/// its type.
pub proof fn law_messages(name: Seq<char>)
    ensures
        undefined_message(name) == "Variable "@ + name + " is not defined."@,
        missing_data_message(name) == "Data `"@ + name + "` does not exist."@,
{
}

/// What resolves to a value is that value; what does not is the error that its variable is not
/// defined, at the given place.
pub proof fn law_resolves_to(
    outcome: ServerResult<Value>,
    expected: Result<ValueView, Seq<char>>,
    pos: Pos,
)
    requires
        resolves_to(outcome, expected, pos),
    ensures
        expected matches Ok(value) ==> outcome matches Ok(found) && found.view() == value,
        expected matches Err(name) ==> outcome matches Err(error) && error.message@ == "Variable "@
            + name + " is not defined."@ && error.locations@ == seq![pos] && error.path@.len() == 0
            && error.extensions is None,
{
}

/// What is seen through [`DataContext`] is what is seen from the context.
pub proof fn law_visible_data<'a, T, V>(context: ContextBase<'a, T, V>, key: TypeId)
    ensures
        ({
            let seen = DataContext::<'a, V>::visible_data(&context);
            let execution = match context.execute_data {
                Some(data) => data@,
                None => Map::empty(),
            };
            let query = context.query_env@.query_data@;
            let session = context.query_env@.session_data@;
            let schema = context.schema_env.data@;
            if execution.contains_key(key) {
                seen.contains_key(key) && seen[key] == execution[key]
            } else if query.contains_key(key) {
                seen.contains_key(key) && seen[key] == query[key]
            } else if session.contains_key(key) {
                seen.contains_key(key) && seen[key] == session[key]
            } else if schema.contains_key(key) {
                seen.contains_key(key) && seen[key] == schema[key]
            } else {
                !seen.contains_key(key)
            }
        }),
{
}

/// The path of a context made for a field is that of the context around it with one more segment:
/// the alias of the field if it has one, and else its name.
pub proof fn law_field_context_path<'a, T, V>(
    outer: ContextBase<'a, T, V>,
    field: Positioned<Field>,
    inner: Context<'a, V>,
)
    requires
        inner.path() == outer.path().push(SegmentView::Name(field.node.key().node@)),
    ensures
        inner.path().len() == outer.path().len() + 1,
        forall|i: int| 0 <= i < outer.path().len() ==> inner.path()[i] == outer.path()[i],
        field.node.alias matches Some(alias) ==> inner.path().last() == SegmentView::Name(
            alias.node@,
        ),
        field.node.alias is None ==> inner.path().last() == SegmentView::Name(
            field.node.name.node@,
        ),
{
}

/// The path of a context is that of its node, and empty if it has none.
pub proof fn law_context_path<'a, T, V>(context: ContextBase<'a, T, V>)
    ensures
        context.path_node matches Some(node) ==> context.path() == segment_views(node.segments()),
        context.path_node is None ==> context.path().len() == 0,
{
}

/// Contexts in one place surround in the same way, and a node continues a path exactly if its
/// parent is the last node of it.
pub proof fn law_surroundings<'a, T, U, V>(
    left: ContextBase<'a, T, V>,
    right: ContextBase<'a, U, V>,
    node: QueryPathNode<'a>,
)
    ensures
        left.surroundings_of(right) ==> left.is_for_introspection == right.is_for_introspection
            && left.schema_env == right.schema_env && left.query_env == right.query_env
            && left.execute_data == right.execute_data,
        left.continued_by(node) ==> (left.path_node matches Some(last) ==> node.parent == Some(
            &last,
        )) && (left.path_node is None ==> node.parent is None),
{
}

} // verus!
