//! What surrounds the execution of a query.
use std::ops::Deref;
use std::sync::Arc;
use vstd::prelude::*;

use crate::context::ContextBase;
use crate::data::Data;
use crate::document::{Fragments, OperationDefinition, Variables};
use crate::path::QueryPathNode;
use crate::pos::Positioned;

verus! {

/// What a query needs of its schema.
#[verifier::reject_recursive_types(V)]
pub struct SchemaEnv<V> {
    /// The data of the schema.
    pub data: Data<V>,
}

/// How far a schema answers questions about itself.
#[derive(Debug, Clone, Copy, PartialEq, Eq, Structural)]
pub enum IntrospectionMode {
    /// It answers nothing else.
    IntrospectionOnly,
    /// It answers them.
    Enabled,
    /// It does not answer them.
    Disabled,
}

/// What the parts of one query share.
#[verifier::reject_recursive_types(V)]
pub struct QueryEnvInner<V> {
    /// The values sent for the variables.
    pub variables: Variables,
    /// The name of the operation, if the client gave one.
    pub operation_name: Option<String>,
    /// The operation being executed.
    pub operation: Positioned<OperationDefinition>,
    /// The fragments of the request.
    pub fragments: Fragments,
    /// The data of the session.
    pub session_data: Arc<Data<V>>,
    /// The data of the query.
    pub query_data: Arc<Data<V>>,
    /// How far the schema answers questions about itself.
    pub introspection_mode: IntrospectionMode,
}

/// A shared handle to what the parts of one query share.
#[verifier::reject_recursive_types(V)]
pub struct QueryEnv<V>(Arc<QueryEnvInner<V>>);

impl<V> QueryEnv<V> {
    /// What the handle refers to.
    pub closed spec fn view(&self) -> QueryEnvInner<V> {
        *self.0
    }

    /// Shares an environment.
    pub fn new(inner: QueryEnvInner<V>) -> (env: QueryEnv<V>)
        ensures
            env@ == inner,
    {
        QueryEnv(Arc::new(inner))
    }

    /// Starts a context in this environment.
    pub fn create_context<'a, T>(
        &'a self,
        schema_env: &'a SchemaEnv<V>,
        path_node: Option<QueryPathNode<'a>>,
        item: T,
        execute_data: Option<&'a Data<V>>,
    ) -> (context: ContextBase<'a, T, V>)
        ensures
            context == (ContextBase {
                path_node,
                is_for_introspection: false,
                item,
                schema_env,
                query_env: self,
                execute_data,
            }),
    {
        ContextBase {
            path_node,
            is_for_introspection: false,
            item,
            schema_env,
            query_env: self,
            execute_data,
        }
    }
}

impl<V> Clone for QueryEnv<V> {
    fn clone(&self) -> (env: Self)
        ensures
            env@ == self@,
    {
        QueryEnv(self.0.clone())
    }
}

impl<V> Deref for QueryEnv<V> {
    type Target = QueryEnvInner<V>;

    fn deref(&self) -> (inner: &QueryEnvInner<V>)
        ensures
            *inner == self@,
    {
        &self.0
    }
}

} // verus!
