//! The context in which a GraphQL query is executed.
//!
//! A [`Context`] knows where in the response it stands, what data can be seen from there, what the
//! variables of the request stand for, and which fields are selected below.
pub mod acyclic;
pub mod arguments;
mod call;
pub mod context;
pub mod data;
pub mod describe;
pub mod document;
pub mod env;
pub mod error;
pub mod headers;
pub mod input;
pub mod look_ahead;
pub mod object;
pub mod params;
pub mod path;
pub mod pos;
pub mod scope;
pub mod selection;
pub mod text;
pub mod unfold;
pub mod value;

pub use crate::context::{Context, ContextBase, ContextDirective, ContextSelectionSet};
pub use crate::data::{Data, DataContext};
pub use crate::env::{IntrospectionMode, QueryEnv, QueryEnvInner, SchemaEnv};
pub use crate::error::{Error, InputValueError, PathSegment, ServerError, ServerResult};
pub use crate::headers::{HeaderBytes, HeaderMapFull};
pub use crate::input::{InputType, OneofObjectType};
pub use crate::look_ahead::Lookahead;
pub use crate::params::ParamSource;
pub use crate::path::{Parents, PathVisitor, QueryPathNode, QueryPathSegment};
pub use crate::pos::{Pos, Positioned};
pub use crate::selection::{SelectionField, SelectionFieldsIter};
pub use crate::value::{InputValue, Value};
