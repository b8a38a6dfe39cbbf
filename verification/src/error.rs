//! Errors of a request.
use vstd::prelude::*;

use crate::pos::Pos;
use crate::value::Value;

verus! {

/// One step of the path from the root of a response to a value in it.
#[derive(Debug, PartialEq, Eq)]
pub enum PathSegment {
    /// A field of an object.
    Field(String),
    /// An element of a list.
    Index(usize),
}

/// The mathematical form of a step of a path.
pub enum SegmentView {
    /// A field of an object.
    Name(Seq<char>),
    /// An element of a list.
    Index(usize),
}

impl PathSegment {
    /// The step with its name read as a sequence.
    pub open spec fn view(&self) -> SegmentView {
        match self {
            PathSegment::Field(name) => SegmentView::Name(name@),
            PathSegment::Index(index) => SegmentView::Index(*index),
        }
    }
}

/// A path read as a sequence of steps.
pub open spec fn path_views(path: Seq<PathSegment>) -> Seq<SegmentView> {
    Seq::new(path.len(), |i: int| path[i].view())
}

/// Named values that travel with an error, in order.
pub type ErrorExtensionValues = Vec<(String, Value)>;

/// An error in the response of a request.
#[derive(Debug)]
pub struct ServerError {
    /// What went wrong.
    pub message: String,
    /// Where in the source text of the request it went wrong.
    pub locations: Vec<Pos>,
    /// Where in the response it went wrong.
    pub path: Vec<PathSegment>,
    /// What else is known of the error.
    pub extensions: Option<ErrorExtensionValues>,
}

/// What one new error holds: a message, at most one location, no path and no extensions.
pub open spec fn fresh_error(error: ServerError, message: Seq<char>, pos: Option<Pos>) -> bool {
    &&& error.message@ == message
    &&& error.locations@ == (match pos {
        Some(pos) => seq![pos],
        None => Seq::empty(),
    })
    &&& error.path@.len() == 0
    &&& error.extensions is None
}

impl ServerError {
    /// An error with a message, and its location if one is given.
    pub fn new(message: String, pos: Option<Pos>) -> (error: ServerError)
        ensures
            error.message == message,
            fresh_error(error, message@, pos),
            pos matches Some(pos) ==> error.locations@ == seq![pos],
            pos is None ==> error.locations@.len() == 0,
            error.path@.len() == 0,
            error.extensions is None,
    {
        let mut locations: Vec<Pos> = Vec::new();
        if let Some(pos) = pos {
            locations.push(pos);
        }
        ServerError { message, locations, path: Vec::new(), extensions: None }
    }
}

/// The outcome of a step of a request.
pub type ServerResult<T> = Result<T, ServerError>;

/// An error that is not tied to a request yet.
#[derive(Debug)]
pub struct Error {
    /// What went wrong.
    pub message: String,
    /// What else is known of the error.
    pub extensions: Option<ErrorExtensionValues>,
}

impl Error {
    /// An error with a message and nothing else.
    pub fn new(message: String) -> (error: Error)
        ensures
            error.message == message,
            error.extensions is None,
    {
        Error { message, extensions: None }
    }
}

/// The reason why an input value was not accepted.
#[derive(Debug)]
pub struct InputValueError {
    /// What went wrong.
    pub message: String,
    /// What else is known of the error.
    pub extensions: Option<ErrorExtensionValues>,
}

impl InputValueError {
    /// Whether `error` is this one, placed at `pos`.
    pub open spec fn placed(self, pos: Pos, error: ServerError) -> bool {
        &&& error.message == self.message
        &&& error.locations@ == seq![pos]
        &&& error.path@.len() == 0
        &&& error.extensions == self.extensions
    }

    /// Places the error in the source text.
    pub fn into_server_error(self, pos: Pos) -> (error: ServerError)
        ensures
            self.placed(pos, error),
            error.message == self.message,
            error.locations@ == seq![pos],
            error.path@.len() == 0,
            error.extensions == self.extensions,
    {
        let mut locations: Vec<Pos> = Vec::new();
        locations.push(pos);
        ServerError {
            message: self.message,
            locations,
            path: Vec::new(),
            extensions: self.extensions,
        }
    }
}

/// A step of a path is what it was made from: a field by its name, an element by its index.
pub proof fn law_path_segment_view(segment: PathSegment)
    ensures
        segment matches PathSegment::Field(name) ==> segment.view() == SegmentView::Name(name@),
        segment matches PathSegment::Index(index) ==> segment.view() == SegmentView::Index(index),
{
}

/// A path is read step by step.
pub proof fn law_path_views(path: Seq<PathSegment>)
    ensures
        path_views(path).len() == path.len(),
        forall|i: int| 0 <= i < path.len() ==> #[trigger] path_views(path)[i] == path[i].view(),
{
}

/// A new error has its message, its location if there is one, and nothing else.
pub proof fn law_fresh_error(error: ServerError, message: Seq<char>, pos: Option<Pos>)
    requires
        fresh_error(error, message, pos),
    ensures
        error.message@ == message,
        pos matches Some(pos) ==> error.locations@.len() == 1 && error.locations@[0] == pos,
        pos is None ==> error.locations@.len() == 0,
        error.path@.len() == 0,
        error.extensions is None,
{
}

/// A placed error keeps its message and extensions, and has that one location and no path.
pub proof fn law_placed_error(reason: InputValueError, pos: Pos, error: ServerError)
    requires
        reason.placed(pos, error),
    ensures
        error.message == reason.message,
        error.extensions == reason.extensions,
        error.locations@.len() == 1,
        error.locations@[0] == pos,
        error.path@.len() == 0,
{
}

} // verus!
