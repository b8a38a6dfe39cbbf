//! Types that are read from the values of a request.
use vstd::prelude::*;

use crate::error::{InputValueError, ServerError, ServerResult};
use crate::pos::Pos;
use crate::value::Value;

verus! {

/// A type that can be read from a value.
pub trait InputType: Sized {
    /// Reads a value; `None` stands for a value that was not given.
    fn parse(value: Option<Value>) -> (outcome: Result<Self, InputValueError>);
}

/// A type that is read from an object with one entry.
pub trait OneofObjectType: InputType {
}

/// Whether `outcome` is `parsed`, placed at `pos`.
pub open spec fn read_at<Q>(
    pos: Pos,
    parsed: Result<Q, InputValueError>,
    outcome: ServerResult<(Pos, Q)>,
) -> bool {
    match parsed {
        Ok(value) => outcome == Ok::<(Pos, Q), ServerError>((pos, value)),
        Err(error) => outcome matches Err(placed) && error.placed(pos, placed),
    }
}

/// Places what was read, or the reason why it could not be, at a position.
pub fn place_parsed<Q>(pos: Pos, parsed: Result<Q, InputValueError>) -> (outcome: ServerResult<
    (Pos, Q),
>)
    ensures
        read_at(pos, parsed, outcome),
        parsed matches Ok(value) ==> outcome matches Ok((place, read)) && place == pos && read
            == value,
        parsed matches Err(reason) ==> outcome matches Err(error) && error.message
            == reason.message && error.extensions == reason.extensions && error.locations@ == seq![
            pos,
        ] && error.path@.len() == 0,
{
    match parsed {
        Ok(value) => Ok((pos, value)),
        Err(error) => Err(error.into_server_error(pos)),
    }
}

/// What was read is handed on with its position, and a reason for not reading it is placed there.
pub proof fn law_read_at<Q>(
    pos: Pos,
    parsed: Result<Q, InputValueError>,
    outcome: ServerResult<(Pos, Q)>,
)
    requires
        read_at(pos, parsed, outcome),
    ensures
        parsed matches Ok(value) ==> outcome matches Ok((place, read)) && place == pos && read
            == value,
        parsed matches Err(reason) ==> outcome matches Err(error) && error.message
            == reason.message && error.extensions == reason.extensions && error.locations@ == seq![
            pos,
        ] && error.path@.len() == 0,
{
}

} // verus!
