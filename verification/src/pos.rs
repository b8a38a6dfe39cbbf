//! Positions in the source text of a request.
use vstd::prelude::*;

verus! {

/// A place in the source text: a line and a column, both counted from one.
#[derive(Debug, Clone, Copy, PartialEq, Eq, Structural)]
pub struct Pos {
    /// Line number, counted from one.
    pub line: usize,
    /// Column number, counted from one.
    pub column: usize,
}

/// The position of something that stands nowhere in the source text.
pub open spec fn nowhere() -> Pos {
    Pos { line: 0, column: 0 }
}

impl Default for Pos {
    fn default() -> (pos: Self)
        ensures
            pos == nowhere(),
            pos.line == 0,
            pos.column == 0,
    {
        Pos { line: 0, column: 0 }
    }
}

/// A node of the request together with the place it was written at.
#[derive(Debug)]
pub struct Positioned<T> {
    /// Where the node was written.
    pub pos: Pos,
    /// The node itself.
    pub node: T,
}

impl<T> Positioned<T> {
    /// Places a node at a position.
    pub fn new(node: T, pos: Pos) -> (positioned: Self)
        ensures
            positioned.node == node,
            positioned.pos == pos,
    {
        Positioned { pos, node }
    }

    /// Places another node at the position of this one.
    pub fn position_node<U>(&self, other: U) -> (positioned: Positioned<U>)
        ensures
            positioned.node == other,
            positioned.pos == self.pos,
    {
        Positioned::new(other, self.pos)
    }
}

/// What stands nowhere has line and column zero, as nothing in the source text has.
pub proof fn law_nowhere()
    ensures
        nowhere().line == 0,
        nowhere().column == 0,
{
}

} // verus!
