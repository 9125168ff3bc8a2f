use vstd::prelude::*;

use crate::lookup::{ConstantIndex, Lookup};

verus! {

/// A line and column in the source text, both starting at one.
#[derive(Clone, Copy, Debug, PartialEq, Eq, Structural)]
pub struct Position {
    pub line: usize,
    pub column: usize,
}

/// A parsed expression: the grammar itself lives in the parsing front end,
/// and only the shapes this crate's operations read are distinguished here.
#[derive(Debug, Default)]
pub enum Node {
    #[default]
    Empty,
    Id(ConstantIndex),
    Lookup(Lookup),
}

/// A node of the syntax tree together with the source span it was parsed
/// from.
#[derive(Debug)]
pub struct AstNode {
    pub node: Node,
    pub start_pos: Position,
    pub end_pos: Position,
}

/// The parsing front end's span type, taken as given.
#[verifier::external_type_specification]
#[verifier::external_body]
pub struct ExSpan<'a>(pest::Span<'a>);

/// Relies on pest's `Span::start_pos`, `Span::end_pos` and
/// `Position::line_col` for the one-based line and column of the span's two
/// ends.
#[verifier::external_body]
fn span_line_cols(span: &pest::Span<'_>) -> (r: ((usize, usize), (usize, usize)))
    ensures
        r.0.0 >= 1 && r.0.1 >= 1 && r.1.0 >= 1 && r.1.1 >= 1,
{
    (span.start_pos().line_col(), span.end_pos().line_col())
}

impl AstNode {
    /// Wraps a parsed node with the positions of the span it came from.
    pub fn new(span: pest::Span<'_>, node: Node) -> (r: AstNode)
        ensures
            r.node == node,
            r.start_pos.line >= 1 && r.start_pos.column >= 1,
            r.end_pos.line >= 1 && r.end_pos.column >= 1,
    {
        let line_cols = span_line_cols(&span);
        AstNode {
            node,
            start_pos: Position { line: line_cols.0.0, column: line_cols.0.1 },
            end_pos: Position { line: line_cols.1.0, column: line_cols.1.1 },
        }
    }
}

impl Default for AstNode {
    /// The empty node at the origin position.
    fn default() -> (r: AstNode)
        ensures
            r.node is Empty,
            r.start_pos == (Position { line: 0, column: 0 }),
            r.end_pos == (Position { line: 0, column: 0 }),
    {
        AstNode {
            node: Node::Empty,
            start_pos: Position { line: 0, column: 0 },
            end_pos: Position { line: 0, column: 0 },
        }
    }
}

} // verus!
