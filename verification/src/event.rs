//! The parser's intermediate representation: a linear stream of
//! tree-construction events, replayed by the sink against the token list.

use vstd::prelude::*;

use crate::message::ParseError;
use crate::syntax::SyntaxKind;

verus! {

/// One step of tree construction.
///
/// `StartNode` may carry a `forward_parent`: the index of a later event whose
/// node must wrap this one. `Placeholder` reserves a slot that a marker later
/// fills in, and is ignored if it was never completed.
#[derive(Debug, Clone, PartialEq, Eq)]
pub enum Event {
    StartNode { kind: SyntaxKind, forward_parent: Option<usize> },
    AddToken,
    FinishNode,
    Error(ParseError),
    Placeholder,
}

} // verus!
