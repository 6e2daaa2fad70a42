//! Diagnostics: a typed taxonomy of lexical and syntactic errors, each
//! carrying a file identifier and a byte range into the source.

use vstd::prelude::*;

use crate::syntax::SyntaxKind;
use crate::TextRange;

verus! {

/// What went wrong, as a closed taxonomy of lexical and syntactic errors.
#[derive(Debug, Clone, PartialEq, Eq)]
pub enum DiagnosticKind {
    /// A character that starts no token.
    BadCharacter { character: char },
    /// A string or character literal with no closing delimiter on its line.
    UnterminatedLiteral { kind: SyntaxKind },
    /// An escape sequence the language does not define.
    InvalidEscape { character: char },
    /// A dedent that lands between two known indentation levels.
    InconsistentDedent,
    /// The parser wanted one of `expected` but found something else.
    Expected { expected: Vec<SyntaxKind>, found: Option<SyntaxKind> },
    /// A required token was absent and synthesized as zero-width.
    Missing { kind: SyntaxKind },
    /// A token that no grammar rule could begin with.
    UnexpectedToken { kind: SyntaxKind },
    /// The input ended while one of `expected` was still required.
    UnexpectedEof { expected: Vec<SyntaxKind> },
}

/// A diagnostic bound to a file and a byte range within it.
#[derive(Debug, Clone, PartialEq, Eq)]
pub struct Message<FileId> {
    pub file_id: FileId,
    pub kind: DiagnosticKind,
    pub range: TextRange,
}

/// A syntactic mismatch observed by the parser, recorded as an event and
/// turned into a [`Message`] when the tree is built.
#[derive(Debug, Clone, PartialEq, Eq)]
pub struct ParseError {
    pub expected: Vec<SyntaxKind>,
    pub found: Option<SyntaxKind>,
    pub range: TextRange,
}

} // verus!
