//! The token source: a read cursor over the processed token vector that
//! serves the parser significant tokens while keeping count of the trivia in
//! between, which the sink reattaches later.
//!
//! The grammar needs one token of lookahead and never rewinds, so the cursor
//! only peeks at the next significant token and advances past it.

use vstd::prelude::*;

use crate::syntax::{spec_is_trivia, SyntaxKind};
use crate::token::Token;
use crate::TextRange;

verus! {

/// The index of the first non-trivia token at or after `c`, or the length of
/// the stream if only trivia remains.
pub open spec fn next_sig(toks: Seq<Token>, c: int) -> int
    decreases toks.len() - c,
{
    if c < 0 || c >= toks.len() {
        toks.len() as int
    } else if !spec_is_trivia(toks[c].kind) {
        c
    } else {
        next_sig(toks, c + 1)
    }
}

/// The number of significant (non-trivia) tokens at or after `c`.
pub open spec fn sig_count(toks: Seq<Token>, c: int) -> int
    decreases toks.len() - c,
{
    if c < 0 || c >= toks.len() {
        0
    } else {
        (if spec_is_trivia(toks[c].kind) {
            0int
        } else {
            1int
        }) + sig_count(toks, c + 1)
    }
}

pub proof fn lemma_sig_count_nonneg(toks: Seq<Token>, c: int)
    ensures
        sig_count(toks, c) >= 0,
    decreases toks.len() - c,
{
    if 0 <= c < toks.len() {
        lemma_sig_count_nonneg(toks, c + 1);
    }
}

/// Skipping trivia does not change how many significant tokens remain.
pub proof fn lemma_sig_count_skip(toks: Seq<Token>, c: int)
    requires
        0 <= c <= toks.len(),
    ensures
        sig_count(toks, c) == sig_count(toks, next_sig(toks, c)),
    decreases toks.len() - c,
{
    if c < toks.len() && spec_is_trivia(toks[c].kind) {
        lemma_sig_count_skip(toks, c + 1);
    }
}

pub proof fn lemma_next_sig_bounds(toks: Seq<Token>, c: int)
    requires
        0 <= c <= toks.len(),
    ensures
        c <= next_sig(toks, c) <= toks.len(),
    decreases toks.len() - c,
{
    if c < toks.len() && spec_is_trivia(toks[c].kind) {
        lemma_next_sig_bounds(toks, c + 1);
    }
}

/// A scan that passed only trivia and stopped at the end or at a significant
/// token found the next significant position.
proof fn lemma_next_sig_char(toks: Seq<Token>, c: int, j: int)
    requires
        0 <= c <= j <= toks.len(),
        forall|k: int| c <= k < j ==> spec_is_trivia((#[trigger] toks[k]).kind),
        j == toks.len() || !spec_is_trivia(toks[j].kind),
    ensures
        next_sig(toks, c) == j,
    decreases j - c,
{
    if c < j {
        lemma_next_sig_char(toks, c + 1, j);
    }
}

/// A read cursor over the processed token vector.
pub struct Source<'t> {
    pub tokens: &'t Vec<Token>,
    pub cursor: usize,
}

impl<'t> Source<'t> {
    pub open spec fn wf(self) -> bool {
        self.cursor <= self.tokens@.len()
    }

    /// The number of tokens not yet consumed, trivia included.
    pub open spec fn remaining_sp(self) -> int {
        self.tokens@.len() - self.cursor
    }

    /// The position of the next significant token.
    pub open spec fn sig_at(self) -> int {
        next_sig(self.tokens@, self.cursor as int)
    }

    /// Whether a significant token remains.
    pub open spec fn has_sig(self) -> bool {
        self.sig_at() < self.tokens@.len()
    }

    /// The number of significant tokens not yet consumed.
    pub open spec fn sig_remaining(self) -> int {
        sig_count(self.tokens@, self.cursor as int)
    }

    /// The kind of the next significant token.
    pub open spec fn peek_sp(self) -> Option<SyntaxKind> {
        if self.has_sig() {
            Some(self.tokens@[self.sig_at()].kind)
        } else {
            None
        }
    }

    pub fn new(tokens: &'t Vec<Token>) -> (s: Source<'t>)
        ensures
            s.wf(),
            s.tokens@ == tokens@,
            s.cursor == 0,
    {
        Source { tokens, cursor: 0 }
    }

    /// The kind of the next non-trivia token, or `None` at the end of input.
    pub fn peek(&self) -> (r: Option<SyntaxKind>)
        requires
            self.wf(),
        ensures
            r == self.peek_sp(),
    {
        let ghost toks = self.tokens@;
        let mut j = self.cursor;
        while j < self.tokens.len() && self.tokens[j].kind.is_trivia()
            invariant
                self.cursor <= j <= toks.len(),
                self.tokens@ == toks,
                forall|k: int| self.cursor <= k < j ==> spec_is_trivia((#[trigger] toks[k]).kind),
            decreases toks.len() - j,
        {
            j = j + 1;
        }
        proof {
            lemma_next_sig_char(toks, self.cursor as int, j as int);
        }
        if j < self.tokens.len() {
            Some(self.tokens[j].kind)
        } else {
            None
        }
    }

    /// The byte range of the next significant token, or a zero-width range at
    /// the end of input.
    pub fn peek_range(&self) -> (r: TextRange)
        requires
            self.wf(),
        ensures
            self.has_sig() ==> r == self.tokens@[self.sig_at()].range,
            !self.has_sig() && self.tokens@.len() > 0 ==> r == (TextRange {
                start: self.tokens@.last().range.end,
                end: self.tokens@.last().range.end,
            }),
            !self.has_sig() && self.tokens@.len() == 0 ==> r == (TextRange { start: 0, end: 0 }),
    {
        let ghost toks = self.tokens@;
        let mut j = self.cursor;
        while j < self.tokens.len() && self.tokens[j].kind.is_trivia()
            invariant
                self.cursor <= j <= toks.len(),
                self.tokens@ == toks,
                forall|k: int| self.cursor <= k < j ==> spec_is_trivia((#[trigger] toks[k]).kind),
            decreases toks.len() - j,
        {
            j = j + 1;
        }
        proof {
            lemma_next_sig_char(toks, self.cursor as int, j as int);
        }
        if j < self.tokens.len() {
            self.tokens[j].range
        } else if self.tokens.len() > 0 {
            let e = self.tokens[self.tokens.len() - 1].range.end;
            TextRange { start: e, end: e }
        } else {
            TextRange { start: 0, end: 0 }
        }
    }

    /// Advances past the next significant token, consuming any trivia before
    /// it.
    pub fn bump(&mut self)
        requires
            old(self).wf(),
        ensures
            final(self).wf(),
            final(self).tokens@ == old(self).tokens@,
            final(self).cursor as int == (if old(self).has_sig() {
                old(self).sig_at() + 1
            } else {
                old(self).tokens@.len() as int
            }),
            old(self).has_sig() ==> final(self).remaining_sp() < old(self).remaining_sp(),
            final(self).sig_remaining() == old(self).sig_remaining() - (if old(self).has_sig() {
                1int
            } else {
                0int
            }),
    {
        let ghost toks = self.tokens@;
        let mut j = self.cursor;
        while j < self.tokens.len() && self.tokens[j].kind.is_trivia()
            invariant
                self.cursor <= j <= toks.len(),
                self.tokens@ == toks,
                forall|k: int| self.cursor <= k < j ==> spec_is_trivia((#[trigger] toks[k]).kind),
            decreases toks.len() - j,
        {
            j = j + 1;
        }
        proof {
            lemma_next_sig_char(toks, self.cursor as int, j as int);
            lemma_sig_count_skip(toks, self.cursor as int);
        }
        if j < self.tokens.len() {
            self.cursor = j + 1;
        } else {
            self.cursor = j;
        }
    }
}

} // verus!
