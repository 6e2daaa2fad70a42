//! The parser: recursive descent for declarations and statements, Pratt
//! operator precedence for expressions, emitting a linear stream of
//! tree-construction events rather than building a tree directly.
//!
//! A node is started by reserving a `Placeholder` slot (a `Marker`) and
//! completed by writing the real kind into it; a completed node can later be
//! wrapped by an ancestor through its `forward_parent` link. On an unexpected
//! token the parser records an error event and either consumes the token into
//! an `Error` node or, at a recovery anchor, leaves it for the enclosing
//! rule; it never stops before the end of the input, and it records exactly
//! one `AddToken` event per significant token of the stream.

use vstd::prelude::*;

use crate::event::Event;
use crate::message::ParseError;
use crate::source::{lemma_sig_count_nonneg, lemma_sig_count_skip, sig_count, Source};
use crate::syntax::SyntaxKind;
use crate::TextRange;

verus! {

/// The left and right binding powers of an infix operator, or `None` for any
/// other kind. Equality binds weakest and is right-associative; comparison,
/// additive and multiplicative operators associate to the left.
pub open spec fn spec_infix_binding_power(k: SyntaxKind) -> Option<(u8, u8)> {
    if k == SyntaxKind::Sym_Eq || k == SyntaxKind::Sym_BangEq {
        Some((2u8, 1u8))
    } else if k == SyntaxKind::Sym_Lt || k == SyntaxKind::Sym_Gt || k == SyntaxKind::Sym_LtEq || k
        == SyntaxKind::Sym_GtEq {
        Some((3u8, 4u8))
    } else if k == SyntaxKind::Sym_Plus || k == SyntaxKind::Sym_Minus {
        Some((5u8, 6u8))
    } else if k == SyntaxKind::Sym_Asterisk || k == SyntaxKind::Sym_ForwardSlash {
        Some((7u8, 8u8))
    } else {
        None
    }
}

/// The binding power of a prefix operator, or `None` for any other kind.
pub open spec fn spec_prefix_binding_power(k: SyntaxKind) -> Option<u8> {
    if k == SyntaxKind::Sym_Minus || k == SyntaxKind::Sym_Bang {
        Some(9u8)
    } else {
        None
    }
}

pub fn infix_binding_power(k: SyntaxKind) -> (r: Option<(u8, u8)>)
    ensures
        r == spec_infix_binding_power(k),
{
    if k == SyntaxKind::Sym_Eq || k == SyntaxKind::Sym_BangEq {
        Some((2, 1))
    } else if k == SyntaxKind::Sym_Lt || k == SyntaxKind::Sym_Gt || k == SyntaxKind::Sym_LtEq || k
        == SyntaxKind::Sym_GtEq {
        Some((3, 4))
    } else if k == SyntaxKind::Sym_Plus || k == SyntaxKind::Sym_Minus {
        Some((5, 6))
    } else if k == SyntaxKind::Sym_Asterisk || k == SyntaxKind::Sym_ForwardSlash {
        Some((7, 8))
    } else {
        None
    }
}

pub fn prefix_binding_power(k: SyntaxKind) -> (r: Option<u8>)
    ensures
        r == spec_prefix_binding_power(k),
{
    if k == SyntaxKind::Sym_Minus || k == SyntaxKind::Sym_Bang {
        Some(9)
    } else {
        None
    }
}

/// A kind at which error recovery stops without consuming: these close or
/// separate constructs an enclosing rule is still waiting for.
pub open spec fn spec_is_recovery_anchor(k: SyntaxKind) -> bool {
    k == SyntaxKind::Newline || k == SyntaxKind::Dedent || k == SyntaxKind::Sym_RParen || k
        == SyntaxKind::Sym_RBracket || k == SyntaxKind::Sym_RBrace || k == SyntaxKind::Kwd_End
}

fn is_recovery_anchor(k: SyntaxKind) -> (r: bool)
    ensures
        r == spec_is_recovery_anchor(k),
{
    k == SyntaxKind::Newline || k == SyntaxKind::Dedent || k == SyntaxKind::Sym_RParen || k
        == SyntaxKind::Sym_RBracket || k == SyntaxKind::Sym_RBrace || k == SyntaxKind::Kwd_End
}

/// A kind that begins an expression: a primary form, a prefix operator, or
/// an indented block.
pub open spec fn starts_expression(k: SyntaxKind) -> bool {
    k == SyntaxKind::Identifier || k == SyntaxKind::Lit_Integer || k == SyntaxKind::Lit_Float || k
        == SyntaxKind::Lit_String || k == SyntaxKind::Lit_Character || k == SyntaxKind::Sym_LParen
        || k == SyntaxKind::Sym_Minus || k == SyntaxKind::Sym_Bang || k == SyntaxKind::Indent
}

/// The event at a completed slot begins an expression node.
pub open spec fn is_expression_start(ev: Event) -> bool {
    match ev {
        Event::StartNode { kind, forward_parent: _ } => crate::syntax::spec_is_expression(kind),
        _ => false,
    }
}

/// The diagnostic model an error event stands for, if it is one.
pub open spec fn event_error_model(ev: Event) -> Option<crate::sink::MsgModel> {
    match ev {
        Event::Error(e) => Some(crate::sink::error_model(e)),
        _ => None,
    }
}

/// Where a synthesized missing token sits: at the start of the token found
/// instead, or at the end of the input.
pub open spec fn missing_pos(toks: Seq<crate::token::Token>, i: int) -> int {
    if 0 <= i < toks.len() {
        toks[i].range.start as int
    } else if toks.len() > 0 {
        toks[toks.len() - 1].range.end as int
    } else {
        0
    }
}

/// The kind a `StartNode` event carries, if it is one.
pub open spec fn start_kind(ev: Event) -> Option<SyntaxKind> {
    match ev {
        Event::StartNode { kind, forward_parent: _ } => Some(kind),
        _ => None,
    }
}

/// The node each primary form produces: an identifier becomes a variable
/// reference, a literal a literal expression, `(` a parenthesized expression,
/// a prefix operator a prefixed expression, and an indented block shares the
/// grouping kind of a parenthesized expression.
pub open spec fn primary_kind(k: SyntaxKind) -> SyntaxKind {
    if k == SyntaxKind::Identifier {
        SyntaxKind::Exp_VariableRef
    } else if k == SyntaxKind::Lit_Integer || k == SyntaxKind::Lit_Float || k
        == SyntaxKind::Lit_String || k == SyntaxKind::Lit_Character {
        SyntaxKind::Exp_Literal
    } else if k == SyntaxKind::Sym_LParen {
        SyntaxKind::Exp_Paren
    } else if k == SyntaxKind::Sym_Minus || k == SyntaxKind::Sym_Bang {
        SyntaxKind::Exp_UnaryPrefix
    } else {
        SyntaxKind::Exp_Paren
    }
}

/// The number of `AddToken` events in the stream.
pub open spec fn count_add(evs: Seq<Event>) -> int
    decreases evs.len(),
{
    if evs.len() == 0 {
        0
    } else {
        (if evs[0] is AddToken {
            1int
        } else {
            0int
        }) + count_add(evs.drop_first())
    }
}

proof fn lemma_count_add_push(evs: Seq<Event>, ev: Event)
    ensures
        count_add(evs.push(ev)) == count_add(evs) + (if ev is AddToken {
            1int
        } else {
            0int
        }),
    decreases evs.len(),
{
    if evs.len() == 0 {
        assert(evs.push(ev).drop_first() =~= Seq::<Event>::empty());
        assert(evs.push(ev)[0] == ev);
        assert(count_add(Seq::<Event>::empty()) == 0);
    } else {
        assert(evs.push(ev).drop_first() =~= evs.drop_first().push(ev));
        assert(evs.push(ev)[0] == evs[0]);
        lemma_count_add_push(evs.drop_first(), ev);
    }
}

/// Replacing one non-token event by another keeps the token count.
proof fn lemma_count_add_update(evs: Seq<Event>, i: int, ev: Event)
    requires
        0 <= i < evs.len(),
        !(evs[i] is AddToken),
        !(ev is AddToken),
    ensures
        count_add(evs.update(i, ev)) == count_add(evs),
    decreases evs.len(),
{
    if i == 0 {
        assert(evs.update(0, ev).drop_first() =~= evs.drop_first());
        assert(evs.update(0, ev)[0] == ev);
    } else {
        assert(evs.update(i, ev).drop_first() =~= evs.drop_first().update(i - 1, ev));
        assert(evs.update(i, ev)[0] == evs[0]);
        assert(evs.drop_first()[i - 1] == evs[i]);
        lemma_count_add_update(evs.drop_first(), i - 1, ev);
    }
}

/// A reserved slot in the event stream, waiting for its node's kind.
pub struct Marker {
    pub pos: usize,
}

/// A node whose kind has been written; it can still be wrapped by a new
/// ancestor through `precede`.
pub struct CompletedMarker {
    pub pos: usize,
}

/// The event-emitting parser over a token source.
pub struct Parser<'t> {
    pub source: Source<'t>,
    pub events: Vec<Event>,
}

impl<'t> Parser<'t> {
    pub open spec fn wf(self) -> bool {
        self.source.wf()
    }

    pub open spec fn remaining_sp(self) -> int {
        self.source.remaining_sp()
    }

    /// One `AddToken` event is recorded per significant token consumed, so
    /// this sum never changes.
    pub open spec fn balance(self) -> int {
        count_add(self.events@) + self.source.sig_remaining()
    }

    pub fn with(source: Source<'t>) -> (p: Parser<'t>)
        requires
            source.wf(),
        ensures
            p.wf(),
            p.source == source,
            p.events@.len() == 0,
    {
        Parser { source, events: Vec::new() }
    }

    /// Reserves a slot for a node about to start.
    fn start(&mut self) -> (m: Marker)
        requires
            old(self).wf(),
        ensures
            final(self).wf(),
            final(self).source == old(self).source,
            final(self).events@.len() == old(self).events@.len() + 1,
            m.pos == old(self).events@.len(),
            final(self).events@[m.pos as int] is Placeholder,
            forall|p: int|
                0 <= p < old(self).events@.len()
                    ==> #[trigger] final(self).events@[p] == old(self).events@[p],
            final(self).balance() == old(self).balance(),
    {
        let m = Marker { pos: self.events.len() };
        let ghost old_events = self.events@;
        self.events.push(Event::Placeholder);
        proof {
            lemma_count_add_push(old_events, Event::Placeholder);
        }
        m
    }

    /// Writes the node's kind into its reserved slot and closes it.
    fn complete(&mut self, m: Marker, kind: SyntaxKind) -> (cm: CompletedMarker)
        requires
            old(self).wf(),
            m.pos < old(self).events@.len(),
        ensures
            final(self).wf(),
            final(self).source == old(self).source,
            final(self).events@.len() == old(self).events@.len() + 1,
            cm.pos == m.pos,
            forall|p: int|
                0 <= p < old(self).events@.len() && p != m.pos
                    ==> #[trigger] final(self).events@[p] == old(self).events@[p],
            old(self).events@[m.pos as int] is Placeholder ==> final(self).events@[m.pos as int]
                == (Event::StartNode { kind, forward_parent: None }),
            final(self).balance() == old(self).balance(),
    {
        let mut fill = false;
        match &self.events[m.pos] {
            Event::Placeholder => {
                fill = true;
            },
            _ => {},
        }
        if fill {
            let ghost old_events = self.events@;
            self.events.set(m.pos, Event::StartNode { kind, forward_parent: None });
            proof {
                lemma_count_add_update(
                    old_events,
                    m.pos as int,
                    Event::StartNode { kind, forward_parent: None },
                );
            }
        }
        let ghost mid_events = self.events@;
        self.events.push(Event::FinishNode);
        proof {
            lemma_count_add_push(mid_events, Event::FinishNode);
        }
        CompletedMarker { pos: m.pos }
    }

    /// Starts a new node that will wrap the completed one, by linking the old
    /// start to the new slot through its forward parent.
    fn precede(&mut self, cm: CompletedMarker) -> (m: Marker)
        requires
            old(self).wf(),
            cm.pos < old(self).events@.len(),
        ensures
            final(self).wf(),
            final(self).source == old(self).source,
            final(self).events@.len() == old(self).events@.len() + 1,
            m.pos == old(self).events@.len(),
            final(self).events@[m.pos as int] is Placeholder,
            forall|p: int|
                0 <= p < old(self).events@.len() && p != cm.pos
                    ==> #[trigger] final(self).events@[p] == old(self).events@[p],
            is_expression_start(old(self).events@[cm.pos as int]) ==> is_expression_start(
                final(self).events@[cm.pos as int],
            ),
            start_kind(final(self).events@[cm.pos as int]) == start_kind(
                old(self).events@[cm.pos as int],
            ),
            final(self).balance() == old(self).balance(),
    {
        let new_pos = self.events.len();
        let ghost old_events = self.events@;
        self.events.push(Event::Placeholder);
        proof {
            lemma_count_add_push(old_events, Event::Placeholder);
        }
        let mut link: Option<Event> = None;
        match &self.events[cm.pos] {
            Event::StartNode { kind, forward_parent: _ } => {
                link = Some(Event::StartNode { kind: *kind, forward_parent: Some(new_pos) });
            },
            _ => {},
        }
        if let Some(ev) = link {
            let ghost mid_events = self.events@;
            proof {
                assert(mid_events[cm.pos as int] is StartNode);
                assert(!(ev is AddToken));
            }
            self.events.set(cm.pos, ev);
            proof {
                lemma_count_add_update(mid_events, cm.pos as int, ev);
            }
        }
        Marker { pos: new_pos }
    }

    /// Records a syntactic mismatch.
    fn error(&mut self, expected: Vec<SyntaxKind>, found: Option<SyntaxKind>, range: TextRange)
        requires
            old(self).wf(),
        ensures
            final(self).wf(),
            final(self).source == old(self).source,
            final(self).events@.len() == old(self).events@.len() + 1,
            final(self).events@[old(self).events@.len() as int] == (Event::Error(
                ParseError { expected, found, range },
            )),
            forall|p: int|
                0 <= p < old(self).events@.len()
                    ==> #[trigger] final(self).events@[p] == old(self).events@[p],
            final(self).balance() == old(self).balance(),
    {
        let ghost old_events = self.events@;
        self.events.push(Event::Error(ParseError { expected, found, range }));
        proof {
            lemma_count_add_push(old_events, Event::Error(ParseError { expected, found, range }));
        }
    }

    /// Consumes the next significant token and records it for the tree.
    fn bump(&mut self)
        requires
            old(self).wf(),
            old(self).source.has_sig(),
        ensures
            final(self).wf(),
            final(self).source.tokens@ == old(self).source.tokens@,
            final(self).source.cursor as int == old(self).source.sig_at() + 1,
            final(self).events@.len() == old(self).events@.len() + 1,
            final(self).events@[old(self).events@.len() as int] == Event::AddToken,
            forall|p: int|
                0 <= p < old(self).events@.len()
                    ==> #[trigger] final(self).events@[p] == old(self).events@[p],
            final(self).remaining_sp() < old(self).remaining_sp(),
            final(self).balance() == old(self).balance(),
    {
        self.source.bump();
        let ghost old_events = self.events@;
        self.events.push(Event::AddToken);
        proof {
            lemma_count_add_push(old_events, Event::AddToken);
        }
    }

    /// Parses a primary expression, a prefixed expression, or an indented
    /// block; on an unexpected token it recovers as the recovery set
    /// prescribes. Whenever the next token can begin an expression, the
    /// completed node's kind is the one `primary_kind` assigns to it.
    fn parse_lhs(&mut self) -> (r: Option<CompletedMarker>)
        requires
            old(self).wf(),
        ensures
            final(self).wf(),
            final(self).source.tokens@ == old(self).source.tokens@,
            final(self).events@.len() >= old(self).events@.len(),
            final(self).remaining_sp() <= old(self).remaining_sp(),
            r is Some ==> final(self).remaining_sp() < old(self).remaining_sp(),
            r is Some ==> r.unwrap().pos < final(self).events@.len(),
            final(self).balance() == old(self).balance(),
            old(self).source.peek_sp() is Some && starts_expression(
                old(self).source.peek_sp().unwrap(),
            ) ==> r is Some,
            forall|p: int|
                0 <= p < old(self).events@.len()
                    ==> #[trigger] final(self).events@[p] == old(self).events@[p],
            r is Some ==> r.unwrap().pos >= old(self).events@.len(),
            r is Some ==> is_expression_start(final(self).events@[r.unwrap().pos as int]),
            old(self).source.peek_sp() is Some && starts_expression(
                old(self).source.peek_sp().unwrap(),
            ) ==> r is Some && final(self).events@[r.unwrap().pos as int] == (Event::StartNode {
                kind: primary_kind(old(self).source.peek_sp().unwrap()),
                forward_parent: None,
            }),
        decreases old(self).remaining_sp(), 1int,
    {
        let peeked = self.source.peek();
        match peeked {
            None => {
                let range = self.source.peek_range();
                self.error(Vec::new(), None, range);
                None
            },
            Some(k) => {
                if k == SyntaxKind::Identifier {
                    let m = self.start();
                    self.bump();
                    Some(self.complete(m, SyntaxKind::Exp_VariableRef))
                } else if k == SyntaxKind::Lit_Integer || k == SyntaxKind::Lit_Float || k
                    == SyntaxKind::Lit_String || k == SyntaxKind::Lit_Character {
                    let m = self.start();
                    self.bump();
                    Some(self.complete(m, SyntaxKind::Exp_Literal))
                } else if k == SyntaxKind::Sym_LParen {
                    let m = self.start();
                    self.bump();
                    self.parse_expr(0);
                    let after = self.source.peek();
                    if after == Some(SyntaxKind::Sym_RParen) {
                        self.bump();
                    } else {
                        let range = self.source.peek_range();
                        let zero = TextRange { start: range.start, end: range.start };
                        let mut expected: Vec<SyntaxKind> = Vec::new();
                        expected.push(SyntaxKind::Sym_RParen);
                        self.error(expected, after, zero);
                    }
                    Some(self.complete(m, SyntaxKind::Exp_Paren))
                } else if prefix_binding_power(k).is_some() {
                    let bp = match prefix_binding_power(k) {
                        Some(b) => b,
                        None => 9,
                    };
                    let m = self.start();
                    self.bump();
                    self.parse_expr(bp);
                    Some(self.complete(m, SyntaxKind::Exp_UnaryPrefix))
                } else if k == SyntaxKind::Indent {
                    Some(self.parse_block())
                } else if is_recovery_anchor(k) {
                    let range = self.source.peek_range();
                    self.error(Vec::new(), Some(k), range);
                    None
                } else {
                    // token-level recovery: wrap the stray token in an Error
                    // node and retry
                    let range = self.source.peek_range();
                    self.error(Vec::new(), Some(k), range);
                    let m = self.start();
                    self.bump();
                    self.complete(m, SyntaxKind::Error);
                    self.parse_lhs()
                }
            },
        }
    }

    /// Parses an expression with the given minimum binding power, folding
    /// infix operators into `Exp_Binary` nodes by wrapping the left-hand side
    /// through its forward parent, and postfix `?` into `Exp_UnaryPostfix`.
    /// On return no pending infix operator binds at least as tightly as
    /// `min_bp`: such an operator would have been consumed.
    fn parse_expr(&mut self, min_bp: u8) -> (r: Option<CompletedMarker>)
        requires
            old(self).wf(),
        ensures
            final(self).wf(),
            final(self).source.tokens@ == old(self).source.tokens@,
            final(self).events@.len() >= old(self).events@.len(),
            final(self).remaining_sp() <= old(self).remaining_sp(),
            r is Some ==> final(self).remaining_sp() < old(self).remaining_sp(),
            r is Some ==> r.unwrap().pos < final(self).events@.len(),
            final(self).balance() == old(self).balance(),
            old(self).source.peek_sp() is Some && starts_expression(
                old(self).source.peek_sp().unwrap(),
            ) ==> r is Some,
            forall|p: int|
                0 <= p < old(self).events@.len()
                    ==> #[trigger] final(self).events@[p] == old(self).events@[p],
            r is Some ==> r.unwrap().pos >= old(self).events@.len(),
            r is Some ==> is_expression_start(final(self).events@[r.unwrap().pos as int]),
            old(self).source.peek_sp() is Some && starts_expression(
                old(self).source.peek_sp().unwrap(),
            ) && r is Some ==> (start_kind(final(self).events@[r.unwrap().pos as int]) == Some(
                primary_kind(old(self).source.peek_sp().unwrap()),
            ) || start_kind(final(self).events@[r.unwrap().pos as int]) == Some(
                SyntaxKind::Exp_Binary,
            ) || start_kind(final(self).events@[r.unwrap().pos as int]) == Some(
                SyntaxKind::Exp_UnaryPostfix,
            )),
            r is Some && final(self).source.peek_sp() is Some && spec_infix_binding_power(
                final(self).source.peek_sp().unwrap(),
            ) is Some ==> spec_infix_binding_power(
                final(self).source.peek_sp().unwrap(),
            ).unwrap().0 < min_bp,
        decreases old(self).remaining_sp(), 2int,
    {
        let lhs0 = self.parse_lhs();
        let mut lhs = match lhs0 {
            None => {
                return None;
            },
            Some(cm) => cm,
        };
        // postfix `?` binds tighter than any infix operator
        loop
            invariant
                self.wf(),
                self.source.tokens@ == old(self).source.tokens@,
                self.events@.len() >= old(self).events@.len(),
                self.remaining_sp() < old(self).remaining_sp(),
                lhs.pos >= old(self).events@.len(),
                lhs.pos < self.events@.len(),
                self.balance() == old(self).balance(),
                forall|p: int|
                    0 <= p < old(self).events@.len()
                        ==> #[trigger] self.events@[p] == old(self).events@[p],
                is_expression_start(self.events@[lhs.pos as int]),
                (old(self).source.peek_sp() is Some && starts_expression(
                    old(self).source.peek_sp().unwrap(),
                )) ==> (start_kind(self.events@[lhs.pos as int]) == Some(
                    primary_kind(old(self).source.peek_sp().unwrap()),
                ) || start_kind(self.events@[lhs.pos as int]) == Some(SyntaxKind::Exp_Binary)
                    || start_kind(self.events@[lhs.pos as int]) == Some(
                    SyntaxKind::Exp_UnaryPostfix,
                )),
            decreases self.remaining_sp(),
        {
            let peeked = self.source.peek();
            if peeked == Some(SyntaxKind::Sym_Question) {
                let m = self.precede(lhs);
                self.bump();
                lhs = self.complete(m, SyntaxKind::Exp_UnaryPostfix);
            } else {
                break;
            }
        }
        loop
            invariant
                self.wf(),
                self.source.tokens@ == old(self).source.tokens@,
                self.events@.len() >= old(self).events@.len(),
                self.remaining_sp() < old(self).remaining_sp(),
                lhs.pos >= old(self).events@.len(),
                lhs.pos < self.events@.len(),
                self.balance() == old(self).balance(),
                forall|p: int|
                    0 <= p < old(self).events@.len()
                        ==> #[trigger] self.events@[p] == old(self).events@[p],
                is_expression_start(self.events@[lhs.pos as int]),
                (old(self).source.peek_sp() is Some && starts_expression(
                    old(self).source.peek_sp().unwrap(),
                )) ==> (start_kind(self.events@[lhs.pos as int]) == Some(
                    primary_kind(old(self).source.peek_sp().unwrap()),
                ) || start_kind(self.events@[lhs.pos as int]) == Some(SyntaxKind::Exp_Binary)
                    || start_kind(self.events@[lhs.pos as int]) == Some(
                    SyntaxKind::Exp_UnaryPostfix,
                )),
            ensures
                is_expression_start(self.events@[lhs.pos as int]),
                (old(self).source.peek_sp() is Some && starts_expression(
                    old(self).source.peek_sp().unwrap(),
                )) ==> (start_kind(self.events@[lhs.pos as int]) == Some(
                    primary_kind(old(self).source.peek_sp().unwrap()),
                ) || start_kind(self.events@[lhs.pos as int]) == Some(SyntaxKind::Exp_Binary)
                    || start_kind(self.events@[lhs.pos as int]) == Some(
                    SyntaxKind::Exp_UnaryPostfix,
                )),
                self.source.peek_sp() is Some && spec_infix_binding_power(
                    self.source.peek_sp().unwrap(),
                ) is Some ==> spec_infix_binding_power(
                    self.source.peek_sp().unwrap(),
                ).unwrap().0 < min_bp,
                self.wf(),
                self.source.tokens@ == old(self).source.tokens@,
                self.events@.len() >= old(self).events@.len(),
                self.remaining_sp() < old(self).remaining_sp(),
                lhs.pos >= old(self).events@.len(),
                lhs.pos < self.events@.len(),
                self.balance() == old(self).balance(),
                forall|p: int|
                    0 <= p < old(self).events@.len()
                        ==> #[trigger] self.events@[p] == old(self).events@[p],
            decreases self.remaining_sp(),
        {
            let peeked = self.source.peek();
            let op = match peeked {
                Some(k) => k,
                None => {
                    break;
                },
            };
            let bp = infix_binding_power(op);
            match bp {
                None => {
                    break;
                },
                Some((l, rbp)) => {
                    if l < min_bp {
                        break;
                    }
                    let m = self.precede(lhs);
                    self.bump();
                    self.parse_expr(rbp);
                    lhs = self.complete(m, SyntaxKind::Exp_Binary);
                },
            }
        }
        Some(lhs)
    }

    /// Parses an indented block: `Indent`, expressions separated by newlines
    /// or semicolons, `Dedent`. The block is one grouping node, of the same
    /// kind as a parenthesized expression.
    fn parse_block(&mut self) -> (cm: CompletedMarker)
        requires
            old(self).wf(),
            old(self).source.peek_sp() == Some(SyntaxKind::Indent),
        ensures
            final(self).wf(),
            final(self).source.tokens@ == old(self).source.tokens@,
            final(self).events@.len() >= old(self).events@.len(),
            final(self).remaining_sp() < old(self).remaining_sp(),
            cm.pos == old(self).events@.len(),
            cm.pos < final(self).events@.len(),
            final(self).events@[cm.pos as int] == (Event::StartNode {
                kind: SyntaxKind::Exp_Paren,
                forward_parent: None,
            }),
            final(self).balance() == old(self).balance(),
            forall|p: int|
                0 <= p < old(self).events@.len()
                    ==> #[trigger] final(self).events@[p] == old(self).events@[p],
        decreases old(self).remaining_sp(), 0int,
    {
        let m = self.start();
        self.bump();
        loop
            invariant
                self.wf(),
                self.source.tokens@ == old(self).source.tokens@,
                self.events@.len() >= old(self).events@.len(),
                self.remaining_sp() < old(self).remaining_sp(),
                m.pos == old(self).events@.len(),
                m.pos < self.events@.len(),
                self.events@[m.pos as int] is Placeholder,
                self.balance() == old(self).balance(),
                forall|p: int|
                    0 <= p < old(self).events@.len()
                        ==> #[trigger] self.events@[p] == old(self).events@[p],
            decreases self.remaining_sp(),
        {
            let peeked = self.source.peek();
            match peeked {
                None => {
                    let range = self.source.peek_range();
                    let mut expected: Vec<SyntaxKind> = Vec::new();
                    expected.push(SyntaxKind::Dedent);
                    self.error(expected, None, range);
                    break;
                },
                Some(k) => {
                    if k == SyntaxKind::Dedent {
                        self.bump();
                        break;
                    }
                    if k == SyntaxKind::Newline || k == SyntaxKind::Sym_Semicolon {
                        self.bump();
                        continue;
                    }
                    let before = self.source.cursor;
                    self.parse_expr(0);
                    if self.source.cursor == before {
                        // no progress: consume the offending token as an
                        // Error node so the block always advances
                        let range = self.source.peek_range();
                        self.error(Vec::new(), Some(k), range);
                        let m2 = self.start();
                        self.bump();
                        self.complete(m2, SyntaxKind::Error);
                    }
                },
            }
        }
        self.complete(m, SyntaxKind::Exp_Paren)
    }

    /// Parses `let <identifier> = <expression-or-block>`. A missing
    /// identifier or `=` is recorded as a zero-width error, but the
    /// `Dec_GlobalBinding` node is produced regardless.
    fn parse_binding(&mut self)
        requires
            old(self).wf(),
            old(self).source.peek_sp() == Some(SyntaxKind::Kwd_Let),
        ensures
            final(self).wf(),
            final(self).source.tokens@ == old(self).source.tokens@,
            final(self).remaining_sp() < old(self).remaining_sp(),
            final(self).balance() == old(self).balance(),
            final(self).events@[old(self).events@.len() as int] == (Event::StartNode {
                kind: SyntaxKind::Dec_GlobalBinding,
                forward_parent: None,
            }),
            forall|p: int|
                0 <= p < old(self).events@.len()
                    ==> #[trigger] final(self).events@[p] == old(self).events@[p],
            final(self).events@.len() > old(self).events@.len() + 2,
            ({
                let toks = old(self).source.tokens@;
                let i1 = crate::source::next_sig(toks, old(self).source.cursor as int);
                let i2 = crate::source::next_sig(toks, i1 + 1);
                let e = final(self).events@[old(self).events@.len() as int + 2];
                if i2 < toks.len() && toks[i2].kind == SyntaxKind::Identifier {
                    // the identifier is consumed in place
                    e is AddToken
                } else {
                    // a zero-width missing-identifier error is synthesized at
                    // the position of whatever was found, and nothing is
                    // consumed for it
                    e is Error && event_error_model(e) == Some(
                        crate::sink::MsgModel {
                            kind: if i2 < toks.len() {
                                crate::sink::DiagModel::Missing(SyntaxKind::Identifier)
                            } else {
                                crate::sink::DiagModel::Eof(seq![SyntaxKind::Identifier])
                            },
                            start: missing_pos(toks, i2),
                            end: missing_pos(toks, i2),
                        },
                    )
                }
            }),
        decreases old(self).remaining_sp(), 0int,
    {
        let ghost e2: int = old(self).events@.len() as int + 2;
        let ghost gtoks = old(self).source.tokens@;
        let ghost gi1 = crate::source::next_sig(gtoks, old(self).source.cursor as int);
        let ghost gi2 = crate::source::next_sig(gtoks, gi1 + 1);
        let m = self.start();
        self.bump();
        let after_let = self.source.peek();
        proof {
            assert(self.source.tokens@ == gtoks);
            assert(self.source.cursor as int == gi1 + 1);
            assert(self.source.sig_at() == gi2);
            crate::source::lemma_next_sig_bounds(gtoks, gi1 + 1);
            assert(after_let == (if gi2 < gtoks.len() {
                Some(gtoks[gi2].kind)
            } else {
                None
            }));
        }
        if after_let == Some(SyntaxKind::Identifier) {
            self.bump();
            proof {
                assert(self.events@[e2] is AddToken);
            }
        } else {
            let range = self.source.peek_range();
            let zero = TextRange { start: range.start, end: range.start };
            proof {
                assert(self.source.tokens@ == gtoks);
                assert(self.source.sig_at() == gi2);
                if self.source.has_sig() {
                    assert(range == gtoks[gi2].range);
                } else if gtoks.len() > 0 {
                    assert(range.start == gtoks[gtoks.len() - 1].range.end);
                }
                assert(zero.start as int == missing_pos(gtoks, gi2));
            }
            let mut expected: Vec<SyntaxKind> = Vec::new();
            expected.push(SyntaxKind::Identifier);
            proof {
                assert(expected@ =~= seq![SyntaxKind::Identifier]);
            }
            self.error(expected, after_let, zero);
            proof {
                assert(self.events@[e2] is Error);
                assert(event_error_model(self.events@[e2]) == Some(
                    crate::sink::MsgModel {
                        kind: if gi2 < gtoks.len() {
                            crate::sink::DiagModel::Missing(SyntaxKind::Identifier)
                        } else {
                            crate::sink::DiagModel::Eof(seq![SyntaxKind::Identifier])
                        },
                        start: missing_pos(gtoks, gi2),
                        end: missing_pos(gtoks, gi2),
                    },
                ));
            }
        }
        let ghost held = self.events@[e2];
        let after_name = self.source.peek();
        if after_name == Some(SyntaxKind::Sym_Eq) {
            self.bump();
        } else {
            let range = self.source.peek_range();
            let zero = TextRange { start: range.start, end: range.start };
            let mut expected: Vec<SyntaxKind> = Vec::new();
            expected.push(SyntaxKind::Sym_Eq);
            self.error(expected, after_name, zero);
        }
        proof {
            assert(self.events@[e2] == held);
        }
        self.parse_expr(0);
        proof {
            assert(self.events@[e2] == held);
        }
        self.complete(m, SyntaxKind::Dec_GlobalBinding);
        proof {
            assert(self.events@[e2] == held);
        }
    }

    /// Parses the whole token stream: declarations and expressions separated
    /// by newlines or semicolons, consuming every significant token and
    /// recovering from anything unexpected.
    pub fn parse(self) -> (events: Vec<Event>)
        requires
            self.wf(),
        ensures
            count_add(events@) == count_add(self.events@) + self.source.sig_remaining(),
    {
        let ghost start_balance = self.balance();
        let mut this = self;
        loop
            invariant
                this.wf(),
                this.balance() == start_balance,
            ensures
                this.balance() == start_balance,
                this.source.sig_remaining() == 0,
            decreases this.remaining_sp(),
        {
            let peeked = this.source.peek();
            let k = match peeked {
                None => {
                    proof {
                        // no significant token remains, so every one of them
                        // has its AddToken event
                        lemma_sig_count_skip(this.source.tokens@, this.source.cursor as int);
                        assert(this.source.sig_remaining() == 0);
                    }
                    break;
                },
                Some(k) => k,
            };
            if k == SyntaxKind::Newline || k == SyntaxKind::Sym_Semicolon {
                this.bump();
                continue;
            }
            if k == SyntaxKind::Kwd_Let {
                this.parse_binding();
                continue;
            }
            let before = this.source.cursor;
            this.parse_expr(0);
            if this.source.cursor == before {
                // no progress: consume the offending token as an Error node
                let range = this.source.peek_range();
                this.error(Vec::new(), Some(k), range);
                let m = this.start();
                this.bump();
                this.complete(m, SyntaxKind::Error);
            }
        }
        proof {
            lemma_sig_count_nonneg(self.source.tokens@, self.source.cursor as int);
        }
        this.events
    }
}

} // verus!
