//! A lossless front-end for the Helios source language: a lexer, an
//! indentation rewriter, and an error-tolerant parser that together turn a
//! source text into a concrete syntax tree which preserves every character of
//! the input.

pub mod debug;
pub mod event;
pub mod green;
pub mod indent;
pub mod lexer;
pub mod message;
pub mod parser;
pub mod sink;
pub mod source;
pub mod syntax;
pub mod token;

pub use event::Event;
pub use green::{GreenChild, GreenNode, GreenToken};
pub use message::{DiagnosticKind, Message, ParseError};
pub use syntax::{symbol_from_char, symbol_from_chars, symbol_from_two_chars, SyntaxKind};
pub use indent::process_indents;
pub use lexer::tokenize;
pub use token::Token;

use vstd::prelude::*;

verus! {

/// A half-open range of byte offsets into the source text.
#[derive(Clone, Copy, Debug, PartialEq, Eq, Structural, Hash)]
pub struct TextRange {
    pub start: usize,
    pub end: usize,
}

impl TextRange {
    pub fn new(start: usize, end: usize) -> (r: TextRange)
        ensures
            r.start == start,
            r.end == end,
    {
        TextRange { start, end }
    }
}

/// The entry point of the parsing process.
///
/// Tokenizes the source, rewrites indentation, parses the token stream and
/// builds the lossless green tree: the tree's text is exactly the source,
/// its token leaves are exactly the processed token stream that the lexer
/// and rewriter twins prescribe for the text, its root has kind `Root`, no
/// identifier in it is spelled like a keyword or like `???`, and every
/// message carries the given file identifier. Parsing never fails: malformed
/// input yields a tree plus messages.
pub fn parse<FileId: Copy>(file_id: FileId, source: &str) -> (p: Parse<FileId>)
    ensures
        green::node_text(p.green_node) == source@,
        green::node_leaves(p.green_node) == token::model_leaves(
            indent::rewrite_from(
                lexer::lex_models_from(source@, 0, 0),
                0,
                seq![0int],
                indent::end_of(lexer::lex_models_from(source@, 0, 0)),
            ).toks,
        ),
        p.green_node.kind == SyntaxKind::Root,
        green::node_idents_ok(p.green_node),
        forall|k: int|
            0 <= k < p.messages@.len() ==> (#[trigger] p.messages@[k]).file_id == file_id,
        sink::inconsistent_models(sink::msg_models(p.messages@)) == sink::dedent_msg_models(
            indent::rewrite_from(
                lexer::lex_models_from(source@, 0, 0),
                0,
                seq![0int],
                indent::end_of(lexer::lex_models_from(source@, 0, 0)),
            ).msgs,
        ),
        sink::lexical_models(sink::msg_models(p.messages@)) == lexer::lex_msg_models_from(
            source@,
            0,
            0,
        ),
{
    let (raw_tokens, lex_messages) = lexer::tokenize(file_id, source);
    proof {
        token::lemma_byte_len_is_utf8_len(source@);
    }
    let (tokens, indent_messages) = indent::process_indents(file_id, raw_tokens);
    let token_source = source::Source::new(&tokens);
    let parser = parser::Parser::with(token_source);
    let events = parser.parse();
    let ghost gevs = events@;
    let (green_node, parser_messages) = sink::apply_events(file_id, &tokens, events);
    proof {
        lexer::lemma_issue_messages_fid(
            lexer::spec_units(source@),
            raw_tokens@,
            file_id,
        );
    }
    let ghost glex = lex_messages@;
    let ghost gind = indent_messages@;
    let early = sink::merge_messages(lex_messages, indent_messages);
    proof {
        assert forall|k: int| 0 <= k < early@.len() implies (#[trigger] early@[k]).file_id
            == file_id by {
            assert((exists|j: int| 0 <= j < glex.len() && early@[k] == glex[j]) || (exists|j: int|
                0 <= j < gind.len() && early@[k] == gind[j]));
        }
    }
    let ghost gearly = early@;
    let ghost gpar = parser_messages@;
    let messages = sink::merge_messages(early, parser_messages);
    proof {
        assert forall|k: int| 0 <= k < messages@.len() implies (#[trigger] messages@[k]).file_id
            == file_id by {
            assert((exists|j: int| 0 <= j < gearly.len() && messages@[k] == gearly[j]) || (exists|
                j: int,
            | 0 <= j < gpar.len() && messages@[k] == gpar[j]));
        }
        assert(token::concat_texts(tokens@) == source@);
        // the tree's leaves are the processed tokens, which both twins pin
        assert(token::models(raw_tokens@) == lexer::lex_models_from(source@, 0, 0));
        assert(token::models(tokens@) == indent::rewrite_from(
            lexer::lex_models_from(source@, 0, 0),
            0,
            seq![0int],
            indent::end_of(lexer::lex_models_from(source@, 0, 0)),
        ).toks);
        assert(sink::leaves_of(tokens@) =~= token::model_leaves(token::models(tokens@)));

        // only the rewriter reports inconsistent dedents, so the merged
        // list's inconsistent dedents are exactly its recorded lines
        sink::lemma_lex_msgs_not_inconsistent(
            lexer::spec_units(source@),
            raw_tokens@,
            file_id,
        );
        sink::lemma_events_msgs_not_inconsistent(gevs);
        assert(sink::none_inconsistent(sink::msg_models(glex)));
        assert(sink::none_inconsistent(sink::msg_models(gpar)));
        let ind_models = sink::msg_models(gind);
        let twin = indent::rewrite_from(
            token::models(raw_tokens@),
            0,
            seq![0int],
            indent::end_of(token::models(raw_tokens@)),
        );
        assert forall|k: int| 0 <= k < ind_models.len() implies (#[trigger] ind_models[k]).kind
            == sink::DiagModel::Inconsistent by {
            assert(ind_models[k] == sink::msg_model(gind[k]));
            assert(gind[k].kind == DiagnosticKind::InconsistentDedent);
        }
        sink::lemma_inconsistent_through_merges(
            sink::msg_models(glex),
            ind_models,
            sink::msg_models(gpar),
        );
        assert(sink::msg_models(gearly) == sink::merge_models(
            sink::msg_models(glex),
            sink::msg_models(gind),
        ));
        assert(sink::msg_models(messages@) == sink::merge_models(
            sink::msg_models(gearly),
            sink::msg_models(gpar),
        ));
        assert(sink::inconsistent_models(sink::msg_models(messages@)) == ind_models);
        assert forall|k: int| 0 <= k < ind_models.len() implies #[trigger] ind_models[k]
            == sink::dedent_msg_models(twin.msgs)[k] by {
            assert(ind_models[k] == sink::msg_model(gind[k]));
            assert(gind[k].range.start as int == twin.msgs[k].0);
            assert(gind[k].range.end as int == twin.msgs[k].1);
        }
        assert(ind_models =~= sink::dedent_msg_models(twin.msgs));

        // likewise, only the lexer reports lexical diagnostics, so the
        // merged list's lexical diagnostics are exactly the lexer's
        sink::lemma_lex_msg_models_lexical(source@, 0, 0);
        assert(sink::msg_models(glex) == lexer::lex_msg_models_from(source@, 0, 0));
        assert forall|k: int| 0 <= k < ind_models.len() implies !sink::is_lexical_kind(
            (#[trigger] ind_models[k]).kind,
        ) by {
            assert(ind_models[k].kind == sink::DiagModel::Inconsistent);
        }
        sink::lemma_events_msgs_not_lexical(gevs);
        sink::lemma_lexical_through_merges(
            sink::msg_models(glex),
            ind_models,
            sink::msg_models(gpar),
        );
        assert(sink::lexical_models(sink::msg_models(messages@)) == sink::msg_models(glex));
    }
    Parse { green_node, messages }
}

/// The result of parsing a source text: the root of the green tree and the
/// diagnostics, in source order.
#[derive(Debug, PartialEq, Eq)]
pub struct Parse<FileId> {
    /// The root green node of the syntax tree.
    pub green_node: GreenNode,
    pub messages: Vec<Message<FileId>>,
}

impl<FileId> Parse<FileId> {
    /// Construct a [`Parse`] with the given [`GreenNode`].
    pub fn new(green_node: GreenNode, messages: Vec<Message<FileId>>) -> (p: Parse<FileId>)
        ensures
            p.green_node == green_node,
            p.messages == messages,
    {
        Parse { green_node, messages }
    }

    /// A positioned view of the root of the syntax tree.
    pub fn syntax(&self) -> (s: SyntaxNode<'_>)
        ensures
            s.green == &self.green_node,
            s.offset == 0,
    {
        SyntaxNode { green: &self.green_node, offset: 0 }
    }

    /// The diagnostics, in source order.
    pub fn messages(&self) -> (m: &[Message<FileId>])
        ensures
            m@ == self.messages@,
    {
        self.messages.as_slice()
    }

    /// Returns a formatted string representation of the syntax tree: one
    /// line per node or token with its kind and byte range, children
    /// indented two spaces per depth, token texts quoted.
    pub fn debug_tree(&self) -> (r: String)
        requires
            token::byte_len(green::node_text(self.green_node)) <= usize::MAX,
        ensures
            r@ == debug::render_node(self.green_node, 0, Seq::<char>::empty()),
    {
        let mut out = String::new();
        debug::render_node_into(&mut out, &self.green_node, 0, "");
        proof {
            assert(""@ =~= Seq::<char>::empty()) by {
                reveal_strlit("");
            }
            assert(Seq::<char>::empty() + debug::render_node(
                self.green_node,
                0,
                Seq::<char>::empty(),
            ) =~= debug::render_node(self.green_node, 0, Seq::<char>::empty()));
        }
        out
    }
}

/// A node of the syntax tree together with its absolute starting offset;
/// ranges are derived from the text lengths of the green children, so the
/// view is position-independent until it is anchored here.
pub struct SyntaxNode<'a> {
    pub green: &'a GreenNode,
    pub offset: usize,
}

impl<'a> SyntaxNode<'a> {
    pub fn kind(&self) -> (k: SyntaxKind)
        ensures
            k == self.green.kind,
    {
        self.green.kind
    }

    /// The half-open byte range the node covers.
    pub fn range(&self) -> (r: TextRange)
        requires
            self.offset + token::byte_len(green::node_text(*self.green)) <= usize::MAX,
        ensures
            r.start == self.offset,
            r.end == self.offset + token::byte_len(green::node_text(*self.green)),
    {
        let w = green::node_byte_len(self.green);
        TextRange { start: self.offset, end: self.offset + w }
    }
}

} // verus!
