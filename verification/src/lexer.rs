//! The lexer: classifies the characters of a source text into a flat stream
//! of tokens, each covering a non-empty range, together with lexical
//! diagnostics.
//!
//! The scanner is specified by a functional twin: `spec_units` gives, for any
//! character sequence, the kind, length and possible diagnostic of every
//! token, and `lex` is proved to produce exactly that stream. Identifier
//! classification follows Unicode `XID_Start`/`XID_Continue`, reached through
//! the `unicode_xid` crate.

use vstd::prelude::*;
use vstd::string::StringSliceAdditionalSpecFns;

use crate::message::{DiagnosticKind, Message};
use crate::syntax::{
    is_symbol_char, symbol_from_char, symbol_from_two_chars, symbol_kind_of_char,
    two_char_symbol, SyntaxKind,
};
use crate::token::{byte_len, concat_texts, model, models, ranges_tile, utf8_width, Token, TokenModel};
use crate::token::{
    lemma_byte_len_bounds, lemma_byte_len_concat, lemma_byte_len_is_utf8_len,
    lemma_byte_len_split, lemma_concat_texts_push,
};
use crate::TextRange;

verus! {

/// Whether the character is in the `XID_Start` table that `unicode_xid`
/// consults for characters beyond ASCII.
pub uninterp spec fn xid_start_table(c: char) -> bool;

/// Whether the character is in the `XID_Continue` table that `unicode_xid`
/// consults for characters beyond ASCII.
pub uninterp spec fn xid_continue_table(c: char) -> bool;

/// Relies on `unicode_xid::UnicodeXID::is_xid_start`: an ASCII letter, or a
/// character beyond ASCII that the `XID_Start` table holds; a function of
/// the character alone.
#[verifier::external_body]
fn char_is_xid_start(c: char) -> (r: bool)
    ensures
        r == (is_ascii_letter(c) || ((c as u32) > 0x7f && xid_start_table(c))),
{
    unicode_xid::UnicodeXID::is_xid_start(c)
}

/// Relies on `unicode_xid::UnicodeXID::is_xid_continue`: an ASCII letter,
/// digit or underscore, or a character beyond ASCII that the `XID_Continue`
/// table holds; a function of the character alone.
#[verifier::external_body]
fn char_is_xid_continue(c: char) -> (r: bool)
    ensures
        r == (is_ascii_letter(c) || is_digit_char(c) || c == '_' || ((c as u32) > 0x7f
            && xid_continue_table(c))),
{
    unicode_xid::UnicodeXID::is_xid_continue(c)
}

pub open spec fn is_space_char(c: char) -> bool {
    c == ' '
}

/// Whitespace other than a line feed.
pub open spec fn is_inline_ws_char(c: char) -> bool {
    c == ' ' || c == '\t' || c == '\r'
}

pub open spec fn is_not_newline_char(c: char) -> bool {
    c != '\n'
}

pub open spec fn is_digit_char(c: char) -> bool {
    ('0' as u32) <= (c as u32) && (c as u32) <= ('9' as u32)
}

pub open spec fn is_ascii_letter(c: char) -> bool {
    (('a' as u32) <= (c as u32) && (c as u32) <= ('z' as u32)) || (('A' as u32) <= (c as u32)
        && (c as u32) <= ('Z' as u32))
}

/// A valid start of an identifier: `XID_Start` or an underscore. On ASCII
/// the property is decided here; only characters beyond ASCII go to the
/// table.
pub open spec fn is_id_start_char(c: char) -> bool {
    is_ascii_letter(c) || c == '_' || ((c as u32) > 0x7f && xid_start_table(c))
}

/// A valid continuation of an identifier: `XID_Continue` or an underscore.
/// On ASCII the property is decided here; only characters beyond ASCII go to
/// the table.
pub open spec fn is_id_continue_char(c: char) -> bool {
    is_ascii_letter(c) || is_digit_char(c) || c == '_' || ((c as u32) > 0x7f
        && xid_continue_table(c))
}

/// A character that may continue a numeric literal: digits, letters (for base
/// prefixes such as `0x`), and the separator `_`.
pub open spec fn is_digit_continue_char(c: char) -> bool {
    is_ascii_letter(c) || is_digit_char(c) || c == '_'
}

/// Checks if the given character is a valid start of an identifier.
fn is_identifier_start(c: char) -> (r: bool)
    ensures
        r == is_id_start_char(c),
{
    ('a' <= c && c <= 'z') || ('A' <= c && c <= 'Z') || c == '_' || char_is_xid_start(c)
}

/// Checks if the given character is a valid continuation of an identifier.
fn is_identifier_continue(c: char) -> (r: bool)
    ensures
        r == is_id_continue_char(c),
{
    ('a' <= c && c <= 'z') || ('A' <= c && c <= 'Z') || ('0' <= c && c <= '9') || c == '_'
        || char_is_xid_continue(c)
}

/// Checks if the given character is a recognised symbol.
fn is_symbol(c: char) -> (r: bool)
    ensures
        r == is_symbol_char(c),
{
    c == '&' || c == '*' || c == '@' || c == '\\' || c == '!' || c == '^' || c == ':' || c == ','
        || c == '$' || c == '.' || c == '\u{2014}' || c == '\u{2013}' || c == '=' || c == '/'
        || c == '-' || c == '%' || c == '|' || c == '+' || c == '#' || c == '?' || c == ';'
        || c == '\u{a3}' || c == '~' || c == '<' || c == '>' || c == '{' || c == '}' || c == '['
        || c == ']' || c == '(' || c == ')'
}

/// Checks if the given character is a digit.
fn is_digit(c: char) -> (r: bool)
    ensures
        r == is_digit_char(c),
{
    '0' <= c && c <= '9'
}

/// Checks if the given character may continue a numeric literal.
fn is_digit_continue(c: char) -> (r: bool)
    ensures
        r == is_digit_continue_char(c),
{
    ('a' <= c && c <= 'z') || ('A' <= c && c <= 'Z') || ('0' <= c && c <= '9') || c == '_'
}

/// The character classes handed to `run_len`, each a single shared
/// function value so that uses at different sites coincide.
pub open spec fn space_pred() -> spec_fn(char) -> bool {
    |x: char| is_space_char(x)
}

pub open spec fn inline_ws_pred() -> spec_fn(char) -> bool {
    |x: char| is_inline_ws_char(x)
}

pub open spec fn not_newline_pred() -> spec_fn(char) -> bool {
    |x: char| is_not_newline_char(x)
}

pub open spec fn id_continue_pred() -> spec_fn(char) -> bool {
    |x: char| is_id_continue_char(x)
}

pub open spec fn digit_continue_pred() -> spec_fn(char) -> bool {
    |x: char| is_digit_continue_char(x)
}

/// The length of the longest prefix of `cs` whose characters all satisfy `p`.
pub open spec fn run_len(cs: Seq<char>, p: spec_fn(char) -> bool) -> int
    decreases cs.len(),
{
    if cs.len() == 0 || !p(cs[0]) {
        0
    } else {
        1 + run_len(cs.drop_first(), p)
    }
}

pub proof fn lemma_run_len_bounds(cs: Seq<char>, p: spec_fn(char) -> bool)
    ensures
        0 <= run_len(cs, p) <= cs.len(),
    decreases cs.len(),
{
    if cs.len() > 0 && p(cs[0]) {
        lemma_run_len_bounds(cs.drop_first(), p);
    }
}

/// One step of a run: if `cs[j]` satisfies `p`, the run on the suffix at `j`
/// is one longer than the run on the suffix at `j + 1`.
proof fn lemma_run_len_step(cs: Seq<char>, p: spec_fn(char) -> bool, j: int)
    requires
        0 <= j < cs.len(),
        p(cs[j]),
    ensures
        run_len(cs.skip(j), p) == 1 + run_len(cs.skip(j + 1), p),
{
    assert(cs.skip(j)[0] == cs[j]);
    assert(cs.skip(j).drop_first() =~= cs.skip(j + 1));
}

/// The number of characters a quoted literal occupies after its opening
/// delimiter `q`, including the closing delimiter when there is one. The scan
/// stops before a line feed and at the end of input; a backslash escapes the
/// following character.
pub open spec fn quoted_body_len(cs: Seq<char>, q: char) -> int
    decreases cs.len(),
{
    if cs.len() == 0 {
        0
    } else if cs[0] == q {
        1
    } else if cs[0] == '\n' {
        0
    } else if cs[0] == '\\' && cs.len() >= 2 && cs[1] != '\n' {
        2 + quoted_body_len(cs.skip(2), q)
    } else {
        1 + quoted_body_len(cs.skip(1), q)
    }
}

/// Whether the quoted literal reaches a closing delimiter on its line.
pub open spec fn quoted_terminated(cs: Seq<char>, q: char) -> bool
    decreases cs.len(),
{
    if cs.len() == 0 {
        false
    } else if cs[0] == q {
        true
    } else if cs[0] == '\n' {
        false
    } else if cs[0] == '\\' && cs.len() >= 2 && cs[1] != '\n' {
        quoted_terminated(cs.skip(2), q)
    } else {
        quoted_terminated(cs.skip(1), q)
    }
}

/// The escape characters the language defines.
pub open spec fn is_valid_escape_char(c: char) -> bool {
    c == 'n' || c == 'r' || c == 't' || c == '0' || c == '\\' || c == '"' || c == '\''
}

/// The first escaped character in the literal body that is not a defined
/// escape, if any.
pub open spec fn first_bad_escape(cs: Seq<char>, q: char) -> Option<char>
    decreases cs.len(),
{
    if cs.len() == 0 {
        None
    } else if cs[0] == q {
        None
    } else if cs[0] == '\n' {
        None
    } else if cs[0] == '\\' && cs.len() >= 2 && cs[1] != '\n' {
        if !is_valid_escape_char(cs[1]) {
            Some(cs[1])
        } else {
            first_bad_escape(cs.skip(2), q)
        }
    } else {
        first_bad_escape(cs.skip(1), q)
    }
}

pub proof fn lemma_quoted_body_len_bounds(cs: Seq<char>, q: char)
    ensures
        0 <= quoted_body_len(cs, q) <= cs.len(),
    decreases cs.len(),
{
    if cs.len() == 0 {
    } else if cs[0] == q {
    } else if cs[0] == '\n' {
    } else if cs[0] == '\\' && cs.len() >= 2 && cs[1] != '\n' {
        lemma_quoted_body_len_bounds(cs.skip(2), q);
    } else {
        lemma_quoted_body_len_bounds(cs.skip(1), q);
    }
}

/// The kind a keyword spelling maps to, if the word is a keyword.
pub open spec fn keyword_kind(w: Seq<char>) -> Option<SyntaxKind> {
    if w == "alias"@ { Some(SyntaxKind::Kwd_Alias) }
    else if w == "and"@ { Some(SyntaxKind::Kwd_And) }
    else if w == "as"@ { Some(SyntaxKind::Kwd_As) }
    else if w == "begin"@ { Some(SyntaxKind::Kwd_Begin) }
    else if w == "else"@ { Some(SyntaxKind::Kwd_Else) }
    else if w == "end"@ { Some(SyntaxKind::Kwd_End) }
    else if w == "export"@ { Some(SyntaxKind::Kwd_Export) }
    else if w == "external"@ { Some(SyntaxKind::Kwd_External) }
    else if w == "for"@ { Some(SyntaxKind::Kwd_For) }
    else if w == "forall"@ { Some(SyntaxKind::Kwd_Forall) }
    else if w == "if"@ { Some(SyntaxKind::Kwd_If) }
    else if w == "import"@ { Some(SyntaxKind::Kwd_Import) }
    else if w == "in"@ { Some(SyntaxKind::Kwd_In) }
    else if w == "let"@ { Some(SyntaxKind::Kwd_Let) }
    else if w == "loop"@ { Some(SyntaxKind::Kwd_Loop) }
    else if w == "match"@ { Some(SyntaxKind::Kwd_Match) }
    else if w == "module"@ { Some(SyntaxKind::Kwd_Module) }
    else if w == "not"@ { Some(SyntaxKind::Kwd_Not) }
    else if w == "of"@ { Some(SyntaxKind::Kwd_Of) }
    else if w == "or"@ { Some(SyntaxKind::Kwd_Or) }
    else if w == "rec"@ { Some(SyntaxKind::Kwd_Rec) }
    else if w == "ref"@ { Some(SyntaxKind::Kwd_Ref) }
    else if w == "then"@ { Some(SyntaxKind::Kwd_Then) }
    else if w == "type"@ { Some(SyntaxKind::Kwd_Type) }
    else if w == "val"@ { Some(SyntaxKind::Kwd_Val) }
    else if w == "while"@ { Some(SyntaxKind::Kwd_While) }
    else if w == "with"@ { Some(SyntaxKind::Kwd_With) }
    else { None }
}

/// Whether the word is spelled exactly like a keyword.
pub open spec fn is_keyword_text(w: Seq<char>) -> bool {
    keyword_kind(w) is Some
}

/// Whether the spelling is reserved: one of the keywords, or the literal
/// sequence `???`, which is also a keyword of the language.
pub open spec fn is_reserved_spelling(w: Seq<char>) -> bool {
    is_keyword_text(w) || w == "???"@
}

/// The kind of an identifier-shaped word: its keyword kind, or `Identifier`.
pub open spec fn word_kind(w: Seq<char>) -> SyntaxKind {
    match keyword_kind(w) {
        Some(k) => k,
        None => SyntaxKind::Identifier,
    }
}

/// A lexical diagnostic attached to a single token.
#[derive(Debug, Clone, Copy, PartialEq, Eq)]
pub enum LexIssue {
    BadChar(char),
    Unterminated(SyntaxKind),
    BadEscape(char),
}

pub open spec fn issue_to_kind(i: LexIssue) -> DiagnosticKind {
    match i {
        LexIssue::BadChar(c) => DiagnosticKind::BadCharacter { character: c },
        LexIssue::Unterminated(k) => DiagnosticKind::UnterminatedLiteral { kind: k },
        LexIssue::BadEscape(c) => DiagnosticKind::InvalidEscape { character: c },
    }
}

/// One token of the functional scanner: its kind, its length in characters,
/// and the diagnostic it carries, if any.
pub ghost struct LexUnit {
    pub kind: SyntaxKind,
    pub len: int,
    pub issue: Option<LexIssue>,
}

/// The first token of a non-empty character sequence, by the classification
/// rules of the language.
pub open spec fn next_unit(cs: Seq<char>) -> LexUnit
    recommends
        cs.len() > 0,
{
    let c = cs[0];
    if c == '\n' {
        LexUnit { kind: SyntaxKind::Newline, len: 1 + run_len(cs.skip(1), space_pred()), issue: None }
    } else if is_inline_ws_char(c) {
        LexUnit { kind: SyntaxKind::Whitespace, len: run_len(cs, inline_ws_pred()), issue: None }
    } else if c == '/' && cs.len() >= 2 && cs[1] == '/' {
        LexUnit {
            kind: if cs.len() >= 3 && cs[2] == '/' { SyntaxKind::DocComment } else { SyntaxKind::Comment },
            len: run_len(cs, not_newline_pred()),
            issue: None,
        }
    } else if c == '?' && cs.len() >= 3 && cs[1] == '?' && cs[2] == '?' {
        LexUnit { kind: SyntaxKind::Kwd_Unimplemented, len: 3, issue: None }
    } else if is_symbol_char(c) {
        if cs.len() >= 2 && two_char_symbol(c, cs[1]) is Some {
            LexUnit { kind: two_char_symbol(c, cs[1]).unwrap(), len: 2, issue: None }
        } else {
            LexUnit { kind: symbol_kind_of_char(c).unwrap(), len: 1, issue: None }
        }
    } else if is_id_start_char(c) {
        let l = 1 + run_len(cs.skip(1), id_continue_pred());
        LexUnit { kind: word_kind(cs.take(l)), len: l, issue: None }
    } else if is_digit_char(c) {
        let l1 = 1 + run_len(cs.skip(1), digit_continue_pred());
        if l1 < cs.len() && cs[l1] == '.' && l1 + 1 < cs.len() && is_digit_continue_char(cs[l1 + 1]) {
            let l = l1 + 1 + run_len(cs.skip(l1 + 1), digit_continue_pred());
            LexUnit { kind: SyntaxKind::Lit_Float, len: l, issue: None }
        } else {
            LexUnit { kind: SyntaxKind::Lit_Integer, len: l1, issue: None }
        }
    } else if c == '"' {
        LexUnit {
            kind: SyntaxKind::Lit_String,
            len: 1 + quoted_body_len(cs.skip(1), '"'),
            issue: if !quoted_terminated(cs.skip(1), '"') {
                Some(LexIssue::Unterminated(SyntaxKind::Lit_String))
            } else {
                match first_bad_escape(cs.skip(1), '"') {
                    Some(e) => Some(LexIssue::BadEscape(e)),
                    None => None,
                }
            },
        }
    } else if c == '\'' {
        LexUnit {
            kind: SyntaxKind::Lit_Character,
            len: 1 + quoted_body_len(cs.skip(1), '\''),
            issue: if !quoted_terminated(cs.skip(1), '\'') {
                Some(LexIssue::Unterminated(SyntaxKind::Lit_Character))
            } else {
                match first_bad_escape(cs.skip(1), '\'') {
                    Some(e) => Some(LexIssue::BadEscape(e)),
                    None => None,
                }
            },
        }
    } else {
        LexUnit { kind: SyntaxKind::Error, len: 1, issue: Some(LexIssue::BadChar(c)) }
    }
}

pub proof fn lemma_next_unit_bounds(cs: Seq<char>)
    requires
        cs.len() > 0,
    ensures
        1 <= next_unit(cs).len <= cs.len(),
{
    let c = cs[0];
    lemma_run_len_bounds(cs.skip(1), space_pred());
    lemma_run_len_bounds(cs, inline_ws_pred());
    lemma_run_len_bounds(cs, not_newline_pred());
    lemma_run_len_bounds(cs.skip(1), id_continue_pred());
    lemma_run_len_bounds(cs.skip(1), digit_continue_pred());
    lemma_quoted_body_len_bounds(cs.skip(1), '"');
    lemma_quoted_body_len_bounds(cs.skip(1), '\'');
    if c == '\n' {
    } else if is_inline_ws_char(c) {
        assert(inline_ws_pred()(cs[0]));
        lemma_run_len_bounds(cs.drop_first(), inline_ws_pred());
        assert(run_len(cs, inline_ws_pred()) >= 1);
    } else if c == '/' && cs.len() >= 2 && cs[1] == '/' {
        assert(not_newline_pred()(cs[0]));
        lemma_run_len_bounds(cs.drop_first(), not_newline_pred());
        assert(run_len(cs, not_newline_pred()) >= 1);
    } else if c == '?' && cs.len() >= 3 && cs[1] == '?' && cs[2] == '?' {
    } else if is_symbol_char(c) {
    } else if is_id_start_char(c) {
    } else if is_digit_char(c) {
        let l1 = 1 + run_len(cs.skip(1), digit_continue_pred());
        if l1 < cs.len() && cs[l1] == '.' && l1 + 1 < cs.len() && is_digit_continue_char(
            cs[l1 + 1],
        ) {
            lemma_run_len_bounds(cs.skip(l1 + 1), digit_continue_pred());
        }
    } else {
    }
}

/// The whole token stream of a character sequence: every token's kind, length
/// and diagnostic, in source order.
pub open spec fn spec_units(cs: Seq<char>) -> Seq<LexUnit>
    decreases cs.len(),
{
    if cs.len() == 0 {
        Seq::empty()
    } else {
        let u = next_unit(cs);
        let l = if u.len < 1 {
            1
        } else if u.len > cs.len() {
            cs.len() as int
        } else {
            u.len
        };
        seq![LexUnit { kind: u.kind, len: l, issue: u.issue }] + spec_units(cs.skip(l))
    }
}

/// Unfolding `spec_units` once, with the length bound already in place.
pub proof fn lemma_spec_units_unfold(cs: Seq<char>)
    requires
        cs.len() > 0,
    ensures
        spec_units(cs) == seq![next_unit(cs)] + spec_units(cs.skip(next_unit(cs).len)),
{
    lemma_next_unit_bounds(cs);
    let u = next_unit(cs);
    assert(u == LexUnit { kind: u.kind, len: u.len, issue: u.issue });
}

/// The token stream reconstructed from the text alone: each token's text is
/// the segment its unit covers, and the byte ranges accumulate the segments'
/// widths. This is what `tokenize` returns, token for token.
pub open spec fn lex_models_from(cs: Seq<char>, i: int, off: int) -> Seq<TokenModel>
    decreases cs.len() - i,
{
    if i < 0 || i >= cs.len() {
        Seq::empty()
    } else {
        let u = next_unit(cs.skip(i));
        let l = if u.len < 1 {
            1
        } else if u.len > cs.len() - i {
            cs.len() - i
        } else {
            u.len
        };
        let w = byte_len(cs.subrange(i, i + l));
        seq![TokenModel { kind: u.kind, text: cs.subrange(i, i + l), start: off, end: off + w }]
            + lex_models_from(cs, i + l, off + w)
    }
}

/// The message models derived from the text alone: one per token that
/// carries an issue, with that token's reconstructed byte range.
pub open spec fn lex_msg_models_from(cs: Seq<char>, i: int, off: int) -> Seq<
    crate::sink::MsgModel,
>
    decreases cs.len() - i,
{
    if i < 0 || i >= cs.len() {
        Seq::empty()
    } else {
        let u = next_unit(cs.skip(i));
        let l = if u.len < 1 {
            1
        } else if u.len > cs.len() - i {
            cs.len() - i
        } else {
            u.len
        };
        let w = byte_len(cs.subrange(i, i + l));
        let rest = lex_msg_models_from(cs, i + l, off + w);
        match u.issue {
            None => rest,
            Some(iss) => seq![
                crate::sink::MsgModel {
                    kind: crate::sink::kind_model(issue_to_kind(iss)),
                    start: off,
                    end: off + w,
                },
            ] + rest,
        }
    }
}

/// The messages derived from the token stream: one message per token that
/// carries an issue, with that token's range.
pub open spec fn issue_messages<FileId>(
    units: Seq<LexUnit>,
    toks: Seq<Token>,
    file_id: FileId,
) -> Seq<Message<FileId>>
    recommends
        units.len() == toks.len(),
    decreases units.len(),
{
    if units.len() == 0 || toks.len() == 0 {
        Seq::empty()
    } else {
        let rest = issue_messages(units.drop_first(), toks.drop_first(), file_id);
        match units[0].issue {
            None => rest,
            Some(iss) => seq![
                Message { file_id, kind: issue_to_kind(iss), range: toks[0].range },
            ] + rest,
        }
    }
}

pub proof fn lemma_issue_messages_push<FileId>(
    units: Seq<LexUnit>,
    toks: Seq<Token>,
    u: LexUnit,
    t: Token,
    file_id: FileId,
)
    requires
        units.len() == toks.len(),
    ensures
        issue_messages(units.push(u), toks.push(t), file_id) == issue_messages(
            units,
            toks,
            file_id,
        ) + (match u.issue {
            None => Seq::<Message<FileId>>::empty(),
            Some(iss) => seq![Message { file_id, kind: issue_to_kind(iss), range: t.range }],
        }),
    decreases units.len(),
{
    let tail = (match u.issue {
        None => Seq::<Message<FileId>>::empty(),
        Some(iss) => seq![Message { file_id, kind: issue_to_kind(iss), range: t.range }],
    });
    if units.len() == 0 {
        assert(units.push(u).drop_first() =~= Seq::<LexUnit>::empty());
        assert(toks.push(t).drop_first() =~= Seq::<Token>::empty());
        assert(units.push(u)[0] == u);
        assert(toks.push(t)[0] == t);
        assert(issue_messages(
            units.push(u).drop_first(),
            toks.push(t).drop_first(),
            file_id,
        ) == Seq::<Message<FileId>>::empty());
        assert(issue_messages(units, toks, file_id) + tail =~= tail);
        assert(tail + Seq::<Message<FileId>>::empty() =~= tail);
        match u.issue {
            None => {
                assert(issue_messages(units.push(u), toks.push(t), file_id) == Seq::<
                    Message<FileId>,
                >::empty());
                assert(issue_messages(units, toks, file_id) + tail =~= Seq::<
                    Message<FileId>,
                >::empty());
            },
            Some(iss) => {
                assert(issue_messages(units.push(u), toks.push(t), file_id) == seq![
                    Message { file_id, kind: issue_to_kind(iss), range: t.range },
                ] + Seq::<Message<FileId>>::empty());
            },
        }
    } else {
        assert(units.push(u).drop_first() =~= units.drop_first().push(u));
        assert(toks.push(t).drop_first() =~= toks.drop_first().push(t));
        assert(units.push(u)[0] == units[0]);
        assert(toks.push(t)[0] == toks[0]);
        lemma_issue_messages_push(units.drop_first(), toks.drop_first(), u, t, file_id);
        match units[0].issue {
            None => {},
            Some(iss) => {
                let head = seq![
                    Message { file_id, kind: issue_to_kind(iss), range: toks[0].range },
                ];
                assert(head + (issue_messages(units.drop_first(), toks.drop_first(), file_id)
                    + tail) =~= (head + issue_messages(
                    units.drop_first(),
                    toks.drop_first(),
                    file_id,
                )) + tail);
            },
        }
    }
}

/// Checks if the given character is a defined escape character.
fn is_valid_escape(c: char) -> (r: bool)
    ensures
        r == is_valid_escape_char(c),
{
    c == 'n' || c == 'r' || c == 't' || c == '0' || c == '\\' || c == '"' || c == '\''
}

/// All characters of a run satisfy its predicate.
proof fn lemma_run_len_all(cs: Seq<char>, p: spec_fn(char) -> bool)
    ensures
        forall|l: int| 0 <= l < run_len(cs, p) ==> p(#[trigger] cs[l]),
    decreases cs.len(),
{
    lemma_run_len_bounds(cs, p);
    if cs.len() > 0 && p(cs[0]) {
        lemma_run_len_all(cs.drop_first(), p);
        assert forall|l: int| 0 <= l < run_len(cs, p) implies p(#[trigger] cs[l]) by {
            if l > 0 {
                assert(cs.drop_first()[l - 1] == cs[l]);
            }
        }
    }
}

/// Scans past the run of spaces that starts at `start`.
fn run_spaces_end(chars: &Vec<char>, start: usize) -> (j: usize)
    requires
        start <= chars@.len(),
    ensures
        start <= j <= chars@.len(),
        j - start == run_len(chars@.skip(start as int), space_pred()),
{
    let ghost cs = chars@;
    let mut j = start;
    while j < chars.len() && chars[j] == ' '
        invariant
            start <= j <= cs.len(),
            chars@ == cs,
            run_len(cs.skip(start as int), space_pred()) == j - start + run_len(
                cs.skip(j as int),
                space_pred(),
            ),
        decreases cs.len() - j,
    {
        proof {
            assert(space_pred()(cs[j as int]));
            lemma_run_len_step(cs, space_pred(), j as int);
        }
        j = j + 1;
    }
    proof {
        assert(run_len(cs.skip(j as int), space_pred()) == 0) by {
            if j < cs.len() {
                assert(cs.skip(j as int)[0] == cs[j as int]);
                assert(!space_pred()(cs[j as int]));
            }
        }
    }
    j
}

/// Scans past the run of non-linefeed whitespace that starts at `start`.
fn run_inline_ws_end(chars: &Vec<char>, start: usize) -> (j: usize)
    requires
        start <= chars@.len(),
    ensures
        start <= j <= chars@.len(),
        j - start == run_len(chars@.skip(start as int), inline_ws_pred()),
{
    let ghost cs = chars@;
    let mut j = start;
    while j < chars.len() && (chars[j] == ' ' || chars[j] == '\t' || chars[j] == '\r')
        invariant
            start <= j <= cs.len(),
            chars@ == cs,
            run_len(cs.skip(start as int), inline_ws_pred()) == j - start + run_len(
                cs.skip(j as int),
                inline_ws_pred(),
            ),
        decreases cs.len() - j,
    {
        proof {
            assert(inline_ws_pred()(cs[j as int]));
            lemma_run_len_step(cs, inline_ws_pred(), j as int);
        }
        j = j + 1;
    }
    proof {
        assert(run_len(cs.skip(j as int), inline_ws_pred()) == 0) by {
            if j < cs.len() {
                assert(cs.skip(j as int)[0] == cs[j as int]);
                assert(!inline_ws_pred()(cs[j as int]));
            }
        }
    }
    j
}

/// Scans to the end of the line that `start` lies on.
fn run_not_newline_end(chars: &Vec<char>, start: usize) -> (j: usize)
    requires
        start <= chars@.len(),
    ensures
        start <= j <= chars@.len(),
        j - start == run_len(chars@.skip(start as int), not_newline_pred()),
{
    let ghost cs = chars@;
    let mut j = start;
    while j < chars.len() && chars[j] != '\n'
        invariant
            start <= j <= cs.len(),
            chars@ == cs,
            run_len(cs.skip(start as int), not_newline_pred()) == j - start + run_len(
                cs.skip(j as int),
                not_newline_pred(),
            ),
        decreases cs.len() - j,
    {
        proof {
            assert(not_newline_pred()(cs[j as int]));
            lemma_run_len_step(cs, not_newline_pred(), j as int);
        }
        j = j + 1;
    }
    proof {
        assert(run_len(cs.skip(j as int), not_newline_pred()) == 0) by {
            if j < cs.len() {
                assert(cs.skip(j as int)[0] == cs[j as int]);
                assert(!not_newline_pred()(cs[j as int]));
            }
        }
    }
    j
}

/// Scans past the run of identifier-continuation characters at `start`.
fn run_id_continue_end(chars: &Vec<char>, start: usize) -> (j: usize)
    requires
        start <= chars@.len(),
    ensures
        start <= j <= chars@.len(),
        j - start == run_len(chars@.skip(start as int), id_continue_pred()),
{
    let ghost cs = chars@;
    let mut j = start;
    while j < chars.len() && is_identifier_continue(chars[j])
        invariant
            start <= j <= cs.len(),
            chars@ == cs,
            run_len(cs.skip(start as int), id_continue_pred()) == j - start + run_len(
                cs.skip(j as int),
                id_continue_pred(),
            ),
        decreases cs.len() - j,
    {
        proof {
            assert(id_continue_pred()(cs[j as int]));
            lemma_run_len_step(cs, id_continue_pred(), j as int);
        }
        j = j + 1;
    }
    proof {
        assert(run_len(cs.skip(j as int), id_continue_pred()) == 0) by {
            if j < cs.len() {
                assert(cs.skip(j as int)[0] == cs[j as int]);
                assert(!id_continue_pred()(cs[j as int]));
            }
        }
    }
    j
}

/// Scans past the run of numeric-continuation characters at `start`.
fn run_digit_continue_end(chars: &Vec<char>, start: usize) -> (j: usize)
    requires
        start <= chars@.len(),
    ensures
        start <= j <= chars@.len(),
        j - start == run_len(chars@.skip(start as int), digit_continue_pred()),
{
    let ghost cs = chars@;
    let mut j = start;
    while j < chars.len() && is_digit_continue(chars[j])
        invariant
            start <= j <= cs.len(),
            chars@ == cs,
            run_len(cs.skip(start as int), digit_continue_pred()) == j - start + run_len(
                cs.skip(j as int),
                digit_continue_pred(),
            ),
        decreases cs.len() - j,
    {
        proof {
            assert(digit_continue_pred()(cs[j as int]));
            lemma_run_len_step(cs, digit_continue_pred(), j as int);
        }
        j = j + 1;
    }
    proof {
        assert(run_len(cs.skip(j as int), digit_continue_pred()) == 0) by {
            if j < cs.len() {
                assert(cs.skip(j as int)[0] == cs[j as int]);
                assert(!digit_continue_pred()(cs[j as int]));
            }
        }
    }
    j
}

/// Scans the body of a quoted literal from just after its opening delimiter,
/// returning the end index, whether the literal was terminated, and the first
/// undefined escape character, if any.
fn scan_quoted(chars: &Vec<char>, start: usize, q: char) -> (res: (usize, bool, Option<char>))
    requires
        start <= chars@.len(),
    ensures
        start <= res.0 <= chars@.len(),
        res.0 - start == quoted_body_len(chars@.skip(start as int), q),
        res.1 == quoted_terminated(chars@.skip(start as int), q),
        res.2 == first_bad_escape(chars@.skip(start as int), q),
{
    let ghost cs = chars@;
    let mut j = start;
    let mut term = false;
    let mut bad: Option<char> = None;
    loop
        invariant_except_break
            start <= j <= cs.len(),
            chars@ == cs,
            !term,
            quoted_body_len(cs.skip(start as int), q) == j - start + quoted_body_len(
                cs.skip(j as int),
                q,
            ),
            quoted_terminated(cs.skip(start as int), q) == quoted_terminated(
                cs.skip(j as int),
                q,
            ),
            first_bad_escape(cs.skip(start as int), q) == (if bad is Some {
                bad
            } else {
                first_bad_escape(cs.skip(j as int), q)
            }),
        ensures
            start <= j <= cs.len(),
            chars@ == cs,
            j - start == quoted_body_len(cs.skip(start as int), q),
            term == quoted_terminated(cs.skip(start as int), q),
            bad == first_bad_escape(cs.skip(start as int), q),
        decreases cs.len() - j,
    {
        if j >= chars.len() {
            proof {
                assert(cs.skip(j as int).len() == 0);
            }
            break;
        }
        let c = chars[j];
        proof {
            assert(cs.skip(j as int)[0] == cs[j as int]);
        }
        if c == q {
            j = j + 1;
            term = true;
            break;
        }
        if c == '\n' {
            break;
        }
        if c == '\\' && j + 1 < chars.len() && chars[j + 1] != '\n' {
            proof {
                assert(cs.skip(j as int)[1] == cs[j as int + 1]);
                assert(cs.skip(j as int).skip(2) =~= cs.skip(j as int + 2));
            }
            if bad.is_none() && !is_valid_escape(chars[j + 1]) {
                bad = Some(chars[j + 1]);
            }
            j = j + 2;
        } else {
            proof {
                assert(cs.skip(j as int).skip(1) =~= cs.skip(j as int + 1));
            }
            j = j + 1;
        }
    }
    (j, term, bad)
}

/// Compares the character segment `[start, end)` of `chars` with the text of
/// `s`.
fn seg_eq(chars: &Vec<char>, start: usize, end: usize, s: &str) -> (r: bool)
    requires
        start <= end <= chars@.len(),
    ensures
        r == (chars@.subrange(start as int, end as int) == s@),
{
    let ghost w = chars@.subrange(start as int, end as int);
    let m = s.unicode_len();
    if end - start != m {
        proof {
            assert(w.len() != s@.len());
        }
        return false;
    }
    let mut k: usize = 0;
    while k < m
        invariant
            0 <= k <= m,
            m == s@.len(),
            start + m == end,
            end <= chars@.len(),
            w == chars@.subrange(start as int, end as int),
            forall|l: int| 0 <= l < k ==> #[trigger] w[l] == s@[l],
        decreases m - k,
    {
        let a = chars[start + k];
        let b = s.get_char(k);
        if a != b {
            proof {
                assert(w[k as int] != s@[k as int]);
            }
            return false;
        }
        proof {
            assert(w[k as int] == s@[k as int]);
        }
        k = k + 1;
    }
    proof {
        assert(w =~= s@);
    }
    true
}

/// Attempts to match the scanned word against the keyword set, yielding the
/// keyword's kind on a match and `Identifier` otherwise.
fn lex_keyword_or_identifier(chars: &Vec<char>, start: usize, end: usize) -> (kind: SyntaxKind)
    requires
        start <= end <= chars@.len(),
    ensures
        kind == word_kind(chars@.subrange(start as int, end as int)),
{
    if seg_eq(chars, start, end, "alias") { SyntaxKind::Kwd_Alias }
    else if seg_eq(chars, start, end, "and") { SyntaxKind::Kwd_And }
    else if seg_eq(chars, start, end, "as") { SyntaxKind::Kwd_As }
    else if seg_eq(chars, start, end, "begin") { SyntaxKind::Kwd_Begin }
    else if seg_eq(chars, start, end, "else") { SyntaxKind::Kwd_Else }
    else if seg_eq(chars, start, end, "end") { SyntaxKind::Kwd_End }
    else if seg_eq(chars, start, end, "export") { SyntaxKind::Kwd_Export }
    else if seg_eq(chars, start, end, "external") { SyntaxKind::Kwd_External }
    else if seg_eq(chars, start, end, "for") { SyntaxKind::Kwd_For }
    else if seg_eq(chars, start, end, "forall") { SyntaxKind::Kwd_Forall }
    else if seg_eq(chars, start, end, "if") { SyntaxKind::Kwd_If }
    else if seg_eq(chars, start, end, "import") { SyntaxKind::Kwd_Import }
    else if seg_eq(chars, start, end, "in") { SyntaxKind::Kwd_In }
    else if seg_eq(chars, start, end, "let") { SyntaxKind::Kwd_Let }
    else if seg_eq(chars, start, end, "loop") { SyntaxKind::Kwd_Loop }
    else if seg_eq(chars, start, end, "match") { SyntaxKind::Kwd_Match }
    else if seg_eq(chars, start, end, "module") { SyntaxKind::Kwd_Module }
    else if seg_eq(chars, start, end, "not") { SyntaxKind::Kwd_Not }
    else if seg_eq(chars, start, end, "of") { SyntaxKind::Kwd_Of }
    else if seg_eq(chars, start, end, "or") { SyntaxKind::Kwd_Or }
    else if seg_eq(chars, start, end, "rec") { SyntaxKind::Kwd_Rec }
    else if seg_eq(chars, start, end, "ref") { SyntaxKind::Kwd_Ref }
    else if seg_eq(chars, start, end, "then") { SyntaxKind::Kwd_Then }
    else if seg_eq(chars, start, end, "type") { SyntaxKind::Kwd_Type }
    else if seg_eq(chars, start, end, "val") { SyntaxKind::Kwd_Val }
    else if seg_eq(chars, start, end, "while") { SyntaxKind::Kwd_While }
    else if seg_eq(chars, start, end, "with") { SyntaxKind::Kwd_With }
    else { SyntaxKind::Identifier }
}

/// The UTF-8 width of a single character, from its codepoint ranges.
fn char_width(c: char) -> (n: usize)
    ensures
        n == utf8_width(c),
{
    let u = c as u32;
    if u < 0x80 { 1 } else if u < 0x800 { 2 } else if u < 0x10000 { 3 } else { 4 }
}

/// The number of bytes the characters `[start, end)` occupy in UTF-8.
fn byte_width_range(chars: &Vec<char>, start: usize, end: usize) -> (w: usize)
    requires
        start <= end <= chars@.len(),
        byte_len(chars@.subrange(start as int, end as int)) <= usize::MAX,
    ensures
        w == byte_len(chars@.subrange(start as int, end as int)),
{
    let ghost cs = chars@;
    let mut w: usize = 0;
    let mut k = start;
    proof {
        assert(cs.subrange(start as int, start as int) =~= Seq::<char>::empty());
    }
    while k < end
        invariant
            start <= k <= end <= cs.len(),
            chars@ == cs,
            w == byte_len(cs.subrange(start as int, k as int)),
            byte_len(cs.subrange(start as int, end as int)) <= usize::MAX,
        decreases end - k,
    {
        proof {
            assert(cs.subrange(start as int, k as int + 1) =~= cs.subrange(
                start as int,
                k as int,
            ).push(cs[k as int]));
            crate::token::lemma_byte_len_push(cs.subrange(start as int, k as int), cs[k as int]);
            assert(cs.subrange(start as int, end as int) =~= cs.subrange(
                start as int,
                k as int + 1,
            ) + cs.subrange(k as int + 1, end as int));
            lemma_byte_len_concat(
                cs.subrange(start as int, k as int + 1),
                cs.subrange(k as int + 1, end as int),
            );
            lemma_byte_len_bounds(cs.subrange(k as int + 1, end as int));
        }
        w = w + char_width(chars[k]);
        k = k + 1;
    }
    w
}

/// The shape of a `Newline` token's text: a line feed followed by the run of
/// spaces that opens the next line.
pub open spec fn newline_shape(t: Seq<char>) -> bool {
    &&& t.len() >= 1
    &&& t[0] == '\n'
    &&& forall|k: int| 1 <= k < t.len() ==> t[k] == ' '
}

/// The facts the rest of the pipeline needs of every token the lexer emits.
pub open spec fn classified_token(t: Token) -> bool {
    &&& t.kind == SyntaxKind::Identifier ==> !is_reserved_spelling(t.text@)
    &&& t.kind == SyntaxKind::Newline ==> newline_shape(t.text@)
    &&& t.text@.len() >= 1
    &&& t.kind != SyntaxKind::Indent
    &&& t.kind != SyntaxKind::Dedent
}

pub open spec fn tokens_classified(toks: Seq<Token>) -> bool {
    forall|k: int| 0 <= k < toks.len() ==> #[trigger] classified_token(toks[k])
}

/// A single-character symbol kind is a symbol.
proof fn lemma_symbol_kind_is_symbol(c: char)
    requires
        symbol_kind_of_char(c) is Some,
    ensures
        crate::syntax::spec_is_symbol(symbol_kind_of_char(c).unwrap()),
{
}

/// A two-character symbol kind is a symbol.
proof fn lemma_two_char_kind_is_symbol(a: char, b: char)
    requires
        two_char_symbol(a, b) is Some,
    ensures
        crate::syntax::spec_is_symbol(two_char_symbol(a, b).unwrap()),
{
}

/// An identifier-shaped word is classified as a keyword or as an identifier.
proof fn lemma_word_kind_cases(w: Seq<char>)
    ensures
        word_kind(w) == SyntaxKind::Identifier || crate::syntax::spec_is_keyword(word_kind(w)),
        word_kind(w) == SyntaxKind::Identifier ==> !is_keyword_text(w),
{
}

/// Tokenizes the given source text.
///
/// The resulting token list is exactly the stream that `spec_units` assigns
/// to the text: the kinds and lengths agree position by position, the token
/// texts concatenate back to the source, the byte ranges tile the source's
/// UTF-8 encoding, and the messages are those derived from the stream.
#[verifier::rlimit(100)]
pub fn tokenize<FileId: Copy>(file_id: FileId, source: &str) -> (res: (
    Vec<Token>,
    Vec<Message<FileId>>,
))
    ensures
        ({
            let cs = source@;
            let units = spec_units(cs);
            let toks = res.0@;
            &&& toks.len() == units.len()
            &&& forall|k: int|
                0 <= k < toks.len() ==> #[trigger] toks[k].kind == units[k].kind
                    && toks[k].text@.len() == units[k].len
            &&& concat_texts(toks) == cs
            &&& ranges_tile(toks, 0, byte_len(cs))
            &&& res.1@ == issue_messages(units, toks, file_id)
            &&& tokens_classified(toks)
            &&& tokenize_post(cs, toks, res.1@, file_id)
            &&& models(toks) == lex_models_from(cs, 0, 0)
            &&& crate::sink::msg_models(res.1@) == lex_msg_models_from(cs, 0, 0)
        }),
{
    let ghost cs = source@;
    let total_bytes = source.as_bytes().len();
    proof {
        lemma_byte_len_is_utf8_len(cs);
        assert(source.spec_bytes() == vstd::utf8::encode_utf8(source@));
        assert(total_bytes == byte_len(cs));
    }

    let n = source.unicode_len();
    let mut chars: Vec<char> = Vec::new();
    let mut ci: usize = 0;
    while ci < n
        invariant
            ci <= n,
            n == cs.len(),
            source@ == cs,
            chars@ == cs.take(ci as int),
        decreases n - ci,
    {
        chars.push(source.get_char(ci));
        proof {
            assert(cs.take(ci as int).push(cs[ci as int]) =~= cs.take(ci as int + 1));
        }
        ci = ci + 1;
    }
    proof {
        assert(cs.take(n as int) =~= cs);
    }

    let mut toks: Vec<Token> = Vec::new();
    let mut msgs: Vec<Message<FileId>> = Vec::new();
    let ghost mut units_acc: Seq<LexUnit> = Seq::empty();
    let mut i: usize = 0;
    let mut off: usize = 0;

    proof {
        assert(cs.take(0) =~= Seq::<char>::empty());
        assert(models(toks@) =~= Seq::<TokenModel>::empty());
        assert(Seq::<TokenModel>::empty() + lex_models_from(cs, 0, 0) =~= lex_models_from(
            cs,
            0,
            0,
        ));
        assert(crate::sink::msg_models(msgs@) =~= Seq::<crate::sink::MsgModel>::empty());
        assert(Seq::<crate::sink::MsgModel>::empty() + lex_msg_models_from(cs, 0, 0)
            =~= lex_msg_models_from(cs, 0, 0));
    }

    while i < n
        invariant
            i <= n,
            n == cs.len(),
            chars@ == cs,
            source@ == cs,
            total_bytes == byte_len(cs),
            spec_units(cs) == units_acc + spec_units(cs.skip(i as int)),
            models(toks@) + lex_models_from(cs, i as int, off as int) == lex_models_from(cs, 0, 0),
            crate::sink::msg_models(msgs@) + lex_msg_models_from(cs, i as int, off as int)
                == lex_msg_models_from(cs, 0, 0),
            toks@.len() == units_acc.len(),
            forall|k: int|
                0 <= k < toks@.len() ==> #[trigger] toks@[k].kind == units_acc[k].kind
                    && toks@[k].text@.len() == units_acc[k].len,
            concat_texts(toks@) == cs.take(i as int),
            off == byte_len(cs.take(i as int)),
            ranges_tile(toks@, 0, off as int),
            msgs@ == issue_messages(units_acc, toks@, file_id),
            tokens_classified(toks@),
        decreases n - i,
    {
        let ghost rest = cs.skip(i as int);
        proof {
            assert(rest.len() == n - i);
            lemma_next_unit_bounds(rest);
            lemma_spec_units_unfold(rest);
            assert(rest[0] == cs[i as int]);
        }
        let ghost u = next_unit(rest);

        let c = chars[i];
        let kind: SyntaxKind;
        let j: usize;
        let mut issue: Option<DiagnosticKind> = None;
        let ghost mut gissue: Option<LexIssue> = None;

        if c == '\n' {
            j = run_spaces_end(&chars, i + 1);
            kind = SyntaxKind::Newline;
            proof {
                assert(rest.skip(1) =~= cs.skip(i as int + 1));
                assert(u.len == j - i);
                lemma_run_len_all(cs.skip(i as int + 1), space_pred());
                let w0 = cs.subrange(i as int, j as int);
                assert(w0[0] == cs[i as int]);
                assert forall|k: int| 1 <= k < w0.len() implies w0[k] == ' ' by {
                    assert(cs.skip(i as int + 1)[k - 1] == cs[i as int + k]);
                    assert(space_pred()(cs.skip(i as int + 1)[k - 1]));
                    assert(w0[k] == cs[i as int + k]);
                }
                assert(newline_shape(w0));
            }
        } else if c == ' ' || c == '\t' || c == '\r' {
            j = run_inline_ws_end(&chars, i);
            kind = SyntaxKind::Whitespace;
            proof {
                assert(is_inline_ws_char(rest[0]));
                assert(u.len == j - i);
            }
        } else if c == '/' && i + 1 < n && chars[i + 1] == '/' {
            j = run_not_newline_end(&chars, i);
            kind = if i + 2 < n && chars[i + 2] == '/' {
                SyntaxKind::DocComment
            } else {
                SyntaxKind::Comment
            };
            proof {
                assert(rest[1] == cs[i as int + 1]);
                if i + 2 < n {
                    assert(rest[2] == cs[i as int + 2]);
                }
                assert(u.len == j - i);
                assert(u.kind == kind);
            }
        } else if c == '?' && i + 1 < n && i + 2 < n && chars[i + 1] == '?' && chars[i + 2] == '?' {
            j = i + 3;
            kind = SyntaxKind::Kwd_Unimplemented;
            proof {
                assert(rest[1] == cs[i as int + 1]);
                assert(rest[2] == cs[i as int + 2]);
                assert(u.len == 3);
            }
        } else if is_symbol(c) {
            proof {
                if i + 1 < n {
                    assert(rest[1] == cs[i as int + 1]);
                }
            }
            let mut two: Option<SyntaxKind> = None;
            if i + 1 < n {
                two = symbol_from_two_chars(c, chars[i + 1]);
            }
            match two {
                Some(k2) => {
                    j = i + 2;
                    kind = k2;
                    proof {
                        lemma_two_char_kind_is_symbol(c, cs[i as int + 1]);
                    }
                },
                None => {
                    j = i + 1;
                    kind = symbol_from_char(c);
                    proof {
                        lemma_symbol_kind_is_symbol(c);
                    }
                },
            }
            proof {
                assert(u.len == j - i);
                assert(u.kind == kind);
                assert(crate::syntax::spec_is_symbol(kind));
                assert(kind != SyntaxKind::Identifier && kind != SyntaxKind::Newline);
            }
        } else if is_identifier_start(c) {
            j = run_id_continue_end(&chars, i + 1);
            kind = lex_keyword_or_identifier(&chars, i, j);
            proof {
                assert(rest.skip(1) =~= cs.skip(i as int + 1));
                assert(u.len == j - i);
                assert(rest.take(j - i) =~= cs.subrange(i as int, j as int));
                assert(u.kind == kind);
                lemma_word_kind_cases(cs.subrange(i as int, j as int));
                assert(kind == SyntaxKind::Identifier ==> !is_keyword_text(
                    cs.subrange(i as int, j as int),
                ));
                // the spelling `???` starts with a symbol character, so it
                // cannot have reached the identifier branch
                assert(cs.subrange(i as int, j as int) != "???"@) by {
                    reveal_strlit("???");
                    assert("???"@.len() == 3);
                    assert("???"@[0] == '?');
                    if cs.subrange(i as int, j as int) == "???"@ {
                        assert(cs.subrange(i as int, j as int)[0] == cs[i as int]);
                        assert(cs[i as int] == '?');
                        assert(is_symbol_char('?'));
                        assert(false);
                    }
                }
                assert(kind == SyntaxKind::Identifier ==> !is_reserved_spelling(
                    cs.subrange(i as int, j as int),
                ));
                assert(kind != SyntaxKind::Newline);
            }
        } else if is_digit(c) {
            let j1 = run_digit_continue_end(&chars, i + 1);
            proof {
                assert(rest.skip(1) =~= cs.skip(i as int + 1));
                assert(j1 - i == 1 + run_len(rest.skip(1), digit_continue_pred()));
                if j1 < n {
                    assert(rest[j1 - i] == cs[j1 as int]);
                }
                if j1 + 1 < n {
                    assert(rest[j1 - i + 1] == cs[j1 as int + 1]);
                }
            }
            if j1 < n && chars[j1] == '.' && j1 + 1 < n && is_digit_continue(chars[j1 + 1]) {
                j = run_digit_continue_end(&chars, j1 + 1);
                kind = SyntaxKind::Lit_Float;
                proof {
                    assert(rest.skip(j1 - i + 1) =~= cs.skip(j1 as int + 1));
                    assert(u.len == j - i);
                }
            } else {
                j = j1;
                kind = SyntaxKind::Lit_Integer;
                proof {
                    assert(u.len == j - i);
                }
            }
        } else if c == '"' {
            let scanned = scan_quoted(&chars, i + 1, '"');
            j = scanned.0;
            kind = SyntaxKind::Lit_String;
            proof {
                assert(rest.skip(1) =~= cs.skip(i as int + 1));
                assert(u.len == j - i);
            }
            if !scanned.1 {
                issue = Some(DiagnosticKind::UnterminatedLiteral { kind: SyntaxKind::Lit_String });
                proof {
                    gissue = Some(LexIssue::Unterminated(SyntaxKind::Lit_String));
                }
            } else if let Some(e) = scanned.2 {
                issue = Some(DiagnosticKind::InvalidEscape { character: e });
                proof {
                    gissue = Some(LexIssue::BadEscape(e));
                }
            }
        } else if c == '\'' {
            let scanned = scan_quoted(&chars, i + 1, '\'');
            j = scanned.0;
            kind = SyntaxKind::Lit_Character;
            proof {
                assert(rest.skip(1) =~= cs.skip(i as int + 1));
                assert(u.len == j - i);
            }
            if !scanned.1 {
                issue = Some(
                    DiagnosticKind::UnterminatedLiteral { kind: SyntaxKind::Lit_Character },
                );
                proof {
                    gissue = Some(LexIssue::Unterminated(SyntaxKind::Lit_Character));
                }
            } else if let Some(e) = scanned.2 {
                issue = Some(DiagnosticKind::InvalidEscape { character: e });
                proof {
                    gissue = Some(LexIssue::BadEscape(e));
                }
            }
        } else {
            j = i + 1;
            kind = SyntaxKind::Error;
            issue = Some(DiagnosticKind::BadCharacter { character: c });
            proof {
                gissue = Some(LexIssue::BadChar(c));
            }
        }

        proof {
            assert(u.kind == kind);
            assert(u.len == j - i);
            assert(u.issue == gissue);
            assert(i < j <= n);
        }

        let text = source.substring_char(i, j).to_owned();
        proof {
            assert(text@ == cs.subrange(i as int, j as int));
            assert(cs.take(j as int) =~= cs.take(i as int) + cs.subrange(i as int, j as int));
            lemma_byte_len_concat(cs.take(i as int), cs.subrange(i as int, j as int));
            lemma_byte_len_split(cs, j as int);
            lemma_byte_len_bounds(cs.skip(j as int));
            assert(byte_len(cs.subrange(i as int, j as int)) <= total_bytes);
        }
        let w = byte_width_range(&chars, i, j);
        let range = TextRange { start: off, end: off + w };
        let tok = Token { kind, text, range };
        let ghost gtok = tok;
        let ghost old_toks = toks@;
        let ghost old_units = units_acc;
        let ghost old_msgs = msgs@;
        toks.push(tok);
        let issued = issue.is_some();
        if let Some(ik) = issue {
            msgs.push(Message { file_id, kind: ik, range });
        }

        proof {
            units_acc = units_acc.push(u);

            // the unfolded stream recombines with the accumulator
            assert(rest.skip(u.len) =~= cs.skip(j as int));
            assert(old_units + seq![u] =~= old_units.push(u));
            assert((old_units + seq![u]) + spec_units(cs.skip(j as int)) =~= old_units + (seq![u]
                + spec_units(cs.skip(j as int))));
            assert(spec_units(cs) == units_acc + spec_units(cs.skip(j as int)));

            // the reconstructed models advance in step with the tokens
            let head = TokenModel {
                kind: u.kind,
                text: cs.subrange(i as int, j as int),
                start: off as int,
                end: off as int + w,
            };
            assert(model(gtok) == head);
            assert(lex_models_from(cs, i as int, off as int) == seq![head] + lex_models_from(
                cs,
                j as int,
                off as int + w,
            ));
            assert(models(toks@) =~= models(old_toks).push(head));
            assert(models(old_toks) + (seq![head] + lex_models_from(cs, j as int, off as int + w))
                =~= models(old_toks).push(head) + lex_models_from(cs, j as int, off as int + w));

            // the reconstructed message models advance in step too
            let old_msg_models = crate::sink::msg_models(old_msgs);
            match u.issue {
                None => {
                    assert(lex_msg_models_from(cs, i as int, off as int) == lex_msg_models_from(
                        cs,
                        j as int,
                        off as int + w,
                    ));
                    assert(crate::sink::msg_models(msgs@) == old_msg_models);
                },
                Some(iss) => {
                    let mhead = crate::sink::MsgModel {
                        kind: crate::sink::kind_model(issue_to_kind(iss)),
                        start: off as int,
                        end: off as int + w,
                    };
                    assert(lex_msg_models_from(cs, i as int, off as int) == seq![mhead]
                        + lex_msg_models_from(cs, j as int, off as int + w));
                    assert(msgs@ == old_msgs.push(
                        Message { file_id, kind: issue_to_kind(iss), range: gtok.range },
                    ));
                    assert(crate::sink::msg_models(msgs@) =~= old_msg_models.push(mhead));
                    assert(old_msg_models + (seq![mhead] + lex_msg_models_from(
                        cs,
                        j as int,
                        off as int + w,
                    )) =~= old_msg_models.push(mhead) + lex_msg_models_from(
                        cs,
                        j as int,
                        off as int + w,
                    ));
                },
            }

            // the pushed token matches the pushed unit
            assert(toks@ == old_toks.push(gtok));
            assert(toks@[toks@.len() - 1] == gtok);
            assert(gtok.kind == u.kind && gtok.text@.len() == u.len);

            // text concatenation extends to the new prefix
            lemma_concat_texts_push(old_toks, gtok);
            assert(concat_texts(toks@) == cs.take(j as int));

            // the byte ranges stay a tiling
            assert(gtok.range.start == off && gtok.range.end == off + w);
            assert(w == byte_len(gtok.text@));
            assert forall|k: int| 1 <= k < toks@.len() implies #[trigger] toks@[k].range.start
                == toks@[k - 1].range.end by {
                if k < toks@.len() - 1 {
                    assert(toks@[k] == old_toks[k]);
                    assert(toks@[k - 1] == old_toks[k - 1]);
                } else {
                    assert(toks@[k] == gtok);
                    assert(toks@[k - 1] == old_toks[k - 1]);
                    assert(old_toks[old_toks.len() - 1].range.end == off);
                }
                assert(toks@[k].range.start == toks@[k - 1].range.end);
            }
            assert forall|k: int| 0 <= k < toks@.len() implies #[trigger] toks@[k].range.end
                == toks@[k].range.start + byte_len(toks@[k].text@) by {
                if k < toks@.len() - 1 {
                    assert(toks@[k] == old_toks[k]);
                    assert(old_toks[k].range.end == old_toks[k].range.start + byte_len(
                        old_toks[k].text@,
                    ));
                } else {
                    assert(toks@[k] == gtok);
                    assert(gtok.range.end == gtok.range.start + byte_len(gtok.text@));
                }
            }
            if old_toks.len() > 0 {
                assert(toks@[0] == old_toks[0]);
            }
            assert(ranges_tile(toks@, 0, (off + w) as int));

            // the message list extends as the stream prescribes
            lemma_issue_messages_push(old_units, old_toks, u, gtok, file_id);
            if issued {
                assert(msgs@ == issue_messages(units_acc, toks@, file_id));
            } else {
                assert(issue_messages(units_acc, toks@, file_id) =~= issue_messages(
                    old_units,
                    old_toks,
                    file_id,
                ) + Seq::<Message<FileId>>::empty());
                assert(msgs@ == issue_messages(units_acc, toks@, file_id));
            }

            // the classification facts hold of the new token
            assert(classified_token(gtok));
            assert forall|k: int| 0 <= k < toks@.len() implies #[trigger] classified_token(
                toks@[k],
            ) by {
                if k < toks@.len() - 1 {
                    assert(toks@[k] == old_toks[k]);
                }
            }

            assert(byte_len(cs.take(j as int)) == off + w);
        }
        i = j;
        off = off + w;
    }

    proof {
        assert(cs.skip(n as int) =~= Seq::<char>::empty());
        assert(spec_units(Seq::<char>::empty()) =~= Seq::<LexUnit>::empty());
        assert(units_acc + Seq::<LexUnit>::empty() =~= units_acc);
        assert(spec_units(cs) == units_acc);
        assert(lex_models_from(cs, n as int, off as int) == Seq::<TokenModel>::empty());
        assert(models(toks@) + Seq::<TokenModel>::empty() =~= models(toks@));
        assert(lex_msg_models_from(cs, n as int, off as int) == Seq::<
            crate::sink::MsgModel,
        >::empty());
        assert(crate::sink::msg_models(msgs@) + Seq::<crate::sink::MsgModel>::empty()
            =~= crate::sink::msg_models(msgs@));
        assert(cs.take(n as int) =~= cs);
    }
    (toks, msgs)
}

/// Every derived message carries the file identifier it was built with.
pub proof fn lemma_issue_messages_fid<FileId>(
    units: Seq<LexUnit>,
    toks: Seq<Token>,
    file_id: FileId,
)
    ensures
        forall|k: int|
            0 <= k < issue_messages(units, toks, file_id).len() ==> (#[trigger] issue_messages(
                units,
                toks,
                file_id,
            )[k]).file_id == file_id,
    decreases units.len(),
{
    if units.len() == 0 || toks.len() == 0 {
    } else {
        lemma_issue_messages_fid(units.drop_first(), toks.drop_first(), file_id);
        let rest = issue_messages(units.drop_first(), toks.drop_first(), file_id);
        match units[0].issue {
            None => {},
            Some(iss) => {
                let whole = issue_messages(units, toks, file_id);
                let head = Message { file_id, kind: issue_to_kind(iss), range: toks[0].range };
                assert(whole == seq![head] + rest);
                assert forall|k: int| 0 <= k < whole.len() implies (#[trigger] whole[k]).file_id
                    == file_id by {
                    if k == 0 {
                        assert(whole[0] == head);
                    } else {
                        assert(whole[k] == rest[k - 1]);
                    }
                }
            },
        }
    }
}

/// Everything `tokenize` promises of a result, as one predicate: the token
/// stream matches `spec_units` position by position, the texts concatenate
/// to the source, the byte ranges tile its encoding, and the messages are
/// the derived ones.
pub open spec fn tokenize_post<FileId>(
    cs: Seq<char>,
    toks: Seq<Token>,
    msgs: Seq<Message<FileId>>,
    file_id: FileId,
) -> bool {
    let units = spec_units(cs);
    &&& toks.len() == units.len()
    &&& forall|k: int|
        0 <= k < toks.len() ==> #[trigger] toks[k].kind == units[k].kind && toks[k].text@.len()
            == units[k].len
    &&& concat_texts(toks) == cs
    &&& ranges_tile(toks, 0, byte_len(cs))
    &&& msgs == issue_messages(units, toks, file_id)
}

/// Two token lists of equal shape that concatenate to the same text have
/// equal texts position by position.
proof fn lemma_texts_pinned(cs: Seq<char>, t1: Seq<Token>, t2: Seq<Token>)
    requires
        t1.len() == t2.len(),
        forall|i: int| 0 <= i < t1.len() ==> (#[trigger] t1[i]).text@.len() == t2[i].text@.len(),
        concat_texts(t1) == cs,
        concat_texts(t2) == cs,
    ensures
        forall|i: int| 0 <= i < t1.len() ==> (#[trigger] t1[i]).text@ == t2[i].text@,
    decreases t1.len(),
{
    if t1.len() > 0 {
        let l = t1[0].text@.len() as int;
        assert(cs == t1[0].text@ + concat_texts(t1.drop_first()));
        assert(cs == t2[0].text@ + concat_texts(t2.drop_first()));
        assert(t1[0].text@ =~= cs.take(l));
        assert(t2[0].text@ =~= cs.take(l));
        assert(concat_texts(t1.drop_first()) =~= cs.skip(l));
        assert(concat_texts(t2.drop_first()) =~= cs.skip(l));
        assert(forall|i: int|
            0 <= i < t1.drop_first().len() ==> (#[trigger] t1.drop_first()[i]).text@.len()
                == t2.drop_first()[i].text@.len()) by {
            assert forall|i: int|
                0 <= i < t1.drop_first().len() implies (#[trigger] t1.drop_first()[i]).text@.len()
                == t2.drop_first()[i].text@.len() by {
                assert(t1.drop_first()[i] == t1[i + 1]);
                assert(t2.drop_first()[i] == t2[i + 1]);
            }
        }
        lemma_texts_pinned(cs.skip(l), t1.drop_first(), t2.drop_first());
        assert forall|i: int| 0 <= i < t1.len() implies (#[trigger] t1[i]).text@
            == t2[i].text@ by {
            if i > 0 {
                assert(t1.drop_first()[i - 1] == t1[i]);
                assert(t2.drop_first()[i - 1] == t2[i]);
            }
        }
    }
}

/// Tiled ranges over equal texts are equal, position by position, up to `i`.
proof fn lemma_ranges_pinned_upto(t1: Seq<Token>, t2: Seq<Token>, b: int, i: int)
    requires
        t1.len() == t2.len(),
        forall|k: int| 0 <= k < t1.len() ==> (#[trigger] t1[k]).text@ == t2[k].text@,
        ranges_tile(t1, 0, b),
        ranges_tile(t2, 0, b),
        0 <= i <= t1.len(),
    ensures
        forall|k: int| 0 <= k < i ==> (#[trigger] t1[k]).range == t2[k].range,
    decreases i,
{
    if i > 0 {
        lemma_ranges_pinned_upto(t1, t2, b, i - 1);
        let k = i - 1;
        if k == 0 {
            assert(t1[0].range.start == 0 && t2[0].range.start == 0);
        } else {
            assert(t1[k].range.start == t1[k - 1].range.end);
            assert(t2[k].range.start == t2[k - 1].range.end);
        }
        assert(t1[k].range.end == t1[k].range.start + byte_len(t1[k].text@));
        assert(t2[k].range.end == t2[k].range.start + byte_len(t2[k].text@));
        assert forall|j: int| 0 <= j < i implies (#[trigger] t1[j]).range == t2[j].range by {}
    }
}

/// Equal-shaped token lists yield equal derived message lists.
proof fn lemma_issue_messages_congruent<FileId>(
    units: Seq<LexUnit>,
    t1: Seq<Token>,
    t2: Seq<Token>,
    file_id: FileId,
)
    requires
        t1.len() == t2.len(),
        forall|k: int| 0 <= k < t1.len() ==> (#[trigger] t1[k]).range == t2[k].range,
    ensures
        issue_messages(units, t1, file_id) == issue_messages(units, t2, file_id),
    decreases units.len(),
{
    if units.len() == 0 || t1.len() == 0 {
    } else {
        assert forall|k: int|
            0 <= k < t1.drop_first().len() implies (#[trigger] t1.drop_first()[k]).range
            == t2.drop_first()[k].range by {
            assert(t1.drop_first()[k] == t1[k + 1]);
            assert(t2.drop_first()[k] == t2[k + 1]);
        }
        lemma_issue_messages_congruent(units.drop_first(), t1.drop_first(), t2.drop_first(), file_id);
        assert(t1[0].range == t2[0].range);
    }
}

/// Tokenization is deterministic: any two results that `tokenize` can return
/// for the same text agree on every token's kind, text and range, and on the
/// messages.
pub proof fn lemma_tokenize_deterministic<FileId>(
    cs: Seq<char>,
    t1: Seq<Token>,
    m1: Seq<Message<FileId>>,
    t2: Seq<Token>,
    m2: Seq<Message<FileId>>,
    file_id: FileId,
)
    requires
        tokenize_post(cs, t1, m1, file_id),
        tokenize_post(cs, t2, m2, file_id),
    ensures
        t1.len() == t2.len(),
        forall|i: int|
            0 <= i < t1.len() ==> (#[trigger] t1[i]).kind == t2[i].kind && t1[i].text@
                == t2[i].text@ && t1[i].range == t2[i].range,
        m1 == m2,
{
    let units = spec_units(cs);
    assert forall|i: int| 0 <= i < t1.len() implies (#[trigger] t1[i]).text@.len()
        == t2[i].text@.len() by {
        assert(t1[i].kind == units[i].kind && t1[i].text@.len() == units[i].len);
        assert(t2[i].kind == units[i].kind && t2[i].text@.len() == units[i].len);
    }
    lemma_texts_pinned(cs, t1, t2);
    lemma_ranges_pinned_upto(t1, t2, byte_len(cs), t1.len() as int);
    lemma_issue_messages_congruent(units, t1, t2, file_id);
}

} // verus!
