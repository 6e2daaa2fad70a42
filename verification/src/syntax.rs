//! The catalog of syntax kinds: every terminal and non-terminal tag of the
//! Helios grammar, together with its classification predicates and a
//! human-readable rendering for diagnostics.

use vstd::prelude::*;

verus! {

/// All the possible nodes and tokens defined in the Helios grammar.
#[allow(non_camel_case_types)]
#[derive(Debug, Clone, Copy, Eq, PartialEq, Structural, Hash)]
pub enum SyntaxKind {
    Kwd_Alias,
    Kwd_And,
    Kwd_As,
    Kwd_Begin,
    Kwd_Else,
    Kwd_End,
    Kwd_Export,
    Kwd_External,
    Kwd_For,
    Kwd_Forall,
    Kwd_If,
    Kwd_Import,
    Kwd_In,
    Kwd_Let,
    Kwd_Loop,
    Kwd_Match,
    Kwd_Module,
    Kwd_Not,
    Kwd_Of,
    Kwd_Or,
    Kwd_Rec,
    Kwd_Ref,
    Kwd_Then,
    Kwd_Type,
    Kwd_Unimplemented,
    Kwd_Val,
    Kwd_While,
    Kwd_With,
    Sym_Ampersand,
    Sym_Asterisk,
    Sym_At,
    Sym_BackSlash,
    Sym_Bang,
    Sym_BangEq,
    Sym_Caret,
    Sym_Colon,
    Sym_Comma,
    Sym_Dollar,
    Sym_Dot,
    Sym_EmDash,
    Sym_EnDash,
    Sym_Eq,
    Sym_ForwardSlash,
    Sym_Minus,
    Sym_Percent,
    Sym_Pipe,
    Sym_Plus,
    Sym_Pound,
    Sym_Question,
    Sym_Semicolon,
    Sym_Sterling,
    Sym_Tilde,
    Sym_Lt,
    Sym_LtEq,
    Sym_Gt,
    Sym_GtEq,
    Sym_LThinArrow,
    Sym_RThinArrow,
    Sym_ThickArrow,
    Sym_LBrace,
    Sym_RBrace,
    Sym_LBracket,
    Sym_RBracket,
    Sym_LParen,
    Sym_RParen,
    Lit_Character,
    Lit_Float,
    Lit_Integer,
    Lit_String,
    Exp_Binary,
    Exp_Literal,
    Exp_Paren,
    Exp_UnaryPrefix,
    Exp_UnaryPostfix,
    Exp_VariableRef,
    Dec_GlobalBinding,
    Comment,
    DocComment,
    Whitespace,
    Newline,
    Indent,
    Dedent,
    Identifier,
    ReservedIdentifier,
    Error,
    Root,
}

pub open spec fn spec_is_trivia(k: SyntaxKind) -> bool {
    k == SyntaxKind::Comment || k == SyntaxKind::DocComment || k == SyntaxKind::Whitespace
}

pub open spec fn spec_is_keyword(k: SyntaxKind) -> bool {
    matches!(k,
        SyntaxKind::Kwd_Alias | SyntaxKind::Kwd_And | SyntaxKind::Kwd_As
        | SyntaxKind::Kwd_Begin | SyntaxKind::Kwd_Else | SyntaxKind::Kwd_End
        | SyntaxKind::Kwd_Export | SyntaxKind::Kwd_External | SyntaxKind::Kwd_For
        | SyntaxKind::Kwd_Forall | SyntaxKind::Kwd_If | SyntaxKind::Kwd_Import
        | SyntaxKind::Kwd_In | SyntaxKind::Kwd_Let | SyntaxKind::Kwd_Loop
        | SyntaxKind::Kwd_Match | SyntaxKind::Kwd_Module | SyntaxKind::Kwd_Not
        | SyntaxKind::Kwd_Of | SyntaxKind::Kwd_Or | SyntaxKind::Kwd_Rec
        | SyntaxKind::Kwd_Ref | SyntaxKind::Kwd_Then | SyntaxKind::Kwd_Type
        | SyntaxKind::Kwd_Unimplemented | SyntaxKind::Kwd_Val | SyntaxKind::Kwd_While
        | SyntaxKind::Kwd_With)
}

pub open spec fn spec_is_symbol(k: SyntaxKind) -> bool {
    matches!(k,
        SyntaxKind::Sym_Ampersand | SyntaxKind::Sym_Asterisk | SyntaxKind::Sym_At
        | SyntaxKind::Sym_BackSlash | SyntaxKind::Sym_Bang | SyntaxKind::Sym_BangEq
        | SyntaxKind::Sym_Caret | SyntaxKind::Sym_Colon | SyntaxKind::Sym_Comma
        | SyntaxKind::Sym_Dollar | SyntaxKind::Sym_Dot | SyntaxKind::Sym_EmDash
        | SyntaxKind::Sym_EnDash | SyntaxKind::Sym_Eq | SyntaxKind::Sym_ForwardSlash
        | SyntaxKind::Sym_Minus | SyntaxKind::Sym_Percent | SyntaxKind::Sym_Pipe
        | SyntaxKind::Sym_Plus | SyntaxKind::Sym_Pound | SyntaxKind::Sym_Question
        | SyntaxKind::Sym_Semicolon | SyntaxKind::Sym_Sterling | SyntaxKind::Sym_Tilde
        | SyntaxKind::Sym_Lt | SyntaxKind::Sym_LtEq | SyntaxKind::Sym_Gt
        | SyntaxKind::Sym_GtEq | SyntaxKind::Sym_LThinArrow | SyntaxKind::Sym_RThinArrow
        | SyntaxKind::Sym_ThickArrow | SyntaxKind::Sym_LBrace | SyntaxKind::Sym_RBrace
        | SyntaxKind::Sym_LBracket | SyntaxKind::Sym_RBracket | SyntaxKind::Sym_LParen
        | SyntaxKind::Sym_RParen)
}

pub open spec fn spec_is_literal(k: SyntaxKind) -> bool {
    matches!(k,
        SyntaxKind::Lit_Character | SyntaxKind::Lit_Float | SyntaxKind::Lit_Integer
        | SyntaxKind::Lit_String)
}

pub open spec fn spec_is_expression(k: SyntaxKind) -> bool {
    matches!(k,
        SyntaxKind::Exp_Binary | SyntaxKind::Exp_Literal | SyntaxKind::Exp_Paren
        | SyntaxKind::Exp_UnaryPrefix | SyntaxKind::Exp_UnaryPostfix
        | SyntaxKind::Exp_VariableRef)
}

pub open spec fn spec_is_declaration(k: SyntaxKind) -> bool {
    k == SyntaxKind::Dec_GlobalBinding
}

pub open spec fn spec_is_comment(k: SyntaxKind) -> bool {
    k == SyntaxKind::Comment || k == SyntaxKind::DocComment
}

pub open spec fn spec_is_identifier(k: SyntaxKind) -> bool {
    k == SyntaxKind::Identifier || k == SyntaxKind::ReservedIdentifier
}

impl SyntaxKind {
    /// Determines if the [`SyntaxKind`] is a discardable token (i.e. syntax
    /// trivia).
    pub fn is_trivia(self) -> (r: bool)
        ensures
            r == spec_is_trivia(self),
    {
        matches!(self, SyntaxKind::Comment | SyntaxKind::DocComment | SyntaxKind::Whitespace)
    }

    /// Determines if the [`SyntaxKind`] is a keyword.
    pub fn is_keyword(self) -> (r: bool)
        ensures
            r == spec_is_keyword(self),
    {
        matches!(self,
            SyntaxKind::Kwd_Alias | SyntaxKind::Kwd_And | SyntaxKind::Kwd_As
            | SyntaxKind::Kwd_Begin | SyntaxKind::Kwd_Else | SyntaxKind::Kwd_End
            | SyntaxKind::Kwd_Export | SyntaxKind::Kwd_External | SyntaxKind::Kwd_For
            | SyntaxKind::Kwd_Forall | SyntaxKind::Kwd_If | SyntaxKind::Kwd_Import
            | SyntaxKind::Kwd_In | SyntaxKind::Kwd_Let | SyntaxKind::Kwd_Loop
            | SyntaxKind::Kwd_Match | SyntaxKind::Kwd_Module | SyntaxKind::Kwd_Not
            | SyntaxKind::Kwd_Of | SyntaxKind::Kwd_Or | SyntaxKind::Kwd_Rec
            | SyntaxKind::Kwd_Ref | SyntaxKind::Kwd_Then | SyntaxKind::Kwd_Type
            | SyntaxKind::Kwd_Unimplemented | SyntaxKind::Kwd_Val | SyntaxKind::Kwd_While
            | SyntaxKind::Kwd_With)
    }

    /// Determines if the [`SyntaxKind`] is a symbol.
    pub fn is_symbol(self) -> (r: bool)
        ensures
            r == spec_is_symbol(self),
    {
        matches!(self,
            SyntaxKind::Sym_Ampersand | SyntaxKind::Sym_Asterisk | SyntaxKind::Sym_At
            | SyntaxKind::Sym_BackSlash | SyntaxKind::Sym_Bang | SyntaxKind::Sym_BangEq
            | SyntaxKind::Sym_Caret | SyntaxKind::Sym_Colon | SyntaxKind::Sym_Comma
            | SyntaxKind::Sym_Dollar | SyntaxKind::Sym_Dot | SyntaxKind::Sym_EmDash
            | SyntaxKind::Sym_EnDash | SyntaxKind::Sym_Eq | SyntaxKind::Sym_ForwardSlash
            | SyntaxKind::Sym_Minus | SyntaxKind::Sym_Percent | SyntaxKind::Sym_Pipe
            | SyntaxKind::Sym_Plus | SyntaxKind::Sym_Pound | SyntaxKind::Sym_Question
            | SyntaxKind::Sym_Semicolon | SyntaxKind::Sym_Sterling | SyntaxKind::Sym_Tilde
            | SyntaxKind::Sym_Lt | SyntaxKind::Sym_LtEq | SyntaxKind::Sym_Gt
            | SyntaxKind::Sym_GtEq | SyntaxKind::Sym_LThinArrow | SyntaxKind::Sym_RThinArrow
            | SyntaxKind::Sym_ThickArrow | SyntaxKind::Sym_LBrace | SyntaxKind::Sym_RBrace
            | SyntaxKind::Sym_LBracket | SyntaxKind::Sym_RBracket | SyntaxKind::Sym_LParen
            | SyntaxKind::Sym_RParen)
    }

    pub fn is_literal(self) -> (r: bool)
        ensures
            r == spec_is_literal(self),
    {
        matches!(self,
            SyntaxKind::Lit_Character | SyntaxKind::Lit_Float | SyntaxKind::Lit_Integer
            | SyntaxKind::Lit_String)
    }

    pub fn is_expression(self) -> (r: bool)
        ensures
            r == spec_is_expression(self),
    {
        matches!(self,
            SyntaxKind::Exp_Binary | SyntaxKind::Exp_Literal | SyntaxKind::Exp_Paren
            | SyntaxKind::Exp_UnaryPrefix | SyntaxKind::Exp_UnaryPostfix
            | SyntaxKind::Exp_VariableRef)
    }

    pub fn is_declaration(self) -> (r: bool)
        ensures
            r == spec_is_declaration(self),
    {
        matches!(self, SyntaxKind::Dec_GlobalBinding)
    }

    pub fn is_comment(self) -> (r: bool)
        ensures
            r == spec_is_comment(self),
    {
        matches!(self, SyntaxKind::Comment | SyntaxKind::DocComment)
    }

    pub fn is_identifier(self) -> (r: bool)
        ensures
            r == spec_is_identifier(self),
    {
        matches!(self, SyntaxKind::Identifier | SyntaxKind::ReservedIdentifier)
    }
}

/// The character that corresponds to each single-character symbol kind.
pub open spec fn symbol_kind_of_char(c: char) -> Option<SyntaxKind> {
    if c == '&' { Some(SyntaxKind::Sym_Ampersand) }
    else if c == '*' { Some(SyntaxKind::Sym_Asterisk) }
    else if c == '@' { Some(SyntaxKind::Sym_At) }
    else if c == '\\' { Some(SyntaxKind::Sym_BackSlash) }
    else if c == '!' { Some(SyntaxKind::Sym_Bang) }
    else if c == '^' { Some(SyntaxKind::Sym_Caret) }
    else if c == ':' { Some(SyntaxKind::Sym_Colon) }
    else if c == ',' { Some(SyntaxKind::Sym_Comma) }
    else if c == '$' { Some(SyntaxKind::Sym_Dollar) }
    else if c == '.' { Some(SyntaxKind::Sym_Dot) }
    else if c == '\u{2014}' { Some(SyntaxKind::Sym_EmDash) }
    else if c == '\u{2013}' { Some(SyntaxKind::Sym_EnDash) }
    else if c == '=' { Some(SyntaxKind::Sym_Eq) }
    else if c == '/' { Some(SyntaxKind::Sym_ForwardSlash) }
    else if c == '-' { Some(SyntaxKind::Sym_Minus) }
    else if c == '%' { Some(SyntaxKind::Sym_Percent) }
    else if c == '|' { Some(SyntaxKind::Sym_Pipe) }
    else if c == '+' { Some(SyntaxKind::Sym_Plus) }
    else if c == '#' { Some(SyntaxKind::Sym_Pound) }
    else if c == '?' { Some(SyntaxKind::Sym_Question) }
    else if c == ';' { Some(SyntaxKind::Sym_Semicolon) }
    else if c == '\u{a3}' { Some(SyntaxKind::Sym_Sterling) }
    else if c == '~' { Some(SyntaxKind::Sym_Tilde) }
    else if c == '<' { Some(SyntaxKind::Sym_Lt) }
    else if c == '>' { Some(SyntaxKind::Sym_Gt) }
    else if c == '{' { Some(SyntaxKind::Sym_LBrace) }
    else if c == '}' { Some(SyntaxKind::Sym_RBrace) }
    else if c == '[' { Some(SyntaxKind::Sym_LBracket) }
    else if c == ']' { Some(SyntaxKind::Sym_RBracket) }
    else if c == '(' { Some(SyntaxKind::Sym_LParen) }
    else if c == ')' { Some(SyntaxKind::Sym_RParen) }
    else { None }
}

/// Whether the character is a recognised symbol character.
pub open spec fn is_symbol_char(c: char) -> bool {
    symbol_kind_of_char(c) is Some
}

/// The kind for each recognised two-character symbol sequence.
pub open spec fn two_char_symbol(a: char, b: char) -> Option<SyntaxKind> {
    if a == '!' && b == '=' { Some(SyntaxKind::Sym_BangEq) }
    else if a == '<' && b == '=' { Some(SyntaxKind::Sym_LtEq) }
    else if a == '>' && b == '=' { Some(SyntaxKind::Sym_GtEq) }
    else if a == '<' && b == '-' { Some(SyntaxKind::Sym_LThinArrow) }
    else if a == '-' && b == '>' { Some(SyntaxKind::Sym_RThinArrow) }
    else if a == '=' && b == '>' { Some(SyntaxKind::Sym_ThickArrow) }
    else { None }
}

/// Create a new symbol variant of [`SyntaxKind`] that corresponds to the given
/// character.
pub fn symbol_from_char(c: char) -> (r: SyntaxKind)
    requires
        is_symbol_char(c),
    ensures
        Some(r) == symbol_kind_of_char(c),
{
    if c == '&' { SyntaxKind::Sym_Ampersand }
    else if c == '*' { SyntaxKind::Sym_Asterisk }
    else if c == '@' { SyntaxKind::Sym_At }
    else if c == '\\' { SyntaxKind::Sym_BackSlash }
    else if c == '!' { SyntaxKind::Sym_Bang }
    else if c == '^' { SyntaxKind::Sym_Caret }
    else if c == ':' { SyntaxKind::Sym_Colon }
    else if c == ',' { SyntaxKind::Sym_Comma }
    else if c == '$' { SyntaxKind::Sym_Dollar }
    else if c == '.' { SyntaxKind::Sym_Dot }
    else if c == '\u{2014}' { SyntaxKind::Sym_EmDash }
    else if c == '\u{2013}' { SyntaxKind::Sym_EnDash }
    else if c == '=' { SyntaxKind::Sym_Eq }
    else if c == '/' { SyntaxKind::Sym_ForwardSlash }
    else if c == '-' { SyntaxKind::Sym_Minus }
    else if c == '%' { SyntaxKind::Sym_Percent }
    else if c == '|' { SyntaxKind::Sym_Pipe }
    else if c == '+' { SyntaxKind::Sym_Plus }
    else if c == '#' { SyntaxKind::Sym_Pound }
    else if c == '?' { SyntaxKind::Sym_Question }
    else if c == ';' { SyntaxKind::Sym_Semicolon }
    else if c == '\u{a3}' { SyntaxKind::Sym_Sterling }
    else if c == '~' { SyntaxKind::Sym_Tilde }
    else if c == '<' { SyntaxKind::Sym_Lt }
    else if c == '>' { SyntaxKind::Sym_Gt }
    else if c == '{' { SyntaxKind::Sym_LBrace }
    else if c == '}' { SyntaxKind::Sym_RBrace }
    else if c == '[' { SyntaxKind::Sym_LBracket }
    else if c == ']' { SyntaxKind::Sym_RBracket }
    else if c == '(' { SyntaxKind::Sym_LParen }
    else { SyntaxKind::Sym_RParen }
}

/// Create a new symbol variant of [`SyntaxKind`] that corresponds to the given
/// pair of characters, if they spell a two-character symbol.
pub fn symbol_from_two_chars(a: char, b: char) -> (r: Option<SyntaxKind>)
    ensures
        r == two_char_symbol(a, b),
{
    if a == '!' && b == '=' { Some(SyntaxKind::Sym_BangEq) }
    else if a == '<' && b == '=' { Some(SyntaxKind::Sym_LtEq) }
    else if a == '>' && b == '=' { Some(SyntaxKind::Sym_GtEq) }
    else if a == '<' && b == '-' { Some(SyntaxKind::Sym_LThinArrow) }
    else if a == '-' && b == '>' { Some(SyntaxKind::Sym_RThinArrow) }
    else if a == '=' && b == '>' { Some(SyntaxKind::Sym_ThickArrow) }
    else { None }
}

/// Create a new symbol variant of [`SyntaxKind`] that corresponds to the given
/// sequence of characters.
pub fn symbol_from_chars(chars: &[char]) -> (r: Option<SyntaxKind>)
    ensures
        r == if chars@.len() == 2 {
            two_char_symbol(chars@[0], chars@[1])
        } else {
            None::<SyntaxKind>
        },
{
    if chars.len() == 2 {
        let a = chars[0];
        let b = chars[1];
        if a == '!' && b == '=' { Some(SyntaxKind::Sym_BangEq) }
        else if a == '<' && b == '=' { Some(SyntaxKind::Sym_LtEq) }
        else if a == '>' && b == '=' { Some(SyntaxKind::Sym_GtEq) }
        else if a == '<' && b == '-' { Some(SyntaxKind::Sym_LThinArrow) }
        else if a == '-' && b == '>' { Some(SyntaxKind::Sym_RThinArrow) }
        else if a == '=' && b == '>' { Some(SyntaxKind::Sym_ThickArrow) }
        else { None }
    } else {
        None
    }
}

/// The grammatical article a kind's description begins with.
#[derive(Debug, Clone, Copy, PartialEq, Eq, Structural)]
pub enum Article {
    A,
    An,
    The,
}

pub open spec fn article_chars(a: Article) -> Seq<char> {
    match a {
        Article::A => "a"@,
        Article::An => "an"@,
        Article::The => "the"@,
    }
}

pub open spec fn article_of(k: SyntaxKind) -> Article {
    if spec_is_keyword(k) {
        Article::The
    } else if k == SyntaxKind::Sym_Ampersand || k == SyntaxKind::Sym_Asterisk || k
        == SyntaxKind::Sym_At || k == SyntaxKind::Sym_EmDash || k == SyntaxKind::Sym_EnDash || k
        == SyntaxKind::Sym_Eq || k == SyntaxKind::Sym_LBrace || k == SyntaxKind::Sym_LBracket || k
        == SyntaxKind::Sym_LParen || k == SyntaxKind::Lit_Integer || k == SyntaxKind::Identifier
        || k == SyntaxKind::Error || k == SyntaxKind::Indent {
        Article::An
    } else {
        Article::A
    }
}

pub open spec fn qualifier_view(k: SyntaxKind) -> Option<Seq<char>> {
    if k == SyntaxKind::Sym_LBrace { Some("opening curly"@) }
    else if k == SyntaxKind::Sym_LBracket { Some("opening square"@) }
    else if k == SyntaxKind::Sym_LParen { Some("opening"@) }
    else if k == SyntaxKind::Sym_RBrace { Some("closing curly"@) }
    else if k == SyntaxKind::Sym_RBracket { Some("closing square"@) }
    else if k == SyntaxKind::Sym_RParen { Some("closing"@) }
    else { None }
}

pub open spec fn description_view(k: SyntaxKind) -> Option<Seq<char>> {
    if k == SyntaxKind::Kwd_Alias { Some("`alias`"@) }
    else if k == SyntaxKind::Kwd_And { Some("`and`"@) }
    else if k == SyntaxKind::Kwd_As { Some("`as`"@) }
    else if k == SyntaxKind::Kwd_Begin { Some("`begin`"@) }
    else if k == SyntaxKind::Kwd_Else { Some("`else`"@) }
    else if k == SyntaxKind::Kwd_End { Some("`end`"@) }
    else if k == SyntaxKind::Kwd_Export { Some("`export`"@) }
    else if k == SyntaxKind::Kwd_External { Some("`external`"@) }
    else if k == SyntaxKind::Kwd_For { Some("`for`"@) }
    else if k == SyntaxKind::Kwd_Forall { Some("`forall`"@) }
    else if k == SyntaxKind::Kwd_If { Some("`if`"@) }
    else if k == SyntaxKind::Kwd_Import { Some("`import`"@) }
    else if k == SyntaxKind::Kwd_In { Some("`in`"@) }
    else if k == SyntaxKind::Kwd_Let { Some("`let`"@) }
    else if k == SyntaxKind::Kwd_Loop { Some("`loop`"@) }
    else if k == SyntaxKind::Kwd_Match { Some("`match`"@) }
    else if k == SyntaxKind::Kwd_Module { Some("`module`"@) }
    else if k == SyntaxKind::Kwd_Not { Some("`not`"@) }
    else if k == SyntaxKind::Kwd_Of { Some("`of`"@) }
    else if k == SyntaxKind::Kwd_Or { Some("`or`"@) }
    else if k == SyntaxKind::Kwd_Rec { Some("`rec`"@) }
    else if k == SyntaxKind::Kwd_Ref { Some("`ref`"@) }
    else if k == SyntaxKind::Kwd_Then { Some("`then`"@) }
    else if k == SyntaxKind::Kwd_Type { Some("`type`"@) }
    else if k == SyntaxKind::Kwd_Unimplemented { Some("`???`"@) }
    else if k == SyntaxKind::Kwd_Val { Some("`val`"@) }
    else if k == SyntaxKind::Kwd_While { Some("`while`"@) }
    else if k == SyntaxKind::Kwd_With { Some("`with`"@) }
    else if k == SyntaxKind::Sym_Ampersand { Some("ampersand"@) }
    else if k == SyntaxKind::Sym_Asterisk { Some("asterisk"@) }
    else if k == SyntaxKind::Sym_At { Some("at"@) }
    else if k == SyntaxKind::Sym_BackSlash { Some("backslash"@) }
    else if k == SyntaxKind::Sym_Bang { Some("bang"@) }
    else if k == SyntaxKind::Sym_BangEq { Some("bang equal"@) }
    else if k == SyntaxKind::Sym_Caret { Some("caret"@) }
    else if k == SyntaxKind::Sym_Colon { Some("colon"@) }
    else if k == SyntaxKind::Sym_Comma { Some("comma"@) }
    else if k == SyntaxKind::Sym_Dollar { Some("dollar"@) }
    else if k == SyntaxKind::Sym_Dot { Some("dot"@) }
    else if k == SyntaxKind::Sym_EmDash { Some("em-dash"@) }
    else if k == SyntaxKind::Sym_EnDash { Some("en-dash"@) }
    else if k == SyntaxKind::Sym_Eq { Some("equal"@) }
    else if k == SyntaxKind::Sym_ForwardSlash { Some("forward slash"@) }
    else if k == SyntaxKind::Sym_Minus { Some("minus"@) }
    else if k == SyntaxKind::Sym_Percent { Some("percent"@) }
    else if k == SyntaxKind::Sym_Pipe { Some("pipe"@) }
    else if k == SyntaxKind::Sym_Plus { Some("plus"@) }
    else if k == SyntaxKind::Sym_Pound { Some("pound"@) }
    else if k == SyntaxKind::Sym_Question { Some("question mark"@) }
    else if k == SyntaxKind::Sym_Semicolon { Some("semicolon"@) }
    else if k == SyntaxKind::Sym_Sterling { Some("sterling"@) }
    else if k == SyntaxKind::Sym_Tilde { Some("tilde"@) }
    else if k == SyntaxKind::Sym_Lt { Some("less than"@) }
    else if k == SyntaxKind::Sym_LtEq { Some("less than equal to"@) }
    else if k == SyntaxKind::Sym_Gt { Some("greater than"@) }
    else if k == SyntaxKind::Sym_GtEq { Some("greater than equal to"@) }
    else if k == SyntaxKind::Sym_LThinArrow { Some("leftwards thin arrow"@) }
    else if k == SyntaxKind::Sym_RThinArrow { Some("rightwards thin arrow"@) }
    else if k == SyntaxKind::Sym_ThickArrow { Some("thick arrow"@) }
    else if k == SyntaxKind::Sym_LBrace || k == SyntaxKind::Sym_RBrace { Some("brace"@) }
    else if k == SyntaxKind::Sym_LBracket || k == SyntaxKind::Sym_RBracket { Some("bracket"@) }
    else if k == SyntaxKind::Sym_LParen || k == SyntaxKind::Sym_RParen { Some("parenthesis"@) }
    else if k == SyntaxKind::Lit_Character { Some("character"@) }
    else if k == SyntaxKind::Lit_Float { Some("float"@) }
    else if k == SyntaxKind::Lit_Integer { Some("integer"@) }
    else if k == SyntaxKind::Lit_String { Some("string"@) }
    else if k == SyntaxKind::Exp_Binary { Some("binary"@) }
    else if k == SyntaxKind::Exp_Literal { Some("literal"@) }
    else if k == SyntaxKind::Exp_Paren { Some("parenthesized"@) }
    else if k == SyntaxKind::Exp_UnaryPrefix { Some("unary prefixed"@) }
    else if k == SyntaxKind::Exp_UnaryPostfix { Some("unary postfixed"@) }
    else if k == SyntaxKind::Exp_VariableRef { Some("variable reference"@) }
    else if k == SyntaxKind::Dec_GlobalBinding { Some("global binding"@) }
    else if k == SyntaxKind::DocComment { Some("documentation"@) }
    else if k == SyntaxKind::ReservedIdentifier { Some("reserved"@) }
    else { None }
}

pub open spec fn kind_text_view(k: SyntaxKind) -> Seq<char> {
    if spec_is_keyword(k) { "keyword"@ }
    else if spec_is_symbol(k) { "symbol"@ }
    else if spec_is_literal(k) { "literal"@ }
    else if spec_is_expression(k) { "expression"@ }
    else if spec_is_declaration(k) { "declaration"@ }
    else if spec_is_comment(k) { "comment"@ }
    else if spec_is_identifier(k) { "identifier"@ }
    else if k == SyntaxKind::Whitespace { "whitespace"@ }
    else if k == SyntaxKind::Newline { "newline"@ }
    else if k == SyntaxKind::Indent { "indent"@ }
    else if k == SyntaxKind::Dedent { "dedent"@ }
    else if k == SyntaxKind::Error { "error"@ }
    else { "root"@ }
}

pub open spec fn code_repr_view(k: SyntaxKind) -> Option<Seq<char>> {
    if k == SyntaxKind::Sym_Ampersand { Some("&"@) }
    else if k == SyntaxKind::Sym_Asterisk { Some("*"@) }
    else if k == SyntaxKind::Sym_At { Some("@"@) }
    else if k == SyntaxKind::Sym_BackSlash { Some("\\"@) }
    else if k == SyntaxKind::Sym_Bang { Some("!"@) }
    else if k == SyntaxKind::Sym_BangEq { Some("!="@) }
    else if k == SyntaxKind::Sym_Caret { Some("^"@) }
    else if k == SyntaxKind::Sym_Colon { Some(":"@) }
    else if k == SyntaxKind::Sym_Comma { Some(","@) }
    else if k == SyntaxKind::Sym_Dollar { Some("$"@) }
    else if k == SyntaxKind::Sym_Dot { Some("."@) }
    else if k == SyntaxKind::Sym_EmDash { Some("\u{2014}"@) }
    else if k == SyntaxKind::Sym_EnDash { Some("\u{2013}"@) }
    else if k == SyntaxKind::Sym_Eq { Some("="@) }
    else if k == SyntaxKind::Sym_ForwardSlash { Some("/"@) }
    else if k == SyntaxKind::Sym_Minus { Some("-"@) }
    else if k == SyntaxKind::Sym_Percent { Some("%"@) }
    else if k == SyntaxKind::Sym_Pipe { Some("|"@) }
    else if k == SyntaxKind::Sym_Plus { Some("+"@) }
    else if k == SyntaxKind::Sym_Pound { Some("#"@) }
    else if k == SyntaxKind::Sym_Question { Some("?"@) }
    else if k == SyntaxKind::Sym_Semicolon { Some(";"@) }
    else if k == SyntaxKind::Sym_Sterling { Some("\u{a3}"@) }
    else if k == SyntaxKind::Sym_Tilde { Some("~"@) }
    else if k == SyntaxKind::Sym_Lt { Some("<"@) }
    else if k == SyntaxKind::Sym_LtEq { Some("<="@) }
    else if k == SyntaxKind::Sym_Gt { Some(">"@) }
    else if k == SyntaxKind::Sym_GtEq { Some(">="@) }
    else if k == SyntaxKind::Sym_LThinArrow { Some("<-"@) }
    else if k == SyntaxKind::Sym_RThinArrow { Some("->"@) }
    else if k == SyntaxKind::Sym_ThickArrow { Some("=>"@) }
    else if k == SyntaxKind::Sym_LBrace { Some("{"@) }
    else if k == SyntaxKind::Sym_RBrace { Some("}"@) }
    else if k == SyntaxKind::Sym_LBracket { Some("["@) }
    else if k == SyntaxKind::Sym_RBracket { Some("]"@) }
    else if k == SyntaxKind::Sym_LParen { Some("("@) }
    else if k == SyntaxKind::Sym_RParen { Some(")"@) }
    else { None }
}

pub open spec fn example_view(k: SyntaxKind) -> Option<Seq<char>> {
    if k == SyntaxKind::Lit_Character { Some("'a'"@) }
    else if k == SyntaxKind::Lit_Float { Some("123.456"@) }
    else if k == SyntaxKind::Lit_Integer { Some("123"@) }
    else if k == SyntaxKind::Lit_String { Some("\"hello, world!\""@) }
    else if k == SyntaxKind::Identifier { Some("foo"@) }
    else { None }
}

pub open spec fn opt_view(o: Option<String>) -> Option<Seq<char>> {
    match o {
        Some(s) => Some(s@),
        None => None,
    }
}

/// The rendered description: article, qualifier, description and category in
/// order, followed by the spelling in backticks or an example.
pub open spec fn render_repr(
    article: Article,
    qualifier: Option<Seq<char>>,
    description: Option<Seq<char>>,
    kind: Seq<char>,
    code_repr: Option<Seq<char>>,
    example: Option<Seq<char>>,
) -> Seq<char> {
    let s1 = article_chars(article) + " "@;
    let s2 = if qualifier is Some { s1 + qualifier.unwrap() + " "@ } else { s1 };
    let s3 = if description is Some { s2 + description.unwrap() + " "@ } else { s2 };
    let s4 = s3 + kind;
    if code_repr is Some {
        s4 + " (`"@ + code_repr.unwrap() + "`)"@
    } else if example is Some {
        s4 + " (like `"@ + example.unwrap() + "`)"@
    } else {
        s4
    }
}

/// How a [`SyntaxKind`] reads to a person: its article, an optional
/// qualifier, an optional description, its category, and its spelling or an
/// example.
#[derive(Debug, PartialEq, Eq)]
pub struct HumanReadableRepr {
    pub article: Article,
    pub qualifier: Option<String>,
    pub description: Option<String>,
    pub kind: String,
    pub code_repr: Option<String>,
    pub example: Option<String>,
}

impl HumanReadableRepr {
    /// Renders the description as one line of text.
    pub fn to_string(&self) -> (r: String)
        ensures
            r@ == render_repr(
                self.article,
                opt_view(self.qualifier),
                opt_view(self.description),
                self.kind@,
                opt_view(self.code_repr),
                opt_view(self.example),
            ),
    {
        let mut s = String::new();
        match self.article {
            Article::A => s.append("a"),
            Article::An => s.append("an"),
            Article::The => s.append("the"),
        }
        s.append(" ");
        if let Some(q) = &self.qualifier {
            s.append(q.as_str());
            s.append(" ");
        }
        if let Some(d) = &self.description {
            s.append(d.as_str());
            s.append(" ");
        }
        s.append(self.kind.as_str());
        if let Some(c) = &self.code_repr {
            s.append(" (`");
            s.append(c.as_str());
            s.append("`)");
        } else if let Some(e) = &self.example {
            s.append(" (like `");
            s.append(e.as_str());
            s.append("`)");
        }
        s
    }
}

impl SyntaxKind {
    fn article(self) -> (r: Article)
        ensures
            r == article_of(self),
    {
        if self.is_keyword() {
            Article::The
        } else if self == SyntaxKind::Sym_Ampersand || self == SyntaxKind::Sym_Asterisk || self
            == SyntaxKind::Sym_At || self == SyntaxKind::Sym_EmDash || self == SyntaxKind::Sym_EnDash
            || self == SyntaxKind::Sym_Eq || self == SyntaxKind::Sym_LBrace || self
            == SyntaxKind::Sym_LBracket || self == SyntaxKind::Sym_LParen || self
            == SyntaxKind::Lit_Integer || self == SyntaxKind::Identifier || self == SyntaxKind::Error
            || self == SyntaxKind::Indent {
            Article::An
        } else {
            Article::A
        }
    }

    #[verifier::rlimit(100)]
    fn qualifier(self) -> (r: Option<String>)
        ensures
            opt_view(r) == qualifier_view(self),
    {
        let kk = self;
    if kk == SyntaxKind::Sym_LBrace { Some("opening curly".to_owned()) }
    else if kk == SyntaxKind::Sym_LBracket { Some("opening square".to_owned()) }
    else if kk == SyntaxKind::Sym_LParen { Some("opening".to_owned()) }
    else if kk == SyntaxKind::Sym_RBrace { Some("closing curly".to_owned()) }
    else if kk == SyntaxKind::Sym_RBracket { Some("closing square".to_owned()) }
    else if kk == SyntaxKind::Sym_RParen { Some("closing".to_owned()) }
    else { None }
    }

    #[verifier::rlimit(100)]
    fn description(self) -> (r: Option<String>)
        ensures
            opt_view(r) == description_view(self),
    {
        let kk = self;
    if kk == SyntaxKind::Kwd_Alias { Some("`alias`".to_owned()) }
    else if kk == SyntaxKind::Kwd_And { Some("`and`".to_owned()) }
    else if kk == SyntaxKind::Kwd_As { Some("`as`".to_owned()) }
    else if kk == SyntaxKind::Kwd_Begin { Some("`begin`".to_owned()) }
    else if kk == SyntaxKind::Kwd_Else { Some("`else`".to_owned()) }
    else if kk == SyntaxKind::Kwd_End { Some("`end`".to_owned()) }
    else if kk == SyntaxKind::Kwd_Export { Some("`export`".to_owned()) }
    else if kk == SyntaxKind::Kwd_External { Some("`external`".to_owned()) }
    else if kk == SyntaxKind::Kwd_For { Some("`for`".to_owned()) }
    else if kk == SyntaxKind::Kwd_Forall { Some("`forall`".to_owned()) }
    else if kk == SyntaxKind::Kwd_If { Some("`if`".to_owned()) }
    else if kk == SyntaxKind::Kwd_Import { Some("`import`".to_owned()) }
    else if kk == SyntaxKind::Kwd_In { Some("`in`".to_owned()) }
    else if kk == SyntaxKind::Kwd_Let { Some("`let`".to_owned()) }
    else if kk == SyntaxKind::Kwd_Loop { Some("`loop`".to_owned()) }
    else if kk == SyntaxKind::Kwd_Match { Some("`match`".to_owned()) }
    else if kk == SyntaxKind::Kwd_Module { Some("`module`".to_owned()) }
    else if kk == SyntaxKind::Kwd_Not { Some("`not`".to_owned()) }
    else if kk == SyntaxKind::Kwd_Of { Some("`of`".to_owned()) }
    else if kk == SyntaxKind::Kwd_Or { Some("`or`".to_owned()) }
    else if kk == SyntaxKind::Kwd_Rec { Some("`rec`".to_owned()) }
    else if kk == SyntaxKind::Kwd_Ref { Some("`ref`".to_owned()) }
    else if kk == SyntaxKind::Kwd_Then { Some("`then`".to_owned()) }
    else if kk == SyntaxKind::Kwd_Type { Some("`type`".to_owned()) }
    else if kk == SyntaxKind::Kwd_Unimplemented { Some("`???`".to_owned()) }
    else if kk == SyntaxKind::Kwd_Val { Some("`val`".to_owned()) }
    else if kk == SyntaxKind::Kwd_While { Some("`while`".to_owned()) }
    else if kk == SyntaxKind::Kwd_With { Some("`with`".to_owned()) }
    else if kk == SyntaxKind::Sym_Ampersand { Some("ampersand".to_owned()) }
    else if kk == SyntaxKind::Sym_Asterisk { Some("asterisk".to_owned()) }
    else if kk == SyntaxKind::Sym_At { Some("at".to_owned()) }
    else if kk == SyntaxKind::Sym_BackSlash { Some("backslash".to_owned()) }
    else if kk == SyntaxKind::Sym_Bang { Some("bang".to_owned()) }
    else if kk == SyntaxKind::Sym_BangEq { Some("bang equal".to_owned()) }
    else if kk == SyntaxKind::Sym_Caret { Some("caret".to_owned()) }
    else if kk == SyntaxKind::Sym_Colon { Some("colon".to_owned()) }
    else if kk == SyntaxKind::Sym_Comma { Some("comma".to_owned()) }
    else if kk == SyntaxKind::Sym_Dollar { Some("dollar".to_owned()) }
    else if kk == SyntaxKind::Sym_Dot { Some("dot".to_owned()) }
    else if kk == SyntaxKind::Sym_EmDash { Some("em-dash".to_owned()) }
    else if kk == SyntaxKind::Sym_EnDash { Some("en-dash".to_owned()) }
    else if kk == SyntaxKind::Sym_Eq { Some("equal".to_owned()) }
    else if kk == SyntaxKind::Sym_ForwardSlash { Some("forward slash".to_owned()) }
    else if kk == SyntaxKind::Sym_Minus { Some("minus".to_owned()) }
    else if kk == SyntaxKind::Sym_Percent { Some("percent".to_owned()) }
    else if kk == SyntaxKind::Sym_Pipe { Some("pipe".to_owned()) }
    else if kk == SyntaxKind::Sym_Plus { Some("plus".to_owned()) }
    else if kk == SyntaxKind::Sym_Pound { Some("pound".to_owned()) }
    else if kk == SyntaxKind::Sym_Question { Some("question mark".to_owned()) }
    else if kk == SyntaxKind::Sym_Semicolon { Some("semicolon".to_owned()) }
    else if kk == SyntaxKind::Sym_Sterling { Some("sterling".to_owned()) }
    else if kk == SyntaxKind::Sym_Tilde { Some("tilde".to_owned()) }
    else if kk == SyntaxKind::Sym_Lt { Some("less than".to_owned()) }
    else if kk == SyntaxKind::Sym_LtEq { Some("less than equal to".to_owned()) }
    else if kk == SyntaxKind::Sym_Gt { Some("greater than".to_owned()) }
    else if kk == SyntaxKind::Sym_GtEq { Some("greater than equal to".to_owned()) }
    else if kk == SyntaxKind::Sym_LThinArrow { Some("leftwards thin arrow".to_owned()) }
    else if kk == SyntaxKind::Sym_RThinArrow { Some("rightwards thin arrow".to_owned()) }
    else if kk == SyntaxKind::Sym_ThickArrow { Some("thick arrow".to_owned()) }
    else if kk == SyntaxKind::Sym_LBrace || kk == SyntaxKind::Sym_RBrace { Some("brace".to_owned()) }
    else if kk == SyntaxKind::Sym_LBracket || kk == SyntaxKind::Sym_RBracket { Some("bracket".to_owned()) }
    else if kk == SyntaxKind::Sym_LParen || kk == SyntaxKind::Sym_RParen { Some("parenthesis".to_owned()) }
    else if kk == SyntaxKind::Lit_Character { Some("character".to_owned()) }
    else if kk == SyntaxKind::Lit_Float { Some("float".to_owned()) }
    else if kk == SyntaxKind::Lit_Integer { Some("integer".to_owned()) }
    else if kk == SyntaxKind::Lit_String { Some("string".to_owned()) }
    else if kk == SyntaxKind::Exp_Binary { Some("binary".to_owned()) }
    else if kk == SyntaxKind::Exp_Literal { Some("literal".to_owned()) }
    else if kk == SyntaxKind::Exp_Paren { Some("parenthesized".to_owned()) }
    else if kk == SyntaxKind::Exp_UnaryPrefix { Some("unary prefixed".to_owned()) }
    else if kk == SyntaxKind::Exp_UnaryPostfix { Some("unary postfixed".to_owned()) }
    else if kk == SyntaxKind::Exp_VariableRef { Some("variable reference".to_owned()) }
    else if kk == SyntaxKind::Dec_GlobalBinding { Some("global binding".to_owned()) }
    else if kk == SyntaxKind::DocComment { Some("documentation".to_owned()) }
    else if kk == SyntaxKind::ReservedIdentifier { Some("reserved".to_owned()) }
    else { None }
    }

    #[verifier::rlimit(100)]
    fn kind(self) -> (r: String)
        ensures
            r@ == kind_text_view(self),
    {
        let kk = self;
    if kk.is_keyword() { "keyword".to_owned() }
    else if kk.is_symbol() { "symbol".to_owned() }
    else if kk.is_literal() { "literal".to_owned() }
    else if kk.is_expression() { "expression".to_owned() }
    else if kk.is_declaration() { "declaration".to_owned() }
    else if kk.is_comment() { "comment".to_owned() }
    else if kk.is_identifier() { "identifier".to_owned() }
    else if kk == SyntaxKind::Whitespace { "whitespace".to_owned() }
    else if kk == SyntaxKind::Newline { "newline".to_owned() }
    else if kk == SyntaxKind::Indent { "indent".to_owned() }
    else if kk == SyntaxKind::Dedent { "dedent".to_owned() }
    else if kk == SyntaxKind::Error { "error".to_owned() }
    else { "root".to_owned() }
    }

    #[verifier::rlimit(100)]
    fn code_repr(self) -> (r: Option<String>)
        ensures
            opt_view(r) == code_repr_view(self),
    {
        let kk = self;
    if kk == SyntaxKind::Sym_Ampersand { Some("&".to_owned()) }
    else if kk == SyntaxKind::Sym_Asterisk { Some("*".to_owned()) }
    else if kk == SyntaxKind::Sym_At { Some("@".to_owned()) }
    else if kk == SyntaxKind::Sym_BackSlash { Some("\\".to_owned()) }
    else if kk == SyntaxKind::Sym_Bang { Some("!".to_owned()) }
    else if kk == SyntaxKind::Sym_BangEq { Some("!=".to_owned()) }
    else if kk == SyntaxKind::Sym_Caret { Some("^".to_owned()) }
    else if kk == SyntaxKind::Sym_Colon { Some(":".to_owned()) }
    else if kk == SyntaxKind::Sym_Comma { Some(",".to_owned()) }
    else if kk == SyntaxKind::Sym_Dollar { Some("$".to_owned()) }
    else if kk == SyntaxKind::Sym_Dot { Some(".".to_owned()) }
    else if kk == SyntaxKind::Sym_EmDash { Some("\u{2014}".to_owned()) }
    else if kk == SyntaxKind::Sym_EnDash { Some("\u{2013}".to_owned()) }
    else if kk == SyntaxKind::Sym_Eq { Some("=".to_owned()) }
    else if kk == SyntaxKind::Sym_ForwardSlash { Some("/".to_owned()) }
    else if kk == SyntaxKind::Sym_Minus { Some("-".to_owned()) }
    else if kk == SyntaxKind::Sym_Percent { Some("%".to_owned()) }
    else if kk == SyntaxKind::Sym_Pipe { Some("|".to_owned()) }
    else if kk == SyntaxKind::Sym_Plus { Some("+".to_owned()) }
    else if kk == SyntaxKind::Sym_Pound { Some("#".to_owned()) }
    else if kk == SyntaxKind::Sym_Question { Some("?".to_owned()) }
    else if kk == SyntaxKind::Sym_Semicolon { Some(";".to_owned()) }
    else if kk == SyntaxKind::Sym_Sterling { Some("\u{a3}".to_owned()) }
    else if kk == SyntaxKind::Sym_Tilde { Some("~".to_owned()) }
    else if kk == SyntaxKind::Sym_Lt { Some("<".to_owned()) }
    else if kk == SyntaxKind::Sym_LtEq { Some("<=".to_owned()) }
    else if kk == SyntaxKind::Sym_Gt { Some(">".to_owned()) }
    else if kk == SyntaxKind::Sym_GtEq { Some(">=".to_owned()) }
    else if kk == SyntaxKind::Sym_LThinArrow { Some("<-".to_owned()) }
    else if kk == SyntaxKind::Sym_RThinArrow { Some("->".to_owned()) }
    else if kk == SyntaxKind::Sym_ThickArrow { Some("=>".to_owned()) }
    else if kk == SyntaxKind::Sym_LBrace { Some("{".to_owned()) }
    else if kk == SyntaxKind::Sym_RBrace { Some("}".to_owned()) }
    else if kk == SyntaxKind::Sym_LBracket { Some("[".to_owned()) }
    else if kk == SyntaxKind::Sym_RBracket { Some("]".to_owned()) }
    else if kk == SyntaxKind::Sym_LParen { Some("(".to_owned()) }
    else if kk == SyntaxKind::Sym_RParen { Some(")".to_owned()) }
    else { None }
    }

    fn example(self) -> (r: Option<String>)
        ensures
            opt_view(r) == example_view(self),
    {
        let kk = self;
    if kk == SyntaxKind::Lit_Character { Some("'a'".to_owned()) }
    else if kk == SyntaxKind::Lit_Float { Some("123.456".to_owned()) }
    else if kk == SyntaxKind::Lit_Integer { Some("123".to_owned()) }
    else if kk == SyntaxKind::Lit_String { Some("\"hello, world!\"".to_owned()) }
    else if kk == SyntaxKind::Identifier { Some("foo".to_owned()) }
    else { None }
    }

    /// The kind described for a person, piece by piece.
    pub fn human_readable_repr(self) -> (r: HumanReadableRepr)
        ensures
            r.article == article_of(self),
            opt_view(r.qualifier) == qualifier_view(self),
            opt_view(r.description) == description_view(self),
            r.kind@ == kind_text_view(self),
            opt_view(r.code_repr) == code_repr_view(self),
            opt_view(r.example) == example_view(self),
    {
        HumanReadableRepr {
            article: self.article(),
            qualifier: self.qualifier(),
            description: self.description(),
            kind: self.kind(),
            code_repr: self.code_repr(),
            example: self.example(),
        }
    }
}

/// The name of the kind, as the tree printer writes it.
pub open spec fn debug_name_view(k: SyntaxKind) -> Seq<char> {
    if k == SyntaxKind::Kwd_Alias { "Kwd_Alias"@ }
    else if k == SyntaxKind::Kwd_And { "Kwd_And"@ }
    else if k == SyntaxKind::Kwd_As { "Kwd_As"@ }
    else if k == SyntaxKind::Kwd_Begin { "Kwd_Begin"@ }
    else if k == SyntaxKind::Kwd_Else { "Kwd_Else"@ }
    else if k == SyntaxKind::Kwd_End { "Kwd_End"@ }
    else if k == SyntaxKind::Kwd_Export { "Kwd_Export"@ }
    else if k == SyntaxKind::Kwd_External { "Kwd_External"@ }
    else if k == SyntaxKind::Kwd_For { "Kwd_For"@ }
    else if k == SyntaxKind::Kwd_Forall { "Kwd_Forall"@ }
    else if k == SyntaxKind::Kwd_If { "Kwd_If"@ }
    else if k == SyntaxKind::Kwd_Import { "Kwd_Import"@ }
    else if k == SyntaxKind::Kwd_In { "Kwd_In"@ }
    else if k == SyntaxKind::Kwd_Let { "Kwd_Let"@ }
    else if k == SyntaxKind::Kwd_Loop { "Kwd_Loop"@ }
    else if k == SyntaxKind::Kwd_Match { "Kwd_Match"@ }
    else if k == SyntaxKind::Kwd_Module { "Kwd_Module"@ }
    else if k == SyntaxKind::Kwd_Not { "Kwd_Not"@ }
    else if k == SyntaxKind::Kwd_Of { "Kwd_Of"@ }
    else if k == SyntaxKind::Kwd_Or { "Kwd_Or"@ }
    else if k == SyntaxKind::Kwd_Rec { "Kwd_Rec"@ }
    else if k == SyntaxKind::Kwd_Ref { "Kwd_Ref"@ }
    else if k == SyntaxKind::Kwd_Then { "Kwd_Then"@ }
    else if k == SyntaxKind::Kwd_Type { "Kwd_Type"@ }
    else if k == SyntaxKind::Kwd_Unimplemented { "Kwd_Unimplemented"@ }
    else if k == SyntaxKind::Kwd_Val { "Kwd_Val"@ }
    else if k == SyntaxKind::Kwd_While { "Kwd_While"@ }
    else if k == SyntaxKind::Kwd_With { "Kwd_With"@ }
    else if k == SyntaxKind::Sym_Ampersand { "Sym_Ampersand"@ }
    else if k == SyntaxKind::Sym_Asterisk { "Sym_Asterisk"@ }
    else if k == SyntaxKind::Sym_At { "Sym_At"@ }
    else if k == SyntaxKind::Sym_BackSlash { "Sym_BackSlash"@ }
    else if k == SyntaxKind::Sym_Bang { "Sym_Bang"@ }
    else if k == SyntaxKind::Sym_BangEq { "Sym_BangEq"@ }
    else if k == SyntaxKind::Sym_Caret { "Sym_Caret"@ }
    else if k == SyntaxKind::Sym_Colon { "Sym_Colon"@ }
    else if k == SyntaxKind::Sym_Comma { "Sym_Comma"@ }
    else if k == SyntaxKind::Sym_Dollar { "Sym_Dollar"@ }
    else if k == SyntaxKind::Sym_Dot { "Sym_Dot"@ }
    else if k == SyntaxKind::Sym_EmDash { "Sym_EmDash"@ }
    else if k == SyntaxKind::Sym_EnDash { "Sym_EnDash"@ }
    else if k == SyntaxKind::Sym_Eq { "Sym_Eq"@ }
    else if k == SyntaxKind::Sym_ForwardSlash { "Sym_ForwardSlash"@ }
    else if k == SyntaxKind::Sym_Minus { "Sym_Minus"@ }
    else if k == SyntaxKind::Sym_Percent { "Sym_Percent"@ }
    else if k == SyntaxKind::Sym_Pipe { "Sym_Pipe"@ }
    else if k == SyntaxKind::Sym_Plus { "Sym_Plus"@ }
    else if k == SyntaxKind::Sym_Pound { "Sym_Pound"@ }
    else if k == SyntaxKind::Sym_Question { "Sym_Question"@ }
    else if k == SyntaxKind::Sym_Semicolon { "Sym_Semicolon"@ }
    else if k == SyntaxKind::Sym_Sterling { "Sym_Sterling"@ }
    else if k == SyntaxKind::Sym_Tilde { "Sym_Tilde"@ }
    else if k == SyntaxKind::Sym_Lt { "Sym_Lt"@ }
    else if k == SyntaxKind::Sym_LtEq { "Sym_LtEq"@ }
    else if k == SyntaxKind::Sym_Gt { "Sym_Gt"@ }
    else if k == SyntaxKind::Sym_GtEq { "Sym_GtEq"@ }
    else if k == SyntaxKind::Sym_LThinArrow { "Sym_LThinArrow"@ }
    else if k == SyntaxKind::Sym_RThinArrow { "Sym_RThinArrow"@ }
    else if k == SyntaxKind::Sym_ThickArrow { "Sym_ThickArrow"@ }
    else if k == SyntaxKind::Sym_LBrace { "Sym_LBrace"@ }
    else if k == SyntaxKind::Sym_RBrace { "Sym_RBrace"@ }
    else if k == SyntaxKind::Sym_LBracket { "Sym_LBracket"@ }
    else if k == SyntaxKind::Sym_RBracket { "Sym_RBracket"@ }
    else if k == SyntaxKind::Sym_LParen { "Sym_LParen"@ }
    else if k == SyntaxKind::Sym_RParen { "Sym_RParen"@ }
    else if k == SyntaxKind::Lit_Character { "Lit_Character"@ }
    else if k == SyntaxKind::Lit_Float { "Lit_Float"@ }
    else if k == SyntaxKind::Lit_Integer { "Lit_Integer"@ }
    else if k == SyntaxKind::Lit_String { "Lit_String"@ }
    else if k == SyntaxKind::Exp_Binary { "Exp_Binary"@ }
    else if k == SyntaxKind::Exp_Literal { "Exp_Literal"@ }
    else if k == SyntaxKind::Exp_Paren { "Exp_Paren"@ }
    else if k == SyntaxKind::Exp_UnaryPrefix { "Exp_UnaryPrefix"@ }
    else if k == SyntaxKind::Exp_UnaryPostfix { "Exp_UnaryPostfix"@ }
    else if k == SyntaxKind::Exp_VariableRef { "Exp_VariableRef"@ }
    else if k == SyntaxKind::Dec_GlobalBinding { "Dec_GlobalBinding"@ }
    else if k == SyntaxKind::Comment { "Comment"@ }
    else if k == SyntaxKind::DocComment { "DocComment"@ }
    else if k == SyntaxKind::Whitespace { "Whitespace"@ }
    else if k == SyntaxKind::Newline { "Newline"@ }
    else if k == SyntaxKind::Indent { "Indent"@ }
    else if k == SyntaxKind::Dedent { "Dedent"@ }
    else if k == SyntaxKind::Identifier { "Identifier"@ }
    else if k == SyntaxKind::ReservedIdentifier { "ReservedIdentifier"@ }
    else if k == SyntaxKind::Error { "Error"@ }
    else if k == SyntaxKind::Root { "Root"@ }
    else { Seq::empty() }
}

/// The name of the kind, for the tree printer.
#[verifier::rlimit(100)]
pub fn debug_name(k: SyntaxKind) -> (r: String)
    ensures
        r@ == debug_name_view(k),
{
    if k == SyntaxKind::Kwd_Alias { "Kwd_Alias".to_owned() }
    else if k == SyntaxKind::Kwd_And { "Kwd_And".to_owned() }
    else if k == SyntaxKind::Kwd_As { "Kwd_As".to_owned() }
    else if k == SyntaxKind::Kwd_Begin { "Kwd_Begin".to_owned() }
    else if k == SyntaxKind::Kwd_Else { "Kwd_Else".to_owned() }
    else if k == SyntaxKind::Kwd_End { "Kwd_End".to_owned() }
    else if k == SyntaxKind::Kwd_Export { "Kwd_Export".to_owned() }
    else if k == SyntaxKind::Kwd_External { "Kwd_External".to_owned() }
    else if k == SyntaxKind::Kwd_For { "Kwd_For".to_owned() }
    else if k == SyntaxKind::Kwd_Forall { "Kwd_Forall".to_owned() }
    else if k == SyntaxKind::Kwd_If { "Kwd_If".to_owned() }
    else if k == SyntaxKind::Kwd_Import { "Kwd_Import".to_owned() }
    else if k == SyntaxKind::Kwd_In { "Kwd_In".to_owned() }
    else if k == SyntaxKind::Kwd_Let { "Kwd_Let".to_owned() }
    else if k == SyntaxKind::Kwd_Loop { "Kwd_Loop".to_owned() }
    else if k == SyntaxKind::Kwd_Match { "Kwd_Match".to_owned() }
    else if k == SyntaxKind::Kwd_Module { "Kwd_Module".to_owned() }
    else if k == SyntaxKind::Kwd_Not { "Kwd_Not".to_owned() }
    else if k == SyntaxKind::Kwd_Of { "Kwd_Of".to_owned() }
    else if k == SyntaxKind::Kwd_Or { "Kwd_Or".to_owned() }
    else if k == SyntaxKind::Kwd_Rec { "Kwd_Rec".to_owned() }
    else if k == SyntaxKind::Kwd_Ref { "Kwd_Ref".to_owned() }
    else if k == SyntaxKind::Kwd_Then { "Kwd_Then".to_owned() }
    else if k == SyntaxKind::Kwd_Type { "Kwd_Type".to_owned() }
    else if k == SyntaxKind::Kwd_Unimplemented { "Kwd_Unimplemented".to_owned() }
    else if k == SyntaxKind::Kwd_Val { "Kwd_Val".to_owned() }
    else if k == SyntaxKind::Kwd_While { "Kwd_While".to_owned() }
    else if k == SyntaxKind::Kwd_With { "Kwd_With".to_owned() }
    else if k == SyntaxKind::Sym_Ampersand { "Sym_Ampersand".to_owned() }
    else if k == SyntaxKind::Sym_Asterisk { "Sym_Asterisk".to_owned() }
    else if k == SyntaxKind::Sym_At { "Sym_At".to_owned() }
    else if k == SyntaxKind::Sym_BackSlash { "Sym_BackSlash".to_owned() }
    else if k == SyntaxKind::Sym_Bang { "Sym_Bang".to_owned() }
    else if k == SyntaxKind::Sym_BangEq { "Sym_BangEq".to_owned() }
    else if k == SyntaxKind::Sym_Caret { "Sym_Caret".to_owned() }
    else if k == SyntaxKind::Sym_Colon { "Sym_Colon".to_owned() }
    else if k == SyntaxKind::Sym_Comma { "Sym_Comma".to_owned() }
    else if k == SyntaxKind::Sym_Dollar { "Sym_Dollar".to_owned() }
    else if k == SyntaxKind::Sym_Dot { "Sym_Dot".to_owned() }
    else if k == SyntaxKind::Sym_EmDash { "Sym_EmDash".to_owned() }
    else if k == SyntaxKind::Sym_EnDash { "Sym_EnDash".to_owned() }
    else if k == SyntaxKind::Sym_Eq { "Sym_Eq".to_owned() }
    else if k == SyntaxKind::Sym_ForwardSlash { "Sym_ForwardSlash".to_owned() }
    else if k == SyntaxKind::Sym_Minus { "Sym_Minus".to_owned() }
    else if k == SyntaxKind::Sym_Percent { "Sym_Percent".to_owned() }
    else if k == SyntaxKind::Sym_Pipe { "Sym_Pipe".to_owned() }
    else if k == SyntaxKind::Sym_Plus { "Sym_Plus".to_owned() }
    else if k == SyntaxKind::Sym_Pound { "Sym_Pound".to_owned() }
    else if k == SyntaxKind::Sym_Question { "Sym_Question".to_owned() }
    else if k == SyntaxKind::Sym_Semicolon { "Sym_Semicolon".to_owned() }
    else if k == SyntaxKind::Sym_Sterling { "Sym_Sterling".to_owned() }
    else if k == SyntaxKind::Sym_Tilde { "Sym_Tilde".to_owned() }
    else if k == SyntaxKind::Sym_Lt { "Sym_Lt".to_owned() }
    else if k == SyntaxKind::Sym_LtEq { "Sym_LtEq".to_owned() }
    else if k == SyntaxKind::Sym_Gt { "Sym_Gt".to_owned() }
    else if k == SyntaxKind::Sym_GtEq { "Sym_GtEq".to_owned() }
    else if k == SyntaxKind::Sym_LThinArrow { "Sym_LThinArrow".to_owned() }
    else if k == SyntaxKind::Sym_RThinArrow { "Sym_RThinArrow".to_owned() }
    else if k == SyntaxKind::Sym_ThickArrow { "Sym_ThickArrow".to_owned() }
    else if k == SyntaxKind::Sym_LBrace { "Sym_LBrace".to_owned() }
    else if k == SyntaxKind::Sym_RBrace { "Sym_RBrace".to_owned() }
    else if k == SyntaxKind::Sym_LBracket { "Sym_LBracket".to_owned() }
    else if k == SyntaxKind::Sym_RBracket { "Sym_RBracket".to_owned() }
    else if k == SyntaxKind::Sym_LParen { "Sym_LParen".to_owned() }
    else if k == SyntaxKind::Sym_RParen { "Sym_RParen".to_owned() }
    else if k == SyntaxKind::Lit_Character { "Lit_Character".to_owned() }
    else if k == SyntaxKind::Lit_Float { "Lit_Float".to_owned() }
    else if k == SyntaxKind::Lit_Integer { "Lit_Integer".to_owned() }
    else if k == SyntaxKind::Lit_String { "Lit_String".to_owned() }
    else if k == SyntaxKind::Exp_Binary { "Exp_Binary".to_owned() }
    else if k == SyntaxKind::Exp_Literal { "Exp_Literal".to_owned() }
    else if k == SyntaxKind::Exp_Paren { "Exp_Paren".to_owned() }
    else if k == SyntaxKind::Exp_UnaryPrefix { "Exp_UnaryPrefix".to_owned() }
    else if k == SyntaxKind::Exp_UnaryPostfix { "Exp_UnaryPostfix".to_owned() }
    else if k == SyntaxKind::Exp_VariableRef { "Exp_VariableRef".to_owned() }
    else if k == SyntaxKind::Dec_GlobalBinding { "Dec_GlobalBinding".to_owned() }
    else if k == SyntaxKind::Comment { "Comment".to_owned() }
    else if k == SyntaxKind::DocComment { "DocComment".to_owned() }
    else if k == SyntaxKind::Whitespace { "Whitespace".to_owned() }
    else if k == SyntaxKind::Newline { "Newline".to_owned() }
    else if k == SyntaxKind::Indent { "Indent".to_owned() }
    else if k == SyntaxKind::Dedent { "Dedent".to_owned() }
    else if k == SyntaxKind::Identifier { "Identifier".to_owned() }
    else if k == SyntaxKind::ReservedIdentifier { "ReservedIdentifier".to_owned() }
    else if k == SyntaxKind::Error { "Error".to_owned() }
    else if k == SyntaxKind::Root { "Root".to_owned() }
    else { String::new() }
}

} // verus!
