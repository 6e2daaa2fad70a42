use helios_parser::{symbol_from_char, symbol_from_chars, SyntaxKind};

#[test]
fn test_symbol_from_char() {
    assert_eq!(symbol_from_char('&'), SyntaxKind::Sym_Ampersand);
    assert_eq!(symbol_from_char('*'), SyntaxKind::Sym_Asterisk);
    assert_eq!(symbol_from_char('@'), SyntaxKind::Sym_At);
    assert_eq!(symbol_from_char('\\'), SyntaxKind::Sym_BackSlash);
    assert_eq!(symbol_from_char('!'), SyntaxKind::Sym_Bang);
    assert_eq!(symbol_from_char('^'), SyntaxKind::Sym_Caret);
    assert_eq!(symbol_from_char(':'), SyntaxKind::Sym_Colon);
    assert_eq!(symbol_from_char(','), SyntaxKind::Sym_Comma);
    assert_eq!(symbol_from_char('$'), SyntaxKind::Sym_Dollar);
    assert_eq!(symbol_from_char('.'), SyntaxKind::Sym_Dot);
    assert_eq!(symbol_from_char('—'), SyntaxKind::Sym_EmDash);
    assert_eq!(symbol_from_char('–'), SyntaxKind::Sym_EnDash);
    assert_eq!(symbol_from_char('='), SyntaxKind::Sym_Eq);
    assert_eq!(symbol_from_char('/'), SyntaxKind::Sym_ForwardSlash);
    assert_eq!(symbol_from_char('-'), SyntaxKind::Sym_Minus);
    assert_eq!(symbol_from_char('%'), SyntaxKind::Sym_Percent);
    assert_eq!(symbol_from_char('|'), SyntaxKind::Sym_Pipe);
    assert_eq!(symbol_from_char('+'), SyntaxKind::Sym_Plus);
    assert_eq!(symbol_from_char('#'), SyntaxKind::Sym_Pound);
    assert_eq!(symbol_from_char('?'), SyntaxKind::Sym_Question);
    assert_eq!(symbol_from_char(';'), SyntaxKind::Sym_Semicolon);
    assert_eq!(symbol_from_char('£'), SyntaxKind::Sym_Sterling);
    assert_eq!(symbol_from_char('~'), SyntaxKind::Sym_Tilde);
    assert_eq!(symbol_from_char('<'), SyntaxKind::Sym_Lt);
    assert_eq!(symbol_from_char('>'), SyntaxKind::Sym_Gt);
    assert_eq!(symbol_from_char('{'), SyntaxKind::Sym_LBrace);
    assert_eq!(symbol_from_char('}'), SyntaxKind::Sym_RBrace);
    assert_eq!(symbol_from_char('['), SyntaxKind::Sym_LBracket);
    assert_eq!(symbol_from_char(']'), SyntaxKind::Sym_RBracket);
    assert_eq!(symbol_from_char('('), SyntaxKind::Sym_LParen);
    assert_eq!(symbol_from_char(')'), SyntaxKind::Sym_RParen);
}

#[test]
fn test_symbol_from_two_chars() {
    assert_eq!(symbol_from_chars(&['!', '=']), Some(SyntaxKind::Sym_BangEq));
    assert_eq!(symbol_from_chars(&['<', '=']), Some(SyntaxKind::Sym_LtEq));
    assert_eq!(symbol_from_chars(&['>', '=']), Some(SyntaxKind::Sym_GtEq));
    assert_eq!(symbol_from_chars(&['<', '-']), Some(SyntaxKind::Sym_LThinArrow));
    assert_eq!(symbol_from_chars(&['-', '>']), Some(SyntaxKind::Sym_RThinArrow));
    assert_eq!(symbol_from_chars(&['=', '>']), Some(SyntaxKind::Sym_ThickArrow));
    assert_eq!(symbol_from_chars(&['?', '?']), None);
}

#[test]
fn test_is_trivia() {
    assert!(SyntaxKind::Comment.is_trivia());
    assert!(SyntaxKind::DocComment.is_trivia());
    assert!(SyntaxKind::Whitespace.is_trivia());

    assert!(!SyntaxKind::Kwd_Alias.is_trivia());
    assert!(!SyntaxKind::Sym_Ampersand.is_trivia());
    assert!(!SyntaxKind::Lit_Character.is_trivia());
    assert!(!SyntaxKind::Root.is_trivia());
}

#[test]
fn test_is_symbol() {
    assert!(SyntaxKind::Sym_Ampersand.is_symbol());
    assert!(SyntaxKind::Sym_Asterisk.is_symbol());
    assert!(SyntaxKind::Sym_Tilde.is_symbol());
    assert!(SyntaxKind::Sym_LParen.is_symbol());
    assert!(SyntaxKind::Sym_RParen.is_symbol());

    assert!(!SyntaxKind::Kwd_Alias.is_symbol());
    assert!(!SyntaxKind::Lit_Character.is_symbol());
    assert!(!SyntaxKind::Root.is_symbol());
}

#[test]
fn test_syntax_kind_human_readable_repr() {
    assert_eq!(SyntaxKind::Kwd_Alias.human_readable_repr().to_string(), "the `alias` keyword");
    assert_eq!(SyntaxKind::Kwd_Match.human_readable_repr().to_string(), "the `match` keyword");
    assert_eq!(SyntaxKind::Kwd_With.human_readable_repr().to_string(), "the `with` keyword");
    assert_eq!(
        SyntaxKind::Kwd_Unimplemented.human_readable_repr().to_string(),
        "the `???` keyword"
    );

    assert_eq!(
        SyntaxKind::Sym_Ampersand.human_readable_repr().to_string(),
        "an ampersand symbol (`&`)"
    );
    assert_eq!(
        SyntaxKind::Sym_ForwardSlash.human_readable_repr().to_string(),
        "a forward slash symbol (`/`)"
    );
    assert_eq!(SyntaxKind::Sym_Lt.human_readable_repr().to_string(), "a less than symbol (`<`)");
    assert_eq!(
        SyntaxKind::Sym_LtEq.human_readable_repr().to_string(),
        "a less than equal to symbol (`<=`)"
    );

    assert_eq!(
        SyntaxKind::Sym_LBrace.human_readable_repr().to_string(),
        "an opening curly brace symbol (`{`)"
    );
    assert_eq!(
        SyntaxKind::Sym_LBracket.human_readable_repr().to_string(),
        "an opening square bracket symbol (`[`)"
    );
    assert_eq!(
        SyntaxKind::Sym_LParen.human_readable_repr().to_string(),
        "an opening parenthesis symbol (`(`)"
    );
    assert_eq!(
        SyntaxKind::Sym_RBrace.human_readable_repr().to_string(),
        "a closing curly brace symbol (`}`)"
    );
    assert_eq!(
        SyntaxKind::Sym_RBracket.human_readable_repr().to_string(),
        "a closing square bracket symbol (`]`)"
    );
    assert_eq!(
        SyntaxKind::Sym_RParen.human_readable_repr().to_string(),
        "a closing parenthesis symbol (`)`)"
    );

    assert_eq!(
        SyntaxKind::Lit_Character.human_readable_repr().to_string(),
        "a character literal (like `'a'`)"
    );
    assert_eq!(
        SyntaxKind::Lit_Float.human_readable_repr().to_string(),
        "a float literal (like `123.456`)"
    );
    assert_eq!(
        SyntaxKind::Lit_Integer.human_readable_repr().to_string(),
        "an integer literal (like `123`)"
    );
    assert_eq!(
        SyntaxKind::Lit_String.human_readable_repr().to_string(),
        "a string literal (like `\"hello, world!\"`)"
    );

    assert_eq!(SyntaxKind::Exp_Binary.human_readable_repr().to_string(), "a binary expression");
    assert_eq!(SyntaxKind::Exp_Literal.human_readable_repr().to_string(), "a literal expression");
    assert_eq!(
        SyntaxKind::Exp_Paren.human_readable_repr().to_string(),
        "a parenthesized expression"
    );
    assert_eq!(
        SyntaxKind::Exp_UnaryPrefix.human_readable_repr().to_string(),
        "a unary prefixed expression"
    );
    assert_eq!(
        SyntaxKind::Exp_UnaryPostfix.human_readable_repr().to_string(),
        "a unary postfixed expression"
    );
    assert_eq!(
        SyntaxKind::Exp_VariableRef.human_readable_repr().to_string(),
        "a variable reference expression"
    );

    assert_eq!(
        SyntaxKind::Dec_GlobalBinding.human_readable_repr().to_string(),
        "a global binding declaration"
    );

    assert_eq!(SyntaxKind::Comment.human_readable_repr().to_string(), "a comment");
    assert_eq!(SyntaxKind::DocComment.human_readable_repr().to_string(), "a documentation comment");
    assert_eq!(SyntaxKind::Whitespace.human_readable_repr().to_string(), "a whitespace");

    assert_eq!(
        SyntaxKind::Identifier.human_readable_repr().to_string(),
        "an identifier (like `foo`)"
    );
    assert_eq!(
        SyntaxKind::ReservedIdentifier.human_readable_repr().to_string(),
        "a reserved identifier"
    );
    assert_eq!(SyntaxKind::Error.human_readable_repr().to_string(), "an error");
}

#[test]
fn classification_is_disjoint_for_terminals() {
    assert!(SyntaxKind::Kwd_Let.is_keyword());
    assert!(!SyntaxKind::Kwd_Let.is_symbol());
    assert!(SyntaxKind::Lit_Integer.is_literal());
    assert!(!SyntaxKind::Lit_Integer.is_expression());
    assert!(SyntaxKind::Exp_Binary.is_expression());
    assert!(SyntaxKind::Dec_GlobalBinding.is_declaration());
    assert!(SyntaxKind::DocComment.is_comment());
    assert!(SyntaxKind::ReservedIdentifier.is_identifier());
}
