use helios_parser::{tokenize, DiagnosticKind, SyntaxKind, Token};

fn kinds(tokens: &[Token]) -> Vec<SyntaxKind> {
    tokens.iter().map(|t| t.kind).collect()
}

fn texts(tokens: &[Token]) -> Vec<String> {
    tokens.iter().map(|t| t.text.clone()).collect()
}

#[test]
fn test_lex_keywords() {
    for word in [
        "alias", "and", "as", "begin", "else", "end", "export", "external", "for", "forall", "if",
        "import", "in", "let", "loop", "match", "module", "not", "of", "or", "rec", "ref", "then",
        "type", "val", "while", "with",
    ] {
        let (tokens, messages) = tokenize(0u8, word);
        assert_eq!(tokens.len(), 1, "{}", word);
        assert!(tokens[0].kind.is_keyword(), "{}", word);
        assert_eq!(tokens[0].text, word);
        assert!(messages.is_empty());
    }
    let (tokens, _) = tokenize(0u8, "???");
    assert_eq!(kinds(&tokens), vec![SyntaxKind::Kwd_Unimplemented]);
}

#[test]
fn words_near_keywords_are_identifiers() {
    for word in ["alia", "aliass", "lets", "letx", "_let", "Rec", "foo"] {
        let (tokens, _) = tokenize(0u8, word);
        assert_eq!(kinds(&tokens), vec![SyntaxKind::Identifier], "{}", word);
    }
}

#[test]
fn test_lex_symbols_greedy() {
    let (tokens, messages) = tokenize(0u8, "<=>=<-->=>!=<>=");
    assert_eq!(
        kinds(&tokens),
        vec![
            SyntaxKind::Sym_LtEq,
            SyntaxKind::Sym_GtEq,
            SyntaxKind::Sym_LThinArrow,
            SyntaxKind::Sym_RThinArrow,
            SyntaxKind::Sym_ThickArrow,
            SyntaxKind::Sym_BangEq,
            SyntaxKind::Sym_Lt,
            SyntaxKind::Sym_GtEq,
        ]
    );
    assert!(messages.is_empty());
}

#[test]
fn test_lex_number_shapes() {
    let (tokens, _) = tokenize(0u8, "0 123 123.321 0xff 1..2 1.e");
    let sig: Vec<_> = tokens.iter().filter(|t| !t.kind.is_trivia()).collect();
    assert_eq!(
        sig.iter().map(|t| t.kind).collect::<Vec<_>>(),
        vec![
            SyntaxKind::Lit_Integer,
            SyntaxKind::Lit_Integer,
            SyntaxKind::Lit_Float,
            SyntaxKind::Lit_Integer,
            SyntaxKind::Lit_Integer,
            SyntaxKind::Sym_Dot,
            SyntaxKind::Sym_Dot,
            SyntaxKind::Lit_Integer,
            SyntaxKind::Lit_Float,
        ]
    );
    assert_eq!(sig[2].text, "123.321");
    assert_eq!(sig[8].text, "1.e");
}

#[test]
fn lexes_unicode_identifier_sample() {
    for word in ["åçéîñøœßü", "čovjek", "بشري", "человек", "ヒューマン", "मानव"] {
        let (tokens, messages) = tokenize(0u8, word);
        assert_eq!(kinds(&tokens), vec![SyntaxKind::Identifier], "{}", word);
        assert_eq!(tokens[0].text, word);
        assert!(messages.is_empty());
    }
}

#[test]
fn byte_ranges_tile_the_source() {
    let source = "let čo = \"x\" + 12.5 — £";
    let (tokens, _) = tokenize(0u8, source);
    let mut at = 0usize;
    for t in &tokens {
        assert_eq!(t.range.start, at);
        assert_eq!(t.range.end, at + t.text.len());
        at = t.range.end;
    }
    assert_eq!(at, source.len());
    assert_eq!(texts(&tokens).concat(), source);
}

#[test]
fn unterminated_string_spans_the_rest_of_the_line() {
    let (tokens, messages) = tokenize(0u8, "\"hello");
    assert_eq!(kinds(&tokens), vec![SyntaxKind::Lit_String]);
    assert_eq!(tokens[0].text, "\"hello");
    assert_eq!(tokens[0].range.start, 0);
    assert_eq!(tokens[0].range.end, 6);
    assert_eq!(messages.len(), 1);
    assert_eq!(
        messages[0].kind,
        DiagnosticKind::UnterminatedLiteral { kind: SyntaxKind::Lit_String }
    );
    assert_eq!(messages[0].range.start, 0);
    assert_eq!(messages[0].range.end, 6);
}

#[test]
fn string_escapes_do_not_end_the_literal() {
    let (tokens, messages) = tokenize(0u8, "\"a\\\"b\"");
    assert_eq!(kinds(&tokens), vec![SyntaxKind::Lit_String]);
    assert_eq!(tokens[0].text, "\"a\\\"b\"");
    assert!(messages.is_empty());
}

#[test]
fn invalid_escape_is_reported() {
    let (tokens, messages) = tokenize(0u8, "\"a\\qb\"");
    assert_eq!(kinds(&tokens), vec![SyntaxKind::Lit_String]);
    assert_eq!(messages.len(), 1);
    assert_eq!(messages[0].kind, DiagnosticKind::InvalidEscape { character: 'q' });
}

#[test]
fn bad_character_is_one_error_token() {
    let (tokens, messages) = tokenize(7u32, "a € b");
    let sig: Vec<_> = tokens.iter().filter(|t| !t.kind.is_trivia()).collect();
    assert_eq!(
        sig.iter().map(|t| t.kind).collect::<Vec<_>>(),
        vec![SyntaxKind::Identifier, SyntaxKind::Error, SyntaxKind::Identifier]
    );
    assert_eq!(sig[1].text, "€");
    assert_eq!(messages.len(), 1);
    assert_eq!(messages[0].kind, DiagnosticKind::BadCharacter { character: '€' });
    assert_eq!(messages[0].file_id, 7u32);
}

#[test]
fn comments_and_doc_comments_are_trivia() {
    let (tokens, _) = tokenize(0u8, "a // plain\n/// doc\nb");
    let cs: Vec<_> = tokens.iter().filter(|t| t.kind.is_comment()).collect();
    assert_eq!(cs.len(), 2);
    assert_eq!(cs[0].kind, SyntaxKind::Comment);
    assert_eq!(cs[0].text, "// plain");
    assert_eq!(cs[1].kind, SyntaxKind::DocComment);
    assert_eq!(cs[1].text, "/// doc");
    assert!(cs.iter().all(|t| t.kind.is_trivia()));
}

#[test]
fn newline_token_carries_the_next_indentation() {
    let (tokens, _) = tokenize(0u8, "a\n  b");
    assert_eq!(kinds(&tokens), vec![
        SyntaxKind::Identifier,
        SyntaxKind::Newline,
        SyntaxKind::Identifier,
    ]);
    assert_eq!(tokens[1].text, "\n  ");
}

#[test]
fn test_lex_symbols() {
    let cases: &[(&str, SyntaxKind)] = &[
        ("&", SyntaxKind::Sym_Ampersand),
        ("*", SyntaxKind::Sym_Asterisk),
        ("@", SyntaxKind::Sym_At),
        ("\\", SyntaxKind::Sym_BackSlash),
        ("!", SyntaxKind::Sym_Bang),
        ("^", SyntaxKind::Sym_Caret),
        (":", SyntaxKind::Sym_Colon),
        (",", SyntaxKind::Sym_Comma),
        ("$", SyntaxKind::Sym_Dollar),
        (".", SyntaxKind::Sym_Dot),
        ("—", SyntaxKind::Sym_EmDash),
        ("–", SyntaxKind::Sym_EnDash),
        ("=", SyntaxKind::Sym_Eq),
        ("/", SyntaxKind::Sym_ForwardSlash),
        ("-", SyntaxKind::Sym_Minus),
        ("%", SyntaxKind::Sym_Percent),
        ("|", SyntaxKind::Sym_Pipe),
        ("+", SyntaxKind::Sym_Plus),
        ("#", SyntaxKind::Sym_Pound),
        ("?", SyntaxKind::Sym_Question),
        (";", SyntaxKind::Sym_Semicolon),
        ("£", SyntaxKind::Sym_Sterling),
        ("~", SyntaxKind::Sym_Tilde),
        ("<", SyntaxKind::Sym_Lt),
        (">", SyntaxKind::Sym_Gt),
        ("<=", SyntaxKind::Sym_LtEq),
        (">=", SyntaxKind::Sym_GtEq),
        ("<-", SyntaxKind::Sym_LThinArrow),
        ("->", SyntaxKind::Sym_RThinArrow),
        ("=>", SyntaxKind::Sym_ThickArrow),
        ("{", SyntaxKind::Sym_LBrace),
        ("}", SyntaxKind::Sym_RBrace),
        ("[", SyntaxKind::Sym_LBracket),
        ("]", SyntaxKind::Sym_RBracket),
        ("(", SyntaxKind::Sym_LParen),
        (")", SyntaxKind::Sym_RParen),
    ];
    for (input, kind) in cases {
        let (tokens, messages) = tokenize(0u8, input);
        assert_eq!(tokens.len(), 1, "{}", input);
        assert_eq!(tokens[0].kind, *kind, "{}", input);
        assert_eq!(&tokens[0].text, input);
        assert!(messages.is_empty(), "{}", input);
    }
}

#[test]
fn test_lex_literal_numbers() {
    let cases: &[(&str, SyntaxKind)] = &[
        ("0", SyntaxKind::Lit_Integer),
        ("123", SyntaxKind::Lit_Integer),
        ("123.321", SyntaxKind::Lit_Float),
    ];
    for (input, kind) in cases {
        let (tokens, messages) = tokenize(0u8, input);
        assert_eq!(tokens.len(), 1, "{}", input);
        assert_eq!(tokens[0].kind, *kind, "{}", input);
        assert_eq!(&tokens[0].text, input);
        assert!(messages.is_empty(), "{}", input);
    }
}

#[test]
fn test_lex_identifiers() {
    for input in ["a", "abc", "abc123", "abc_123_abc", "abc_123_abc_123"] {
        let (tokens, messages) = tokenize(0u8, input);
        assert_eq!(tokens.len(), 1, "{}", input);
        assert_eq!(tokens[0].kind, SyntaxKind::Identifier, "{}", input);
        assert_eq!(tokens[0].text, input);
        assert!(messages.is_empty(), "{}", input);
    }
}

#[test]
fn test_lex_identifiers_unicode() {
    let words = [
        "åçéîñøœßü",
        "njerëzore",
        "čovjek",
        "člověk",
        "بشري",
        "ሰው",
        "մարդ",
        "মানব",
        "人的",
        "человек",
        "मानव",
        "ადამიანური",
        "άνθρωπος",
        "માનવ",
        "אנוש",
        "ヒューマン",
        "ಮಾನವ",
        "មនុស្ស",
        "인간",
        "ມະນຸດ",
        "മനുഷ്യൻ",
        "လူ့",
        "ମାନବ",
        "มนุษย์",
    ];
    for input in words {
        let (tokens, messages) = tokenize(0u8, input);
        assert_eq!(tokens.len(), 1, "{}", input);
        assert_eq!(tokens[0].kind, SyntaxKind::Identifier, "{}", input);
        assert_eq!(tokens[0].text, input);
        assert!(messages.is_empty(), "{}", input);
    }
}
