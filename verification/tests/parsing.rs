use helios_parser::{
    parse, process_indents, tokenize, DiagnosticKind, GreenChild, GreenNode, SyntaxKind,
};

fn node_text(n: &GreenNode) -> String {
    let mut out = String::new();
    collect_text(n, &mut out);
    out
}

fn collect_text(n: &GreenNode, out: &mut String) {
    for c in &n.children {
        match c {
            GreenChild::Node(inner) => collect_text(inner, out),
            GreenChild::Token(t) => out.push_str(&t.text),
        }
    }
}

/// The children that carry syntax: nodes, and tokens that are not trivia.
fn significant(n: &GreenNode) -> Vec<&GreenChild> {
    n.children
        .iter()
        .filter(|c| match c {
            GreenChild::Node(_) => true,
            GreenChild::Token(t) => !t.kind.is_trivia(),
        })
        .collect()
}

fn as_node<'a>(c: &'a GreenChild) -> &'a GreenNode {
    match c {
        GreenChild::Node(n) => n,
        GreenChild::Token(t) => panic!("expected a node, found token {:?}", t.kind),
    }
}

fn child_kind(c: &GreenChild) -> SyntaxKind {
    match c {
        GreenChild::Node(n) => n.kind,
        GreenChild::Token(t) => t.kind,
    }
}

#[test]
fn simple_binding() {
    let p = parse("", "let x = 1");
    assert!(p.messages.is_empty());
    assert_eq!(p.green_node.kind, SyntaxKind::Root);
    let top = significant(&p.green_node);
    assert_eq!(top.len(), 1);
    let binding = as_node(top[0]);
    assert_eq!(binding.kind, SyntaxKind::Dec_GlobalBinding);
    let parts = significant(binding);
    assert_eq!(child_kind(parts[0]), SyntaxKind::Kwd_Let);
    assert_eq!(child_kind(parts[1]), SyntaxKind::Identifier);
    assert_eq!(child_kind(parts[2]), SyntaxKind::Sym_Eq);
    assert_eq!(child_kind(parts[3]), SyntaxKind::Exp_Literal);
    if let GreenChild::Token(t) = parts[1] {
        assert_eq!(t.text, "x");
    }
    let lit = as_node(parts[3]);
    let lit_parts = significant(lit);
    assert_eq!(child_kind(lit_parts[0]), SyntaxKind::Lit_Integer);
}

#[test]
fn operator_precedence() {
    let p = parse("", "1 + 2 * 3");
    assert!(p.messages.is_empty());
    let top = significant(&p.green_node);
    assert_eq!(top.len(), 1);
    let plus = as_node(top[0]);
    assert_eq!(plus.kind, SyntaxKind::Exp_Binary);
    let parts = significant(plus);
    assert_eq!(child_kind(parts[0]), SyntaxKind::Exp_Literal);
    assert_eq!(child_kind(parts[1]), SyntaxKind::Sym_Plus);
    assert_eq!(child_kind(parts[2]), SyntaxKind::Exp_Binary);
    let times = as_node(parts[2]);
    let tparts = significant(times);
    assert_eq!(child_kind(tparts[0]), SyntaxKind::Exp_Literal);
    assert_eq!(child_kind(tparts[1]), SyntaxKind::Sym_Asterisk);
    assert_eq!(child_kind(tparts[2]), SyntaxKind::Exp_Literal);
    assert_eq!(node_text(&p.green_node), "1 + 2 * 3");
}

#[test]
fn equality_is_right_associative() {
    let p = parse("", "a = b = c");
    let top = significant(&p.green_node);
    let outer = as_node(top[0]);
    assert_eq!(outer.kind, SyntaxKind::Exp_Binary);
    let parts = significant(outer);
    assert_eq!(child_kind(parts[0]), SyntaxKind::Exp_VariableRef);
    assert_eq!(child_kind(parts[1]), SyntaxKind::Sym_Eq);
    assert_eq!(child_kind(parts[2]), SyntaxKind::Exp_Binary);
    let inner = as_node(parts[2]);
    let iparts = significant(inner);
    assert_eq!(child_kind(iparts[0]), SyntaxKind::Exp_VariableRef);
    assert_eq!(child_kind(iparts[1]), SyntaxKind::Sym_Eq);
    assert_eq!(child_kind(iparts[2]), SyntaxKind::Exp_VariableRef);
}

#[test]
fn indented_block() {
    let source = "let x =\n    1\n    2\n";
    let (raw, _) = tokenize("", source);
    let (processed, msgs) = process_indents("", raw);
    assert!(msgs.is_empty());
    let indents = processed.iter().filter(|t| t.kind == SyntaxKind::Indent).count();
    let dedents = processed.iter().filter(|t| t.kind == SyntaxKind::Dedent).count();
    assert_eq!(indents, 1);
    assert_eq!(dedents, 1);

    let p = parse("", source);
    assert!(p.messages.is_empty(), "{:?}", p.messages);
    let top = significant(&p.green_node);
    assert_eq!(top.len(), 1);
    let binding = as_node(top[0]);
    assert_eq!(binding.kind, SyntaxKind::Dec_GlobalBinding);
    let parts = significant(binding);
    let block = as_node(parts[3]);
    assert_eq!(block.kind, SyntaxKind::Exp_Paren);
    let inner: Vec<_> = significant(block)
        .into_iter()
        .filter(|c| matches!(c, GreenChild::Node(_)))
        .collect();
    assert_eq!(inner.len(), 2);
    assert_eq!(child_kind(inner[0]), SyntaxKind::Exp_Literal);
    assert_eq!(child_kind(inner[1]), SyntaxKind::Exp_Literal);
    assert_eq!(node_text(&p.green_node), source);
}

#[test]
fn inconsistent_dedent() {
    let source = "    a\n        b\n      c\n";
    let (raw, _) = tokenize(1u8, source);
    let (processed, msgs) = process_indents(1u8, raw);
    let errors: Vec<_> = processed.iter().filter(|t| t.kind == SyntaxKind::Error).collect();
    assert_eq!(errors.len(), 1);
    assert_eq!(errors[0].text, "\n      c");
    assert_eq!(msgs.len(), 1);
    assert_eq!(msgs[0].kind, DiagnosticKind::InconsistentDedent);
    assert_eq!(msgs[0].range.start, errors[0].range.start);
    assert_eq!(msgs[0].range.end, errors[0].range.end);

    let p = parse(1u8, source);
    assert!(p.messages.iter().any(|m| m.kind == DiagnosticKind::InconsistentDedent));
    assert_eq!(node_text(&p.green_node), source);
}

#[test]
fn parenthesized_and_prefixed_expressions() {
    let p = parse("", "-(a + b)?");
    assert!(p.messages.is_empty(), "{:?}", p.messages);
    let top = significant(&p.green_node);
    let prefix = as_node(top[0]);
    assert_eq!(prefix.kind, SyntaxKind::Exp_UnaryPrefix);
    let parts = significant(prefix);
    assert_eq!(child_kind(parts[0]), SyntaxKind::Sym_Minus);
    let postfix = as_node(parts[1]);
    assert_eq!(postfix.kind, SyntaxKind::Exp_UnaryPostfix);
    let pparts = significant(postfix);
    assert_eq!(child_kind(pparts[0]), SyntaxKind::Exp_Paren);
    assert_eq!(child_kind(pparts[1]), SyntaxKind::Sym_Question);
    assert_eq!(node_text(&p.green_node), "-(a + b)?");
}

#[test]
fn missing_identifier_in_binding() {
    let p = parse("", "let = 5");
    assert!(p.messages.iter().any(|m| m.kind
        == DiagnosticKind::Missing { kind: SyntaxKind::Identifier }));
    assert_eq!(node_text(&p.green_node), "let = 5");
}

#[test]
fn unclosed_parenthesis_at_end_of_input() {
    let p = parse("", "(1");
    assert!(p.messages.iter().any(|m| matches!(
        &m.kind,
        DiagnosticKind::UnexpectedEof { expected } if expected == &vec![SyntaxKind::Sym_RParen]
    )));
    assert_eq!(node_text(&p.green_node), "(1");
}

#[test]
fn wrongly_closed_parenthesis_is_missing() {
    let p = parse("", "(1]");
    assert!(p.messages.iter().any(|m| m.kind
        == DiagnosticKind::Missing { kind: SyntaxKind::Sym_RParen }));
    assert_eq!(node_text(&p.green_node), "(1]");
}

#[test]
fn binding_cut_short_reports_end_of_input() {
    let p = parse("", "let x");
    assert!(p.messages.iter().any(|m| matches!(
        &m.kind,
        DiagnosticKind::UnexpectedEof { expected } if expected == &vec![SyntaxKind::Sym_Eq]
    )));
    assert_eq!(node_text(&p.green_node), "let x");
}

#[test]
fn stray_closing_parenthesis_is_unexpected() {
    let p = parse("", ")");
    assert!(p.messages.iter().any(|m| m.kind
        == DiagnosticKind::UnexpectedToken { kind: SyntaxKind::Sym_RParen }));
    assert_eq!(node_text(&p.green_node), ")");
}

#[test]
fn lossless_round_trip() {
    let sources = [
        "",
        "let x = 1",
        "let x =\n    1\n    2\n",
        "    a\n        b\n      c\n",
        "\"unterminated",
        "a\n\tb € ???\n",
        "((((",
        "))))",
        "// only a comment",
        "let = = let\n\n  \n",
        "x + - * / y",
        "čovjek — £ 12.5 'c' \"s\"\n   deep\n dedent",
        "\n\n\n",
        "? ?? ??? ????",
        "\\ \u{0} \u{7f}",
    ];
    for s in sources {
        let p = parse("", s);
        assert_eq!(node_text(&p.green_node), s, "round trip failed for {:?}", s);
        assert_eq!(p.green_node.kind, SyntaxKind::Root);
    }
}

#[test]
fn keyword_disjointness_in_tree() {
    let p = parse("", "let letx = alias0 + rec1");
    assert_no_keyword_identifiers(&p.green_node);
    assert_eq!(node_text(&p.green_node), "let letx = alias0 + rec1");
}

fn assert_no_keyword_identifiers(n: &GreenNode) {
    const KEYWORDS: [&str; 27] = [
        "alias", "and", "as", "begin", "else", "end", "export", "external", "for", "forall", "if",
        "import", "in", "let", "loop", "match", "module", "not", "of", "or", "rec", "ref", "then",
        "type", "val", "while", "with",
    ];
    for c in &n.children {
        match c {
            GreenChild::Node(inner) => assert_no_keyword_identifiers(inner),
            GreenChild::Token(t) => {
                if t.kind == SyntaxKind::Identifier {
                    assert!(!KEYWORDS.contains(&t.text.as_str()), "{}", t.text);
                }
            }
        }
    }
}

#[test]
fn indent_balance_in_processed_stream() {
    let sources = ["a\n  b\n    c\nd", "a\n  b", "if\n   x\n     y\n  z\n", "  a\n b\n"];
    for s in sources {
        let (raw, _) = tokenize("", s);
        let (processed, _) = process_indents("", raw);
        let mut depth: i64 = 0;
        for t in &processed {
            match t.kind {
                SyntaxKind::Indent => depth += 1,
                SyntaxKind::Dedent => depth -= 1,
                _ => {}
            }
            assert!(depth >= 0, "negative depth in {:?}", s);
        }
        assert_eq!(depth, 0, "unbalanced stream for {:?}", s);
    }
}

#[test]
fn range_coverage_of_nodes() {
    let p = parse("", "let x =\n    1 + 2\n    (y)\n");
    check_ranges(&p.green_node, 0);
}

/// Checks that each node's range is exactly its children laid side by side.
fn check_ranges(n: &GreenNode, start: usize) -> usize {
    let mut at = start;
    for c in &n.children {
        match c {
            GreenChild::Node(inner) => {
                at = check_ranges(inner, at);
            }
            GreenChild::Token(t) => {
                at += t.text.len();
            }
        }
    }
    at
}

#[test]
fn parse_is_deterministic() {
    let sources = ["let x = 1", "    a\n        b\n      c\n", "\"bad\\q", "1 + 2 * 3"];
    for s in sources {
        let p1 = parse(9u16, s);
        let p2 = parse(9u16, s);
        assert_eq!(p1, p2);
    }
}

#[test]
fn messages_are_ordered_by_offset() {
    let p = parse("", "€\n\"bad\n  ");
    let mut last = 0usize;
    for m in &p.messages {
        assert!(m.range.start >= last);
        last = m.range.start;
    }
    assert!(p.messages.len() >= 2);
}

#[test]
fn empty_input_yields_empty_root() {
    let p = parse(0u8, "");
    assert!(p.messages.is_empty());
    assert_eq!(p.green_node.kind, SyntaxKind::Root);
    assert!(p.green_node.children.is_empty());
}

#[test]
fn debug_tree_of_a_simple_binding() {
    let p = parse("", "let x = 1");
    let expected = "\
Root@0..9
  Dec_GlobalBinding@0..9
    Kwd_Let@0..3 \"let\"
    Whitespace@3..4 \" \"
    Identifier@4..5 \"x\"
    Whitespace@5..6 \" \"
    Sym_Eq@6..7 \"=\"
    Exp_Literal@7..9
      Whitespace@7..8 \" \"
      Lit_Integer@8..9 \"1\"
";
    assert_eq!(p.debug_tree(), expected);
}

#[test]
fn debug_tree_is_stable() {
    let p1 = parse("", "let x =\n    \"a\\n\"\n");
    let p2 = parse("", "let x =\n    \"a\\n\"\n");
    assert_eq!(p1.debug_tree(), p2.debug_tree());
    assert!(p1.debug_tree().contains("Lit_String"));
}

#[test]
fn syntax_view_exposes_kind_and_range() {
    let p = parse("", "let x = 1");
    let root = p.syntax();
    assert_eq!(root.kind(), SyntaxKind::Root);
    let range = root.range();
    assert_eq!(range.start, 0);
    assert_eq!(range.end, 9);
    assert_eq!(p.messages().len(), 0);
}

#[test]
fn rebuilding_a_parse_keeps_its_parts() {
    let p = parse(3u8, "a €");
    let expected = p.messages.clone();
    let rebuilt = helios_parser::Parse::new(p.green_node, p.messages);
    assert_eq!(rebuilt.messages, expected);
    assert!(rebuilt.messages.iter().any(|m| m.kind
        == DiagnosticKind::BadCharacter { character: '€' }));
    assert_eq!(rebuilt.green_node.kind, SyntaxKind::Root);
}
