use css_engine::kind::NodeKind;
use css_engine::kind::Production;
use css_engine::kind::TokenKind;
use css_engine::lexer::tokenize;
use css_engine::parser::Diagnostic;
use css_engine::parser::DiagnosticKind;
use css_engine::parser::Event;
use css_engine::parser::Parser;
use css_engine::syntax::at_at_rule;
use css_engine::syntax::classify;
use css_engine::syntax::is_at_charset_at_rule;
use css_engine::syntax::is_at_container_at_rule;
use css_engine::syntax::is_at_counter_style_at_rule;
use css_engine::syntax::is_at_font_face_at_rule;
use css_engine::syntax::is_at_font_palette_values_at_rule;
use css_engine::syntax::is_at_keyframes_at_rule;
use css_engine::syntax::is_at_media_at_rule;
use css_engine::syntax::is_color_profile_at_rule;
use css_engine::syntax::parse;
use css_engine::syntax::parse_any_at_rule;
use css_engine::syntax::parse_at_rule;
use css_engine::syntax::parse_block;
use css_engine::syntax::parse_charset_at_rule;
use css_engine::syntax::parse_declaration_or_rule;
use css_engine::syntax::parse_media_at_rule;
use css_engine::syntax::recover;
use css_engine::tree::SyntaxElement;
use css_engine::tree::SyntaxNode;

fn node_at<'a>(node: &'a SyntaxNode, index: usize) -> &'a SyntaxNode {
    match &node.children[index] {
        SyntaxElement::Node(inner) => inner,
        SyntaxElement::Token(_) => panic!("expected a node"),
    }
}

fn outline(node: &SyntaxNode) -> String {
    let mut out = format!("{:?}(", node.kind);
    for child in node.children.iter() {
        match child {
            SyntaxElement::Node(inner) => out.push_str(&outline(inner)),
            SyntaxElement::Token(token) => {
                out.push_str(&String::from_utf8_lossy(&token.text));
                out.push(' ');
            }
        }
    }
    out.push(')');
    out
}

fn top_kinds(source: &str) -> Vec<NodeKind> {
    let parsed = parse(source.as_bytes());
    let mut kinds = Vec::new();
    for child in parsed.tree.children.iter() {
        if let SyntaxElement::Node(node) = child {
            kinds.push(node.kind);
        }
    }
    kinds
}

fn predicates(p: &Parser) -> Vec<bool> {
    vec![
        is_at_charset_at_rule(p),
        is_color_profile_at_rule(p),
        is_at_counter_style_at_rule(p),
        is_at_container_at_rule(p),
        is_at_font_face_at_rule(p),
        is_at_font_palette_values_at_rule(p),
        is_at_media_at_rule(p),
        is_at_keyframes_at_rule(p),
    ]
}

#[test]
fn each_keyword_reaches_its_own_production() {
    let cases = [
        ("@charset \"utf-8\";", NodeKind::CharsetAtRule),
        ("@color-profile --swop { src: url(a) }", NodeKind::ColorProfileAtRule),
        ("@counter-style thumbs { system: cyclic }", NodeKind::CounterStyleAtRule),
        ("@container sidebar (min-width: 400px) { a { b: c } }", NodeKind::ContainerAtRule),
        ("@font-face { font-family: x }", NodeKind::FontFaceAtRule),
        ("@font-palette-values --a { font-family: b }", NodeKind::FontPaletteValuesAtRule),
        ("@media screen { a { b: c } }", NodeKind::MediaAtRule),
        ("@keyframes spin { from { a: b } to { c: d } }", NodeKind::KeyframesAtRule),
    ];
    for (source, kind) in cases {
        let parsed = parse(source.as_bytes());
        assert_eq!(parsed.diagnostics, vec![]);
        assert_eq!(parsed.tree.children.len(), 2);
        let rule = node_at(&parsed.tree, 0);
        assert_eq!(rule.kind, NodeKind::AtRule);
        assert_eq!(rule.children.len(), 2);
        assert_eq!(node_at(rule, 1).kind, kind);
        assert_eq!(rule.text(), source.as_bytes().to_vec());
    }
}

#[test]
fn an_unknown_keyword_reaches_the_fallback() {
    for source in ["@unknownrule foo { }", "@supports (a: b) { }", "@Media screen { }", "@ { }", "@", "@;"] {
        let parsed = parse(source.as_bytes());
        assert_eq!(top_kinds(source), vec![NodeKind::BogusRule]);
        assert_eq!(parsed.diagnostics.len(), 1);
        assert_eq!(parsed.diagnostics[0].kind, DiagnosticKind::UnrecognizedAtRule);
        assert_eq!(node_at(&parsed.tree, 0).text(), source.as_bytes().to_vec());
    }
}

#[test]
fn a_production_that_does_not_accept_falls_back() {
    for source in [
        "@charset utf8;",
        "@charset \"a\" \"b\";",
        "@charset \"a\" { }",
        "@font-face x { }",
        "@media { }",
        "@media screen;",
        "@keyframes a b { }",
        "@counter-style { }",
        "@color-profile \"x\" { }",
        "@container",
    ] {
        let parsed = parse(source.as_bytes());
        assert_eq!(top_kinds(source), vec![NodeKind::BogusRule]);
        assert_eq!(
            parsed.diagnostics,
            vec![Diagnostic { kind: DiagnosticKind::UnrecognizedAtRule, start: 0, end: source.len() }]
        );
    }
}

#[test]
fn at_most_one_predicate_holds() {
    let words = [
        "charset", "color-profile", "counter-style", "container", "font-face",
        "font-palette-values", "media", "keyframes", "unknownrule", "{", "\"media\"", "",
    ];
    let mut seen = Vec::new();
    for word in words {
        let p = Parser::new(tokenize(word.as_bytes()));
        let holding = predicates(&p);
        let count = holding.iter().filter(|held| **held).count();
        assert!(count <= 1);
        assert_eq!(classify(&p).is_some(), count == 1);
        if let Some(index) = holding.iter().position(|held| *held) {
            seen.push(index);
        }
    }
    assert_eq!(seen, vec![0, 1, 2, 3, 4, 5, 6, 7]);
}

#[test]
fn classify_names_the_production() {
    assert_eq!(classify(&Parser::new(tokenize(b"media screen"))), Some(Production::Media));
    assert_eq!(classify(&Parser::new(tokenize(b" font-face{"))), Some(Production::FontFace));
    assert_eq!(classify(&Parser::new(tokenize(b"screen media"))), None);
    assert_eq!(classify(&Parser::new(tokenize(b"@media"))), None);
}

#[test]
fn recovery_leaves_the_sibling_alone() {
    assert_eq!(
        top_kinds("@unknown x { a { b } } @media screen { }"),
        vec![NodeKind::BogusRule, NodeKind::AtRule]
    );
    assert_eq!(
        top_kinds("@bogus;@charset \"x\";a{}"),
        vec![NodeKind::BogusRule, NodeKind::AtRule, NodeKind::QualifiedRule]
    );
    assert_eq!(
        top_kinds("@foo } @media s {}"),
        vec![NodeKind::BogusRule, NodeKind::Bogus, NodeKind::AtRule]
    );
    let parsed = parse(b"a { @nope b; @media s { c: d } e: f }");
    assert_eq!(
        outline(&parsed.tree),
        "Root(QualifiedRule(a Block({ BogusRule(@ nope b ; )AtRule(@ MediaAtRule(media s Block({ \
         Declaration(c : d )} )))Declaration(e : f )} )) )"
    );
    assert_eq!(
        parsed.diagnostics,
        vec![Diagnostic { kind: DiagnosticKind::UnrecognizedAtRule, start: 4, end: 13 }]
    );
}

#[test]
fn recovery_ends_at_its_boundary() {
    let cases: [(&str, usize); 7] = [
        ("x y; z", 5),
        ("x { a { b } c } z", 16),
        ("x } z", 2),
        ("x y z", 5),
        ("; z", 2),
        ("{ } z", 4),
        ("x { { z", 7),
    ];
    for (source, end) in cases {
        let mut p = Parser::new(tokenize(source.as_bytes()));
        recover(&mut p);
        assert_eq!(p.cur_start(), end);
    }
}

#[test]
fn a_closing_brace_that_closes_nothing() {
    let parsed = parse(b"a{} } b{}");
    assert_eq!(
        outline(&parsed.tree),
        "Root(QualifiedRule(a Block({ } ))Bogus(} )QualifiedRule(b Block({ } )) )"
    );
    assert_eq!(
        parsed.diagnostics,
        vec![Diagnostic { kind: DiagnosticKind::UnexpectedClosingBrace, start: 4, end: 6 }]
    );
}

#[test]
fn a_block_that_the_input_cuts_short() {
    let parsed = parse(b"a { b: c");
    assert_eq!(outline(&parsed.tree), "Root(QualifiedRule(a Block({ Declaration(b : c ))) )");
    assert_eq!(
        parsed.diagnostics,
        vec![Diagnostic { kind: DiagnosticKind::MissingClosingBrace, start: 2, end: 8 }]
    );
}

#[test]
fn declarations_and_rules() {
    let parsed = parse(b"a;b{c:d;e{f:g}h}i");
    assert_eq!(
        outline(&parsed.tree),
        "Root(Declaration(a ; )QualifiedRule(b Block({ Declaration(c : d ; )QualifiedRule(e \
         Block({ Declaration(f : g )} ))Declaration(h )} ))Declaration(i ) )"
    );
    assert_eq!(parsed.diagnostics, vec![]);
}

#[test]
fn absent_means_nothing_was_consumed() {
    let mut p = Parser::new(tokenize(b"a { }"));
    assert!(!at_at_rule(&p));
    assert!(parse_at_rule(&mut p).is_absent());
    assert!(parse_any_at_rule(&mut p).is_absent());
    assert!(parse_charset_at_rule(&mut p).is_absent());
    assert!(parse_block(&mut p).is_absent());
    assert_eq!(p.cur_start(), 0);
    let (_, events, diagnostics) = p.finish();
    assert_eq!(events, vec![]);
    assert_eq!(diagnostics, vec![]);
}

#[test]
fn a_production_that_fails_leaves_no_trace() {
    let mut p = Parser::new(tokenize(b"media { }"));
    assert!(parse_media_at_rule(&mut p).is_absent());
    assert!(parse_any_at_rule(&mut p).is_absent());
    assert_eq!(p.cur(), TokenKind::Ident);
    assert_eq!(p.cur_start(), 0);
    let (_, events, diagnostics) = p.finish();
    assert_eq!(events, vec![]);
    assert_eq!(diagnostics, vec![]);
}

#[test]
fn a_present_rule_reports_its_node() {
    let mut p = Parser::new(tokenize(b"@media s { } x"));
    assert!(at_at_rule(&p));
    let done = parse_at_rule(&mut p).ok().unwrap();
    assert_eq!(done.start_pos, 0);
    assert_eq!(done.finish_pos, 10);
    assert_eq!(p.cur_start(), 13);
    let rule = parse_declaration_or_rule(&mut p).ok().unwrap();
    assert_eq!(rule.start_pos, 11);
    assert_eq!(rule.finish_pos, 13);
    let (_, events, _) = p.finish();
    assert_eq!(events[0], Event::Start { kind: NodeKind::AtRule });
    assert_eq!(events[2], Event::Start { kind: NodeKind::MediaAtRule });
    assert_eq!(events[5], Event::Start { kind: NodeKind::Block });
    assert_eq!(events[11], Event::Start { kind: NodeKind::Declaration });
    assert_eq!(events.len(), 14);
}
