use css_engine::format::format_node;
use css_engine::kind::NodeKind;
use css_engine::options::FormatOptions;
use css_engine::options::IndentStyle;
use css_engine::options::LineEnding;
use css_engine::parser::DiagnosticKind;
use css_engine::syntax::parse;
use css_engine::tree::SyntaxElement;

fn formatted(source: &str, width: u16) -> String {
    let parsed = parse(source.as_bytes());
    let options = FormatOptions::new(IndentStyle::Space, 2, LineEnding::Lf, width).unwrap();
    String::from_utf8(format_node(&options, &parsed.tree).unwrap().text).unwrap()
}

fn child_kinds(source: &str) -> Vec<NodeKind> {
    let parsed = parse(source.as_bytes());
    let mut kinds = Vec::new();
    for child in parsed.tree.children.iter() {
        if let SyntaxElement::Node(node) = child {
            kinds.push(node.kind);
        }
    }
    kinds
}

#[test]
fn unknown_at_rule_is_one_bogus_rule_spanning_the_text() {
    let source = "@unknownrule foo { }";
    let parsed = parse(source.as_bytes());
    assert_eq!(parsed.tree.kind, NodeKind::Root);
    assert_eq!(child_kinds(source), vec![NodeKind::BogusRule]);
    match &parsed.tree.children[0] {
        SyntaxElement::Node(node) => assert_eq!(node.text(), source.as_bytes().to_vec()),
        SyntaxElement::Token(_) => panic!("expected a node"),
    }
    assert_eq!(parsed.diagnostics.len(), 1);
    assert_eq!(parsed.diagnostics[0].kind, DiagnosticKind::UnrecognizedAtRule);
    assert_eq!(parsed.diagnostics[0].start, 0);
    assert_eq!(parsed.diagnostics[0].end, 20);
    assert_eq!(formatted(source, 80), "@unknownrule foo { }\n");
}

#[test]
fn long_rule_breaks_at_width_40_and_stays_flat_at_width_120() {
    let source = "a{color:red;background:blue;margin:0 auto;padding:1px 2px}";
    assert_eq!(
        formatted(source, 40),
        "a {\n  color: red;\n  background: blue;\n  margin: 0 auto;\n  padding: 1px 2px\n}\n"
    );
    assert_eq!(
        formatted(source, 120),
        "a { color: red; background: blue; margin: 0 auto; padding: 1px 2px }\n"
    );
    let broken = parse(formatted(source, 40).as_bytes());
    let flat = parse(formatted(source, 120).as_bytes());
    assert_eq!(child_kinds(source), vec![NodeKind::QualifiedRule]);
    assert_eq!(broken.tree.children.len(), flat.tree.children.len());
    assert_eq!(formatted(&formatted(source, 40), 120), formatted(source, 120));
}

#[test]
fn parse_keeps_every_byte() {
    let sources = [
        "",
        "  @media screen {\r\n a { b : c }\n}\n\n/* tail */ x",
        "}}} @ { \"open\n 'x' /* never closed",
        "a{b:c}   \n\t",
        "\u{feff}caf\u{e9} { x: 1.5em }",
    ];
    for source in sources {
        let parsed = parse(source.as_bytes());
        assert_eq!(parsed.tree.text(), source.as_bytes().to_vec());
        assert_eq!(parsed.tree.len, source.len());
        assert!(parsed.tree.is_well_formed());
    }
}

#[test]
fn parse_keeps_bytes_that_are_no_utf8() {
    let source: Vec<u8> = vec![0xff, 0x40, 0x80, 0x7b, 0xfe, 0x7d, 0x00];
    let parsed = parse(&source);
    assert_eq!(parsed.tree.text(), source);
}

#[test]
fn media_rule_with_nested_rule() {
    let source = "@media screen{a{color:red}}";
    assert_eq!(child_kinds(source), vec![NodeKind::AtRule]);
    assert_eq!(formatted(source, 80), "@media screen { a { color: red } }\n");
    assert_eq!(formatted(source, 20), "@media screen {\n  a { color: red }\n}\n");
}

#[test]
fn formatting_twice_changes_nothing() {
    let sources = [
        "a{color:red;background:blue;margin:0 auto;padding:1px 2px}",
        "@media screen and (min-width:100px){a{color:red}b,c{x:y}}",
        "@unknownrule foo { }\n@charset \"utf-8\";",
        "/* note */\na , b>c{ d : e ; }\n\n\n}@font-face{font-family:x}",
        "a{/* one\ntwo */b:c}",
        "a{b:\"open\n;c:d}",
        "@keyframes spin{from{a:b}to{c:d}}",
    ];
    for source in sources {
        for width in [1u16, 10, 40, 80, 320] {
            let once = formatted(source, width);
            let twice = formatted(&once, width);
            assert_eq!(twice, once);
        }
    }
}

#[test]
fn formatting_is_deterministic() {
    let source = "@media screen{a{color:red}}\nb{c:d}";
    let parsed = parse(source.as_bytes());
    let again = parse(source.as_bytes());
    assert_eq!(parsed.tree, again.tree);
    assert_eq!(parsed.diagnostics, again.diagnostics);
    let options = FormatOptions::default();
    let first = format_node(&options, &parsed.tree).unwrap();
    let second = format_node(&options, &parsed.tree).unwrap();
    let third = format_node(&options, &again.tree).unwrap();
    assert_eq!(first, second);
    assert_eq!(first, third);
}
