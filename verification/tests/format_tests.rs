use css_engine::document::Document;
use css_engine::format::format_node;
use css_engine::format::leading_len;
use css_engine::format::to_document;
use css_engine::kind::NodeKind;
use css_engine::kind::TokenKind;
use css_engine::options::FormatError;
use css_engine::options::FormatOptions;
use css_engine::options::IndentStyle;
use css_engine::options::LineEnding;
use css_engine::printer::SourceMarker;
use css_engine::syntax::parse;
use css_engine::tree::build_tree;
use css_engine::tree::checked_len;
use css_engine::tree::SyntaxElement;
use css_engine::tree::SyntaxNode;
use css_engine::tree::SyntaxToken;
use css_engine::parser::Event;

fn lay_out(source: &str, options: &FormatOptions) -> String {
    let parsed = parse(source.as_bytes());
    String::from_utf8(format_node(options, &parsed.tree).unwrap().text).unwrap()
}

fn plain(source: &str) -> String {
    lay_out(source, &FormatOptions::default())
}

fn narrow(source: &str, width: u16) -> String {
    lay_out(source, &FormatOptions::new(IndentStyle::Space, 2, LineEnding::Lf, width).unwrap())
}

#[test]
fn blocks_and_declarations() {
    assert_eq!(plain(""), "");
    assert_eq!(plain("  \n "), "");
    assert_eq!(plain("a{}"), "a {}\n");
    assert_eq!(plain("a { }"), "a {}\n");
    assert_eq!(plain("a{b:c}"), "a { b: c }\n");
    assert_eq!(plain("a{b:c;}"), "a { b: c; }\n");
    assert_eq!(plain("a  {\n\n b \n : \n c ; d:e}"), "a { b: c; d: e }\n");
    assert_eq!(plain("a{;}"), "a { ; }\n");
    assert_eq!(plain("{}"), "{}\n");
}

#[test]
fn blanks_between_tokens() {
    assert_eq!(plain("a,b , c{}"), "a, b, c {}\n");
    assert_eq!(plain("a:hover > b{}"), "a:hover > b {}\n");
    assert_eq!(plain("a>b   c{}"), "a>b c {}\n");
    assert_eq!(plain("a{margin:0    auto  ;font:a,b}"), "a { margin: 0 auto; font: a, b }\n");
    assert_eq!(plain("a{b:url( x )}"), "a { b: url( x ) }\n");
    assert_eq!(plain("a{b : c : d}"), "a { b: c: d }\n");
}

#[test]
fn at_rules() {
    assert_eq!(plain("@charset   \"utf-8\"  ;"), "@charset \"utf-8\";\n");
    assert_eq!(plain("@charset\"utf-8\";"), "@charset\"utf-8\";\n");
    assert_eq!(plain("@ media screen{}"), "@media screen {}\n");
    assert_eq!(plain("@font-face{font-family:x}"), "@font-face { font-family: x }\n");
    assert_eq!(
        plain("@media   screen   and (min-width:100px){a{color:red}}"),
        "@media screen and (min-width:100px) { a { color: red } }\n"
    );
    assert_eq!(
        plain("@keyframes spin{from{a:b}to{c:d}}"),
        "@keyframes spin { from { a: b } to { c: d } }\n"
    );
}

#[test]
fn the_children_of_the_root_stand_one_to_a_line() {
    assert_eq!(plain("a{}b{}"), "a {}\nb {}\n");
    assert_eq!(plain("a{}\n\n\n\nb{}  "), "a {}\nb {}\n");
    assert_eq!(plain("@charset \"x\";a;b{c:d}"), "@charset \"x\";\na;\nb { c: d }\n");
    assert_eq!(plain("a{} } b{}"), "a {}\n}\nb {}\n");
}

#[test]
fn unrecognized_rules_are_written_as_they_stood() {
    assert_eq!(plain("  @unknownrule   foo {  x  }  a{}"), "@unknownrule   foo {  x  }\na {}\n");
    assert_eq!(plain("@foo {\r\n  a\r\n}"), "@foo {\n  a\n}\n");
    assert_eq!(plain("a{@nope  x ;b:c}"), "a { @nope  x ; b: c }\n");
}

#[test]
fn comments_are_kept() {
    assert_eq!(plain("/* c */\na{}"), "/* c */ a {}\n");
    assert_eq!(plain("a{/* x */color:red}"), "a { /* x */color: red }\n");
    assert_eq!(plain("a{b:c/* d */}/* e */"), "a { b: c/* d */ }\n/* e */\n");
    assert_eq!(plain("a{/* one\ntwo */b:c}"), "a {\n  /* one\ntwo */b: c\n}\n");
}

#[test]
fn nothing_is_written_behind_a_token_that_is_cut_short() {
    assert_eq!(plain("a{}/* never"), "a {}\n/* never");
    assert_eq!(plain("a { b: 'open"), "a { b: 'open");
    assert_eq!(plain("/* closed */"), "/* closed */\n");
    assert_eq!(plain("a 'cut\nb"), "a 'cut\nb\n");
}

#[test]
fn nesting_indents_by_level() {
    let source = "@media s{a{b:c;d:e}}";
    assert_eq!(narrow(source, 80), "@media s { a { b: c; d: e } }\n");
    assert_eq!(narrow(source, 20), "@media s {\n  a { b: c; d: e }\n}\n");
    assert_eq!(narrow(source, 10), "@media s {\n  a {\n    b: c;\n    d: e\n  }\n}\n");
    let tabs = FormatOptions::new(IndentStyle::Tab, 1, LineEnding::Crlf, 10).unwrap();
    assert_eq!(lay_out(source, &tabs), "@media s {\r\n\ta {\r\n\t\tb: c;\r\n\t\td: e\r\n\t}\r\n}\r\n");
}

#[test]
fn a_group_fits_up_to_the_line_width_exactly() {
    let source = "a{b:c}";
    assert_eq!(narrow(source, 10), "a { b: c }\n");
    assert_eq!(narrow(source, 9), "a {\n  b: c\n}\n");
}

#[test]
fn markers_point_at_the_source_of_each_token() {
    let parsed = parse(b" a {b:c}");
    let formatted = format_node(&FormatOptions::default(), &parsed.tree).unwrap();
    assert_eq!(formatted.text, b"a { b: c }\n".to_vec());
    assert_eq!(
        formatted.markers,
        vec![
            SourceMarker { source: 1, dest: 0 },
            SourceMarker { source: 3, dest: 2 },
            SourceMarker { source: 4, dest: 4 },
            SourceMarker { source: 5, dest: 5 },
            SourceMarker { source: 6, dest: 7 },
            SourceMarker { source: 7, dest: 9 },
            SourceMarker { source: 8, dest: 11 },
        ]
    );
}

#[test]
fn the_document_of_a_rule() {
    let parsed = parse(b"a{b}");
    let text = |s: &str, source: usize| Document::Text { bytes: s.as_bytes().to_vec(), source };
    assert_eq!(
        to_document(&parsed.tree),
        Document::Sequence(vec![
            Document::Sequence(vec![
                text("a", 0),
                Document::Space,
                Document::Group(Box::new(Document::Sequence(vec![
                    text("{", 1),
                    Document::Indent(Box::new(Document::Sequence(vec![
                        Document::SoftLineOrSpace,
                        Document::Sequence(vec![text("b", 2)]),
                    ]))),
                    Document::SoftLineOrSpace,
                    text("}", 3),
                ]))),
            ]),
            Document::HardLine,
            text("", 4),
        ])
    );
}

#[test]
fn a_tree_with_a_wrong_length_is_refused() {
    let leaf = SyntaxToken { kind: TokenKind::Ident, leading: b" ".to_vec(), text: b"a".to_vec() };
    let good = SyntaxNode {
        kind: NodeKind::Root,
        children: vec![SyntaxElement::Node(SyntaxNode {
            kind: NodeKind::Declaration,
            children: vec![SyntaxElement::Token(leaf)],
            len: 2,
        })],
        len: 2,
    };
    assert!(good.is_well_formed());
    assert_eq!(good.text_len(), 2);
    assert_eq!(good.kind(), NodeKind::Root);
    assert_eq!(leading_len(&good.children[0]), 1);
    assert_eq!(checked_len(&good.children[0]), Some(2));
    assert_eq!(format_node(&FormatOptions::default(), &good).unwrap().text, b"a\n".to_vec());
    let leaf = SyntaxToken { kind: TokenKind::Ident, leading: b" ".to_vec(), text: b"a".to_vec() };
    let bad = SyntaxNode {
        kind: NodeKind::Root,
        children: vec![SyntaxElement::Node(SyntaxNode {
            kind: NodeKind::Declaration,
            children: vec![SyntaxElement::Token(leaf)],
            len: 3,
        })],
        len: 2,
    };
    assert!(!bad.is_well_formed());
    assert_eq!(checked_len(&bad.children[0]), None);
    assert_eq!(format_node(&FormatOptions::default(), &bad), Err(FormatError::MalformedTree));
}

#[test]
fn a_tree_covers_its_text_whatever_the_log() {
    let text = b"ab cd";
    let none = build_tree(&vec![], text);
    assert_eq!(none.kind, NodeKind::Root);
    assert_eq!(none.text(), text.to_vec());
    let ident = |start: usize, end: usize| Event::Token { kind: TokenKind::Ident, start, end };
    let loose = build_tree(&vec![ident(3, 5), ident(0, 2), Event::Finish, ident(0, 5)], text);
    assert_eq!(loose.text(), text.to_vec());
    assert!(loose.is_well_formed());
    let open = build_tree(&vec![Event::Start { kind: NodeKind::Block }, ident(0, 2)], text);
    assert_eq!(open.kind, NodeKind::Root);
    assert_eq!(open.text(), text.to_vec());
    let whole = build_tree(
        &vec![Event::Start { kind: NodeKind::Declaration }, ident(0, 2), ident(3, 5), Event::Finish],
        text,
    );
    assert_eq!(whole.kind, NodeKind::Declaration);
    assert_eq!(whole.len, 5);
    match &whole.children[1] {
        SyntaxElement::Token(token) => {
            assert_eq!(token.leading, b" ".to_vec());
            assert_eq!(token.text, b"cd".to_vec());
            assert_eq!(token.text_len(), 3);
        }
        SyntaxElement::Node(_) => panic!("expected a token"),
    }
    assert_eq!(whole.children[1].text_len(), 3);
}
