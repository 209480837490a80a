use css_engine::format::format_node;
use css_engine::format::leading_len;
use css_engine::kind::NodeKind;
use css_engine::options::FormatError;
use css_engine::options::FormatOptions;
use css_engine::options::IndentStyle;
use css_engine::options::LineEnding;
use css_engine::range::find_target;
use css_engine::range::format_range;
use css_engine::range::is_formattable;
use css_engine::range::RangeFormatted;
use css_engine::syntax::parse;
use css_engine::tree::SyntaxElement;
use css_engine::tree::SyntaxNode;

fn ranged(source: &str, start: usize, end: usize) -> Result<RangeFormatted, FormatError> {
    format_range(&FormatOptions::default(), &parse(source.as_bytes()).tree, start, end)
}

fn spliced(source: &str, start: usize, end: usize) -> (String, usize, usize, String) {
    let done = ranged(source, start, end).unwrap();
    (
        String::from_utf8(done.text).unwrap(),
        done.start,
        done.end,
        String::from_utf8(done.replacement).unwrap(),
    )
}

const SOURCE: &str = "a{b:c}\n\nd{e:f;g:h}";

#[test]
fn a_range_that_is_one_construct() {
    assert_eq!(
        spliced(SOURCE, 8, 18),
        ("a{b:c}\n\nd { e: f; g: h }".to_string(), 8, 18, "d { e: f; g: h }".to_string())
    );
    assert_eq!(
        spliced(SOURCE, 0, 6),
        ("a { b: c }\n\nd{e:f;g:h}".to_string(), 0, 6, "a { b: c }".to_string())
    );
}

#[test]
fn a_range_inside_a_construct_picks_the_smallest_around_it() {
    assert_eq!(
        spliced(SOURCE, 10, 13),
        ("a{b:c}\n\nd{e: f;g:h}".to_string(), 10, 14, "e: f;".to_string())
    );
    assert_eq!(
        spliced(SOURCE, 15, 15),
        ("a{b:c}\n\nd{e:f;g: h}".to_string(), 14, 17, "g: h".to_string())
    );
    assert_eq!(
        spliced(SOURCE, 9, 10),
        ("a{b:c}\n\nd { e: f; g: h }".to_string(), 8, 18, "d { e: f; g: h }".to_string())
    );
    assert_eq!(
        spliced(SOURCE, 12, 16),
        ("a{b:c}\n\nd { e: f; g: h }".to_string(), 8, 18, "d { e: f; g: h }".to_string())
    );
}

#[test]
fn a_range_that_straddles_two_constructs_is_refused() {
    assert_eq!(ranged(SOURCE, 5, 9), Err(FormatError::RangeMisaligned));
    assert_eq!(ranged(SOURCE, 0, 18), Err(FormatError::RangeMisaligned));
    assert_eq!(ranged(SOURCE, 6, 7), Err(FormatError::RangeMisaligned));
    assert_eq!(ranged(SOURCE, 7, 8), Err(FormatError::RangeMisaligned));
    assert_eq!(ranged("", 0, 0), Err(FormatError::RangeMisaligned));
}

#[test]
fn a_range_outside_the_text_is_refused() {
    assert_eq!(ranged(SOURCE, 4, 3), Err(FormatError::RangeOutOfBounds));
    assert_eq!(ranged(SOURCE, 0, 19), Err(FormatError::RangeOutOfBounds));
    assert_eq!(ranged(SOURCE, 19, 19), Err(FormatError::RangeOutOfBounds));
    assert_eq!(ranged(SOURCE, usize::MAX, 2), Err(FormatError::RangeOutOfBounds));
    assert_eq!(ranged("", 0, 1), Err(FormatError::RangeOutOfBounds));
}

#[test]
fn a_malformed_tree_is_refused_first() {
    let bad = SyntaxNode { kind: NodeKind::Root, children: vec![], len: 1 };
    assert_eq!(
        format_range(&FormatOptions::default(), &bad, 3, 2),
        Err(FormatError::MalformedTree)
    );
}

#[test]
fn a_nested_construct_is_printed_at_its_level() {
    let source = "@media s{\n    a{b:c;d:e}\n}";
    let options = FormatOptions::new(IndentStyle::Space, 2, LineEnding::Lf, 12).unwrap();
    let tree = parse(source.as_bytes()).tree;
    let done = format_range(&options, &tree, 14, 24).unwrap();
    assert_eq!((done.start, done.end), (14, 24));
    assert_eq!(String::from_utf8(done.replacement).unwrap(), "a {\n    b: c;\n    d: e\n  }");
    assert_eq!(
        String::from_utf8(done.text).unwrap(),
        "@media s{\n    a {\n    b: c;\n    d: e\n  }\n}"
    );
    let wide = FormatOptions::new(IndentStyle::Space, 2, LineEnding::Lf, 18).unwrap();
    let done = format_range(&wide, &tree, 14, 24).unwrap();
    assert_eq!(String::from_utf8(done.replacement).unwrap(), "a { b: c; d: e }");
    let tight = FormatOptions::new(IndentStyle::Space, 2, LineEnding::Lf, 17).unwrap();
    let done = format_range(&tight, &tree, 14, 24).unwrap();
    assert_eq!(String::from_utf8(done.replacement).unwrap(), "a {\n    b: c;\n    d: e\n  }");
}

#[test]
fn the_whole_is_made_of_the_pieces() {
    let source = "a{b:c}\n\n@nope x;\n\nd{e:f;g:h}  @media s{i{j:k}}";
    for width in [1u16, 12, 80] {
        let options = FormatOptions::new(IndentStyle::Tab, 3, LineEnding::Crlf, width).unwrap();
        let tree = parse(source.as_bytes()).tree;
        let whole = format_node(&options, &tree).unwrap().text;
        let mut pieces: Vec<u8> = Vec::new();
        let mut offset = 0;
        for child in tree.children.iter() {
            if let SyntaxElement::Node(node) = child {
                let end = offset + node.text_len();
                let done = format_range(&options, &tree, end - 1, end).unwrap();
                assert_eq!(done.end, end);
                pieces.extend_from_slice(&done.replacement);
                pieces.extend_from_slice(b"\r\n");
            }
            offset += child.text_len();
        }
        assert_eq!(pieces, whole);
    }
}

#[test]
fn formatting_a_range_of_formatted_text_changes_nothing() {
    let source = "a{b:c}\n\nd{e:f;g:h}@media s{i{j:k;l:m}}";
    for width in [1u16, 12, 80] {
        let options = FormatOptions::new(IndentStyle::Space, 2, LineEnding::Lf, width).unwrap();
        let whole = format_node(&options, &parse(source.as_bytes()).tree).unwrap().text;
        let tree = parse(&whole).tree;
        let mut offset = 0;
        for child in tree.children.iter() {
            if let SyntaxElement::Node(node) = child {
                let start = offset + leading_len(child);
                let end = offset + node.text_len();
                let done = format_range(&options, &tree, start, end).unwrap();
                assert_eq!((done.start, done.end), (start, end));
                assert_eq!(done.text, whole);
            }
            offset += child.text_len();
        }
    }
}

#[test]
fn what_can_be_formatted_on_its_own() {
    for kind in [
        NodeKind::AtRule,
        NodeKind::BogusRule,
        NodeKind::QualifiedRule,
        NodeKind::Declaration,
        NodeKind::Bogus,
    ] {
        assert!(is_formattable(kind));
    }
    for kind in [
        NodeKind::Root,
        NodeKind::Block,
        NodeKind::MediaAtRule,
        NodeKind::CharsetAtRule,
        NodeKind::Tombstone,
    ] {
        assert!(!is_formattable(kind));
    }
    assert!(NodeKind::BogusRule.is_bogus());
    assert!(NodeKind::Bogus.is_bogus());
    assert!(!NodeKind::AtRule.is_bogus());
}

#[test]
fn finding_the_target() {
    let tree = parse(SOURCE.as_bytes()).tree;
    let found = find_target(&tree, 0, 0, 10, 13).unwrap();
    assert_eq!(found.node.kind, NodeKind::Declaration);
    assert_eq!((found.offset, found.level), (10, 1));
    let found = find_target(&tree, 0, 0, 8, 9).unwrap();
    assert_eq!(found.node.kind, NodeKind::QualifiedRule);
    assert_eq!((found.offset, found.level), (6, 0));
    assert!(find_target(&tree, 0, 0, 6, 8).is_none());
}
