use css_engine::document::measure;
use css_engine::document::Document;
use css_engine::options::FormatOptions;
use css_engine::options::IndentStyle;
use css_engine::options::LineEnding;
use css_engine::printer::print;
use css_engine::printer::Printer;
use css_engine::printer::SourceMarker;

fn text(s: &str) -> Document {
    Document::Text { bytes: s.as_bytes().to_vec(), source: 0 }
}

fn group(parts: Vec<Document>) -> Document {
    Document::Group(Box::new(Document::Sequence(parts)))
}

fn indent(parts: Vec<Document>) -> Document {
    Document::Indent(Box::new(Document::Sequence(parts)))
}

fn options(width: u16) -> FormatOptions {
    FormatOptions::new(IndentStyle::Space, 2, LineEnding::Lf, width).unwrap()
}

fn show(document: &Document, options: &FormatOptions) -> String {
    String::from_utf8(print(document, options).text).unwrap()
}

fn braces() -> Document {
    group(vec![
        text("{"),
        indent(vec![Document::SoftLineOrSpace, text("x"), Document::SoftLineOrSpace, text("y")]),
        Document::SoftLineOrSpace,
        text("}"),
    ])
}

#[test]
fn a_group_that_fits_is_printed_on_one_line() {
    let document = group(vec![text("a"), Document::SoftLineOrSpace, text("b"), Document::SoftLine, text("c")]);
    assert_eq!(show(&document, &options(80)), "a bc");
    assert_eq!(show(&document, &options(4)), "a bc");
}

#[test]
fn a_group_that_does_not_fit_breaks_every_soft_line() {
    let document = group(vec![text("a"), Document::SoftLineOrSpace, text("b"), Document::SoftLine, text("c")]);
    assert_eq!(show(&document, &options(3)), "a\nb\nc");
    assert_eq!(show(&document, &options(1)), "a\nb\nc");
}

#[test]
fn the_column_counts_when_a_group_is_measured() {
    let document = Document::Sequence(vec![
        text("12345"),
        group(vec![text("a"), Document::SoftLineOrSpace, text("b")]),
    ]);
    assert_eq!(show(&document, &options(8)), "12345a b");
    assert_eq!(show(&document, &options(7)), "12345a\nb");
}

#[test]
fn indentation_is_level_times_width() {
    assert_eq!(show(&braces(), &options(80)), "{ x y }");
    assert_eq!(show(&braces(), &options(6)), "{\n  x\n  y\n}");
    let four = FormatOptions::new(IndentStyle::Space, 4, LineEnding::Lf, 6).unwrap();
    assert_eq!(show(&braces(), &four), "{\n    x\n    y\n}");
    let nested = group(vec![text("("), indent(vec![Document::SoftLine, braces()]), Document::SoftLine, text(")")]);
    assert_eq!(show(&nested, &options(6)), "(\n  {\n    x\n    y\n  }\n)");
    assert_eq!(show(&nested, &options(9)), "({ x y })");
    assert_eq!(show(&nested, &options(8)), "(\n  {\n    x\n    y\n  }\n)");
}

#[test]
fn tabs_indent_with_the_tab_character() {
    let one = FormatOptions::new(IndentStyle::Tab, 1, LineEnding::Lf, 6).unwrap();
    assert_eq!(show(&braces(), &one), "{\n\tx\n\ty\n}");
    let two = FormatOptions::new(IndentStyle::Tab, 2, LineEnding::Lf, 6).unwrap();
    assert_eq!(show(&braces(), &two), "{\n\t\tx\n\t\ty\n}");
}

#[test]
fn a_broken_parent_does_not_break_a_child_that_fits() {
    let inner = group(vec![text("b"), Document::SoftLineOrSpace, text("c")]);
    let outer = group(vec![text("aaaa"), Document::SoftLineOrSpace, inner]);
    assert_eq!(show(&outer, &options(8)), "aaaa b c");
    assert_eq!(show(&outer, &options(5)), "aaaa\nb c");
    assert_eq!(show(&outer, &options(2)), "aaaa\nb\nc");
}

#[test]
fn a_hard_line_breaks_the_groups_around_it() {
    let inner = group(vec![text("b"), Document::HardLine, text("c")]);
    let outer = group(vec![text("a"), Document::SoftLineOrSpace, inner, Document::SoftLineOrSpace, text("d")]);
    assert_eq!(show(&outer, &options(80)), "a\nb\nc\nd");
    let beside = Document::Sequence(vec![
        group(vec![text("a"), Document::SoftLineOrSpace, text("b")]),
        Document::HardLine,
        group(vec![text("c"), Document::SoftLineOrSpace, text("d")]),
    ]);
    assert_eq!(show(&beside, &options(80)), "a b\nc d");
}

#[test]
fn soft_lines_outside_any_group_break() {
    let document = Document::Sequence(vec![text("a"), Document::SoftLineOrSpace, text("b"), Document::SoftLine, text("c")]);
    assert_eq!(show(&document, &options(80)), "a\nb\nc");
}

#[test]
fn every_line_break_takes_the_configured_ending() {
    let document = Document::Sequence(vec![text("x\r\ny\rz\nw"), Document::HardLine, text("v")]);
    let lf = FormatOptions::new(IndentStyle::Space, 2, LineEnding::Lf, 80).unwrap();
    let crlf = FormatOptions::new(IndentStyle::Space, 2, LineEnding::Crlf, 80).unwrap();
    let cr = FormatOptions::new(IndentStyle::Space, 2, LineEnding::Cr, 80).unwrap();
    assert_eq!(show(&document, &lf), "x\ny\nz\nw\nv");
    assert_eq!(show(&document, &crlf), "x\r\ny\r\nz\r\nw\r\nv");
    assert_eq!(show(&document, &cr), "x\ry\rz\rw\rv");
    assert_eq!(show(&text("\n\r\r\n\n"), &crlf), "\r\n\r\n\r\n\r\n");
}

#[test]
fn text_with_a_line_break_breaks_its_group() {
    let document = group(vec![text("/* a\nb */"), Document::SoftLineOrSpace, text("c")]);
    assert_eq!(show(&document, &options(80)), "/* a\nb */\nc");
    let after = Document::Sequence(vec![
        text("ab\ncd"),
        group(vec![text("123"), Document::SoftLineOrSpace, text("45")]),
    ]);
    assert_eq!(show(&after, &options(8)), "ab\ncd123 45");
    assert_eq!(show(&after, &options(7)), "ab\ncd123\n45");
}

#[test]
fn blanks_and_empty_documents() {
    assert_eq!(show(&Document::Sequence(vec![]), &options(80)), "");
    assert_eq!(show(&group(vec![]), &options(1)), "");
    assert_eq!(show(&Document::Sequence(vec![text("a"), Document::Space, text("b")]), &options(1)), "a b");
    assert_eq!(show(&Document::HardLine, &options(80)), "\n");
}

#[test]
fn markers_map_source_offsets_to_output_offsets() {
    let document = Document::Sequence(vec![
        Document::Text { bytes: b"ab".to_vec(), source: 7 },
        Document::HardLine,
        indent(vec![Document::HardLine, Document::Text { bytes: b"c".to_vec(), source: 30 }]),
    ]);
    let printed = print(&document, &options(80));
    assert_eq!(printed.text, b"ab\n\n  c".to_vec());
    assert_eq!(
        printed.markers,
        vec![SourceMarker { source: 7, dest: 0 }, SourceMarker { source: 30, dest: 6 }]
    );
}

#[test]
fn measuring_flat_width() {
    let document = group(vec![text("abc"), Document::SoftLineOrSpace, text("de"), Document::SoftLine, Document::Space]);
    assert_eq!(measure(&document, 10), Some(3));
    assert_eq!(measure(&document, 7), Some(0));
    assert_eq!(measure(&document, 6), None);
    assert_eq!(measure(&Document::HardLine, 100), None);
    assert_eq!(measure(&text("a\nb"), 100), None);
    assert_eq!(measure(&Document::Sequence(vec![]), 0), Some(0));
}

#[test]
fn a_printer_can_start_behind_the_indentation() {
    let opts = options(9);
    let mut printer = Printer::indented(2, &opts);
    assert_eq!(printer.len(), 4);
    let document = group(vec![text("abc"), Document::SoftLineOrSpace, text("de")]);
    assert!(!printer.fits(&document, &opts));
    printer.print_document(&document, false, 2, &opts);
    assert_eq!(printer.finish().text, b"    abc\n    de".to_vec());
    let mut roomy = Printer::indented(1, &opts);
    assert!(roomy.fits(&document, &opts));
    roomy.print_document(&document, false, 1, &opts);
    assert_eq!(roomy.finish().text, b"  abc de".to_vec());
    let empty = Printer::new();
    assert_eq!(empty.len(), 0);
}
