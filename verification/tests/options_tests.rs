use css_engine::options::FormatError;
use css_engine::options::FormatOptions;
use css_engine::options::IndentStyle;
use css_engine::options::IndentWidth;
use css_engine::options::LineEnding;
use css_engine::options::LineWidth;
use css_engine::options::DEFAULT_INDENT_WIDTH;
use css_engine::options::DEFAULT_LINE_WIDTH;
use css_engine::options::MAX_INDENT_WIDTH;
use css_engine::options::MAX_LINE_WIDTH;
use css_engine::options::MIN_INDENT_WIDTH;
use css_engine::options::MIN_LINE_WIDTH;

#[test]
fn defaults_are_two_spaces_and_eighty_columns() {
    let options = FormatOptions::default();
    assert_eq!(options.indent_style(), IndentStyle::Space);
    assert_eq!(options.indent_width().value(), 2);
    assert_eq!(options.line_ending(), LineEnding::Lf);
    assert_eq!(options.line_width().value(), 80);
    assert_eq!(IndentWidth::default().value(), DEFAULT_INDENT_WIDTH);
    assert_eq!(LineWidth::default().value(), DEFAULT_LINE_WIDTH);
    assert_eq!(
        FormatOptions::new(IndentStyle::Space, 2, LineEnding::Lf, 80),
        Ok(FormatOptions::default())
    );
}

#[test]
fn a_line_width_of_zero_is_refused() {
    assert_eq!(LineWidth::new(0), Err(FormatError::InvalidLineWidth));
    assert_eq!(
        FormatOptions::new(IndentStyle::Space, 2, LineEnding::Lf, 0),
        Err(FormatError::InvalidLineWidth)
    );
}

#[test]
fn line_widths_in_range_are_kept() {
    assert_eq!((MIN_LINE_WIDTH, MAX_LINE_WIDTH), (1, 320));
    assert_eq!(LineWidth::new(1).unwrap().value(), 1);
    assert_eq!(LineWidth::new(80).unwrap().value(), 80);
    assert_eq!(LineWidth::new(320).unwrap().value(), 320);
    assert_eq!(LineWidth::new(321), Err(FormatError::InvalidLineWidth));
    assert_eq!(LineWidth::new(u16::MAX), Err(FormatError::InvalidLineWidth));
}

#[test]
fn an_indent_width_of_zero_is_refused() {
    assert_eq!(IndentWidth::new(0), Err(FormatError::InvalidIndentWidth));
    assert_eq!(
        FormatOptions::new(IndentStyle::Tab, 0, LineEnding::Lf, 80),
        Err(FormatError::InvalidIndentWidth)
    );
}

#[test]
fn indent_widths_in_range_are_kept() {
    assert_eq!((MIN_INDENT_WIDTH, MAX_INDENT_WIDTH), (1, 24));
    assert_eq!(IndentWidth::new(1).unwrap().value(), 1);
    assert_eq!(IndentWidth::new(24).unwrap().value(), 24);
    assert_eq!(IndentWidth::new(25), Err(FormatError::InvalidIndentWidth));
    assert_eq!(IndentWidth::new(u8::MAX), Err(FormatError::InvalidIndentWidth));
}

#[test]
fn the_indent_width_is_judged_first() {
    assert_eq!(
        FormatOptions::new(IndentStyle::Space, 0, LineEnding::Lf, 0),
        Err(FormatError::InvalidIndentWidth)
    );
}

#[test]
fn builders_change_one_option_each() {
    let base = FormatOptions::default();
    let tabs = base.with_indent_style(IndentStyle::Tab);
    assert_eq!(tabs.indent_style(), IndentStyle::Tab);
    assert_eq!(tabs.with_indent_style(IndentStyle::Space), base);
    let wide = base.with_line_width(LineWidth::new(120).unwrap());
    assert_eq!(wide.line_width().value(), 120);
    assert_eq!(wide.indent_width(), base.indent_width());
    let deep = base.with_indent_width(IndentWidth::new(4).unwrap());
    assert_eq!(deep.indent_width().value(), 4);
    assert_eq!(deep.line_width(), base.line_width());
    let windows = base.with_line_ending(LineEnding::Crlf);
    assert_eq!(windows.line_ending(), LineEnding::Crlf);
    assert_eq!(windows.indent_style(), IndentStyle::Space);
    assert_eq!(
        FormatOptions::new(IndentStyle::Tab, 4, LineEnding::Cr, 120),
        Ok(base
            .with_indent_style(IndentStyle::Tab)
            .with_indent_width(IndentWidth::new(4).unwrap())
            .with_line_ending(LineEnding::Cr)
            .with_line_width(LineWidth::new(120).unwrap()))
    );
}

#[test]
fn line_endings_and_indent_bytes() {
    let mut out = Vec::new();
    LineEnding::Lf.write(&mut out);
    LineEnding::Crlf.write(&mut out);
    LineEnding::Cr.write(&mut out);
    assert_eq!(out, b"\n\r\n\r".to_vec());
    assert_eq!(IndentStyle::Tab.byte(), b'\t');
    assert_eq!(IndentStyle::Space.byte(), b' ');
}
