//! The options of one formatting call, validated when they are made.
use vstd::prelude::*;

verus! {

/// The smallest and the largest line width that is accepted.
pub const MIN_LINE_WIDTH: u16 = 1;

pub const MAX_LINE_WIDTH: u16 = 320;

/// The line width used where none is asked for.
pub const DEFAULT_LINE_WIDTH: u16 = 80;

/// The smallest and the largest indent width that is accepted.
pub const MIN_INDENT_WIDTH: u8 = 1;

pub const MAX_INDENT_WIDTH: u8 = 24;

/// The indent width used where none is asked for.
pub const DEFAULT_INDENT_WIDTH: u8 = 2;

/// Why a formatting call, or the making of its options, was refused.
#[derive(Clone, Copy, Debug, PartialEq, Eq, Hash, Structural)]
pub enum FormatError {
    /// An indent width outside `MIN_INDENT_WIDTH..=MAX_INDENT_WIDTH`.
    InvalidIndentWidth,
    /// A line width outside `MIN_LINE_WIDTH..=MAX_LINE_WIDTH`.
    InvalidLineWidth,
    /// A range that is inverted or reaches beyond the end of the text.
    RangeOutOfBounds,
    /// A range that no single construct encloses.
    RangeMisaligned,
    /// A tree in which a node records a length that is not the length of
    /// its text.
    MalformedTree,
}

/// The character with which lines are indented.
#[derive(Clone, Copy, Debug, PartialEq, Eq, Hash, Structural)]
pub enum IndentStyle {
    Tab,
    Space,
}

impl IndentStyle {
    /// The byte that one step of indentation is made of.
    pub open spec fn spec_byte(self) -> u8 {
        match self {
            IndentStyle::Tab => 0x09,
            IndentStyle::Space => 0x20,
        }
    }

    #[verifier::when_used_as_spec(spec_byte)]
    pub fn byte(self) -> (b: u8)
        ensures
            b == self.spec_byte(),
    {
        match self {
            IndentStyle::Tab => 0x09,
            IndentStyle::Space => 0x20,
        }
    }
}

/// The bytes with which every line of the output ends.
#[derive(Clone, Copy, Debug, PartialEq, Eq, Hash, Structural)]
pub enum LineEnding {
    /// `\n`
    Lf,
    /// `\r\n`
    Crlf,
    /// `\r`
    Cr,
}

impl LineEnding {
    /// The bytes of the line ending.
    pub open spec fn bytes(self) -> Seq<u8> {
        match self {
            LineEnding::Lf => seq![0x0au8],
            LineEnding::Crlf => seq![0x0du8, 0x0au8],
            LineEnding::Cr => seq![0x0du8],
        }
    }

    /// Appends the line ending to `out`.
    pub fn write(self, out: &mut Vec<u8>)
        ensures
            final(out)@ == old(out)@ + self.bytes(),
    {
        match self {
            LineEnding::Lf => {
                out.push(0x0a);
            },
            LineEnding::Crlf => {
                out.push(0x0d);
                out.push(0x0a);
            },
            LineEnding::Cr => {
                out.push(0x0d);
            },
        }
        proof {
            assert(out@ =~= old(out)@ + self.bytes());
        }
    }
}

/// The number of indent characters per level of nesting: at least
/// `MIN_INDENT_WIDTH` and at most `MAX_INDENT_WIDTH`.
#[derive(Clone, Copy, Debug, PartialEq, Eq, Hash)]
pub struct IndentWidth {
    value: u8,
}

impl IndentWidth {
    #[verifier::type_invariant]
    spec fn in_range(self) -> bool {
        MIN_INDENT_WIDTH <= self.value <= MAX_INDENT_WIDTH
    }

    pub closed spec fn spec_value(self) -> u8 {
        self.value
    }

    /// An indent width of `value`. Zero and widths above
    /// `MAX_INDENT_WIDTH` are refused.
    pub fn new(value: u8) -> (r: Result<IndentWidth, FormatError>)
        ensures
            MIN_INDENT_WIDTH <= value <= MAX_INDENT_WIDTH ==> r is Ok && r->Ok_0.spec_value()
                == value,
            !(MIN_INDENT_WIDTH <= value <= MAX_INDENT_WIDTH) ==> r == Err::<
                IndentWidth,
                FormatError,
            >(FormatError::InvalidIndentWidth),
    {
        if MIN_INDENT_WIDTH <= value && value <= MAX_INDENT_WIDTH {
            Ok(IndentWidth { value })
        } else {
            Err(FormatError::InvalidIndentWidth)
        }
    }

    #[verifier::when_used_as_spec(spec_value)]
    pub fn value(self) -> (v: u8)
        ensures
            v == self.spec_value(),
            MIN_INDENT_WIDTH <= v <= MAX_INDENT_WIDTH,
    {
        proof {
            use_type_invariant(&self);
        }
        self.value
    }
}

impl Default for IndentWidth {
    fn default() -> (r: IndentWidth)
        ensures
            r.spec_value() == DEFAULT_INDENT_WIDTH,
    {
        IndentWidth { value: DEFAULT_INDENT_WIDTH }
    }
}

/// The column that a line should not exceed: at least `MIN_LINE_WIDTH` and
/// at most `MAX_LINE_WIDTH`.
#[derive(Clone, Copy, Debug, PartialEq, Eq, Hash)]
pub struct LineWidth {
    value: u16,
}

impl LineWidth {
    #[verifier::type_invariant]
    spec fn in_range(self) -> bool {
        MIN_LINE_WIDTH <= self.value <= MAX_LINE_WIDTH
    }

    pub closed spec fn spec_value(self) -> u16 {
        self.value
    }

    /// A line width of `value`. Zero and widths above `MAX_LINE_WIDTH` are
    /// refused.
    pub fn new(value: u16) -> (r: Result<LineWidth, FormatError>)
        ensures
            MIN_LINE_WIDTH <= value <= MAX_LINE_WIDTH ==> r is Ok && r->Ok_0.spec_value() == value,
            !(MIN_LINE_WIDTH <= value <= MAX_LINE_WIDTH) ==> r == Err::<LineWidth, FormatError>(
                FormatError::InvalidLineWidth,
            ),
    {
        if MIN_LINE_WIDTH <= value && value <= MAX_LINE_WIDTH {
            Ok(LineWidth { value })
        } else {
            Err(FormatError::InvalidLineWidth)
        }
    }

    #[verifier::when_used_as_spec(spec_value)]
    pub fn value(self) -> (v: u16)
        ensures
            v == self.spec_value(),
            MIN_LINE_WIDTH <= v <= MAX_LINE_WIDTH,
    {
        proof {
            use_type_invariant(&self);
        }
        self.value
    }
}

impl Default for LineWidth {
    fn default() -> (r: LineWidth)
        ensures
            r.spec_value() == DEFAULT_LINE_WIDTH,
    {
        LineWidth { value: DEFAULT_LINE_WIDTH }
    }
}

/// The options of one formatting call. They are fixed when the call
/// starts; nothing changes them while it runs.
#[derive(Clone, Copy, Debug, PartialEq, Eq, Hash)]
pub struct FormatOptions {
    pub indent_style: IndentStyle,
    pub indent_width: IndentWidth,
    pub line_ending: LineEnding,
    pub line_width: LineWidth,
}

impl FormatOptions {
    /// Options made of the four values given. The widths are validated:
    /// an indent width outside its range is refused first, then a line
    /// width outside its range.
    pub fn new(
        indent_style: IndentStyle,
        indent_width: u8,
        line_ending: LineEnding,
        line_width: u16,
    ) -> (r: Result<FormatOptions, FormatError>)
        ensures
            !(MIN_INDENT_WIDTH <= indent_width <= MAX_INDENT_WIDTH) ==> r == Err::<
                FormatOptions,
                FormatError,
            >(FormatError::InvalidIndentWidth),
            (MIN_INDENT_WIDTH <= indent_width <= MAX_INDENT_WIDTH) && !(MIN_LINE_WIDTH
                <= line_width <= MAX_LINE_WIDTH) ==> r == Err::<FormatOptions, FormatError>(
                FormatError::InvalidLineWidth,
            ),
            (MIN_INDENT_WIDTH <= indent_width <= MAX_INDENT_WIDTH) && (MIN_LINE_WIDTH <= line_width
                <= MAX_LINE_WIDTH) ==> r is Ok && r->Ok_0.indent_style == indent_style
                && r->Ok_0.indent_width.spec_value() == indent_width && r->Ok_0.line_ending
                == line_ending && r->Ok_0.line_width.spec_value() == line_width,
    {
        let indent = match IndentWidth::new(indent_width) {
            Ok(width) => width,
            Err(error) => {
                return Err(error);
            },
        };
        let line = match LineWidth::new(line_width) {
            Ok(width) => width,
            Err(error) => {
                return Err(error);
            },
        };
        Ok(
            FormatOptions {
                indent_style,
                indent_width: indent,
                line_ending,
                line_width: line,
            },
        )
    }

    pub fn with_indent_style(self, indent_style: IndentStyle) -> (r: FormatOptions)
        ensures
            r == (FormatOptions { indent_style, ..self }),
    {
        FormatOptions { indent_style, ..self }
    }

    pub fn with_indent_width(self, indent_width: IndentWidth) -> (r: FormatOptions)
        ensures
            r == (FormatOptions { indent_width, ..self }),
    {
        FormatOptions { indent_width, ..self }
    }

    pub fn with_line_ending(self, line_ending: LineEnding) -> (r: FormatOptions)
        ensures
            r == (FormatOptions { line_ending, ..self }),
    {
        FormatOptions { line_ending, ..self }
    }

    pub fn with_line_width(self, line_width: LineWidth) -> (r: FormatOptions)
        ensures
            r == (FormatOptions { line_width, ..self }),
    {
        FormatOptions { line_width, ..self }
    }

    pub fn indent_style(&self) -> (r: IndentStyle)
        ensures
            r == self.indent_style,
    {
        self.indent_style
    }

    pub fn indent_width(&self) -> (r: IndentWidth)
        ensures
            r == self.indent_width,
    {
        self.indent_width
    }

    pub fn line_ending(&self) -> (r: LineEnding)
        ensures
            r == self.line_ending,
    {
        self.line_ending
    }

    pub fn line_width(&self) -> (r: LineWidth)
        ensures
            r == self.line_width,
    {
        self.line_width
    }
}

impl Default for FormatOptions {
    /// Spaces, two to a level, lines of 80 columns that end in `\n`.
    fn default() -> (r: FormatOptions)
        ensures
            r.indent_style == IndentStyle::Space,
            r.indent_width.spec_value() == DEFAULT_INDENT_WIDTH,
            r.line_ending == LineEnding::Lf,
            r.line_width.spec_value() == DEFAULT_LINE_WIDTH,
    {
        FormatOptions {
            indent_style: IndentStyle::Space,
            indent_width: IndentWidth::default(),
            line_ending: LineEnding::Lf,
            line_width: LineWidth::default(),
        }
    }
}

} // verus!
