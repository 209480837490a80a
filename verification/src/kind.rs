//! Token and node categories, and the keywords that introduce at-rules.
use biome_css_syntax::CssSyntaxKind;
use vstd::prelude::*;

verus! {

/// The category of a terminal.
#[derive(Clone, Copy, Debug, PartialEq, Eq, Hash, Structural)]
pub enum TokenKind {
    /// `@`
    At,
    /// `{`
    LCurly,
    /// `}`
    RCurly,
    /// `;`
    Semicolon,
    /// `:`
    Colon,
    /// `,`
    Comma,
    /// A name: a run of identifier bytes that does not start with a digit.
    Ident,
    /// A run of identifier bytes, dots and percent signs that starts with a digit.
    Number,
    /// A quoted string, up to its closing quote; one that its line cuts
    /// short ends with the line break.
    Str,
    /// A quoted string that the end of the input cuts short.
    OpenStr,
    /// A `/* ... */` comment. Comments are ordinary leaves of the tree.
    Comment,
    /// A comment that the end of the input cuts short.
    OpenComment,
    /// Any other single byte.
    Delim,
    /// A run of spaces and tabs.
    Whitespace,
    /// One line break: `\n`, `\r` or `\r\n`.
    Newline,
    /// The end of the input. It has no text of its own.
    Eof,
}

impl TokenKind {
    /// The kinds of token that the end of the input cuts short. Such a
    /// token takes in all that follows it.
    pub open spec fn spec_is_open(self) -> bool {
        self == TokenKind::OpenStr || self == TokenKind::OpenComment
    }

    #[verifier::when_used_as_spec(spec_is_open)]
    pub fn is_open(self) -> (r: bool)
        ensures
            r == self.spec_is_open(),
    {
        self == TokenKind::OpenStr || self == TokenKind::OpenComment
    }

    /// Trivia is what the parser steps over: blanks and line breaks.
    pub open spec fn spec_is_trivia(self) -> bool {
        self == TokenKind::Whitespace || self == TokenKind::Newline
    }

    #[verifier::when_used_as_spec(spec_is_trivia)]
    pub fn is_trivia(self) -> (r: bool)
        ensures
            r == self.spec_is_trivia(),
    {
        self == TokenKind::Whitespace || self == TokenKind::Newline
    }
}

/// The category of a node of the syntax tree.
#[derive(Clone, Copy, Debug, PartialEq, Eq, Hash, Structural)]
pub enum NodeKind {
    /// The kind an open marker carries until it is completed.
    Tombstone,
    Root,
    /// `@` followed by one recognized production.
    AtRule,
    /// An at-rule that no production accepted, kept as raw tokens.
    BogusRule,
    CharsetAtRule,
    ColorProfileAtRule,
    CounterStyleAtRule,
    ContainerAtRule,
    FontFaceAtRule,
    FontPaletteValuesAtRule,
    MediaAtRule,
    KeyframesAtRule,
    /// A prelude followed by a block.
    QualifiedRule,
    /// `{`, the items inside, and `}`.
    Block,
    /// A run of tokens up to and including its `;`.
    Declaration,
    /// Tokens that cannot start any construct where they stand.
    Bogus,
}

impl NodeKind {
    /// The reserved kinds that hold unrecognized input.
    pub open spec fn spec_is_bogus(self) -> bool {
        self == NodeKind::BogusRule || self == NodeKind::Bogus
    }

    #[verifier::when_used_as_spec(spec_is_bogus)]
    pub fn is_bogus(self) -> (r: bool)
        ensures
            r == self.spec_is_bogus(),
    {
        self == NodeKind::BogusRule || self == NodeKind::Bogus
    }
}

/// The productions that an `@` can introduce, in the order in which the
/// dispatcher tries them.
#[derive(Clone, Copy, Debug, PartialEq, Eq, Hash, Structural)]
pub enum Production {
    Charset,
    ColorProfile,
    CounterStyle,
    Container,
    FontFace,
    FontPaletteValues,
    Media,
    Keyframes,
}

impl Production {
    /// The node kind that a successful run of this production leaves behind.
    pub open spec fn spec_node_kind(self) -> NodeKind {
        match self {
            Production::Charset => NodeKind::CharsetAtRule,
            Production::ColorProfile => NodeKind::ColorProfileAtRule,
            Production::CounterStyle => NodeKind::CounterStyleAtRule,
            Production::Container => NodeKind::ContainerAtRule,
            Production::FontFace => NodeKind::FontFaceAtRule,
            Production::FontPaletteValues => NodeKind::FontPaletteValuesAtRule,
            Production::Media => NodeKind::MediaAtRule,
            Production::Keyframes => NodeKind::KeyframesAtRule,
        }
    }

    #[verifier::when_used_as_spec(spec_node_kind)]
    pub fn node_kind(self) -> (r: NodeKind)
        ensures
            r == self.spec_node_kind(),
    {
        match self {
            Production::Charset => NodeKind::CharsetAtRule,
            Production::ColorProfile => NodeKind::ColorProfileAtRule,
            Production::CounterStyle => NodeKind::CounterStyleAtRule,
            Production::Container => NodeKind::ContainerAtRule,
            Production::FontFace => NodeKind::FontFaceAtRule,
            Production::FontPaletteValues => NodeKind::FontPaletteValuesAtRule,
            Production::Media => NodeKind::MediaAtRule,
            Production::Keyframes => NodeKind::KeyframesAtRule,
        }
    }
}

/// The bytes of `bytes` read as one character each.
pub open spec fn byte_chars(bytes: Seq<u8>) -> Seq<char> {
    bytes.map_values(|b: u8| b as char)
}

/// The production whose keyword is spelled by `name`, byte for byte and in
/// lower case.
pub open spec fn production_named(name: Seq<u8>) -> Option<Production> {
    let word = byte_chars(name);
    if word == "charset"@ {
        Some(Production::Charset)
    } else if word == "color-profile"@ {
        Some(Production::ColorProfile)
    } else if word == "counter-style"@ {
        Some(Production::CounterStyle)
    } else if word == "container"@ {
        Some(Production::Container)
    } else if word == "font-face"@ {
        Some(Production::FontFace)
    } else if word == "font-palette-values"@ {
        Some(Production::FontPaletteValues)
    } else if word == "media"@ {
        Some(Production::Media)
    } else if word == "keyframes"@ {
        Some(Production::Keyframes)
    } else {
        None
    }
}

/// Looks `name` up in the keyword table of `biome_css_syntax`, through
/// `CssSyntaxKind::from_keyword`, and keeps the eight keywords that introduce
/// an at-rule here. The contract claims that the table spells each of them as
/// [`production_named`] does, and that text which is no keyword of the table,
/// or no UTF-8 at all, gives `None`.
#[verifier::external_body]
pub(crate) fn keyword_production(name: &[u8]) -> (r: Option<Production>)
    ensures
        r == production_named(name@),
{
    let Ok(ident) = std::str::from_utf8(name) else { return None; };
    match CssSyntaxKind::from_keyword(ident) {
        Some(CssSyntaxKind::CHARSET_KW) => Some(Production::Charset),
        Some(CssSyntaxKind::COLOR_PROFILE_KW) => Some(Production::ColorProfile),
        Some(CssSyntaxKind::COUNTER_STYLE_KW) => Some(Production::CounterStyle),
        Some(CssSyntaxKind::CONTAINER_KW) => Some(Production::Container),
        Some(CssSyntaxKind::FONT_FACE_KW) => Some(Production::FontFace),
        Some(CssSyntaxKind::FONT_PALETTE_VALUES_KW) => Some(Production::FontPaletteValues),
        Some(CssSyntaxKind::MEDIA_KW) => Some(Production::Media),
        Some(CssSyntaxKind::KEYFRAMES_KW) => Some(Production::Keyframes),
        _ => None,
    }
}

} // verus!
