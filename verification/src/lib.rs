//! A lossless, error-recovering front end and a width-aware pretty printer
//! for a CSS-family language.
//!
//! Text is handled as bytes throughout. [`syntax::parse`] turns source text
//! into a syntax tree that retains every byte of its input,
//! [`format::format_node`] lays that tree out under a set of
//! [`options::FormatOptions`], and [`range::format_range`] does the same for
//! the construct that encloses a requested span.
//!
//! The modules follow the pipeline: [`kind`] and [`lexer`] (kinds and
//! tokens), [`parser`] (the marker-based builder), [`syntax`] (the grammar
//! and the dispatch of at-rules), [`tree`] (the tree and its assembly from
//! the event log), [`options`], [`document`], [`format`] (the layout),
//! [`printer`] and [`range`].
//!
//! What is proved of the pipeline as a whole stands in modules of its own:
//! [`normal`] (line breaks in printed text), [`grounding`] (the leaves of
//! the tree are the tokens of the text), [`placing`] (where the printer
//! puts the tokens), [`relex`] and [`rereading`] (the output is read as
//! the tokens that were printed), [`reparse`] (parsing reads kinds and
//! keywords only), [`rebuilding`] (the tree of the output) and
//! [`fixpoint`] (formatting is idempotent).
pub mod document;
pub mod fixpoint;
pub mod format;
pub mod grounding;
pub mod kind;
pub mod lexer;
pub mod normal;
pub mod options;
pub mod parser;
pub mod placing;
pub mod printer;
pub mod range;
pub mod rebuilding;
pub mod relex;
pub mod reparse;
pub mod rereading;
pub mod syntax;
pub mod tree;
