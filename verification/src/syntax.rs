//! The grammar: the rule list, blocks, declarations, and the predictive
//! dispatch of at-rules with its fallback to an unrecognized node.
//!
//! Each rule is stated twice. A spec function (`..._outcome`) says, from the
//! tokens and a position alone, what the rule logs and where it ends; the
//! executable function of the same rule is proved to do exactly that to the
//! parser.
//!
//! Recovery. An at-rule that no production accepts becomes one
//! [`NodeKind::BogusRule`] node holding its tokens flat. It ends behind the
//! first `;` outside braces, or behind the `}` that matches the first `{`, or
//! before a `}` that closes an enclosing block, or at the end of the input,
//! whichever comes first. The next construct starts right there.
use crate::kind::NodeKind;
use crate::kind::Production;
use crate::kind::TokenKind;
use crate::lexer::lemma_tokens_tile;
use crate::lexer::Token;
use crate::lexer::tokenize;
use crate::lexer::tokens_of;
use crate::parser::advance;
use crate::parser::CompletedMarker;
use crate::parser::consumed;
use crate::parser::Diagnostic;
use crate::parser::DiagnosticKind;
use crate::parser::end_offset;
use crate::parser::eof_event;
use crate::parser::Event;
use crate::parser::keyword_at;
use crate::parser::kind_at;
use crate::parser::lemma_consumed_split;
use crate::parser::lemma_consumed_step;
use crate::parser::lemma_next_significant;
use crate::parser::next_significant;
use crate::parser::Outcome;
use crate::parser::ParsedSyntax;
use crate::parser::Parser;
use crate::parser::start_at;
use crate::parser::token_event;
use crate::tree::build;
use crate::tree::build_tree;
use crate::tree::Built;
use crate::tree::complete;
use crate::tree::leaf_at;
use crate::tree::lemma_build_text;
use crate::tree::lemma_complete_concat;
use crate::tree::lemma_complete_empty;
use crate::tree::lemma_complete_node;
use crate::tree::lemma_complete_token;
use crate::tree::lemma_holds_at_itself;
use crate::tree::lemma_holds_at_parts;
use crate::tree::lemma_tree_of_text;
use crate::tree::stands_alone;
use crate::tree::SyntaxNode;
use crate::tree::Tree;
use crate::tree::tree_of;
use vstd::prelude::*;

verus! {

/// The kinds that end a flat run of tokens: `{`, `}`, `;` and the end of the
/// input.
pub open spec fn spec_ends_run(kind: TokenKind) -> bool {
    kind == TokenKind::LCurly || kind == TokenKind::RCurly || kind == TokenKind::Semicolon || kind
        == TokenKind::Eof
}

#[verifier::when_used_as_spec(spec_ends_run)]
pub fn ends_run(kind: TokenKind) -> (r: bool)
    ensures
        r == spec_ends_run(kind),
{
    kind == TokenKind::LCurly || kind == TokenKind::RCurly || kind == TokenKind::Semicolon || kind
        == TokenKind::Eof
}

/// Where the flat run of tokens that starts at `pos` ends: at the first
/// token from `pos` on whose kind ends a run.
pub open spec fn run_end(tokens: Seq<Token>, pos: int) -> int
    decreases tokens.len() - pos,
{
    if ends_run(kind_at(tokens, pos)) {
        pos
    } else {
        proof {
            lemma_next_significant(tokens, pos + 1);
        }
        run_end(tokens, advance(tokens, pos))
    }
}

/// Where the braces that are `depth` deep at `pos` are all closed again, or
/// the end of the input.
pub open spec fn skip_balanced(tokens: Seq<Token>, pos: int, depth: nat) -> int
    decreases tokens.len() - pos,
{
    if kind_at(tokens, pos) == TokenKind::Eof || depth == 0 {
        pos
    } else {
        proof {
            lemma_next_significant(tokens, pos + 1);
        }
        if tokens[pos].kind == TokenKind::LCurly {
            skip_balanced(tokens, advance(tokens, pos), depth + 1)
        } else if tokens[pos].kind == TokenKind::RCurly {
            skip_balanced(tokens, advance(tokens, pos), (depth - 1) as nat)
        } else {
            skip_balanced(tokens, advance(tokens, pos), depth)
        }
    }
}

/// The recovery boundary of an unrecognized construct whose tokens start at
/// `pos`.
pub open spec fn recovery_end(tokens: Seq<Token>, pos: int) -> int {
    let stop = run_end(tokens, pos);
    if kind_at(tokens, stop) == TokenKind::Semicolon {
        advance(tokens, stop)
    } else if kind_at(tokens, stop) == TokenKind::LCurly {
        skip_balanced(tokens, advance(tokens, stop), 1)
    } else {
        stop
    }
}

pub open spec fn is_at_charset_at_rule_at(tokens: Seq<Token>, pos: int) -> bool {
    keyword_at(tokens, pos) == Some(Production::Charset)
}

pub open spec fn is_color_profile_at_rule_at(tokens: Seq<Token>, pos: int) -> bool {
    keyword_at(tokens, pos) == Some(Production::ColorProfile)
}

pub open spec fn is_at_counter_style_at_rule_at(tokens: Seq<Token>, pos: int) -> bool {
    keyword_at(tokens, pos) == Some(Production::CounterStyle)
}

pub open spec fn is_at_container_at_rule_at(tokens: Seq<Token>, pos: int) -> bool {
    keyword_at(tokens, pos) == Some(Production::Container)
}

pub open spec fn is_at_font_face_at_rule_at(tokens: Seq<Token>, pos: int) -> bool {
    keyword_at(tokens, pos) == Some(Production::FontFace)
}

pub open spec fn is_at_font_palette_values_at_rule_at(tokens: Seq<Token>, pos: int) -> bool {
    keyword_at(tokens, pos) == Some(Production::FontPaletteValues)
}

pub open spec fn is_at_media_at_rule_at(tokens: Seq<Token>, pos: int) -> bool {
    keyword_at(tokens, pos) == Some(Production::Media)
}

pub open spec fn is_at_keyframes_at_rule_at(tokens: Seq<Token>, pos: int) -> bool {
    keyword_at(tokens, pos) == Some(Production::Keyframes)
}

/// The predicate of `production`.
pub open spec fn predicate(production: Production, tokens: Seq<Token>, pos: int) -> bool {
    match production {
        Production::Charset => is_at_charset_at_rule_at(tokens, pos),
        Production::ColorProfile => is_color_profile_at_rule_at(tokens, pos),
        Production::CounterStyle => is_at_counter_style_at_rule_at(tokens, pos),
        Production::Container => is_at_container_at_rule_at(tokens, pos),
        Production::FontFace => is_at_font_face_at_rule_at(tokens, pos),
        Production::FontPaletteValues => is_at_font_palette_values_at_rule_at(tokens, pos),
        Production::Media => is_at_media_at_rule_at(tokens, pos),
        Production::Keyframes => is_at_keyframes_at_rule_at(tokens, pos),
    }
}

/// The production that the dispatcher picks at `pos`: the first, in the
/// order of their declaration, whose predicate holds there.
pub open spec fn classified(tokens: Seq<Token>, pos: int) -> Option<Production> {
    if is_at_charset_at_rule_at(tokens, pos) {
        Some(Production::Charset)
    } else if is_color_profile_at_rule_at(tokens, pos) {
        Some(Production::ColorProfile)
    } else if is_at_counter_style_at_rule_at(tokens, pos) {
        Some(Production::CounterStyle)
    } else if is_at_container_at_rule_at(tokens, pos) {
        Some(Production::Container)
    } else if is_at_font_face_at_rule_at(tokens, pos) {
        Some(Production::FontFace)
    } else if is_at_font_palette_values_at_rule_at(tokens, pos) {
        Some(Production::FontPaletteValues)
    } else if is_at_media_at_rule_at(tokens, pos) {
        Some(Production::Media)
    } else if is_at_keyframes_at_rule_at(tokens, pos) {
        Some(Production::Keyframes)
    } else {
        None
    }
}

/// What must stand between the keyword of `production` and its body: the
/// tokens with positions `start..end`.
pub open spec fn prelude_accepted(
    production: Production,
    tokens: Seq<Token>,
    start: int,
    end: int,
) -> bool {
    let single = start < end && advance(tokens, start) == end;
    match production {
        Production::Charset => single && kind_at(tokens, start) == TokenKind::Str,
        Production::FontFace => start == end,
        Production::Media => start < end,
        Production::Container => start < end,
        Production::Keyframes => single && (kind_at(tokens, start) == TokenKind::Ident || kind_at(
            tokens,
            start,
        ) == TokenKind::Str),
        Production::ColorProfile => single && kind_at(tokens, start) == TokenKind::Ident,
        Production::CounterStyle => single && kind_at(tokens, start) == TokenKind::Ident,
        Production::FontPaletteValues => single && kind_at(tokens, start) == TokenKind::Ident,
    }
}

/// The token with which the body of `production` begins: `;` ends a
/// statement, `{` opens a block.
pub open spec fn spec_body_start(production: Production) -> TokenKind {
    if production == Production::Charset {
        TokenKind::Semicolon
    } else {
        TokenKind::LCurly
    }
}

#[verifier::when_used_as_spec(spec_body_start)]
pub fn body_start(production: Production) -> (r: TokenKind)
    ensures
        r == spec_body_start(production),
{
    match production {
        Production::Charset => TokenKind::Semicolon,
        _ => TokenKind::LCurly,
    }
}

/// Whether `production` accepts what stands at `pos`, its keyword.
pub open spec fn production_accepts(production: Production, tokens: Seq<Token>, pos: int) -> bool {
    let start = advance(tokens, pos);
    let end = run_end(tokens, start);
    &&& keyword_at(tokens, pos) == Some(production)
    &&& prelude_accepted(production, tokens, start, end)
    &&& kind_at(tokens, end) == body_start(production)
}

/// A `}` where nothing is open: one bogus node and a diagnostic.
pub open spec fn stray_outcome(tokens: Seq<Token>, pos: int) -> Outcome {
    Outcome {
        present: true,
        events: seq![
            Event::Start { kind: NodeKind::Bogus },
            token_event(tokens, pos),
            Event::Finish,
        ],
        end: advance(tokens, pos),
        diagnostics: seq![
            Diagnostic {
                kind: DiagnosticKind::UnexpectedClosingBrace,
                start: start_at(tokens, pos),
                end: start_at(tokens, advance(tokens, pos)),
            },
        ],
    }
}

/// The items from `pos` on: up to the end of the input, or, inside a block
/// (`nested`), up to the `}` that closes it.
pub open spec fn items_outcome(tokens: Seq<Token>, pos: int, nested: bool) -> Outcome
    decreases tokens.len() - pos, 5int,
{
    if kind_at(tokens, pos) == TokenKind::Eof {
        Outcome::nothing(pos)
    } else if tokens[pos].kind == TokenKind::RCurly {
        if nested {
            Outcome::nothing(pos)
        } else {
            proof {
                lemma_next_significant(tokens, pos + 1);
            }
            stray_outcome(tokens, pos).followed_by(
                items_outcome(tokens, advance(tokens, pos), nested),
            )
        }
    } else {
        let first = item_outcome(tokens, pos);
        if pos < first.end <= tokens.len() {
            first.followed_by(items_outcome(tokens, first.end, nested))
        } else {
            Outcome::nothing(pos)
        }
    }
}

/// One item: an at-rule where an `@` stands, else a declaration or a
/// qualified rule.
pub open spec fn item_outcome(tokens: Seq<Token>, pos: int) -> Outcome
    decreases tokens.len() - pos, 4int,
{
    if kind_at(tokens, pos) == TokenKind::Eof {
        Outcome::absent(pos)
    } else if tokens[pos].kind == TokenKind::At {
        at_rule_outcome(tokens, pos)
    } else {
        declaration_or_rule_outcome(tokens, pos)
    }
}

/// A run of tokens and what ends it: with `;` a declaration, with a block a
/// qualified rule, and a declaration without its `;` before `}` or the end.
pub open spec fn declaration_or_rule_outcome(tokens: Seq<Token>, pos: int) -> Outcome
    decreases tokens.len() - pos, 3int,
{
    if kind_at(tokens, pos) == TokenKind::Eof {
        Outcome::absent(pos)
    } else {
        let end = run_end(tokens, pos);
        let run = Outcome::step(consumed(tokens, pos, end), end);
        if kind_at(tokens, end) == TokenKind::Semicolon {
            run.followed_by(Outcome::step(seq![token_event(tokens, end)], advance(tokens, end)))
                .wrapped(NodeKind::Declaration)
        } else if kind_at(tokens, end) == TokenKind::LCurly && pos <= end {
            run.followed_by(block_outcome(tokens, end)).wrapped(NodeKind::QualifiedRule)
        } else {
            run.wrapped(NodeKind::Declaration)
        }
    }
}

/// An at-rule: `@`, then the production that the dispatcher picks. Where
/// there is none, or the one picked does not accept what follows, the
/// tokens up to the recovery boundary become one unrecognized node, and a
/// diagnostic is logged.
pub open spec fn at_rule_outcome(tokens: Seq<Token>, pos: int) -> Outcome
    decreases tokens.len() - pos, 3int,
{
    if kind_at(tokens, pos) != TokenKind::At {
        Outcome::absent(pos)
    } else {
        proof {
            lemma_next_significant(tokens, pos + 1);
        }
        let lead = Outcome::step(seq![token_event(tokens, pos)], advance(tokens, pos));
        let inner = any_at_rule_outcome(tokens, advance(tokens, pos));
        if inner.present {
            lead.followed_by(inner).wrapped(NodeKind::AtRule)
        } else {
            let end = recovery_end(tokens, advance(tokens, pos));
            lead.followed_by(
                Outcome {
                    present: true,
                    events: consumed(tokens, advance(tokens, pos), end),
                    end,
                    diagnostics: seq![
                        Diagnostic {
                            kind: DiagnosticKind::UnrecognizedAtRule,
                            start: start_at(tokens, pos),
                            end: start_at(tokens, end),
                        },
                    ],
                },
            ).wrapped(NodeKind::BogusRule)
        }
    }
}

/// The dispatcher: the outcome of the production picked at `pos`, and
/// absent where no predicate holds.
pub open spec fn any_at_rule_outcome(tokens: Seq<Token>, pos: int) -> Outcome
    decreases tokens.len() - pos, 2int,
{
    match classified(tokens, pos) {
        Some(production) => production_outcome(tokens, pos, production),
        None => Outcome::absent(pos),
    }
}

/// One production at its keyword: the keyword, the prelude, and the body,
/// in one node of the production's kind; absent, with nothing consumed,
/// where the production does not accept what stands there.
pub open spec fn production_outcome(tokens: Seq<Token>, pos: int, production: Production) -> Outcome
    decreases tokens.len() - pos, 1int,
{
    if !production_accepts(production, tokens, pos) {
        Outcome::absent(pos)
    } else {
        let start = advance(tokens, pos);
        let end = run_end(tokens, start);
        let head = Outcome::step(seq![token_event(tokens, pos)], start).followed_by(
            Outcome::step(consumed(tokens, start, end), end),
        );
        if production == Production::Charset {
            head.followed_by(Outcome::step(seq![token_event(tokens, end)], advance(tokens, end)))
                .wrapped(production.node_kind())
        } else if pos < end {
            head.followed_by(block_outcome(tokens, end)).wrapped(production.node_kind())
        } else {
            Outcome::absent(pos)
        }
    }
}

/// A block: `{`, the items inside, and `}`. Where the input ends first, the
/// block is closed there and a diagnostic is logged.
pub open spec fn block_outcome(tokens: Seq<Token>, pos: int) -> Outcome
    decreases tokens.len() - pos, 0int,
{
    if kind_at(tokens, pos) != TokenKind::LCurly {
        Outcome::absent(pos)
    } else {
        proof {
            lemma_next_significant(tokens, pos + 1);
        }
        let open = Outcome::step(seq![token_event(tokens, pos)], advance(tokens, pos));
        let inner = items_outcome(tokens, advance(tokens, pos), true);
        if kind_at(tokens, inner.end) == TokenKind::RCurly {
            open.followed_by(inner).followed_by(
                Outcome::step(seq![token_event(tokens, inner.end)], advance(tokens, inner.end)),
            ).wrapped(NodeKind::Block)
        } else {
            open.followed_by(inner).followed_by(
                Outcome {
                    present: true,
                    events: Seq::empty(),
                    end: inner.end,
                    diagnostics: seq![
                        Diagnostic {
                            kind: DiagnosticKind::MissingClosingBrace,
                            start: start_at(tokens, pos),
                            end: end_offset(tokens),
                        },
                    ],
                },
            ).wrapped(NodeKind::Block)
        }
    }
}

/// The whole input: every item, then the end of the input as a leaf, in
/// one root node.
pub open spec fn root_outcome(tokens: Seq<Token>) -> Outcome {
    items_outcome(tokens, next_significant(tokens, 0), false).followed_by(
        Outcome::step(seq![eof_event(tokens)], tokens.len() as int),
    ).wrapped(NodeKind::Root)
}

pub proof fn lemma_followed_by_nothing(a: Outcome)
    requires
        a.present,
    ensures
        a.followed_by(Outcome::nothing(a.end)) == a,
        Outcome::nothing(a.end).followed_by(a) == a,
{
    assert(a.events + Seq::<Event>::empty() =~= a.events);
    assert(a.diagnostics + Seq::<Diagnostic>::empty() =~= a.diagnostics);
    assert(Seq::<Event>::empty() + a.events =~= a.events);
    assert(Seq::<Diagnostic>::empty() + a.diagnostics =~= a.diagnostics);
}

pub proof fn lemma_followed_by_assoc(a: Outcome, b: Outcome, c: Outcome)
    ensures
        a.followed_by(b).followed_by(c) == a.followed_by(b.followed_by(c)),
{
    assert((a.events + b.events) + c.events =~= a.events + (b.events + c.events));
    assert((a.diagnostics + b.diagnostics) + c.diagnostics =~= a.diagnostics + (b.diagnostics
        + c.diagnostics));
}

/// A run ends inside the input, at a token that ends it.
pub proof fn lemma_run_end(tokens: Seq<Token>, pos: int)
    requires
        0 <= pos <= tokens.len(),
        next_significant(tokens, pos) == pos,
    ensures
        pos <= run_end(tokens, pos) <= tokens.len(),
        ends_run(kind_at(tokens, run_end(tokens, pos))),
        next_significant(tokens, run_end(tokens, pos)) == run_end(tokens, pos),
        !ends_run(kind_at(tokens, pos)) ==> pos < run_end(tokens, pos),
    decreases tokens.len() - pos,
{
    if !ends_run(kind_at(tokens, pos)) {
        lemma_next_significant(tokens, pos + 1);
        lemma_run_end(tokens, advance(tokens, pos));
    }
}

/// Consumes the flat run of tokens at the cursor. The count that comes back
/// is 0 for an empty run, 1 for a run of one token, and 2 for a longer one.
pub fn bump_run(p: &mut Parser) -> (count: u8)
    requires
        old(p).wf(),
    ensures
        final(p).follows(
            *old(p),
            Outcome::step(
                consumed(
                    old(p).tokens(),
                    old(p).position(),
                    run_end(old(p).tokens(), old(p).position()),
                ),
                run_end(old(p).tokens(), old(p).position()),
            ),
        ),
        old(p).position() <= final(p).position() <= old(p).tokens().len(),
        count <= 2,
        (count == 0) == (final(p).position() == old(p).position()),
        (count == 1) == (old(p).position() < final(p).position() && advance(
            old(p).tokens(),
            old(p).position(),
        ) == final(p).position()),
{
    let ghost tokens = p.tokens();
    let ghost pos0 = p.position();
    let ghost events0 = p.events();
    let ghost open0 = p.open_markers();
    let ghost diagnostics0 = p.diagnostics();
    let mut count: u8 = 0;
    proof {
        p.lemma_position();
        assert(events0 + consumed(tokens, pos0, pos0) =~= events0);
    }
    while !ends_run(p.cur())
        invariant
            p.wf(),
            p.tokens() == tokens,
            p.open_markers() == open0,
            p.diagnostics() == diagnostics0,
            0 <= pos0 <= p.position() <= tokens.len(),
            p.events() == events0 + consumed(tokens, pos0, p.position()),
            run_end(tokens, pos0) == run_end(tokens, p.position()),
            count <= 2,
            (count == 0) == (p.position() == pos0),
            count == 1 ==> p.position() == advance(tokens, pos0),
            count == 2 ==> p.position() > advance(tokens, pos0),
        decreases tokens.len() - p.position(),
    {
        proof {
            p.lemma_position();
            lemma_consumed_step(tokens, p.position());
            lemma_consumed_split(tokens, pos0, p.position(), advance(tokens, p.position()));
            assert(events0 + consumed(tokens, pos0, p.position()).push(
                token_event(tokens, p.position()),
            ) =~= events0 + (consumed(tokens, pos0, p.position()) + seq![
                token_event(tokens, p.position()),
            ]));
            assert((events0 + consumed(tokens, pos0, p.position())).push(
                token_event(tokens, p.position()),
            ) =~= events0 + consumed(tokens, pos0, p.position()).push(
                token_event(tokens, p.position()),
            ));
        }
        p.bump_any();
        if count < 2 {
            count = count + 1;
        }
    }
    proof {
        assert(diagnostics0 + Seq::<Diagnostic>::empty() =~= diagnostics0);
        if count >= 1 {
            lemma_next_significant(tokens, pos0 + 1);
        }
    }
    count
}

/// Consumes tokens until the braces that are `depth` deep at the cursor are
/// all closed, or the input ends.
fn bump_balanced(p: &mut Parser, depth: usize)
    requires
        old(p).wf(),
        depth <= old(p).position(),
    ensures
        final(p).follows(
            *old(p),
            Outcome::step(
                consumed(
                    old(p).tokens(),
                    old(p).position(),
                    skip_balanced(old(p).tokens(), old(p).position(), depth as nat),
                ),
                skip_balanced(old(p).tokens(), old(p).position(), depth as nat),
            ),
        ),
        old(p).position() <= final(p).position() <= old(p).tokens().len(),
{
    let ghost tokens = p.tokens();
    let ghost pos0 = p.position();
    let ghost events0 = p.events();
    let ghost open0 = p.open_markers();
    let ghost diagnostics0 = p.diagnostics();
    let mut level: usize = depth;
    proof {
        p.lemma_position();
        assert(events0 + consumed(tokens, pos0, pos0) =~= events0);
    }
    while level > 0 && !p.at(TokenKind::Eof)
        invariant
            p.wf(),
            p.tokens() == tokens,
            p.open_markers() == open0,
            p.diagnostics() == diagnostics0,
            0 <= pos0 <= p.position() <= tokens.len() <= usize::MAX,
            p.events() == events0 + consumed(tokens, pos0, p.position()),
            skip_balanced(tokens, pos0, depth as nat) == skip_balanced(
                tokens,
                p.position(),
                level as nat,
            ),
            level <= p.position(),
        decreases tokens.len() - p.position(),
    {
        proof {
            p.lemma_position();
            lemma_consumed_step(tokens, p.position());
            lemma_consumed_split(tokens, pos0, p.position(), advance(tokens, p.position()));
            assert((events0 + consumed(tokens, pos0, p.position())).push(
                token_event(tokens, p.position()),
            ) =~= events0 + (consumed(tokens, pos0, p.position()) + seq![
                token_event(tokens, p.position()),
            ]));
        }
        let kind = p.cur();
        p.bump_any();
        if kind == TokenKind::LCurly {
            level = level + 1;
        } else if kind == TokenKind::RCurly {
            level = level - 1;
        }
    }
    proof {
        assert(diagnostics0 + Seq::<Diagnostic>::empty() =~= diagnostics0);
    }
}

/// Consumes the tokens of an unrecognized construct up to its recovery
/// boundary.
pub fn recover(p: &mut Parser)
    requires
        old(p).wf(),
    ensures
        final(p).follows(
            *old(p),
            Outcome::step(
                consumed(
                    old(p).tokens(),
                    old(p).position(),
                    recovery_end(old(p).tokens(), old(p).position()),
                ),
                recovery_end(old(p).tokens(), old(p).position()),
            ),
        ),
        old(p).position() <= final(p).position() <= old(p).tokens().len(),
{
    let ghost tokens = p.tokens();
    let ghost pos0 = p.position();
    let ghost before = *p;
    bump_run(p);
    let ghost stop = p.position();
    let kind = p.cur();
    proof {
        p.lemma_position();
        if kind == TokenKind::Semicolon || kind == TokenKind::LCurly {
            lemma_consumed_step(tokens, stop);
        }
    }
    if kind == TokenKind::Semicolon {
        p.bump(TokenKind::Semicolon);
        proof {
            lemma_consumed_split(tokens, pos0, stop, p.position());
            assert(p.events() =~= before.events() + consumed(tokens, pos0, p.position()));
        }
    } else if kind == TokenKind::LCurly {
        p.bump(TokenKind::LCurly);
        let ghost inside = p.position();
        bump_balanced(p, 1);
        proof {
            lemma_consumed_split(tokens, stop, inside, p.position());
            lemma_consumed_split(tokens, pos0, stop, p.position());
            assert(p.events() =~= before.events() + consumed(tokens, pos0, p.position()));
        }
    }
    proof {
        assert(p.diagnostics() =~= before.diagnostics() + Seq::<Diagnostic>::empty());
    }
}

/// Whether an at-rule starts at the cursor.
pub fn at_at_rule(p: &Parser) -> (r: bool)
    requires
        p.wf(),
    ensures
        r == (kind_at(p.tokens(), p.position()) == TokenKind::At),
{
    p.at(TokenKind::At)
}

fn at_keyword(p: &Parser, production: Production) -> (r: bool)
    requires
        p.wf(),
    ensures
        r == (keyword_at(p.tokens(), p.position()) == Some(production)),
{
    match p.cur_keyword() {
        Some(found) => found == production,
        None => false,
    }
}

pub fn is_at_charset_at_rule(p: &Parser) -> (r: bool)
    requires
        p.wf(),
    ensures
        r == is_at_charset_at_rule_at(p.tokens(), p.position()),
{
    at_keyword(p, Production::Charset)
}

pub fn is_color_profile_at_rule(p: &Parser) -> (r: bool)
    requires
        p.wf(),
    ensures
        r == is_color_profile_at_rule_at(p.tokens(), p.position()),
{
    at_keyword(p, Production::ColorProfile)
}

pub fn is_at_counter_style_at_rule(p: &Parser) -> (r: bool)
    requires
        p.wf(),
    ensures
        r == is_at_counter_style_at_rule_at(p.tokens(), p.position()),
{
    at_keyword(p, Production::CounterStyle)
}

pub fn is_at_container_at_rule(p: &Parser) -> (r: bool)
    requires
        p.wf(),
    ensures
        r == is_at_container_at_rule_at(p.tokens(), p.position()),
{
    at_keyword(p, Production::Container)
}

pub fn is_at_font_face_at_rule(p: &Parser) -> (r: bool)
    requires
        p.wf(),
    ensures
        r == is_at_font_face_at_rule_at(p.tokens(), p.position()),
{
    at_keyword(p, Production::FontFace)
}

pub fn is_at_font_palette_values_at_rule(p: &Parser) -> (r: bool)
    requires
        p.wf(),
    ensures
        r == is_at_font_palette_values_at_rule_at(p.tokens(), p.position()),
{
    at_keyword(p, Production::FontPaletteValues)
}

pub fn is_at_media_at_rule(p: &Parser) -> (r: bool)
    requires
        p.wf(),
    ensures
        r == is_at_media_at_rule_at(p.tokens(), p.position()),
{
    at_keyword(p, Production::Media)
}

pub fn is_at_keyframes_at_rule(p: &Parser) -> (r: bool)
    requires
        p.wf(),
    ensures
        r == is_at_keyframes_at_rule_at(p.tokens(), p.position()),
{
    at_keyword(p, Production::Keyframes)
}

/// The production that the dispatcher picks at the cursor. A pure probe:
/// the parser is not changed.
pub fn classify(p: &Parser) -> (r: Option<Production>)
    requires
        p.wf(),
    ensures
        r == classified(p.tokens(), p.position()),
{
    if is_at_charset_at_rule(p) {
        Some(Production::Charset)
    } else if is_color_profile_at_rule(p) {
        Some(Production::ColorProfile)
    } else if is_at_counter_style_at_rule(p) {
        Some(Production::CounterStyle)
    } else if is_at_container_at_rule(p) {
        Some(Production::Container)
    } else if is_at_font_face_at_rule(p) {
        Some(Production::FontFace)
    } else if is_at_font_palette_values_at_rule(p) {
        Some(Production::FontPaletteValues)
    } else if is_at_media_at_rule(p) {
        Some(Production::Media)
    } else if is_at_keyframes_at_rule(p) {
        Some(Production::Keyframes)
    } else {
        None
    }
}

/// What a rule function promises: the parser follows the rule's outcome,
/// and the answer says whether the construct was there and where its node
/// lies in the log.
pub open spec fn rule_result(
    after: Parser,
    before: Parser,
    out: Outcome,
    result: ParsedSyntax,
) -> bool {
    &&& after.follows(before, out)
    &&& before.position() <= after.position() <= before.tokens().len()
    &&& result.is_present() == out.present
    &&& !out.present ==> out.end == before.position() && out.events.len() == 0
        && out.diagnostics.len() == 0
    &&& result matches ParsedSyntax::Present(done) ==> done.start_pos == before.events().len()
        && done.finish_pos + 1 == after.events().len()
}

/// Parses a block; the cursor stands on its `{`.
pub fn parse_block(p: &mut Parser) -> (r: ParsedSyntax)
    requires
        old(p).wf(),
    ensures
        rule_result(
            *final(p),
            *old(p),
            block_outcome(old(p).tokens(), old(p).position()),
            r,
        ),
        r.is_present() ==> old(p).position() < final(p).position(),
    decreases old(p).tokens().len() - old(p).position(), 0int,
{
    let ghost tokens = p.tokens();
    let ghost pos = p.position();
    let ghost before = *p;
    if !p.at(TokenKind::LCurly) {
        proof {
            p.lemma_position();
            assert(p.events() =~= p.events() + Seq::<Event>::empty());
            assert(p.diagnostics() =~= p.diagnostics() + Seq::<Diagnostic>::empty());
        }
        return ParsedSyntax::Absent;
    }
    proof {
        p.lemma_position();
        lemma_next_significant(tokens, pos + 1);
    }
    let start = p.cur_start();
    let m = p.start();
    p.bump(TokenKind::LCurly);
    parse_items(p, true);
    proof {
        p.lemma_position();
        if p.position() < tokens.len() {
            lemma_next_significant(tokens, p.position() + 1);
        }
    }
    if p.at(TokenKind::RCurly) {
        p.bump(TokenKind::RCurly);
    } else {
        let end = p.end_offset();
        p.error(Diagnostic { kind: DiagnosticKind::MissingClosingBrace, start, end });
    }
    let done = p.complete(m, NodeKind::Block);
    proof {
        let out = block_outcome(tokens, pos);
        assert(p.events() =~= before.events() + out.events);
        assert(p.diagnostics() =~= before.diagnostics() + out.diagnostics);
        assert(p.open_markers() =~= before.open_markers());
    }
    ParsedSyntax::Present(done)
}

/// Parses the items at the cursor: up to the end of the input, or, inside
/// a block (`nested`), up to the `}` that closes it.
pub fn parse_items(p: &mut Parser, nested: bool)
    requires
        old(p).wf(),
    ensures
        final(p).follows(*old(p), items_outcome(old(p).tokens(), old(p).position(), nested)),
        old(p).position() <= final(p).position(),
    decreases old(p).tokens().len() - old(p).position(), 6int,
{
    let ghost tokens = p.tokens();
    let ghost pos0 = p.position();
    let ghost before = *p;
    let ghost mut acc = Outcome::nothing(pos0);
    proof {
        p.lemma_position();
        lemma_followed_by_nothing(items_outcome(tokens, pos0, nested));
        assert(p.events() =~= p.events() + Seq::<Event>::empty());
        assert(p.diagnostics() =~= p.diagnostics() + Seq::<Diagnostic>::empty());
    }
    let mut kind = p.cur();
    while !(kind == TokenKind::Eof || (nested && kind == TokenKind::RCurly))
        invariant
            p.follows(before, acc),
            acc.present,
            kind == kind_at(tokens, p.position()),
            tokens == before.tokens(),
            pos0 == before.position(),
            tokens == old(p).tokens(),
            pos0 == old(p).position(),
            0 <= pos0 <= p.position() <= tokens.len(),
            items_outcome(tokens, pos0, nested) == acc.followed_by(
                items_outcome(tokens, p.position(), nested),
            ),
            items_outcome(tokens, p.position(), nested).present,
        decreases tokens.len() - p.position(),
    {
        let ghost here = p.position();
        let ghost mid = *p;
        let ghost step;
        proof {
            p.lemma_position();
            lemma_next_significant(tokens, here + 1);
        }
        if kind == TokenKind::RCurly {
            let start = p.cur_start();
            let m = p.start();
            p.bump(TokenKind::RCurly);
            p.complete(m, NodeKind::Bogus);
            let end = p.cur_start();
            p.error(Diagnostic { kind: DiagnosticKind::UnexpectedClosingBrace, start, end });
            proof {
                step = stray_outcome(tokens, here);
                assert(p.events() =~= mid.events() + step.events);
                assert(p.open_markers() =~= mid.open_markers());
                assert(p.diagnostics() =~= mid.diagnostics() + step.diagnostics);
            }
        } else {
            parse_item(p);
            proof {
                step = item_outcome(tokens, here);
            }
        }
        proof {
            p.lemma_position();
            let rest = items_outcome(tokens, p.position(), nested);
            assert(items_outcome(tokens, here, nested) == step.followed_by(rest));
            lemma_followed_by_assoc(acc, step, rest);
            assert(p.events() =~= before.events() + acc.followed_by(step).events);
            assert(p.diagnostics() =~= before.diagnostics() + acc.followed_by(step).diagnostics);
            acc = acc.followed_by(step);
        }
        kind = p.cur();
    }
    proof {
        assert(items_outcome(tokens, p.position(), nested) == Outcome::nothing(p.position()));
        lemma_followed_by_nothing(acc);
    }
}

/// Parses one item: an at-rule where an `@` stands, else a declaration or
/// a qualified rule.
pub fn parse_item(p: &mut Parser) -> (r: ParsedSyntax)
    requires
        old(p).wf(),
    ensures
        rule_result(*final(p), *old(p), item_outcome(old(p).tokens(), old(p).position()), r),
        kind_at(old(p).tokens(), old(p).position()) != TokenKind::Eof && kind_at(
            old(p).tokens(),
            old(p).position(),
        ) != TokenKind::RCurly ==> old(p).position() < final(p).position()
            <= old(p).tokens().len(),
    decreases old(p).tokens().len() - old(p).position(), 5int,
{
    proof {
        p.lemma_position();
    }
    if p.at(TokenKind::Eof) {
        proof {
            p.lemma_position();
            assert(p.events() =~= p.events() + Seq::<Event>::empty());
            assert(p.diagnostics() =~= p.diagnostics() + Seq::<Diagnostic>::empty());
        }
        ParsedSyntax::Absent
    } else if at_at_rule(p) {
        parse_at_rule(p)
    } else {
        parse_declaration_or_rule(p)
    }
}

/// Parses a run of tokens and what ends it: a declaration, or a qualified
/// rule where a block follows.
pub fn parse_declaration_or_rule(p: &mut Parser) -> (r: ParsedSyntax)
    requires
        old(p).wf(),
    ensures
        rule_result(
            *final(p),
            *old(p),
            declaration_or_rule_outcome(old(p).tokens(), old(p).position()),
            r,
        ),
        kind_at(old(p).tokens(), old(p).position()) != TokenKind::Eof && kind_at(
            old(p).tokens(),
            old(p).position(),
        ) != TokenKind::RCurly ==> old(p).position() < final(p).position()
            <= old(p).tokens().len(),
    decreases old(p).tokens().len() - old(p).position(), 4int,
{
    let ghost tokens = p.tokens();
    let ghost pos = p.position();
    let ghost before = *p;
    proof {
        p.lemma_position();
    }
    if p.at(TokenKind::Eof) {
        proof {
            p.lemma_position();
            assert(p.events() =~= p.events() + Seq::<Event>::empty());
            assert(p.diagnostics() =~= p.diagnostics() + Seq::<Diagnostic>::empty());
        }
        return ParsedSyntax::Absent;
    }
    let m = p.start();
    bump_run(p);
    let ghost end = p.position();
    let kind = p.cur();
    proof {
        p.lemma_position();
        if end < tokens.len() {
            lemma_next_significant(tokens, end + 1);
        }
        lemma_run_end(tokens, pos);
    }
    let node = if kind == TokenKind::Semicolon {
        p.bump(TokenKind::Semicolon);
        NodeKind::Declaration
    } else if kind == TokenKind::LCurly {
        parse_block(p);
        NodeKind::QualifiedRule
    } else {
        NodeKind::Declaration
    };
    let done = p.complete(m, node);
    proof {
        let out = declaration_or_rule_outcome(tokens, pos);
        assert(p.events() =~= before.events() + out.events);
        assert(p.diagnostics() =~= before.diagnostics() + out.diagnostics);
        assert(p.open_markers() =~= before.open_markers());
    }
    ParsedSyntax::Present(done)
}

/// Parses an at-rule. Absent, with nothing consumed, where no `@` stands;
/// else the `@` and what follows become one node: an at-rule where the
/// dispatcher finds a production that accepts it, and an unrecognized rule
/// up to the recovery boundary, with a diagnostic, where it does not.
pub fn parse_at_rule(p: &mut Parser) -> (r: ParsedSyntax)
    requires
        old(p).wf(),
    ensures
        rule_result(*final(p), *old(p), at_rule_outcome(old(p).tokens(), old(p).position()), r),
        r.is_present() == (kind_at(old(p).tokens(), old(p).position()) == TokenKind::At),
        r.is_present() ==> old(p).position() < final(p).position() <= old(p).tokens().len(),
    decreases old(p).tokens().len() - old(p).position(), 4int,
{
    let ghost tokens = p.tokens();
    let ghost pos = p.position();
    let ghost before = *p;
    if !at_at_rule(p) {
        proof {
            p.lemma_position();
            assert(p.events() =~= p.events() + Seq::<Event>::empty());
            assert(p.diagnostics() =~= p.diagnostics() + Seq::<Diagnostic>::empty());
        }
        return ParsedSyntax::Absent;
    }
    proof {
        p.lemma_position();
        lemma_next_significant(tokens, pos + 1);
    }
    let start = p.cur_start();
    let m = p.start();
    p.bump(TokenKind::At);
    let kind = if parse_any_at_rule(p).is_present() {
        NodeKind::AtRule
    } else {
        recover(p);
        let end = p.cur_start();
        p.error(Diagnostic { kind: DiagnosticKind::UnrecognizedAtRule, start, end });
        NodeKind::BogusRule
    };
    let done = p.complete(m, kind);
    proof {
        let out = at_rule_outcome(tokens, pos);
        assert(p.events() =~= before.events() + out.events);
        assert(p.diagnostics() =~= before.diagnostics() + out.diagnostics);
        assert(p.open_markers() =~= before.open_markers());
    }
    ParsedSyntax::Present(done)
}

/// The dispatcher. Tries the predicates in the order of their declaration
/// and runs the production of the first that holds. Absent, with nothing
/// consumed, where none holds or the production does not accept what
/// follows its keyword.
pub fn parse_any_at_rule(p: &mut Parser) -> (r: ParsedSyntax)
    requires
        old(p).wf(),
    ensures
        rule_result(
            *final(p),
            *old(p),
            any_at_rule_outcome(old(p).tokens(), old(p).position()),
            r,
        ),
    decreases old(p).tokens().len() - old(p).position(), 3int,
{
    if is_at_charset_at_rule(p) {
        parse_charset_at_rule(p)
    } else if is_color_profile_at_rule(p) {
        parse_color_profile_at_rule(p)
    } else if is_at_counter_style_at_rule(p) {
        parse_counter_style_at_rule(p)
    } else if is_at_container_at_rule(p) {
        parse_container_at_rule(p)
    } else if is_at_font_face_at_rule(p) {
        parse_font_face_at_rule(p)
    } else if is_at_font_palette_values_at_rule(p) {
        parse_font_palette_values_at_rule(p)
    } else if is_at_media_at_rule(p) {
        parse_media_at_rule(p)
    } else if is_at_keyframes_at_rule(p) {
        parse_keyframes_at_rule(p)
    } else {
        proof {
            p.lemma_position();
            assert(p.events() =~= p.events() + Seq::<Event>::empty());
            assert(p.diagnostics() =~= p.diagnostics() + Seq::<Diagnostic>::empty());
        }
        ParsedSyntax::Absent
    }
}

pub fn parse_charset_at_rule(p: &mut Parser) -> (r: ParsedSyntax)
    requires
        old(p).wf(),
    ensures
        rule_result(
            *final(p),
            *old(p),
            production_outcome(old(p).tokens(), old(p).position(), Production::Charset),
            r,
        ),
    decreases old(p).tokens().len() - old(p).position(), 2int,
{
    parse_production(p, Production::Charset)
}

pub fn parse_color_profile_at_rule(p: &mut Parser) -> (r: ParsedSyntax)
    requires
        old(p).wf(),
    ensures
        rule_result(
            *final(p),
            *old(p),
            production_outcome(old(p).tokens(), old(p).position(), Production::ColorProfile),
            r,
        ),
    decreases old(p).tokens().len() - old(p).position(), 2int,
{
    parse_production(p, Production::ColorProfile)
}

pub fn parse_counter_style_at_rule(p: &mut Parser) -> (r: ParsedSyntax)
    requires
        old(p).wf(),
    ensures
        rule_result(
            *final(p),
            *old(p),
            production_outcome(old(p).tokens(), old(p).position(), Production::CounterStyle),
            r,
        ),
    decreases old(p).tokens().len() - old(p).position(), 2int,
{
    parse_production(p, Production::CounterStyle)
}

pub fn parse_container_at_rule(p: &mut Parser) -> (r: ParsedSyntax)
    requires
        old(p).wf(),
    ensures
        rule_result(
            *final(p),
            *old(p),
            production_outcome(old(p).tokens(), old(p).position(), Production::Container),
            r,
        ),
    decreases old(p).tokens().len() - old(p).position(), 2int,
{
    parse_production(p, Production::Container)
}

pub fn parse_font_face_at_rule(p: &mut Parser) -> (r: ParsedSyntax)
    requires
        old(p).wf(),
    ensures
        rule_result(
            *final(p),
            *old(p),
            production_outcome(old(p).tokens(), old(p).position(), Production::FontFace),
            r,
        ),
    decreases old(p).tokens().len() - old(p).position(), 2int,
{
    parse_production(p, Production::FontFace)
}

pub fn parse_font_palette_values_at_rule(p: &mut Parser) -> (r: ParsedSyntax)
    requires
        old(p).wf(),
    ensures
        rule_result(
            *final(p),
            *old(p),
            production_outcome(
                old(p).tokens(),
                old(p).position(),
                Production::FontPaletteValues,
            ),
            r,
        ),
    decreases old(p).tokens().len() - old(p).position(), 2int,
{
    parse_production(p, Production::FontPaletteValues)
}

pub fn parse_media_at_rule(p: &mut Parser) -> (r: ParsedSyntax)
    requires
        old(p).wf(),
    ensures
        rule_result(
            *final(p),
            *old(p),
            production_outcome(old(p).tokens(), old(p).position(), Production::Media),
            r,
        ),
    decreases old(p).tokens().len() - old(p).position(), 2int,
{
    parse_production(p, Production::Media)
}

pub fn parse_keyframes_at_rule(p: &mut Parser) -> (r: ParsedSyntax)
    requires
        old(p).wf(),
    ensures
        rule_result(
            *final(p),
            *old(p),
            production_outcome(old(p).tokens(), old(p).position(), Production::Keyframes),
            r,
        ),
    decreases old(p).tokens().len() - old(p).position(), 2int,
{
    parse_production(p, Production::Keyframes)
}

/// Runs one production at its keyword. The attempt is speculative: the
/// keyword and the prelude are consumed under a marker, and where the
/// production does not accept them the marker is abandoned, which leaves
/// the parser as it was.
pub fn parse_production(p: &mut Parser, production: Production) -> (r: ParsedSyntax)
    requires
        old(p).wf(),
    ensures
        rule_result(
            *final(p),
            *old(p),
            production_outcome(old(p).tokens(), old(p).position(), production),
            r,
        ),
    decreases old(p).tokens().len() - old(p).position(), 1int,
{
    let ghost tokens = p.tokens();
    let ghost pos = p.position();
    let ghost before = *p;
    if !at_keyword(p, production) {
        proof {
            p.lemma_position();
            assert(p.events() =~= p.events() + Seq::<Event>::empty());
            assert(p.diagnostics() =~= p.diagnostics() + Seq::<Diagnostic>::empty());
        }
        return ParsedSyntax::Absent;
    }
    proof {
        p.lemma_position();
        lemma_next_significant(tokens, pos + 1);
    }
    let m = p.start();
    p.bump(TokenKind::Ident);
    let ghost start = p.position();
    let first = p.cur();
    let count = bump_run(p);
    let ghost end = p.position();
    let single = count == 1;
    let prelude = match production {
        Production::Charset => single && first == TokenKind::Str,
        Production::FontFace => count == 0,
        Production::Media => count > 0,
        Production::Container => count > 0,
        Production::Keyframes => single && (first == TokenKind::Ident || first == TokenKind::Str),
        Production::ColorProfile => single && first == TokenKind::Ident,
        Production::CounterStyle => single && first == TokenKind::Ident,
        Production::FontPaletteValues => single && first == TokenKind::Ident,
    };
    if !(prelude && p.at(body_start(production))) {
        p.abandon(m);
        proof {
            assert(p.events() =~= before.events());
            assert(p.diagnostics() =~= before.diagnostics());
            assert(p.open_markers() =~= before.open_markers());
            p.lemma_position();
            assert(p.events() =~= p.events() + Seq::<Event>::empty());
            assert(p.diagnostics() =~= p.diagnostics() + Seq::<Diagnostic>::empty());
        }
        return ParsedSyntax::Absent;
    }
    proof {
        p.lemma_position();
        if end < tokens.len() {
            lemma_next_significant(tokens, end + 1);
        }
    }
    match production {
        Production::Charset => {
            p.bump(TokenKind::Semicolon);
        },
        _ => {
            parse_block(p);
        },
    }
    let done = p.complete(m, production.node_kind());
    proof {
        let out = production_outcome(tokens, pos, production);
        assert(p.events() =~= before.events() + out.events);
        assert(p.diagnostics() =~= before.diagnostics() + out.diagnostics);
        assert(p.open_markers() =~= before.open_markers());
    }
    ParsedSyntax::Present(done)
}

/// Parses the whole input into one root node.
pub fn parse_root(p: &mut Parser) -> (done: CompletedMarker)
    requires
        old(p).wf(),
        old(p).position() == next_significant(old(p).tokens(), 0),
    ensures
        final(p).wf(),
        final(p).tokens() == old(p).tokens(),
        final(p).open_markers() == old(p).open_markers(),
        final(p).events() == old(p).events() + root_outcome(old(p).tokens()).events,
        final(p).diagnostics() == old(p).diagnostics() + root_outcome(
            old(p).tokens(),
        ).diagnostics,
        done.start_pos == old(p).events().len(),
        done.finish_pos + 1 == final(p).events().len(),
{
    let ghost tokens = p.tokens();
    let ghost before = *p;
    let m = p.start();
    parse_items(p, false);
    p.bump_eof();
    let done = p.complete(m, NodeKind::Root);
    proof {
        let out = root_outcome(tokens);
        assert(p.events() =~= before.events() + out.events);
        assert(p.diagnostics() =~= before.diagnostics() + out.diagnostics);
        assert(p.open_markers() =~= before.open_markers());
    }
    done
}

/// What parsing gives: the tree, which is always there, and the
/// diagnostics in the order in which they were logged.
#[derive(Debug)]
pub struct Parse {
    pub tree: SyntaxNode,
    pub diagnostics: Vec<Diagnostic>,
}

/// The event log of parsing `text`.
pub open spec fn parse_events(text: Seq<u8>) -> Seq<Event> {
    root_outcome(tokens_of(text)).events
}

/// The tree of parsing `text`.
pub open spec fn parse_tree(text: Seq<u8>) -> Tree {
    tree_of(parse_events(text), text)
}

/// The diagnostics of parsing `text`.
pub open spec fn parse_diagnostics(text: Seq<u8>) -> Seq<Diagnostic> {
    root_outcome(tokens_of(text)).diagnostics
}

/// Parses `text`. There is a tree for every input: what is not recognized
/// is kept in unrecognized nodes and reported in the diagnostics. The tree
/// is lossless: the bytes of its leaves, in order, are `text`.
pub fn parse(text: &[u8]) -> (r: Parse)
    ensures
        r.tree@ == parse_tree(text@),
        r.diagnostics@ == parse_diagnostics(text@),
        r.tree@.text() == text@,
        r.tree.wf(),
{
    let tokens = tokenize(text);
    let mut p = Parser::new(tokens);
    parse_root(&mut p);
    let (_, events, diagnostics) = p.finish();
    proof {
        let out = root_outcome(tokens_of(text@));
        assert(Seq::<Event>::empty() + out.events =~= out.events);
        assert(Seq::<Diagnostic>::empty() + out.diagnostics =~= out.diagnostics);
    }
    let tree = build_tree(&events, text);
    Parse { tree, diagnostics }
}

/// Losslessness: for every text, the leaves of its tree, trivia included,
/// spell the text again, byte for byte.
pub proof fn lemma_parse_lossless(text: Seq<u8>)
    ensures
        parse_tree(text).text() == text,
{
    lemma_tree_of_text(parse_events(text), text);
}

/// Dispatch is exclusive: at any position at most one predicate holds.
pub proof fn lemma_dispatch_exclusive(tokens: Seq<Token>, pos: int, a: Production, b: Production)
    requires
        predicate(a, tokens, pos),
        predicate(b, tokens, pos),
    ensures
        a == b,
{
}

/// The dispatcher picks a production exactly where its predicate holds,
/// and none exactly where no predicate holds.
pub proof fn lemma_dispatch_complete(tokens: Seq<Token>, pos: int)
    ensures
        forall|a: Production|
            #[trigger] predicate(a, tokens, pos) <==> classified(tokens, pos) == Some(a),
        classified(tokens, pos) is None <==> forall|a: Production|
            !#[trigger] predicate(a, tokens, pos),
{
    assert forall|a: Production|
        #[trigger] predicate(a, tokens, pos) <==> classified(tokens, pos) == Some(a) by {}
    if classified(tokens, pos) is Some {
        assert(predicate(classified(tokens, pos).unwrap(), tokens, pos));
    }
}

/// Where the dispatcher picks nothing, the at-rule is unrecognized: its
/// node is a bogus rule, and exactly one diagnostic is logged.
pub proof fn lemma_unknown_keyword_is_bogus(tokens: Seq<Token>, pos: int)
    requires
        kind_at(tokens, pos) == TokenKind::At,
        classified(tokens, advance(tokens, pos)) is None,
    ensures
        at_rule_outcome(tokens, pos).events.first() == (Event::Start { kind: NodeKind::BogusRule }),
        at_rule_outcome(tokens, pos).diagnostics.len() == 1,
        at_rule_outcome(tokens, pos).end == recovery_end(tokens, advance(tokens, pos)),
{
}

pub proof fn lemma_skip_balanced(tokens: Seq<Token>, pos: int, depth: nat)
    requires
        0 <= pos <= tokens.len(),
        next_significant(tokens, pos) == pos,
    ensures
        pos <= skip_balanced(tokens, pos, depth) <= tokens.len(),
        next_significant(tokens, skip_balanced(tokens, pos, depth)) == skip_balanced(
            tokens,
            pos,
            depth,
        ),
    decreases tokens.len() - pos,
{
    if !(kind_at(tokens, pos) == TokenKind::Eof || depth == 0) {
        lemma_next_significant(tokens, pos + 1);
        if tokens[pos].kind == TokenKind::LCurly {
            lemma_skip_balanced(tokens, advance(tokens, pos), depth + 1);
        } else if tokens[pos].kind == TokenKind::RCurly {
            lemma_skip_balanced(tokens, advance(tokens, pos), (depth - 1) as nat);
        } else {
            lemma_skip_balanced(tokens, advance(tokens, pos), depth);
        }
    }
}

/// The recovery boundary lies at or behind where recovery began, inside the
/// input, at a significant token or at the end.
pub proof fn lemma_recovery_end(tokens: Seq<Token>, pos: int)
    requires
        0 <= pos <= tokens.len(),
        next_significant(tokens, pos) == pos,
    ensures
        pos <= recovery_end(tokens, pos) <= tokens.len(),
        next_significant(tokens, recovery_end(tokens, pos)) == recovery_end(tokens, pos),
{
    lemma_run_end(tokens, pos);
    let stop = run_end(tokens, pos);
    if stop < tokens.len() {
        lemma_next_significant(tokens, stop + 1);
        lemma_skip_balanced(tokens, advance(tokens, stop), 1);
    }
}

/// Whether a rule that started at `pos` ended in bounds: at or behind
/// `pos`, inside the input, at a significant token or at the end.
pub open spec fn ends_in_bounds(tokens: Seq<Token>, pos: int, out: Outcome) -> bool {
    &&& pos <= out.end <= tokens.len()
    &&& next_significant(tokens, out.end) == out.end
}

/// Every rule ends in bounds, and an item that starts at a token other
/// than `}` consumes at least that token.
pub proof fn lemma_items_in_bounds(tokens: Seq<Token>, pos: int, nested: bool)
    requires
        0 <= pos <= tokens.len(),
        next_significant(tokens, pos) == pos,
    ensures
        ends_in_bounds(tokens, pos, items_outcome(tokens, pos, nested)),
        items_outcome(tokens, pos, nested).present,
    decreases tokens.len() - pos, 5int,
{
    if kind_at(tokens, pos) == TokenKind::Eof {
    } else if tokens[pos].kind == TokenKind::RCurly {
        if !nested {
            lemma_next_significant(tokens, pos + 1);
            lemma_items_in_bounds(tokens, advance(tokens, pos), nested);
        }
    } else {
        lemma_item_in_bounds(tokens, pos);
        let first = item_outcome(tokens, pos);
        lemma_items_in_bounds(tokens, first.end, nested);
    }
}

pub proof fn lemma_item_in_bounds(tokens: Seq<Token>, pos: int)
    requires
        0 <= pos <= tokens.len(),
        next_significant(tokens, pos) == pos,
    ensures
        ends_in_bounds(tokens, pos, item_outcome(tokens, pos)),
        kind_at(tokens, pos) != TokenKind::Eof && kind_at(tokens, pos) != TokenKind::RCurly
            ==> pos < item_outcome(tokens, pos).end,
    decreases tokens.len() - pos, 4int,
{
    if kind_at(tokens, pos) == TokenKind::Eof {
    } else if tokens[pos].kind == TokenKind::At {
        lemma_at_rule_in_bounds(tokens, pos);
    } else {
        lemma_declaration_or_rule_in_bounds(tokens, pos);
    }
}

pub proof fn lemma_declaration_or_rule_in_bounds(tokens: Seq<Token>, pos: int)
    requires
        0 <= pos <= tokens.len(),
        next_significant(tokens, pos) == pos,
    ensures
        ends_in_bounds(tokens, pos, declaration_or_rule_outcome(tokens, pos)),
        kind_at(tokens, pos) != TokenKind::Eof && kind_at(tokens, pos) != TokenKind::RCurly
            ==> pos < declaration_or_rule_outcome(tokens, pos).end,
    decreases tokens.len() - pos, 3int,
{
    if kind_at(tokens, pos) != TokenKind::Eof {
        lemma_run_end(tokens, pos);
        let end = run_end(tokens, pos);
        if end < tokens.len() {
            lemma_next_significant(tokens, end + 1);
        }
        if kind_at(tokens, end) == TokenKind::LCurly {
            lemma_block_in_bounds(tokens, end);
        }
    }
}

pub proof fn lemma_at_rule_in_bounds(tokens: Seq<Token>, pos: int)
    requires
        0 <= pos <= tokens.len(),
        next_significant(tokens, pos) == pos,
    ensures
        ends_in_bounds(tokens, pos, at_rule_outcome(tokens, pos)),
        kind_at(tokens, pos) == TokenKind::At ==> pos < at_rule_outcome(tokens, pos).end,
    decreases tokens.len() - pos, 3int,
{
    if kind_at(tokens, pos) == TokenKind::At {
        lemma_next_significant(tokens, pos + 1);
        lemma_any_at_rule_in_bounds(tokens, advance(tokens, pos));
        lemma_recovery_end(tokens, advance(tokens, pos));
    }
}

pub proof fn lemma_any_at_rule_in_bounds(tokens: Seq<Token>, pos: int)
    requires
        0 <= pos <= tokens.len(),
        next_significant(tokens, pos) == pos,
    ensures
        ends_in_bounds(tokens, pos, any_at_rule_outcome(tokens, pos)),
    decreases tokens.len() - pos, 2int,
{
    match classified(tokens, pos) {
        Some(production) => {
            lemma_production_in_bounds(tokens, pos, production);
        },
        None => {},
    }
}

pub proof fn lemma_production_in_bounds(tokens: Seq<Token>, pos: int, production: Production)
    requires
        0 <= pos <= tokens.len(),
        next_significant(tokens, pos) == pos,
    ensures
        ends_in_bounds(tokens, pos, production_outcome(tokens, pos, production)),
    decreases tokens.len() - pos, 1int,
{
    if production_accepts(production, tokens, pos) {
        lemma_next_significant(tokens, pos + 1);
        let start = advance(tokens, pos);
        lemma_run_end(tokens, start);
        let end = run_end(tokens, start);
        if end < tokens.len() {
            lemma_next_significant(tokens, end + 1);
        }
        if production != Production::Charset {
            lemma_block_in_bounds(tokens, end);
        }
    }
}

pub proof fn lemma_block_in_bounds(tokens: Seq<Token>, pos: int)
    requires
        0 <= pos <= tokens.len(),
        next_significant(tokens, pos) == pos,
    ensures
        ends_in_bounds(tokens, pos, block_outcome(tokens, pos)),
        kind_at(tokens, pos) == TokenKind::LCurly ==> pos < block_outcome(tokens, pos).end,
    decreases tokens.len() - pos, 0int,
{
    if kind_at(tokens, pos) == TokenKind::LCurly {
        lemma_next_significant(tokens, pos + 1);
        lemma_items_in_bounds(tokens, advance(tokens, pos), true);
        let inner = items_outcome(tokens, advance(tokens, pos), true);
        if inner.end < tokens.len() {
            lemma_next_significant(tokens, inner.end + 1);
        }
    }
}

/// What is logged while the cursor moves over tokens is a run of whole
/// tokens.
pub proof fn lemma_consumed_complete(tokens: Seq<Token>, from: int, to: int, text: Seq<u8>)
    ensures
        complete(consumed(tokens, from, to), text),
    decreases to - from,
{
    if from >= to || to > tokens.len() || from < 0 {
        lemma_complete_empty(text);
    } else {
        lemma_consumed_complete(tokens, from, to - 1, text);
        if !tokens[to - 1].kind.is_trivia() {
            let event = token_event(tokens, to - 1);
            lemma_complete_token(event, text);
            lemma_complete_concat(consumed(tokens, from, to - 1), seq![event], text);
            assert(consumed(tokens, from, to - 1).push(event) =~= consumed(tokens, from, to - 1)
                + seq![event]);
        }
    }
}

/// What a rule logs is a run of whole nodes and tokens: every node that it
/// opens it closes.
pub proof fn lemma_items_complete(tokens: Seq<Token>, pos: int, nested: bool, text: Seq<u8>)
    ensures
        complete(items_outcome(tokens, pos, nested).events, text),
    decreases tokens.len() - pos, 5int,
{
    lemma_complete_empty(text);
    if kind_at(tokens, pos) == TokenKind::Eof {
    } else if tokens[pos].kind == TokenKind::RCurly {
        if !nested {
            lemma_next_significant(tokens, pos + 1);
            lemma_complete_token(token_event(tokens, pos), text);
            lemma_complete_node(NodeKind::Bogus, seq![token_event(tokens, pos)], text);
            assert(stray_outcome(tokens, pos).events =~= seq![
                Event::Start { kind: NodeKind::Bogus },
            ] + seq![token_event(tokens, pos)] + seq![Event::Finish]);
            lemma_items_complete(tokens, advance(tokens, pos), nested, text);
            lemma_complete_concat(
                stray_outcome(tokens, pos).events,
                items_outcome(tokens, advance(tokens, pos), nested).events,
                text,
            );
        }
    } else {
        let first = item_outcome(tokens, pos);
        if pos < first.end <= tokens.len() {
            lemma_item_complete(tokens, pos, text);
            lemma_items_complete(tokens, first.end, nested, text);
            lemma_complete_concat(
                first.events,
                items_outcome(tokens, first.end, nested).events,
                text,
            );
        }
    }
}

pub proof fn lemma_item_complete(tokens: Seq<Token>, pos: int, text: Seq<u8>)
    ensures
        complete(item_outcome(tokens, pos).events, text),
    decreases tokens.len() - pos, 4int,
{
    lemma_complete_empty(text);
    if kind_at(tokens, pos) == TokenKind::Eof {
    } else if tokens[pos].kind == TokenKind::At {
        lemma_at_rule_complete(tokens, pos, text);
    } else {
        lemma_declaration_or_rule_complete(tokens, pos, text);
    }
}

pub proof fn lemma_declaration_or_rule_complete(tokens: Seq<Token>, pos: int, text: Seq<u8>)
    ensures
        complete(declaration_or_rule_outcome(tokens, pos).events, text),
    decreases tokens.len() - pos, 3int,
{
    lemma_complete_empty(text);
    if kind_at(tokens, pos) != TokenKind::Eof {
        let end = run_end(tokens, pos);
        let run = Outcome::step(consumed(tokens, pos, end), end);
        lemma_consumed_complete(tokens, pos, end, text);
        if kind_at(tokens, end) == TokenKind::Semicolon {
            lemma_complete_token(token_event(tokens, end), text);
            lemma_complete_concat(run.events, seq![token_event(tokens, end)], text);
            lemma_complete_node(
                NodeKind::Declaration,
                run.events + seq![token_event(tokens, end)],
                text,
            );
        } else if kind_at(tokens, end) == TokenKind::LCurly && pos <= end {
            lemma_block_complete(tokens, end, text);
            lemma_complete_concat(run.events, block_outcome(tokens, end).events, text);
            lemma_complete_node(
                NodeKind::QualifiedRule,
                run.events + block_outcome(tokens, end).events,
                text,
            );
        } else {
            lemma_complete_node(NodeKind::Declaration, run.events, text);
        }
    }
}

pub proof fn lemma_at_rule_complete(tokens: Seq<Token>, pos: int, text: Seq<u8>)
    ensures
        complete(at_rule_outcome(tokens, pos).events, text),
    decreases tokens.len() - pos, 3int,
{
    lemma_complete_empty(text);
    if kind_at(tokens, pos) == TokenKind::At {
        lemma_next_significant(tokens, pos + 1);
        let lead = seq![token_event(tokens, pos)];
        lemma_complete_token(token_event(tokens, pos), text);
        let inner = any_at_rule_outcome(tokens, advance(tokens, pos));
        if inner.present {
            lemma_any_at_rule_complete(tokens, advance(tokens, pos), text);
            lemma_complete_concat(lead, inner.events, text);
            lemma_complete_node(NodeKind::AtRule, lead + inner.events, text);
        } else {
            let end = recovery_end(tokens, advance(tokens, pos));
            let skipped = consumed(tokens, advance(tokens, pos), end);
            lemma_consumed_complete(tokens, advance(tokens, pos), end, text);
            lemma_complete_concat(lead, skipped, text);
            lemma_complete_node(NodeKind::BogusRule, lead + skipped, text);
        }
    }
}

pub proof fn lemma_any_at_rule_complete(tokens: Seq<Token>, pos: int, text: Seq<u8>)
    ensures
        complete(any_at_rule_outcome(tokens, pos).events, text),
    decreases tokens.len() - pos, 2int,
{
    lemma_complete_empty(text);
    match classified(tokens, pos) {
        Some(production) => {
            lemma_production_complete(tokens, pos, production, text);
        },
        None => {},
    }
}

pub proof fn lemma_production_complete(
    tokens: Seq<Token>,
    pos: int,
    production: Production,
    text: Seq<u8>,
)
    ensures
        complete(production_outcome(tokens, pos, production).events, text),
    decreases tokens.len() - pos, 1int,
{
    lemma_complete_empty(text);
    if production_accepts(production, tokens, pos) {
        let start = advance(tokens, pos);
        let end = run_end(tokens, start);
        let head = seq![token_event(tokens, pos)] + consumed(tokens, start, end);
        lemma_complete_token(token_event(tokens, pos), text);
        lemma_consumed_complete(tokens, start, end, text);
        lemma_complete_concat(seq![token_event(tokens, pos)], consumed(tokens, start, end), text);
        if production == Production::Charset {
            lemma_complete_token(token_event(tokens, end), text);
            lemma_complete_concat(head, seq![token_event(tokens, end)], text);
            lemma_complete_node(
                production.node_kind(),
                head + seq![token_event(tokens, end)],
                text,
            );
        } else if pos < end {
            lemma_block_complete(tokens, end, text);
            lemma_complete_concat(head, block_outcome(tokens, end).events, text);
            lemma_complete_node(
                production.node_kind(),
                head + block_outcome(tokens, end).events,
                text,
            );
        }
    }
}

pub proof fn lemma_block_complete(tokens: Seq<Token>, pos: int, text: Seq<u8>)
    ensures
        complete(block_outcome(tokens, pos).events, text),
    decreases tokens.len() - pos, 0int,
{
    lemma_complete_empty(text);
    if kind_at(tokens, pos) == TokenKind::LCurly {
        lemma_next_significant(tokens, pos + 1);
        let open = seq![token_event(tokens, pos)];
        lemma_complete_token(token_event(tokens, pos), text);
        let inner = items_outcome(tokens, advance(tokens, pos), true);
        lemma_items_complete(tokens, advance(tokens, pos), true, text);
        lemma_complete_concat(open, inner.events, text);
        if kind_at(tokens, inner.end) == TokenKind::RCurly {
            let close = seq![token_event(tokens, inner.end)];
            lemma_complete_token(token_event(tokens, inner.end), text);
            lemma_complete_concat(open + inner.events, close, text);
            lemma_complete_node(NodeKind::Block, open + inner.events + close, text);
        } else {
            lemma_complete_concat(open + inner.events, Seq::<Event>::empty(), text);
            lemma_complete_node(
                NodeKind::Block,
                open + inner.events + Seq::<Event>::empty(),
                text,
            );
        }
    }
}

/// The tree of a text is one root node: the log of a parse opens the root
/// first and closes it last, and it covers the text to its end.
pub proof fn lemma_parse_tree_is_root(text: Seq<u8>)
    requires
        text.len() <= usize::MAX,
    ensures
        parse_tree(text) is Node,
        parse_tree(text)->kind == NodeKind::Root,
        parse_tree(text)->children.len() >= 1,
        parse_tree(text)->children.last() is Leaf,
        parse_tree(text)->children.last()->token == TokenKind::Eof,
        parse_tree(text)->children.last()->text.len() == 0,
{
    let tokens = tokens_of(text);
    lemma_tokens_tile(text, 0);
    assert(end_offset(tokens) == text.len());
    let first = next_significant(tokens, 0);
    let items = items_outcome(tokens, first, false).events;
    let eof = eof_event(tokens);
    let inner = items + seq![eof];
    let all = parse_events(text);
    assert(all == seq![Event::Start { kind: NodeKind::Root }] + inner + seq![Event::Finish]);
    lemma_items_complete(tokens, first, false, text);
    lemma_complete_token(eof, text);
    lemma_complete_concat(items, seq![eof], text);
    lemma_complete_node(NodeKind::Root, inner, text);
    let inside = build(inner, text, 0, 0);
    assert(build(all, text, 0, 0) == (Built {
        forest: seq![Tree::Node { kind: NodeKind::Root, children: inside.forest }],
        next: (inner.len() + 2) as int,
        at: inside.at,
    }));
    lemma_holds_at_itself(inner);
    lemma_holds_at_parts(inner, 0, items, seq![eof]);
    assert(stands_alone(inner, text, 0, 0, items));
    let before = build(items, text, 0, 0);
    lemma_build_text(items, text, 0, 0);
    assert(inner[items.len() as int] == eof);
    let last = build(inner, text, items.len() as int, before.at);
    let leaf = leaf_at(text, before.at, TokenKind::Eof, text.len() as int, text.len() as int);
    let end = build(inner, text, (items.len() + 1) as int, text.len() as int);
    assert(end == (Built {
        forest: Seq::empty(),
        next: (items.len() + 1) as int,
        at: text.len() as int,
    }));
    assert(last.forest =~= seq![leaf]);
    assert(last.at == text.len());
    assert(inside.forest == before.forest + last.forest);
    assert(inside.forest.last() == leaf);
    assert(leaf->text =~= Seq::<u8>::empty());
}

/// The rule list is its first item followed by the rule list behind it.
pub proof fn lemma_items_unfold(tokens: Seq<Token>, pos: int, nested: bool)
    requires
        0 <= pos <= tokens.len(),
        next_significant(tokens, pos) == pos,
        kind_at(tokens, pos) != TokenKind::Eof,
        kind_at(tokens, pos) != TokenKind::RCurly,
    ensures
        items_outcome(tokens, pos, nested) == item_outcome(tokens, pos).followed_by(
            items_outcome(tokens, item_outcome(tokens, pos).end, nested),
        ),
{
    lemma_item_in_bounds(tokens, pos);
}

/// Recovery is local. An at-rule that no production accepts becomes an
/// unrecognized node that ends at its recovery boundary, and the items
/// behind it are those that the rule list finds when it starts at the
/// boundary: what came before has no part in them. So a sibling at-rule
/// that stands at the boundary and is accepted by its production is
/// parsed into an at-rule node, the next node of the list.
pub proof fn lemma_recovery_locality(tokens: Seq<Token>, pos: int, nested: bool)
    requires
        0 <= pos < tokens.len(),
        next_significant(tokens, pos) == pos,
        kind_at(tokens, pos) == TokenKind::At,
        !any_at_rule_outcome(tokens, advance(tokens, pos)).present,
    ensures
        ({
            let boundary = recovery_end(tokens, advance(tokens, pos));
            let bogus = at_rule_outcome(tokens, pos);
            let sibling = at_rule_outcome(tokens, boundary);
            &&& pos < boundary <= tokens.len()
            &&& bogus.end == boundary
            &&& bogus.events.first() == (Event::Start { kind: NodeKind::BogusRule })
            &&& bogus.events.last() == Event::Finish
            &&& items_outcome(tokens, pos, nested) == bogus.followed_by(
                items_outcome(tokens, boundary, nested),
            )
            &&& kind_at(tokens, boundary) == TokenKind::At && any_at_rule_outcome(
                tokens,
                advance(tokens, boundary),
            ).present ==> {
                &&& sibling.events.first() == (Event::Start { kind: NodeKind::AtRule })
                &&& items_outcome(tokens, boundary, nested) == sibling.followed_by(
                    items_outcome(tokens, sibling.end, nested),
                )
            }
        }),
{
    lemma_next_significant(tokens, pos + 1);
    lemma_recovery_end(tokens, advance(tokens, pos));
    let boundary = recovery_end(tokens, advance(tokens, pos));
    let bogus = at_rule_outcome(tokens, pos);
    assert(bogus.end == boundary);
    assert(bogus.events.first() == (Event::Start { kind: NodeKind::BogusRule }));
    assert(item_outcome(tokens, pos) == bogus);
    lemma_items_unfold(tokens, pos, nested);
    if kind_at(tokens, boundary) == TokenKind::At && any_at_rule_outcome(
        tokens,
        advance(tokens, boundary),
    ).present {
        let sibling = at_rule_outcome(tokens, boundary);
        assert(item_outcome(tokens, boundary) == sibling);
        assert(sibling.events.first() == (Event::Start { kind: NodeKind::AtRule }));
        lemma_items_unfold(tokens, boundary, nested);
    }
}

} // verus!
