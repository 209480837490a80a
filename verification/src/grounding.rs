//! The leaves of the tree are the tokens of the text: each leaf of the
//! tree of a text is a token as the lexer reads it there, with the blanks
//! and line breaks that stand in front of it, and none is left out.
use crate::kind::NodeKind;
use crate::kind::TokenKind;
use crate::lexer::ByteClass;
use crate::lexer::is_line_break;
use crate::lexer::is_space;
use crate::lexer::lemma_token_at_span;
use crate::lexer::lemma_tokens_tile;
use crate::lexer::Token;
use crate::lexer::token_at;
use crate::lexer::token_end_at;
use crate::lexer::token_kind_at;
use crate::lexer::tokens_from;
use crate::lexer::tokens_of;
use crate::parser::advance;
use crate::parser::consumed;
use crate::parser::end_offset;
use crate::parser::eof_event;
use crate::parser::Event;
use crate::parser::kind_at;
use crate::parser::lemma_consumed_split;
use crate::parser::lemma_consumed_step;
use crate::parser::lemma_next_significant;
use crate::parser::next_significant;
use crate::parser::token_event;
use crate::relex::sig_from;
use crate::syntax::any_at_rule_outcome;
use crate::syntax::at_rule_outcome;
use crate::syntax::block_outcome;
use crate::syntax::classified;
use crate::syntax::declaration_or_rule_outcome;
use crate::syntax::item_outcome;
use crate::syntax::items_outcome;
use crate::syntax::lemma_any_at_rule_in_bounds;
use crate::syntax::lemma_block_in_bounds;
use crate::syntax::lemma_item_in_bounds;
use crate::syntax::lemma_items_in_bounds;
use crate::syntax::lemma_recovery_end;
use crate::syntax::lemma_run_end;
use crate::syntax::parse_events;
use crate::syntax::production_accepts;
use crate::syntax::production_outcome;
use crate::syntax::recovery_end;
use crate::syntax::run_end;
use crate::syntax::stray_outcome;
use crate::tree::build;
use crate::tree::forest_leaves;
use crate::tree::leaf_at;
use crate::tree::leaf_end;
use crate::tree::leaves;
use crate::tree::lemma_build_text;
use crate::tree::lemma_forest_leaves_concat;
use crate::tree::lemma_forest_leaves_one;
use crate::tree::Tree;
use vstd::prelude::*;

verus! {

/// The token events of a log, in order.
pub open spec fn token_events(events: Seq<Event>) -> Seq<Event>
    decreases events.len(),
{
    if events.len() == 0 {
        Seq::empty()
    } else if events.last() is Token {
        token_events(events.drop_last()).push(events.last())
    } else {
        token_events(events.drop_last())
    }
}

pub proof fn lemma_token_events_concat(x: Seq<Event>, y: Seq<Event>)
    ensures
        token_events(x + y) == token_events(x) + token_events(y),
    decreases y.len(),
{
    if y.len() == 0 {
        assert(x + y =~= x);
        assert(token_events(x) + Seq::<Event>::empty() =~= token_events(x));
    } else {
        lemma_token_events_concat(x, y.drop_last());
        assert((x + y).drop_last() =~= x + y.drop_last());
        assert((x + y).last() == y.last());
        if y.last() is Token {
            assert((token_events(x) + token_events(y.drop_last())).push(y.last())
                =~= token_events(x) + token_events(y.drop_last()).push(y.last()));
        }
    }
}

pub proof fn lemma_token_events_one(event: Event)
    ensures
        token_events(seq![event]) == if event is Token {
            seq![event]
        } else {
            Seq::<Event>::empty()
        },
{
    assert(seq![event].drop_last() =~= Seq::<Event>::empty());
    assert(token_events(Seq::<Event>::empty()) =~= Seq::<Event>::empty());
    assert(Seq::<Event>::empty().push(event) =~= seq![event]);
}

/// A node adds no token of its own: the token events of a wrapped run are
/// those of the run.
pub proof fn lemma_token_events_node(kind: NodeKind, inner: Seq<Event>)
    ensures
        token_events(seq![Event::Start { kind }] + inner + seq![Event::Finish]) == token_events(
            inner,
        ),
{
    lemma_token_events_one(Event::Start { kind });
    lemma_token_events_one(Event::Finish);
    lemma_token_events_concat(seq![Event::Start { kind }], inner);
    lemma_token_events_concat(seq![Event::Start { kind }] + inner, seq![Event::Finish]);
    assert(Seq::<Event>::empty() + token_events(inner) =~= token_events(inner));
    assert(token_events(inner) + Seq::<Event>::empty() =~= token_events(inner));
}

/// What is logged while the cursor moves is token events only.
pub proof fn lemma_token_events_consumed(tokens: Seq<Token>, from: int, to: int)
    ensures
        token_events(consumed(tokens, from, to)) == consumed(tokens, from, to),
    decreases to - from,
{
    if from >= to || to > tokens.len() || from < 0 {
        assert(token_events(Seq::<Event>::empty()) =~= Seq::<Event>::empty());
    } else {
        lemma_token_events_consumed(tokens, from, to - 1);
        if !tokens[to - 1].kind.is_trivia() {
            let event = token_event(tokens, to - 1);
            let all = consumed(tokens, from, to - 1).push(event);
            assert(all.drop_last() =~= consumed(tokens, from, to - 1));
        }
    }
}

/// The tokens that a rule logs are the significant tokens between where it
/// starts and where it ends: each of them once, in order.
pub proof fn lemma_items_tokens(tokens: Seq<Token>, pos: int, nested: bool)
    requires
        0 <= pos <= tokens.len(),
        next_significant(tokens, pos) == pos,
    ensures
        token_events(items_outcome(tokens, pos, nested).events) == consumed(
            tokens,
            pos,
            items_outcome(tokens, pos, nested).end,
        ),
    decreases tokens.len() - pos, 5int,
{
    lemma_token_events_one(Event::Finish);
    if kind_at(tokens, pos) == TokenKind::Eof {
        assert(token_events(Seq::<Event>::empty()) =~= Seq::<Event>::empty());
    } else if tokens[pos].kind == TokenKind::RCurly {
        if nested {
            assert(token_events(Seq::<Event>::empty()) =~= Seq::<Event>::empty());
        } else {
            lemma_next_significant(tokens, pos + 1);
            lemma_consumed_step(tokens, pos);
            let next = advance(tokens, pos);
            lemma_items_tokens(tokens, next, nested);
            lemma_items_in_bounds(tokens, next, nested);
            let rest = items_outcome(tokens, next, nested);
            let stray = stray_outcome(tokens, pos).events;
            lemma_token_events_one(token_event(tokens, pos));
            lemma_token_events_node(NodeKind::Bogus, seq![token_event(tokens, pos)]);
            assert(stray =~= seq![Event::Start { kind: NodeKind::Bogus }] + seq![
                token_event(tokens, pos),
            ] + seq![Event::Finish]);
            lemma_token_events_concat(stray, rest.events);
            lemma_consumed_split(tokens, pos, next, rest.end);
        }
    } else {
        lemma_item_in_bounds(tokens, pos);
        let first = item_outcome(tokens, pos);
        lemma_item_tokens(tokens, pos);
        lemma_items_tokens(tokens, first.end, nested);
        lemma_items_in_bounds(tokens, first.end, nested);
        let rest = items_outcome(tokens, first.end, nested);
        lemma_token_events_concat(first.events, rest.events);
        lemma_consumed_split(tokens, pos, first.end, rest.end);
    }
}

pub proof fn lemma_item_tokens(tokens: Seq<Token>, pos: int)
    requires
        0 <= pos <= tokens.len(),
        next_significant(tokens, pos) == pos,
    ensures
        token_events(item_outcome(tokens, pos).events) == consumed(
            tokens,
            pos,
            item_outcome(tokens, pos).end,
        ),
    decreases tokens.len() - pos, 4int,
{
    if kind_at(tokens, pos) == TokenKind::Eof {
        assert(token_events(Seq::<Event>::empty()) =~= Seq::<Event>::empty());
    } else if tokens[pos].kind == TokenKind::At {
        lemma_at_rule_tokens(tokens, pos);
    } else {
        lemma_declaration_or_rule_tokens(tokens, pos);
    }
}

pub proof fn lemma_declaration_or_rule_tokens(tokens: Seq<Token>, pos: int)
    requires
        0 <= pos <= tokens.len(),
        next_significant(tokens, pos) == pos,
    ensures
        token_events(declaration_or_rule_outcome(tokens, pos).events) == consumed(
            tokens,
            pos,
            declaration_or_rule_outcome(tokens, pos).end,
        ),
    decreases tokens.len() - pos, 3int,
{
    if kind_at(tokens, pos) == TokenKind::Eof {
        assert(token_events(Seq::<Event>::empty()) =~= Seq::<Event>::empty());
    } else {
        lemma_run_end(tokens, pos);
        let end = run_end(tokens, pos);
        let run = consumed(tokens, pos, end);
        lemma_token_events_consumed(tokens, pos, end);
        if kind_at(tokens, end) == TokenKind::Semicolon {
            lemma_consumed_step(tokens, end);
            lemma_consumed_split(tokens, pos, end, advance(tokens, end));
            let inner = run + seq![token_event(tokens, end)];
            lemma_token_events_one(token_event(tokens, end));
            lemma_token_events_concat(run, seq![token_event(tokens, end)]);
            lemma_token_events_node(NodeKind::Declaration, inner);
        } else if kind_at(tokens, end) == TokenKind::LCurly {
            lemma_block_tokens(tokens, end);
            lemma_block_in_bounds(tokens, end);
            let block = block_outcome(tokens, end);
            lemma_token_events_concat(run, block.events);
            lemma_token_events_node(NodeKind::QualifiedRule, run + block.events);
            lemma_consumed_split(tokens, pos, end, block.end);
        } else {
            lemma_token_events_node(NodeKind::Declaration, run);
        }
    }
}

pub proof fn lemma_at_rule_tokens(tokens: Seq<Token>, pos: int)
    requires
        0 <= pos <= tokens.len(),
        next_significant(tokens, pos) == pos,
    ensures
        token_events(at_rule_outcome(tokens, pos).events) == consumed(
            tokens,
            pos,
            at_rule_outcome(tokens, pos).end,
        ),
    decreases tokens.len() - pos, 3int,
{
    if kind_at(tokens, pos) != TokenKind::At {
        assert(token_events(Seq::<Event>::empty()) =~= Seq::<Event>::empty());
    } else {
        lemma_next_significant(tokens, pos + 1);
        lemma_consumed_step(tokens, pos);
        let next = advance(tokens, pos);
        let lead = seq![token_event(tokens, pos)];
        lemma_token_events_one(token_event(tokens, pos));
        let inner = any_at_rule_outcome(tokens, next);
        if inner.present {
            lemma_any_at_rule_tokens(tokens, next);
            lemma_any_at_rule_in_bounds(tokens, next);
            lemma_token_events_concat(lead, inner.events);
            lemma_token_events_node(NodeKind::AtRule, lead + inner.events);
            lemma_consumed_split(tokens, pos, next, inner.end);
        } else {
            let end = recovery_end(tokens, next);
            lemma_recovery_end(tokens, next);
            let skipped = consumed(tokens, next, end);
            lemma_token_events_consumed(tokens, next, end);
            lemma_token_events_concat(lead, skipped);
            lemma_token_events_node(NodeKind::BogusRule, lead + skipped);
            lemma_consumed_split(tokens, pos, next, end);
        }
    }
}

pub proof fn lemma_any_at_rule_tokens(tokens: Seq<Token>, pos: int)
    requires
        0 <= pos <= tokens.len(),
        next_significant(tokens, pos) == pos,
    ensures
        token_events(any_at_rule_outcome(tokens, pos).events) == consumed(
            tokens,
            pos,
            any_at_rule_outcome(tokens, pos).end,
        ),
    decreases tokens.len() - pos, 2int,
{
    assert(token_events(Seq::<Event>::empty()) =~= Seq::<Event>::empty());
    match classified(tokens, pos) {
        Some(production) => {
            lemma_production_tokens(tokens, pos, production);
        },
        None => {},
    }
}

pub proof fn lemma_production_tokens(
    tokens: Seq<Token>,
    pos: int,
    production: crate::kind::Production,
)
    requires
        0 <= pos <= tokens.len(),
        next_significant(tokens, pos) == pos,
    ensures
        token_events(production_outcome(tokens, pos, production).events) == consumed(
            tokens,
            pos,
            production_outcome(tokens, pos, production).end,
        ),
    decreases tokens.len() - pos, 1int,
{
    assert(token_events(Seq::<Event>::empty()) =~= Seq::<Event>::empty());
    if production_accepts(production, tokens, pos) {
        lemma_next_significant(tokens, pos + 1);
        lemma_consumed_step(tokens, pos);
        let start = advance(tokens, pos);
        lemma_run_end(tokens, start);
        let end = run_end(tokens, start);
        let head = seq![token_event(tokens, pos)] + consumed(tokens, start, end);
        lemma_token_events_one(token_event(tokens, pos));
        lemma_token_events_consumed(tokens, start, end);
        lemma_token_events_concat(seq![token_event(tokens, pos)], consumed(tokens, start, end));
        lemma_consumed_split(tokens, pos, start, end);
        assert(token_events(head) == consumed(tokens, pos, end));
        if production == crate::kind::Production::Charset {
            lemma_consumed_step(tokens, end);
            lemma_consumed_split(tokens, pos, end, advance(tokens, end));
            lemma_token_events_one(token_event(tokens, end));
            lemma_token_events_concat(head, seq![token_event(tokens, end)]);
            lemma_token_events_node(
                production.node_kind(),
                head + seq![token_event(tokens, end)],
            );
        } else if pos < end {
            lemma_block_tokens(tokens, end);
            lemma_block_in_bounds(tokens, end);
            let block = block_outcome(tokens, end);
            lemma_token_events_concat(head, block.events);
            lemma_token_events_node(production.node_kind(), head + block.events);
            lemma_consumed_split(tokens, pos, end, block.end);
        }
    }
}

pub proof fn lemma_block_tokens(tokens: Seq<Token>, pos: int)
    requires
        0 <= pos <= tokens.len(),
        next_significant(tokens, pos) == pos,
    ensures
        token_events(block_outcome(tokens, pos).events) == consumed(
            tokens,
            pos,
            block_outcome(tokens, pos).end,
        ),
    decreases tokens.len() - pos, 0int,
{
    if kind_at(tokens, pos) != TokenKind::LCurly {
        assert(token_events(Seq::<Event>::empty()) =~= Seq::<Event>::empty());
    } else {
        lemma_next_significant(tokens, pos + 1);
        lemma_consumed_step(tokens, pos);
        let next = advance(tokens, pos);
        let open = seq![token_event(tokens, pos)];
        lemma_token_events_one(token_event(tokens, pos));
        let inner = items_outcome(tokens, next, true);
        lemma_items_tokens(tokens, next, true);
        lemma_items_in_bounds(tokens, next, true);
        lemma_token_events_concat(open, inner.events);
        lemma_consumed_split(tokens, pos, next, inner.end);
        if kind_at(tokens, inner.end) == TokenKind::RCurly {
            lemma_next_significant(tokens, inner.end + 1);
            lemma_consumed_step(tokens, inner.end);
            let close = seq![token_event(tokens, inner.end)];
            lemma_token_events_one(token_event(tokens, inner.end));
            lemma_token_events_concat(open + inner.events, close);
            lemma_token_events_node(NodeKind::Block, open + inner.events + close);
            lemma_consumed_split(tokens, pos, inner.end, advance(tokens, inner.end));
        } else {
            assert(open + inner.events + Seq::<Event>::empty() =~= open + inner.events);
            lemma_token_events_node(NodeKind::Block, open + inner.events);
        }
    }
}

/// The text position behind the first `count` of the token events
/// `events`, when they are turned into leaves from `at` on.
pub open spec fn run_at(text: Seq<u8>, events: Seq<Event>, count: int, at: int) -> int
    decreases count,
{
    if count <= 0 || count > events.len() {
        at
    } else {
        leaf_end(
            text,
            run_at(text, events, count - 1, at),
            events[count - 1]->start as int,
            events[count - 1]->end as int,
        )
    }
}

/// The leaves of the first `count` of the token events `events`, from
/// `at` on: each takes the text from where the one before it ended.
pub open spec fn leaf_run(text: Seq<u8>, events: Seq<Event>, count: int, at: int) -> Seq<Tree>
    decreases count,
{
    if count <= 0 || count > events.len() {
        Seq::empty()
    } else {
        leaf_run(text, events, count - 1, at).push(
            leaf_at(
                text,
                run_at(text, events, count - 1, at),
                events[count - 1]->Token_kind,
                events[count - 1]->start as int,
                events[count - 1]->end as int,
            ),
        )
    }
}

/// Leaves made of a run of token events, and then of a second run from
/// where the first ended, are the leaves made of the two runs joined.
pub proof fn lemma_leaf_run_concat(
    text: Seq<u8>,
    x: Seq<Event>,
    y: Seq<Event>,
    count: int,
    at: int,
)
    requires
        0 <= count <= y.len(),
    ensures
        leaf_run(text, x + y, x.len() + count, at) == leaf_run(text, x, x.len() as int, at)
            + leaf_run(text, y, count, run_at(text, x, x.len() as int, at)),
        run_at(text, x + y, x.len() + count, at) == run_at(
            text,
            y,
            count,
            run_at(text, x, x.len() as int, at),
        ),
    decreases count,
{
    let mid = run_at(text, x, x.len() as int, at);
    if count == 0 {
        lemma_leaf_run_prefix(text, x + y, x, x.len() as int, at);
        assert(leaf_run(text, x, x.len() as int, at) + Seq::<Tree>::empty() =~= leaf_run(
            text,
            x,
            x.len() as int,
            at,
        ));
    } else {
        lemma_leaf_run_concat(text, x, y, count - 1, at);
        assert((x + y)[x.len() + count - 1] == y[count - 1]);
        let leaf = leaf_at(
            text,
            run_at(text, y, count - 1, mid),
            y[count - 1]->Token_kind,
            y[count - 1]->start as int,
            y[count - 1]->end as int,
        );
        assert((leaf_run(text, x, x.len() as int, at) + leaf_run(text, y, count - 1, mid)).push(
            leaf,
        ) =~= leaf_run(text, x, x.len() as int, at) + leaf_run(text, y, count - 1, mid).push(
            leaf,
        ));
    }
}

pub proof fn lemma_leaf_run_prefix(
    text: Seq<u8>,
    w: Seq<Event>,
    u: Seq<Event>,
    count: int,
    at: int,
)
    requires
        0 <= count <= u.len() <= w.len(),
        forall|i: int| 0 <= i < count ==> w[i] == u[i],
    ensures
        leaf_run(text, w, count, at) == leaf_run(text, u, count, at),
        run_at(text, w, count, at) == run_at(text, u, count, at),
    decreases count,
{
    if count > 0 {
        lemma_leaf_run_prefix(text, w, u, count - 1, at);
    }
}

/// The leaves of what is assembled from a log are the leaves of its token
/// events, whatever nodes the log puts around them.
pub proof fn lemma_build_leaves(events: Seq<Event>, text: Seq<u8>, i: int, at: int)
    requires
        0 <= i <= events.len(),
        0 <= at <= text.len(),
    ensures
        ({
            let built = build(events, text, i, at);
            let tokens = token_events(events.subrange(i, built.next));
            &&& i <= built.next <= events.len()
            &&& forest_leaves(built.forest, built.forest.len() as int) == leaf_run(
                text,
                tokens,
                tokens.len() as int,
                at,
            )
            &&& built.at == run_at(text, tokens, tokens.len() as int, at)
        }),
    decreases events.len() - i,
{
    let built = build(events, text, i, at);
    lemma_build_text(events, text, i, at);
    if i >= events.len() {
        assert(events.subrange(i, i) =~= Seq::<Event>::empty());
        assert(token_events(Seq::<Event>::empty()) =~= Seq::<Event>::empty());
    } else {
        let first = seq![events[i]];
        lemma_token_events_one(events[i]);
        match events[i] {
            Event::Finish => {
                assert(events.subrange(i, i + 1) =~= first);
            },
            Event::Token { kind, start, end } => {
                let leaf = leaf_at(text, at, kind, start as int, end as int);
                let to = leaf_end(text, at, start as int, end as int);
                let rest = build(events, text, i + 1, to);
                lemma_build_leaves(events, text, i + 1, to);
                let behind = events.subrange(i + 1, rest.next);
                assert(events.subrange(i, built.next) =~= first + behind);
                lemma_token_events_concat(first, behind);
                let tokens = token_events(behind);
                lemma_leaf_run_concat(text, first, tokens, tokens.len() as int, at);
                assert(leaf_run(text, first, 0, at) =~= Seq::<Tree>::empty());
                assert(leaf_run(text, first, 1, at) =~= seq![leaf]);
                lemma_forest_leaves_concat(seq![leaf], rest.forest, rest.forest.len() as int);
                lemma_forest_leaves_one(leaf);
                assert(leaves(leaf) =~= seq![leaf]);
            },
            Event::Start { kind } => {
                let inner = build(events, text, i + 1, at);
                lemma_build_leaves(events, text, i + 1, at);
                lemma_build_text(events, text, i + 1, at);
                let node = Tree::Node { kind, children: inner.forest };
                let inside = events.subrange(i + 1, inner.next);
                lemma_forest_leaves_one(node);
                let inside_tokens = token_events(inside);
                lemma_token_events_concat(first, inside);
                assert(Seq::<Event>::empty() + inside_tokens =~= inside_tokens);
                if i < inner.next <= events.len() {
                    let rest = build(events, text, inner.next, inner.at);
                    lemma_build_leaves(events, text, inner.next, inner.at);
                    let behind = events.subrange(inner.next, rest.next);
                    assert(events.subrange(i, built.next) =~= (first + inside) + behind);
                    lemma_token_events_concat(first + inside, behind);
                    let tokens = token_events(behind);
                    lemma_leaf_run_concat(text, inside_tokens, tokens, tokens.len() as int, at);
                    lemma_forest_leaves_concat(
                        seq![node],
                        rest.forest,
                        rest.forest.len() as int,
                    );
                } else {
                    assert(events.subrange(i, built.next) =~= first + inside);
                }
            },
        }
    }
}

/// At the top, the rule list ends where the tokens end.
pub proof fn lemma_items_reach_end(tokens: Seq<Token>, pos: int)
    requires
        0 <= pos <= tokens.len(),
        next_significant(tokens, pos) == pos,
        forall|i: int| 0 <= i < tokens.len() ==> (#[trigger] tokens[i]).kind != TokenKind::Eof,
    ensures
        items_outcome(tokens, pos, false).end == tokens.len(),
    decreases tokens.len() - pos,
{
    if kind_at(tokens, pos) == TokenKind::Eof {
    } else if tokens[pos].kind == TokenKind::RCurly {
        lemma_next_significant(tokens, pos + 1);
        lemma_items_reach_end(tokens, advance(tokens, pos));
    } else {
        lemma_item_in_bounds(tokens, pos);
        lemma_items_reach_end(tokens, item_outcome(tokens, pos).end);
    }
}

/// Every token of a text is the token that the lexer reads where it
/// starts.
pub proof fn lemma_token_is_read(text: Seq<u8>, pos: int, i: int)
    requires
        0 <= pos <= text.len() <= usize::MAX,
        0 <= i < tokens_from(text, pos).len(),
    ensures
        tokens_from(text, pos)[i] == token_at(text, tokens_from(text, pos)[i].start as int),
        pos <= tokens_from(text, pos)[i].start < text.len(),
    decreases text.len() - pos,
{
    lemma_tokens_tile(text, pos);
    lemma_token_at_span(text, pos);
    let end = token_end_at(text, pos);
    let rest = tokens_from(text, end);
    assert(tokens_from(text, pos) == seq![token_at(text, pos)] + rest);
    if i > 0 {
        lemma_token_is_read(text, end, i - 1);
        assert(tokens_from(text, pos)[i] == rest[i - 1]);
    }
}

/// The token events of the log of a parse are the significant tokens of
/// the text, in order, and then the end of the input.
pub proof fn lemma_parse_token_events(text: Seq<u8>)
    requires
        text.len() <= usize::MAX,
    ensures
        ({
            let tokens = tokens_of(text);
            let inner = items_outcome(tokens, next_significant(tokens, 0), false).events + seq![
                eof_event(tokens),
            ];
            &&& parse_events(text) == seq![Event::Start { kind: NodeKind::Root }] + inner + seq![
                Event::Finish,
            ]
            &&& token_events(inner) == consumed(tokens, 0, tokens.len() as int).push(
                eof_event(tokens),
            )
            &&& end_offset(tokens) == text.len()
            &&& forall|i: int| 0 <= i < tokens.len() ==> (#[trigger] tokens[i]).kind != TokenKind::Eof
        }),
{
    let tokens = tokens_of(text);
    lemma_tokens_tile(text, 0);
    let first = next_significant(tokens, 0);
    lemma_next_significant(tokens, 0);
    lemma_items_tokens(tokens, first, false);
    lemma_items_reach_end(tokens, first);
    let items = items_outcome(tokens, first, false);
    lemma_consumed_split(tokens, 0, first, tokens.len() as int);
    assert(Seq::<Event>::empty() + consumed(tokens, first, tokens.len() as int) =~= consumed(
        tokens,
        first,
        tokens.len() as int,
    ));
    lemma_token_events_one(eof_event(tokens));
    lemma_token_events_concat(items.events, seq![eof_event(tokens)]);
    assert(consumed(tokens, 0, tokens.len() as int) + seq![eof_event(tokens)] =~= consumed(
        tokens,
        0,
        tokens.len() as int,
    ).push(eof_event(tokens)));
}

/// The token events of a list of tokens.
pub open spec fn events_of(tokens: Seq<Token>) -> Seq<Event> {
    Seq::new(
        tokens.len(),
        |i: int| Event::Token { kind: tokens[i].kind, start: tokens[i].start, end: tokens[i].end },
    )
}

pub proof fn lemma_consumed_cons(first: Token, rest: Seq<Token>, count: int)
    requires
        0 <= count <= rest.len(),
    ensures
        consumed(seq![first] + rest, 0, 1 + count) == (if first.kind.is_trivia() {
            Seq::<Event>::empty()
        } else {
            seq![Event::Token { kind: first.kind, start: first.start, end: first.end }]
        }) + consumed(rest, 0, count),
    decreases count,
{
    let all = seq![first] + rest;
    let head = if first.kind.is_trivia() {
        Seq::<Event>::empty()
    } else {
        seq![Event::Token { kind: first.kind, start: first.start, end: first.end }]
    };
    if count == 0 {
        assert(all[0] == first);
        assert(consumed(all, 0, 0) =~= Seq::<Event>::empty());
        assert(consumed(rest, 0, 0) =~= Seq::<Event>::empty());
        assert(consumed(all, 0, 1) =~= head);
        assert(head + Seq::<Event>::empty() =~= head);
    } else {
        lemma_consumed_cons(first, rest, count - 1);
        assert(all[count] == rest[count - 1]);
        if !rest[count - 1].kind.is_trivia() {
            let event = token_event(rest, count - 1);
            assert(token_event(all, count) == event);
            assert((head + consumed(rest, 0, count - 1)).push(event) =~= head + consumed(
                rest,
                0,
                count - 1,
            ).push(event));
        }
    }
}

/// What is logged over all the tokens of a text is the events of its
/// significant tokens.
pub proof fn lemma_consumed_is_sig(text: Seq<u8>, pos: int)
    requires
        0 <= pos <= text.len() <= usize::MAX,
    ensures
        consumed(tokens_from(text, pos), 0, tokens_from(text, pos).len() as int) == events_of(
            sig_from(text, pos),
        ),
    decreases text.len() - pos,
{
    if pos < text.len() {
        lemma_token_at_span(text, pos);
        let first = token_at(text, pos);
        let end = token_end_at(text, pos);
        let rest = tokens_from(text, end);
        lemma_consumed_is_sig(text, end);
        lemma_consumed_cons(first, rest, rest.len() as int);
        assert(tokens_from(text, pos) == seq![first] + rest);
        if first.kind.is_trivia() {
            assert(Seq::<Event>::empty() + events_of(sig_from(text, end)) =~= events_of(
                sig_from(text, end),
            ));
        } else {
            assert(events_of(seq![first] + sig_from(text, end)) =~= seq![
                Event::Token { kind: first.kind, start: first.start, end: first.end },
            ] + events_of(sig_from(text, end)));
        }
    } else {
        assert(events_of(Seq::<Token>::empty()) =~= Seq::<Event>::empty());
    }
}

/// Whether every byte of `text` from `from` to `to` is a blank or a line
/// break.
pub open spec fn blank_between(text: Seq<u8>, from: int, to: int) -> bool {
    forall|i: int| from <= i < to ==> is_space(#[trigger] text[i]) || is_line_break(text[i])
}

/// A trivia token holds blanks and line breaks only, and a token that the
/// end of the input cuts short ends where the text ends.
pub proof fn lemma_token_bytes(text: Seq<u8>, pos: int)
    requires
        0 <= pos < text.len() <= usize::MAX,
    ensures
        token_kind_at(text, pos).is_trivia() ==> blank_between(
            text,
            pos,
            token_end_at(text, pos),
        ),
        token_kind_at(text, pos).is_open() ==> token_end_at(text, pos) == text.len(),
{
    reveal(token_kind_at);
    reveal(token_end_at);
    let kind = token_kind_at(text, pos);
    if kind == TokenKind::Whitespace {
        crate::relex::lemma_run_scan(text, pos + 1, ByteClass::Space);
    }
    if kind == TokenKind::OpenComment {
        lemma_open_comment(text, pos + 2);
    }
    if kind == TokenKind::OpenStr {
        lemma_open_string(text, pos + 1, text[pos]);
    }
}

pub proof fn lemma_open_comment(text: Seq<u8>, pos: int)
    requires
        0 <= pos <= text.len(),
        !crate::lexer::comment_closes(text, pos),
    ensures
        crate::lexer::comment_end(text, pos) == text.len(),
    decreases text.len() - pos,
{
    if pos + 1 < text.len() {
        lemma_open_comment(text, pos + 1);
    }
}

pub proof fn lemma_open_string(text: Seq<u8>, pos: int, quote: u8)
    requires
        0 <= pos <= text.len(),
        !crate::lexer::string_closes(text, pos, quote),
    ensures
        crate::lexer::string_end(text, pos, quote) == text.len(),
    decreases text.len() - pos,
{
    if pos < text.len() {
        if text[pos] == 0x5c && pos + 1 < text.len() && !is_line_break(text[pos + 1]) {
            lemma_open_string(text, pos + 2, quote);
        } else {
            lemma_open_string(text, pos + 1, quote);
        }
    }
}

/// What holds of the significant tokens of a text from `pos` on: each is
/// the token that the lexer reads where it starts, only blanks and line
/// breaks stand between it and the one before it, and one that the end of
/// the input cuts short is the last.
pub proof fn lemma_sig_facts(text: Seq<u8>, pos: int, m: int)
    requires
        0 <= pos <= text.len() <= usize::MAX,
        0 <= m < sig_from(text, pos).len(),
    ensures
        ({
            let sig = sig_from(text, pos);
            let before = if m >= 1 {
                sig[m - 1].end as int
            } else {
                pos
            };
            &&& sig[m] == token_at(text, sig[m].start as int)
            &&& sig[m].kind == token_kind_at(text, sig[m].start as int)
            &&& sig[m].end == token_end_at(text, sig[m].start as int)
            &&& !sig[m].kind.is_trivia()
            &&& pos <= before <= sig[m].start < sig[m].end <= text.len()
            &&& blank_between(text, before, sig[m].start as int)
            &&& sig[m].kind.is_open() ==> m == sig.len() - 1 && sig[m].end == text.len()
        }),
    decreases text.len() - pos,
{
    lemma_token_at_span(text, pos);
    lemma_token_bytes(text, pos);
    let first = token_at(text, pos);
    let end = token_end_at(text, pos);
    let rest = sig_from(text, end);
    if first.kind.is_trivia() {
        lemma_sig_facts(text, end, m);
    } else {
        assert(sig_from(text, pos) == seq![first] + rest);
        if m > 0 {
            lemma_sig_facts(text, end, m - 1);
            assert(sig_from(text, pos)[m] == rest[m - 1]);
            if m >= 2 {
                assert(sig_from(text, pos)[m - 1] == rest[m - 2]);
            }
        } else {
            if first.kind.is_open() {
                assert(rest =~= Seq::<Token>::empty());
            }
        }
    }
}

/// Only blanks and line breaks stand behind the last significant token of
/// a text.
pub proof fn lemma_sig_tail(text: Seq<u8>, pos: int)
    requires
        0 <= pos <= text.len() <= usize::MAX,
    ensures
        ({
            let sig = sig_from(text, pos);
            let last = if sig.len() > 0 {
                sig.last().end as int
            } else {
                pos
            };
            pos <= last <= text.len() && blank_between(text, last, text.len() as int)
        }),
    decreases text.len() - pos,
{
    if pos < text.len() {
        lemma_token_at_span(text, pos);
        lemma_token_bytes(text, pos);
        let first = token_at(text, pos);
        let end = token_end_at(text, pos);
        let rest = sig_from(text, end);
        lemma_sig_tail(text, end);
        if !first.kind.is_trivia() {
            assert(sig_from(text, pos) == seq![first] + rest);
            if rest.len() > 0 {
                assert(sig_from(text, pos).last() == rest.last());
            }
        }
    }
}

/// The leaf of the significant token `m` of `text`: the trivia between the
/// token before it and itself, and its own text.
pub open spec fn source_leaf(text: Seq<u8>, sig: Seq<Token>, m: int) -> Tree {
    let before = if m >= 1 {
        sig[m - 1].end as int
    } else {
        0
    };
    Tree::Leaf {
        token: sig[m].kind,
        leading: text.subrange(before, sig[m].start as int),
        text: text.subrange(sig[m].start as int, sig[m].end as int),
    }
}

/// The leaves of the significant tokens of `text`, in order.
pub open spec fn source_leaves(text: Seq<u8>, sig: Seq<Token>) -> Seq<Tree> {
    Seq::new(sig.len(), |m: int| source_leaf(text, sig, m))
}

/// The leaves that are made of the events of the significant tokens of a
/// text are the leaves of those tokens.
pub proof fn lemma_leaf_run_sig(text: Seq<u8>, events: Seq<Event>, count: int)
    requires
        text.len() <= usize::MAX,
        0 <= count <= sig_from(text, 0).len(),
        count <= events.len(),
        forall|i: int| 0 <= i < count ==> events[i] == #[trigger] events_of(sig_from(text, 0))[i],
    ensures
        leaf_run(text, events, count, 0) == source_leaves(text, sig_from(text, 0)).take(count),
        run_at(text, events, count, 0) == if count >= 1 {
            sig_from(text, 0)[count - 1].end as int
        } else {
            0
        },
    decreases count,
{
    let sig = sig_from(text, 0);
    if count == 0 {
        assert(source_leaves(text, sig).take(0) =~= Seq::<Tree>::empty());
    } else {
        lemma_leaf_run_sig(text, events, count - 1);
        lemma_sig_facts(text, 0, count - 1);
        assert(events[count - 1] == events_of(sig)[count - 1]);
        let at = run_at(text, events, count - 1, 0);
        let leaf = leaf_at(
            text,
            at,
            sig[count - 1].kind,
            sig[count - 1].start as int,
            sig[count - 1].end as int,
        );
        assert(leaf == source_leaf(text, sig, count - 1));
        assert(source_leaves(text, sig).take(count) =~= source_leaves(text, sig).take(
            count - 1,
        ).push(leaf));
    }
}

/// Whether every node that the log opens holds something: no node is
/// closed right where it was opened, and the log does not start by closing
/// a node.
pub open spec fn solid(events: Seq<Event>) -> bool {
    &&& forall|i: int|
        0 <= i < events.len() && #[trigger] events[i] is Start ==> i + 1 < events.len() && !(events[i
            + 1] is Finish)
    &&& events.len() > 0 ==> !(events[0] is Finish)
}

pub proof fn lemma_solid_concat(x: Seq<Event>, y: Seq<Event>)
    requires
        solid(x),
        solid(y),
    ensures
        solid(x + y),
{
    let all = x + y;
    assert forall|i: int| 0 <= i < all.len() && #[trigger] all[i] is Start implies i + 1
        < all.len() && !(all[i + 1] is Finish) by {
        if i < x.len() {
            assert(all[i] == x[i]);
            assert(all[i + 1] == x[i + 1]);
        } else {
            assert(all[i] == y[i - x.len()]);
            assert(all[i + 1] == y[i - x.len() + 1]);
        }
    }
    if x.len() > 0 {
        assert(all[0] == x[0]);
    } else if y.len() > 0 {
        assert(all[0] == y[0]);
    }
}

pub proof fn lemma_solid_node(kind: NodeKind, inner: Seq<Event>)
    requires
        solid(inner),
        inner.len() > 0,
    ensures
        solid(seq![Event::Start { kind }] + inner + seq![Event::Finish]),
        (seq![Event::Start { kind }] + inner + seq![Event::Finish]).len() > 0,
{
    let all = seq![Event::Start { kind }] + inner + seq![Event::Finish];
    assert(all[0] == (Event::Start { kind }));
    assert forall|i: int| 0 <= i < all.len() && #[trigger] all[i] is Start implies i + 1
        < all.len() && !(all[i + 1] is Finish) by {
        if i == 0 {
            assert(all[1] == inner[0]);
        } else if i <= inner.len() {
            assert(all[i] == inner[i - 1]);
            assert(all[i + 1] == inner[i]);
        }
    }
}

pub proof fn lemma_solid_tokens(events: Seq<Event>)
    requires
        forall|i: int| 0 <= i < events.len() ==> #[trigger] events[i] is Token,
    ensures
        solid(events),
{
}

pub proof fn lemma_consumed_tokens(tokens: Seq<Token>, from: int, to: int)
    ensures
        forall|i: int|
            0 <= i < consumed(tokens, from, to).len() ==> #[trigger] consumed(tokens, from, to)[i] is Token,
        solid(consumed(tokens, from, to)),
    decreases to - from,
{
    if !(from >= to || to > tokens.len() || from < 0) {
        lemma_consumed_tokens(tokens, from, to - 1);
    }
    lemma_solid_tokens(consumed(tokens, from, to));
}

/// What the rules log holds no empty node.
pub proof fn lemma_items_solid(tokens: Seq<Token>, pos: int, nested: bool)
    requires
        0 <= pos <= tokens.len(),
        next_significant(tokens, pos) == pos,
    ensures
        solid(items_outcome(tokens, pos, nested).events),
    decreases tokens.len() - pos, 5int,
{
    lemma_solid_tokens(Seq::<Event>::empty());
    if kind_at(tokens, pos) == TokenKind::Eof {
    } else if tokens[pos].kind == TokenKind::RCurly {
        if !nested {
            lemma_next_significant(tokens, pos + 1);
            let one = seq![token_event(tokens, pos)];
            lemma_solid_tokens(one);
            lemma_solid_node(NodeKind::Bogus, one);
            assert(stray_outcome(tokens, pos).events =~= seq![
                Event::Start { kind: NodeKind::Bogus },
            ] + one + seq![Event::Finish]);
            lemma_items_solid(tokens, advance(tokens, pos), nested);
            lemma_solid_concat(
                stray_outcome(tokens, pos).events,
                items_outcome(tokens, advance(tokens, pos), nested).events,
            );
        }
    } else {
        lemma_item_in_bounds(tokens, pos);
        lemma_item_solid(tokens, pos);
        let first = item_outcome(tokens, pos);
        lemma_items_solid(tokens, first.end, nested);
        lemma_solid_concat(first.events, items_outcome(tokens, first.end, nested).events);
    }
}

pub proof fn lemma_item_solid(tokens: Seq<Token>, pos: int)
    requires
        0 <= pos <= tokens.len(),
        next_significant(tokens, pos) == pos,
        kind_at(tokens, pos) != TokenKind::RCurly,
    ensures
        solid(item_outcome(tokens, pos).events),
    decreases tokens.len() - pos, 4int,
{
    lemma_solid_tokens(Seq::<Event>::empty());
    if kind_at(tokens, pos) == TokenKind::Eof {
    } else if tokens[pos].kind == TokenKind::At {
        lemma_at_rule_solid(tokens, pos);
    } else {
        lemma_declaration_or_rule_solid(tokens, pos);
    }
}

pub proof fn lemma_declaration_or_rule_solid(tokens: Seq<Token>, pos: int)
    requires
        0 <= pos <= tokens.len(),
        next_significant(tokens, pos) == pos,
        kind_at(tokens, pos) != TokenKind::RCurly,
    ensures
        solid(declaration_or_rule_outcome(tokens, pos).events),
    decreases tokens.len() - pos, 3int,
{
    lemma_solid_tokens(Seq::<Event>::empty());
    if kind_at(tokens, pos) != TokenKind::Eof {
        lemma_run_end(tokens, pos);
        let end = run_end(tokens, pos);
        let run = consumed(tokens, pos, end);
        lemma_consumed_tokens(tokens, pos, end);
        if kind_at(tokens, end) == TokenKind::Semicolon {
            let close = seq![token_event(tokens, end)];
            lemma_solid_tokens(close);
            lemma_solid_concat(run, close);
            lemma_solid_node(NodeKind::Declaration, run + close);
        } else if kind_at(tokens, end) == TokenKind::LCurly {
            lemma_block_solid(tokens, end);
            lemma_solid_concat(run, block_outcome(tokens, end).events);
            lemma_solid_node(NodeKind::QualifiedRule, run + block_outcome(tokens, end).events);
        } else {
            lemma_next_significant(tokens, pos + 1);
            lemma_consumed_step(tokens, pos);
            lemma_run_end(tokens, advance(tokens, pos));
            lemma_consumed_split(tokens, pos, advance(tokens, pos), end);
            lemma_solid_node(NodeKind::Declaration, run);
        }
    }
}

pub proof fn lemma_at_rule_solid(tokens: Seq<Token>, pos: int)
    requires
        0 <= pos <= tokens.len(),
        next_significant(tokens, pos) == pos,
    ensures
        solid(at_rule_outcome(tokens, pos).events),
    decreases tokens.len() - pos, 3int,
{
    lemma_solid_tokens(Seq::<Event>::empty());
    if kind_at(tokens, pos) == TokenKind::At {
        lemma_next_significant(tokens, pos + 1);
        let next = advance(tokens, pos);
        let lead = seq![token_event(tokens, pos)];
        lemma_solid_tokens(lead);
        let inner = any_at_rule_outcome(tokens, next);
        if inner.present {
            lemma_any_at_rule_solid(tokens, next);
            lemma_solid_concat(lead, inner.events);
            lemma_solid_node(NodeKind::AtRule, lead + inner.events);
        } else {
            let end = recovery_end(tokens, next);
            let skipped = consumed(tokens, next, end);
            lemma_consumed_tokens(tokens, next, end);
            lemma_solid_concat(lead, skipped);
            lemma_solid_node(NodeKind::BogusRule, lead + skipped);
        }
    }
}

pub proof fn lemma_any_at_rule_solid(tokens: Seq<Token>, pos: int)
    requires
        0 <= pos <= tokens.len(),
        next_significant(tokens, pos) == pos,
    ensures
        solid(any_at_rule_outcome(tokens, pos).events),
    decreases tokens.len() - pos, 2int,
{
    lemma_solid_tokens(Seq::<Event>::empty());
    match classified(tokens, pos) {
        Some(production) => {
            lemma_production_solid(tokens, pos, production);
        },
        None => {},
    }
}

pub proof fn lemma_production_solid(
    tokens: Seq<Token>,
    pos: int,
    production: crate::kind::Production,
)
    requires
        0 <= pos <= tokens.len(),
        next_significant(tokens, pos) == pos,
    ensures
        solid(production_outcome(tokens, pos, production).events),
    decreases tokens.len() - pos, 1int,
{
    lemma_solid_tokens(Seq::<Event>::empty());
    if production_accepts(production, tokens, pos) {
        lemma_next_significant(tokens, pos + 1);
        let start = advance(tokens, pos);
        lemma_run_end(tokens, start);
        let end = run_end(tokens, start);
        let lead = seq![token_event(tokens, pos)];
        lemma_solid_tokens(lead);
        lemma_consumed_tokens(tokens, start, end);
        let head = lead + consumed(tokens, start, end);
        lemma_solid_concat(lead, consumed(tokens, start, end));
        if production == crate::kind::Production::Charset {
            let close = seq![token_event(tokens, end)];
            lemma_solid_tokens(close);
            lemma_solid_concat(head, close);
            lemma_solid_node(production.node_kind(), head + close);
        } else if pos < end {
            lemma_block_solid(tokens, end);
            lemma_solid_concat(head, block_outcome(tokens, end).events);
            lemma_solid_node(production.node_kind(), head + block_outcome(tokens, end).events);
        }
    }
}

pub proof fn lemma_block_solid(tokens: Seq<Token>, pos: int)
    requires
        0 <= pos <= tokens.len(),
        next_significant(tokens, pos) == pos,
    ensures
        solid(block_outcome(tokens, pos).events),
    decreases tokens.len() - pos, 0int,
{
    lemma_solid_tokens(Seq::<Event>::empty());
    if kind_at(tokens, pos) == TokenKind::LCurly {
        lemma_next_significant(tokens, pos + 1);
        let next = advance(tokens, pos);
        let open = seq![token_event(tokens, pos)];
        lemma_solid_tokens(open);
        let inner = items_outcome(tokens, next, true);
        lemma_items_solid(tokens, next, true);
        lemma_items_in_bounds(tokens, next, true);
        lemma_solid_concat(open, inner.events);
        if kind_at(tokens, inner.end) == TokenKind::RCurly {
            let close = seq![token_event(tokens, inner.end)];
            lemma_solid_tokens(close);
            lemma_solid_concat(open + inner.events, close);
            lemma_solid_node(NodeKind::Block, open + inner.events + close);
        } else {
            lemma_solid_concat(open + inner.events, Seq::<Event>::empty());
            lemma_solid_node(NodeKind::Block, open + inner.events + Seq::<Event>::empty());
        }
    }
}

/// Whether every node at or under `tree` has a child.
pub open spec fn full(tree: Tree) -> bool
    decreases tree, 0int,
{
    match tree {
        Tree::Leaf { .. } => true,
        Tree::Node { children, .. } => children.len() > 0 && all_full(
            children,
            children.len() as int,
        ),
    }
}

pub open spec fn all_full(forest: Seq<Tree>, count: int) -> bool
    decreases forest, count,
{
    count <= 0 || count > forest.len() || (all_full(forest, count - 1) && full(forest[count - 1]))
}

pub proof fn lemma_all_full_concat(x: Seq<Tree>, y: Seq<Tree>, count: int)
    requires
        all_full(x, x.len() as int),
        0 <= count <= y.len(),
        all_full(y, count),
    ensures
        all_full(x + y, x.len() + count),
    decreases count,
{
    if count == 0 {
        lemma_all_full_prefix(x + y, x, x.len() as int);
    } else {
        lemma_all_full_concat(x, y, count - 1);
        assert((x + y)[x.len() + count - 1] == y[count - 1]);
    }
}

pub proof fn lemma_all_full_prefix(w: Seq<Tree>, u: Seq<Tree>, count: int)
    requires
        0 <= count <= u.len() <= w.len(),
        forall|i: int| 0 <= i < count ==> w[i] == u[i],
        all_full(u, count),
    ensures
        all_full(w, count),
    decreases count,
{
    if count > 0 {
        lemma_all_full_prefix(w, u, count - 1);
    }
}

/// What is assembled from a log without empty nodes holds no node without
/// children.
pub proof fn lemma_build_full(events: Seq<Event>, text: Seq<u8>, i: int, at: int)
    requires
        0 <= i <= events.len(),
        0 <= at <= text.len(),
        forall|k: int|
            i <= k < events.len() && #[trigger] events[k] is Start ==> k + 1 < events.len()
                && !(events[k + 1] is Finish),
    ensures
        all_full(build(events, text, i, at).forest, build(events, text, i, at).forest.len() as int),
        i < events.len() && !(events[i] is Finish) ==> build(events, text, i, at).forest.len() > 0,
    decreases events.len() - i,
{
    let built = build(events, text, i, at);
    lemma_build_text(events, text, i, at);
    if i < events.len() {
        match events[i] {
            Event::Finish => {},
            Event::Token { kind, start, end } => {
                let leaf = leaf_at(text, at, kind, start as int, end as int);
                let to = leaf_end(text, at, start as int, end as int);
                lemma_build_full(events, text, i + 1, to);
                let rest = build(events, text, i + 1, to);
                assert(leaf is Leaf);
                assert(full(leaf));
                assert(all_full(seq![leaf], 1)) by {
                    assert(all_full(seq![leaf], 0));
                    assert(seq![leaf][0] == leaf);
                }
                lemma_all_full_concat(seq![leaf], rest.forest, rest.forest.len() as int);
            },
            Event::Start { kind } => {
                lemma_build_full(events, text, i + 1, at);
                lemma_build_text(events, text, i + 1, at);
                let inner = build(events, text, i + 1, at);
                let node = Tree::Node { kind, children: inner.forest };
                assert(full(node));
                assert(all_full(seq![node], 1)) by {
                    assert(all_full(seq![node], 0));
                    assert(seq![node][0] == node);
                }
                if i < inner.next <= events.len() {
                    lemma_build_full(events, text, inner.next, inner.at);
                    let rest = build(events, text, inner.next, inner.at);
                    lemma_all_full_concat(seq![node], rest.forest, rest.forest.len() as int);
                }
            },
        }
    }
}

/// A tree in which every node has a child has a leaf, and it ends with a
/// token that the end of the input cuts short where its last leaf is
/// one.
pub proof fn lemma_full_ends(tree: Tree)
    requires
        full(tree),
    ensures
        leaves(tree).len() > 0,
        leaves(tree).last() is Leaf,
        leaves(tree).last()->token.is_open() == crate::format::ends_open(tree),
    decreases tree,
{
    match tree {
        Tree::Leaf { .. } => {},
        Tree::Node { children, .. } => {
            let n = children.len() as int;
            assert(full(children[n - 1]));
            lemma_full_ends(children.last());
            assert(forest_leaves(children, n) == forest_leaves(children, n - 1) + leaves(
                children[n - 1],
            ));
        },
    }
}

} // verus!
