//! Parsing reads the kinds and the keywords of the significant tokens and
//! nothing else: two lists of tokens that agree in these are parsed into
//! logs of the same shape.
use crate::kind::NodeKind;
use crate::kind::Production;
use crate::kind::TokenKind;
use crate::lexer::Token;
use crate::parser::advance;
use crate::parser::consumed;
use crate::parser::Event;
use crate::parser::keyword_at;
use crate::parser::kind_at;
use crate::parser::lemma_consumed_split;
use crate::parser::lemma_consumed_step;
use crate::parser::lemma_next_significant;
use crate::parser::next_significant;
use crate::parser::Outcome;
use crate::parser::token_event;
use crate::syntax::any_at_rule_outcome;
use crate::syntax::at_rule_outcome;
use crate::syntax::block_outcome;
use crate::syntax::classified;
use crate::syntax::declaration_or_rule_outcome;
use crate::syntax::item_outcome;
use crate::syntax::items_outcome;
use crate::syntax::lemma_item_in_bounds;
use crate::syntax::lemma_run_end;
use crate::syntax::prelude_accepted;
use crate::syntax::production_accepts;
use crate::syntax::production_outcome;
use crate::syntax::recovery_end;
use crate::syntax::run_end;
use crate::syntax::skip_balanced;
use crate::syntax::stray_outcome;
use vstd::prelude::*;

verus! {

/// What the assembly of the tree reads of an event.
pub enum Shape {
    Open(NodeKind),
    Close,
    Word(TokenKind),
}

pub open spec fn shape_of(event: Event) -> Shape {
    match event {
        Event::Start { kind } => Shape::Open(kind),
        Event::Finish => Shape::Close,
        Event::Token { kind, .. } => Shape::Word(kind),
    }
}

/// Whether two logs open and close the same nodes around tokens of the
/// same kinds.
pub open spec fn same_shape(x: Seq<Event>, y: Seq<Event>) -> bool {
    &&& x.len() == y.len()
    &&& forall|i: int| 0 <= i < x.len() ==> shape_of(#[trigger] x[i]) == shape_of(y[i])
}

pub proof fn lemma_same_shape_concat(x: Seq<Event>, y: Seq<Event>, u: Seq<Event>, v: Seq<Event>)
    requires
        same_shape(x, y),
        same_shape(u, v),
    ensures
        same_shape(x + u, y + v),
{
    assert forall|i: int| 0 <= i < (x + u).len() implies shape_of(#[trigger] (x + u)[i])
        == shape_of((y + v)[i]) by {
        if i < x.len() {
            assert((x + u)[i] == x[i]);
            assert((y + v)[i] == y[i]);
        } else {
            assert((x + u)[i] == u[i - x.len()]);
            assert((y + v)[i] == v[i - y.len()]);
        }
    }
}

pub proof fn lemma_same_shape_node(kind: NodeKind, x: Seq<Event>, y: Seq<Event>)
    requires
        same_shape(x, y),
    ensures
        same_shape(
            seq![Event::Start { kind }] + x + seq![Event::Finish],
            seq![Event::Start { kind }] + y + seq![Event::Finish],
        ),
{
    let open = seq![Event::Start { kind }];
    let close = seq![Event::Finish];
    assert(same_shape(open, open));
    assert(same_shape(close, close));
    lemma_same_shape_concat(open, open, x, y);
    lemma_same_shape_concat(open + x, open + y, close, close);
}

pub proof fn lemma_same_shape_empty()
    ensures
        same_shape(Seq::<Event>::empty(), Seq::<Event>::empty()),
{
}

/// The kinds and the keywords of the significant tokens of `tokens` from
/// `pos` on.
pub open spec fn kinds_from(tokens: Seq<Token>, pos: int) -> Seq<(TokenKind, Option<Production>)>
    decreases tokens.len() - pos,
{
    if pos < 0 || pos >= tokens.len() {
        Seq::empty()
    } else if tokens[pos].kind.is_trivia() {
        kinds_from(tokens, pos + 1)
    } else {
        seq![(tokens[pos].kind, tokens[pos].keyword)] + kinds_from(tokens, pos + 1)
    }
}

/// Whether no token of `tokens` is of the kind that stands for the end of
/// the input.
pub open spec fn no_eof(tokens: Seq<Token>) -> bool {
    forall|i: int| 0 <= i < tokens.len() ==> (#[trigger] tokens[i]).kind != TokenKind::Eof
}

/// Whether the cursor at `pa` in `a` and the cursor at `pb` in `b` have
/// the same significant tokens before them, as far as kinds and keywords
/// go.
pub open spec fn alike_at(a: Seq<Token>, pa: int, b: Seq<Token>, pb: int) -> bool {
    &&& no_eof(a)
    &&& no_eof(b)
    &&& 0 <= pa <= a.len()
    &&& 0 <= pb <= b.len()
    &&& next_significant(a, pa) == pa
    &&& next_significant(b, pb) == pb
    &&& kinds_from(a, pa) == kinds_from(b, pb)
}

pub proof fn lemma_kinds_skip(tokens: Seq<Token>, pos: int)
    requires
        0 <= pos <= tokens.len(),
    ensures
        kinds_from(tokens, pos) == kinds_from(tokens, next_significant(tokens, pos)),
    decreases tokens.len() - pos,
{
    if pos < tokens.len() && tokens[pos].kind.is_trivia() {
        lemma_kinds_skip(tokens, pos + 1);
    }
}

/// Cursors that see the same stand on tokens of the same kind and
/// keyword, or both at the end, and see the same after a step.
pub proof fn lemma_alike_step(a: Seq<Token>, pa: int, b: Seq<Token>, pb: int)
    requires
        alike_at(a, pa, b, pb),
    ensures
        kind_at(a, pa) == kind_at(b, pb),
        keyword_at(a, pa) == keyword_at(b, pb),
        (pa < a.len()) == (pb < b.len()),
        (kind_at(a, pa) == TokenKind::Eof) == (pa >= a.len()),
        pa < a.len() ==> alike_at(a, advance(a, pa), b, advance(b, pb)) && pa < advance(a, pa)
            && pb < advance(b, pb),
{
    lemma_next_significant(a, pa);
    lemma_next_significant(b, pb);
    if pa < a.len() {
        let rest_a = kinds_from(a, pa + 1);
        assert(kinds_from(a, pa) == seq![(a[pa].kind, a[pa].keyword)] + rest_a);
        assert(kinds_from(a, pa).len() > 0);
        if pb >= b.len() {
            assert(kinds_from(b, pb).len() == 0);
        }
        let rest_b = kinds_from(b, pb + 1);
        assert(kinds_from(b, pb) == seq![(b[pb].kind, b[pb].keyword)] + rest_b);
        assert(kinds_from(a, pa)[0] == kinds_from(b, pb)[0]);
        assert(rest_a =~= kinds_from(a, pa).skip(1));
        assert(rest_b =~= kinds_from(b, pb).skip(1));
        lemma_kinds_skip(a, pa + 1);
        lemma_kinds_skip(b, pb + 1);
        lemma_next_significant(a, pa + 1);
        lemma_next_significant(b, pb + 1);
    } else {
        if pb < b.len() {
            assert(kinds_from(b, pb) == seq![(b[pb].kind, b[pb].keyword)] + kinds_from(
                b,
                pb + 1,
            ));
            assert(kinds_from(b, pb).len() > 0);
        }
    }
}

/// Whether two stretches of two token lists log the same and end at
/// cursors that see the same.
pub open spec fn stretch_alike(
    a: Seq<Token>,
    pa: int,
    ea: int,
    b: Seq<Token>,
    pb: int,
    eb: int,
) -> bool {
    &&& pa <= ea
    &&& pb <= eb
    &&& alike_at(a, ea, b, eb)
    &&& same_shape(consumed(a, pa, ea), consumed(b, pb, eb))
    &&& (pa == ea) == (pb == eb)
}

/// One step logs one token.
pub proof fn lemma_step_alike(a: Seq<Token>, pa: int, b: Seq<Token>, pb: int)
    requires
        alike_at(a, pa, b, pb),
        pa < a.len(),
    ensures
        stretch_alike(a, pa, advance(a, pa), b, pb, advance(b, pb)),
        consumed(a, pa, advance(a, pa)) == seq![token_event(a, pa)],
        consumed(b, pb, advance(b, pb)) == seq![token_event(b, pb)],
        same_shape(seq![token_event(a, pa)], seq![token_event(b, pb)]),
{
    lemma_alike_step(a, pa, b, pb);
    lemma_next_significant(a, pa);
    lemma_next_significant(b, pb);
    lemma_consumed_step(a, pa);
    lemma_consumed_step(b, pb);
}

/// Two stretches, one after the other.
pub proof fn lemma_stretch_join(
    a: Seq<Token>,
    pa: int,
    ma: int,
    ea: int,
    b: Seq<Token>,
    pb: int,
    mb: int,
    eb: int,
)
    requires
        0 <= pa,
        0 <= pb,
        stretch_alike(a, pa, ma, b, pb, mb),
        stretch_alike(a, ma, ea, b, mb, eb),
    ensures
        stretch_alike(a, pa, ea, b, pb, eb),
{
    lemma_consumed_split(a, pa, ma, ea);
    lemma_consumed_split(b, pb, mb, eb);
    lemma_same_shape_concat(
        consumed(a, pa, ma),
        consumed(b, pb, mb),
        consumed(a, ma, ea),
        consumed(b, mb, eb),
    );
}

pub proof fn lemma_stretch_none(a: Seq<Token>, pa: int, b: Seq<Token>, pb: int)
    requires
        alike_at(a, pa, b, pb),
    ensures
        stretch_alike(a, pa, pa, b, pb, pb),
{
}

/// Flat runs of tokens correspond.
pub proof fn lemma_run_alike(a: Seq<Token>, pa: int, b: Seq<Token>, pb: int)
    requires
        alike_at(a, pa, b, pb),
    ensures
        stretch_alike(a, pa, run_end(a, pa), b, pb, run_end(b, pb)),
        (pa < run_end(a, pa) && advance(a, pa) == run_end(a, pa)) == (pb < run_end(b, pb)
            && advance(b, pb) == run_end(b, pb)),
    decreases a.len() - pa,
{
    lemma_alike_step(a, pa, b, pb);
    lemma_run_end(a, pa);
    lemma_run_end(b, pb);
    if crate::syntax::ends_run(kind_at(a, pa)) {
        lemma_stretch_none(a, pa, b, pb);
    } else {
        lemma_step_alike(a, pa, b, pb);
        lemma_run_alike(a, advance(a, pa), b, advance(b, pb));
        lemma_run_end(a, advance(a, pa));
        lemma_run_end(b, advance(b, pb));
        lemma_stretch_join(
            a,
            pa,
            advance(a, pa),
            run_end(a, pa),
            b,
            pb,
            advance(b, pb),
            run_end(b, pb),
        );
    }
}

/// Balanced braces correspond.
pub proof fn lemma_skip_alike(a: Seq<Token>, pa: int, b: Seq<Token>, pb: int, depth: nat)
    requires
        alike_at(a, pa, b, pb),
    ensures
        stretch_alike(a, pa, skip_balanced(a, pa, depth), b, pb, skip_balanced(b, pb, depth))
            || (depth == 0 && skip_balanced(a, pa, depth) == pa && skip_balanced(b, pb, depth)
            == pb),
        alike_at(a, skip_balanced(a, pa, depth), b, skip_balanced(b, pb, depth)),
        same_shape(
            consumed(a, pa, skip_balanced(a, pa, depth)),
            consumed(b, pb, skip_balanced(b, pb, depth)),
        ),
        pa <= skip_balanced(a, pa, depth),
        pb <= skip_balanced(b, pb, depth),
    decreases a.len() - pa,
{
    lemma_alike_step(a, pa, b, pb);
    if kind_at(a, pa) == TokenKind::Eof || depth == 0 {
    } else {
        lemma_step_alike(a, pa, b, pb);
        let next = if a[pa].kind == TokenKind::LCurly {
            depth + 1
        } else if a[pa].kind == TokenKind::RCurly {
            (depth - 1) as nat
        } else {
            depth
        };
        lemma_skip_alike(a, advance(a, pa), b, advance(b, pb), next);
        lemma_consumed_split(a, pa, advance(a, pa), skip_balanced(a, pa, depth));
        lemma_consumed_split(b, pb, advance(b, pb), skip_balanced(b, pb, depth));
        lemma_same_shape_concat(
            consumed(a, pa, advance(a, pa)),
            consumed(b, pb, advance(b, pb)),
            consumed(a, advance(a, pa), skip_balanced(a, pa, depth)),
            consumed(b, advance(b, pb), skip_balanced(b, pb, depth)),
        );
    }
}

/// Recovery corresponds.
pub proof fn lemma_recovery_alike(a: Seq<Token>, pa: int, b: Seq<Token>, pb: int)
    requires
        alike_at(a, pa, b, pb),
    ensures
        alike_at(a, recovery_end(a, pa), b, recovery_end(b, pb)),
        same_shape(
            consumed(a, pa, recovery_end(a, pa)),
            consumed(b, pb, recovery_end(b, pb)),
        ),
        pa <= recovery_end(a, pa),
        pb <= recovery_end(b, pb),
{
    lemma_run_alike(a, pa, b, pb);
    let sa = run_end(a, pa);
    let sb = run_end(b, pb);
    lemma_alike_step(a, sa, b, sb);
    if kind_at(a, sa) == TokenKind::Semicolon {
        lemma_step_alike(a, sa, b, sb);
        lemma_stretch_join(a, pa, sa, advance(a, sa), b, pb, sb, advance(b, sb));
    } else if kind_at(a, sa) == TokenKind::LCurly {
        lemma_step_alike(a, sa, b, sb);
        lemma_stretch_join(a, pa, sa, advance(a, sa), b, pb, sb, advance(b, sb));
        lemma_skip_alike(a, advance(a, sa), b, advance(b, sb), 1);
        let ea = recovery_end(a, pa);
        let eb = recovery_end(b, pb);
        lemma_consumed_split(a, pa, advance(a, sa), ea);
        lemma_consumed_split(b, pb, advance(b, sb), eb);
        lemma_same_shape_concat(
            consumed(a, pa, advance(a, sa)),
            consumed(b, pb, advance(b, sb)),
            consumed(a, advance(a, sa), ea),
            consumed(b, advance(b, sb), eb),
        );
    }
}

/// Whether two outcomes are of the same shape and end at cursors that see
/// the same.
pub open spec fn outcome_alike(
    a: Seq<Token>,
    oa: Outcome,
    b: Seq<Token>,
    ob: Outcome,
) -> bool {
    &&& oa.present == ob.present
    &&& same_shape(oa.events, ob.events)
    &&& alike_at(a, oa.end, b, ob.end)
}

/// The rules correspond: on cursors that see the same they log the same
/// shape and end at cursors that see the same.
pub proof fn lemma_items_alike(a: Seq<Token>, pa: int, b: Seq<Token>, pb: int, nested: bool)
    requires
        alike_at(a, pa, b, pb),
    ensures
        outcome_alike(a, items_outcome(a, pa, nested), b, items_outcome(b, pb, nested)),
    decreases a.len() - pa, 5int,
{
    lemma_alike_step(a, pa, b, pb);
    lemma_same_shape_empty();
    if kind_at(a, pa) == TokenKind::Eof {
    } else if a[pa].kind == TokenKind::RCurly {
        if !nested {
            lemma_step_alike(a, pa, b, pb);
            lemma_items_alike(a, advance(a, pa), b, advance(b, pb), nested);
            let sa = stray_outcome(a, pa).events;
            let sb = stray_outcome(b, pb).events;
            assert(same_shape(sa, sb));
            lemma_same_shape_concat(
                sa,
                sb,
                items_outcome(a, advance(a, pa), nested).events,
                items_outcome(b, advance(b, pb), nested).events,
            );
        }
    } else {
        lemma_item_alike(a, pa, b, pb);
        lemma_item_in_bounds(a, pa);
        lemma_item_in_bounds(b, pb);
        let fa = item_outcome(a, pa);
        let fb = item_outcome(b, pb);
        lemma_items_alike(a, fa.end, b, fb.end, nested);
        lemma_same_shape_concat(
            fa.events,
            fb.events,
            items_outcome(a, fa.end, nested).events,
            items_outcome(b, fb.end, nested).events,
        );
    }
}

pub proof fn lemma_item_alike(a: Seq<Token>, pa: int, b: Seq<Token>, pb: int)
    requires
        alike_at(a, pa, b, pb),
    ensures
        outcome_alike(a, item_outcome(a, pa), b, item_outcome(b, pb)),
    decreases a.len() - pa, 4int,
{
    lemma_alike_step(a, pa, b, pb);
    lemma_same_shape_empty();
    if kind_at(a, pa) == TokenKind::Eof {
    } else if a[pa].kind == TokenKind::At {
        lemma_at_rule_alike(a, pa, b, pb);
    } else {
        lemma_declaration_or_rule_alike(a, pa, b, pb);
    }
}

pub proof fn lemma_declaration_or_rule_alike(a: Seq<Token>, pa: int, b: Seq<Token>, pb: int)
    requires
        alike_at(a, pa, b, pb),
    ensures
        outcome_alike(
            a,
            declaration_or_rule_outcome(a, pa),
            b,
            declaration_or_rule_outcome(b, pb),
        ),
    decreases a.len() - pa, 3int,
{
    lemma_alike_step(a, pa, b, pb);
    lemma_same_shape_empty();
    if kind_at(a, pa) != TokenKind::Eof {
        lemma_run_alike(a, pa, b, pb);
        let ea = run_end(a, pa);
        let eb = run_end(b, pb);
        let ra = consumed(a, pa, ea);
        let rb = consumed(b, pb, eb);
        lemma_alike_step(a, ea, b, eb);
        if kind_at(a, ea) == TokenKind::Semicolon {
            lemma_step_alike(a, ea, b, eb);
            lemma_same_shape_concat(ra, rb, seq![token_event(a, ea)], seq![token_event(b, eb)]);
            lemma_same_shape_node(
                NodeKind::Declaration,
                ra + seq![token_event(a, ea)],
                rb + seq![token_event(b, eb)],
            );
        } else if kind_at(a, ea) == TokenKind::LCurly {
            lemma_block_alike(a, ea, b, eb);
            lemma_same_shape_concat(
                ra,
                rb,
                block_outcome(a, ea).events,
                block_outcome(b, eb).events,
            );
            lemma_same_shape_node(
                NodeKind::QualifiedRule,
                ra + block_outcome(a, ea).events,
                rb + block_outcome(b, eb).events,
            );
        } else {
            lemma_same_shape_node(NodeKind::Declaration, ra, rb);
        }
    }
}

pub proof fn lemma_at_rule_alike(a: Seq<Token>, pa: int, b: Seq<Token>, pb: int)
    requires
        alike_at(a, pa, b, pb),
    ensures
        outcome_alike(a, at_rule_outcome(a, pa), b, at_rule_outcome(b, pb)),
    decreases a.len() - pa, 3int,
{
    lemma_alike_step(a, pa, b, pb);
    lemma_same_shape_empty();
    if kind_at(a, pa) == TokenKind::At {
        lemma_step_alike(a, pa, b, pb);
        let na = advance(a, pa);
        let nb = advance(b, pb);
        let la = seq![token_event(a, pa)];
        let lb = seq![token_event(b, pb)];
        lemma_any_at_rule_alike(a, na, b, nb);
        let ia = any_at_rule_outcome(a, na);
        let ib = any_at_rule_outcome(b, nb);
        if ia.present {
            lemma_same_shape_concat(la, lb, ia.events, ib.events);
            lemma_same_shape_node(NodeKind::AtRule, la + ia.events, lb + ib.events);
        } else {
            lemma_recovery_alike(a, na, b, nb);
            let sa = consumed(a, na, recovery_end(a, na));
            let sb = consumed(b, nb, recovery_end(b, nb));
            lemma_same_shape_concat(la, lb, sa, sb);
            lemma_same_shape_node(NodeKind::BogusRule, la + sa, lb + sb);
        }
    }
}

pub proof fn lemma_any_at_rule_alike(a: Seq<Token>, pa: int, b: Seq<Token>, pb: int)
    requires
        alike_at(a, pa, b, pb),
    ensures
        outcome_alike(a, any_at_rule_outcome(a, pa), b, any_at_rule_outcome(b, pb)),
    decreases a.len() - pa, 2int,
{
    lemma_alike_step(a, pa, b, pb);
    lemma_same_shape_empty();
    assert(classified(a, pa) == classified(b, pb));
    match classified(a, pa) {
        Some(production) => {
            lemma_production_alike(a, pa, b, pb, production);
        },
        None => {},
    }
}

pub proof fn lemma_production_alike(
    a: Seq<Token>,
    pa: int,
    b: Seq<Token>,
    pb: int,
    production: Production,
)
    requires
        alike_at(a, pa, b, pb),
    ensures
        outcome_alike(
            a,
            production_outcome(a, pa, production),
            b,
            production_outcome(b, pb, production),
        ),
    decreases a.len() - pa, 1int,
{
    lemma_alike_step(a, pa, b, pb);
    lemma_same_shape_empty();
    if pa < a.len() {
        lemma_step_alike(a, pa, b, pb);
        let sa = advance(a, pa);
        let sb = advance(b, pb);
        lemma_run_alike(a, sa, b, sb);
        let ea = run_end(a, sa);
        let eb = run_end(b, sb);
        lemma_alike_step(a, sa, b, sb);
        lemma_alike_step(a, ea, b, eb);
        assert(prelude_accepted(production, a, sa, ea) == prelude_accepted(production, b, sb, eb));
        assert(production_accepts(production, a, pa) == production_accepts(production, b, pb));
        if production_accepts(production, a, pa) {
            let ha = seq![token_event(a, pa)] + consumed(a, sa, ea);
            let hb = seq![token_event(b, pb)] + consumed(b, sb, eb);
            lemma_same_shape_concat(
                seq![token_event(a, pa)],
                seq![token_event(b, pb)],
                consumed(a, sa, ea),
                consumed(b, sb, eb),
            );
            if production == Production::Charset {
                lemma_step_alike(a, ea, b, eb);
                lemma_same_shape_concat(
                    ha,
                    hb,
                    seq![token_event(a, ea)],
                    seq![token_event(b, eb)],
                );
                lemma_same_shape_node(
                    production.node_kind(),
                    ha + seq![token_event(a, ea)],
                    hb + seq![token_event(b, eb)],
                );
            } else {
                lemma_block_alike(a, ea, b, eb);
                lemma_same_shape_concat(
                    ha,
                    hb,
                    block_outcome(a, ea).events,
                    block_outcome(b, eb).events,
                );
                lemma_same_shape_node(
                    production.node_kind(),
                    ha + block_outcome(a, ea).events,
                    hb + block_outcome(b, eb).events,
                );
            }
        }
    } else {
        assert(!production_accepts(production, a, pa));
        assert(!production_accepts(production, b, pb));
    }
}

pub proof fn lemma_block_alike(a: Seq<Token>, pa: int, b: Seq<Token>, pb: int)
    requires
        alike_at(a, pa, b, pb),
    ensures
        outcome_alike(a, block_outcome(a, pa), b, block_outcome(b, pb)),
    decreases a.len() - pa, 0int,
{
    lemma_alike_step(a, pa, b, pb);
    lemma_same_shape_empty();
    if kind_at(a, pa) == TokenKind::LCurly {
        lemma_step_alike(a, pa, b, pb);
        let na = advance(a, pa);
        let nb = advance(b, pb);
        let oa = seq![token_event(a, pa)];
        let ob = seq![token_event(b, pb)];
        lemma_items_alike(a, na, b, nb, true);
        let ia = items_outcome(a, na, true);
        let ib = items_outcome(b, nb, true);
        lemma_same_shape_concat(oa, ob, ia.events, ib.events);
        lemma_alike_step(a, ia.end, b, ib.end);
        if kind_at(a, ia.end) == TokenKind::RCurly {
            lemma_step_alike(a, ia.end, b, ib.end);
            lemma_same_shape_concat(
                oa + ia.events,
                ob + ib.events,
                seq![token_event(a, ia.end)],
                seq![token_event(b, ib.end)],
            );
            lemma_same_shape_node(
                NodeKind::Block,
                oa + ia.events + seq![token_event(a, ia.end)],
                ob + ib.events + seq![token_event(b, ib.end)],
            );
        } else {
            lemma_same_shape_concat(
                oa + ia.events,
                ob + ib.events,
                Seq::<Event>::empty(),
                Seq::<Event>::empty(),
            );
            lemma_same_shape_node(
                NodeKind::Block,
                oa + ia.events + Seq::<Event>::empty(),
                ob + ib.events + Seq::<Event>::empty(),
            );
        }
    }
}

} // verus!
