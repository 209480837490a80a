//! Formatting is idempotent: the text that formatting gives is formatted
//! to itself.
use crate::document::Doc;
use crate::format::child_docs;
use crate::format::children_docs;
use crate::format::formatted;
use crate::format::lemma_formatted_alike;
use crate::format::tree_doc;
use crate::grounding::all_full;
use crate::grounding::events_of;
use crate::grounding::full;
use crate::grounding::leaf_run;
use crate::grounding::lemma_build_full;
use crate::grounding::lemma_build_leaves;
use crate::grounding::lemma_consumed_is_sig;
use crate::grounding::lemma_full_ends;
use crate::grounding::lemma_items_solid;
use crate::grounding::lemma_leaf_run_sig;
use crate::grounding::lemma_parse_token_events;
use crate::grounding::lemma_sig_facts;
use crate::grounding::lemma_sig_tail;
use crate::grounding::lemma_solid_concat;
use crate::grounding::lemma_solid_tokens;
use crate::grounding::run_at;
use crate::grounding::source_leaf;
use crate::grounding::source_leaves;
use crate::grounding::token_events;
use crate::kind::NodeKind;
use crate::kind::Production;
use crate::kind::TokenKind;
use crate::lexer::is_line_break;
use crate::lexer::is_space;
use crate::lexer::lemma_token_at_span;
use crate::lexer::Token;
use crate::lexer::token_at;
use crate::lexer::token_end_at;
use crate::lexer::tokens_from;
use crate::lexer::tokens_of;
use crate::normal::normal;
use crate::options::FormatOptions;
use crate::parser::eof_event;
use crate::parser::Event;
use crate::parser::lemma_next_significant;
use crate::parser::next_significant;
use crate::placing::all_tidy;
use crate::placing::children_placed;
use crate::placing::is_blank;
use crate::placing::laid;
use crate::placing::leaf_placed;
use crate::placing::lemma_children_placed_grow;
use crate::placing::lemma_place_children;
use crate::placing::lemma_put_text;
use crate::placing::placed;
use crate::placing::prev_end;
use crate::placing::Span;
use crate::placing::tidy;
use crate::placing::word_at;
use crate::printer::lemma_print_docs_concat;
use crate::printer::print_doc;
use crate::printer::print_docs;
use crate::printer::start_state;
use crate::rebuilding::in_order;
use crate::rebuilding::lemma_build_rebuilt;
use crate::rebuilding::lemma_rebuilt_alike;
use crate::rebuilding::rebuilt;
use crate::rebuilding::rebuilt_children;
use crate::rebuilding::spans_of;
use crate::relex::read_as;
use crate::relex::sig_from;
use crate::reparse::alike_at;
use crate::reparse::kinds_from;
use crate::reparse::lemma_items_alike;
use crate::reparse::lemma_kinds_skip;
use crate::reparse::lemma_same_shape_concat;
use crate::reparse::no_eof;
use crate::reparse::same_shape;
use crate::rereading::lemma_reads;
use crate::rereading::reads;
use crate::rereading::sourced;
use crate::rereading::word_sourced;
use crate::syntax::items_outcome;
use crate::syntax::lemma_items_complete;
use crate::syntax::parse_events;
use crate::syntax::parse_tree;
use crate::tree::build;
use crate::tree::Built;
use crate::tree::forest_leaves;
use crate::tree::leaf_at;
use crate::tree::leaves;
use crate::tree::lemma_build_text;
use crate::tree::lemma_complete_concat;
use crate::tree::lemma_complete_node;
use crate::tree::lemma_complete_token;
use crate::tree::lemma_holds_at_itself;
use crate::tree::lemma_holds_at_parts;
use crate::tree::stands_alone;
use crate::tree::Tree;
use vstd::prelude::*;

verus! {

/// What the log of a parse holds between the opening and the closing of
/// the root: the items, and the end of the input.
pub open spec fn inner_events(text: Seq<u8>) -> Seq<Event> {
    let tokens = tokens_of(text);
    items_outcome(tokens, next_significant(tokens, 0), false).events + seq![eof_event(tokens)]
}

/// The children of the root of the tree of `text`.
pub open spec fn root_children(text: Seq<u8>) -> Seq<Tree> {
    build(inner_events(text), text, 0, 0).forest
}

/// The leaf that stands for the end of the input in the tree of `text`.
pub open spec fn eof_leaf(text: Seq<u8>) -> Tree {
    let sig = sig_from(text, 0);
    let from = if sig.len() > 0 {
        sig.last().end as int
    } else {
        0
    };
    Tree::Leaf {
        token: TokenKind::Eof,
        leading: text.subrange(from, text.len() as int),
        text: Seq::empty(),
    }
}

/// The tree of a text is a root over its items and the end of the input;
/// the leaves of the items are the significant tokens of the text, each
/// with the trivia in front of it; and no node of the tree is without
/// children.
pub proof fn lemma_parse_built(text: Seq<u8>)
    requires
        text.len() <= usize::MAX,
    ensures
        ({
            let tokens = tokens_of(text);
            let sig = sig_from(text, 0);
            let children = root_children(text);
            let n = children.len() as int;
            &&& parse_tree(text) == (Tree::Node { kind: NodeKind::Root, children })
            &&& n >= 1
            &&& children[n - 1] == eof_leaf(text)
            &&& forest_leaves(children, n - 1) == source_leaves(text, sig)
            &&& all_full(children, n)
            &&& token_events(inner_events(text)) == events_of(sig).push(eof_event(tokens))
            &&& eof_event(tokens) == (Event::Token {
                kind: TokenKind::Eof,
                start: text.len() as usize,
                end: text.len() as usize,
            })
            &&& no_eof(tokens)
        }),
{
    let tokens = tokens_of(text);
    let sig = sig_from(text, 0);
    let first = next_significant(tokens, 0);
    lemma_next_significant(tokens, 0);
    lemma_parse_token_events(text);
    lemma_consumed_is_sig(text, 0);
    let items = items_outcome(tokens, first, false).events;
    let eof = eof_event(tokens);
    let inner = inner_events(text);
    let all = parse_events(text);
    lemma_items_complete(tokens, first, false, text);
    lemma_complete_token(eof, text);
    lemma_complete_concat(items, seq![eof], text);
    lemma_complete_node(NodeKind::Root, inner, text);
    let inside = build(inner, text, 0, 0);
    assert(build(all, text, 0, 0) == (Built {
        forest: seq![Tree::Node { kind: NodeKind::Root, children: inside.forest }],
        next: (inner.len() + 2) as int,
        at: inside.at,
    }));
    lemma_holds_at_itself(inner);
    lemma_holds_at_parts(inner, 0, items, seq![eof]);
    assert(stands_alone(inner, text, 0, 0, items));
    let before = build(items, text, 0, 0);
    lemma_build_text(items, text, 0, 0);
    assert(inner[items.len() as int] == eof);
    let last = build(inner, text, items.len() as int, before.at);
    let leaf = leaf_at(text, before.at, TokenKind::Eof, text.len() as int, text.len() as int);
    let end = build(inner, text, (items.len() + 1) as int, text.len() as int);
    assert(end == (Built {
        forest: Seq::empty(),
        next: (items.len() + 1) as int,
        at: text.len() as int,
    }));
    assert(last.forest =~= seq![leaf]);
    assert(inside.forest == before.forest + last.forest);
    assert(inside.at == text.len());
    let children = inside.forest;
    let n = children.len() as int;
    assert(children[n - 1] == leaf);
    assert(parse_tree(text) == (Tree::Node { kind: NodeKind::Root, children }));
    // the leaves
    lemma_build_leaves(inner, text, 0, 0);
    assert(inside.next == inner.len()) by {
        assert(stands_alone(inner, text, 0, 0, inner));
    }
    assert(inner.subrange(0, inner.len() as int) =~= inner);
    let events = token_events(inner);
    let count = sig.len() as int;
    assert(events == events_of(sig).push(eof));
    assert forall|i: int| 0 <= i < count implies events[i] == #[trigger] events_of(sig)[i] by {}
    lemma_leaf_run_sig(text, events, count);
    assert(source_leaves(text, sig).take(count) =~= source_leaves(text, sig));
    assert(events[count] == eof);
    assert(leaf_run(text, events, count + 1, 0) == leaf_run(text, events, count, 0).push(
        leaf_at(
            text,
            run_at(text, events, count, 0),
            TokenKind::Eof,
            text.len() as int,
            text.len() as int,
        ),
    ));
    assert(forest_leaves(children, n) == forest_leaves(children, n - 1) + leaves(children[n - 1]));
    assert(leaves(leaf) =~= seq![leaf]);
    let flat = forest_leaves(children, n);
    assert(forest_leaves(children, n - 1) =~= flat.drop_last());
    assert(source_leaves(text, sig) =~= leaf_run(text, events, count + 1, 0).drop_last());
    lemma_sig_tail(text, 0);
    if count > 0 {
        lemma_sig_facts(text, 0, count - 1);
    }
    assert(leaf->text =~= Seq::<u8>::empty());
    assert(leaf == eof_leaf(text)) by {
        assert(flat.last() == leaf);
        assert(leaf_run(text, events, count + 1, 0).last() == leaf);
    }
    // no empty node
    lemma_items_solid(tokens, first, false);
    lemma_solid_tokens(seq![eof]);
    lemma_solid_concat(items, seq![eof]);
    lemma_build_full(inner, text, 0, 0);
}

/// The places in the source of the significant tokens of `text`.
pub open spec fn sources_of(text: Seq<u8>) -> Seq<int> {
    Seq::new(sig_from(text, 0).len(), |m: int| sig_from(text, 0)[m].start as int)
}

/// The leaves of the significant tokens of a text are tokens of the text.
pub proof fn lemma_source_words(text: Seq<u8>)
    requires
        text.len() <= usize::MAX,
    ensures
        sourced(text, source_leaves(text, sig_from(text, 0)), sources_of(text)),
        forall|m: int|
            0 <= m < sig_from(text, 0).len() ==> is_blank(
                (#[trigger] source_leaves(text, sig_from(text, 0))[m])->leading,
            ) && source_leaves(text, sig_from(text, 0))[m]->text.len() > 0,
{
    let sig = sig_from(text, 0);
    let words = source_leaves(text, sig);
    let sources = sources_of(text);
    assert forall|m: int| 0 <= m < words.len() implies #[trigger] word_sourced(
        text,
        words,
        sources,
        m,
    ) by {
        lemma_sig_facts(text, 0, m);
        if m + 1 < words.len() {
            lemma_sig_facts(text, 0, m + 1);
        }
    }
    assert forall|m: int| 0 <= m < sig.len() implies is_blank((#[trigger] words[m])->leading)
        && words[m]->text.len() > 0 by {
        lemma_sig_facts(text, 0, m);
        let before = if m >= 1 {
            sig[m - 1].end as int
        } else {
            0
        };
        assert forall|i: int| 0 <= i < words[m]->leading.len() implies is_space(
            #[trigger] words[m]->leading[i],
        ) || is_line_break(words[m]->leading[i]) by {
            assert(words[m]->leading[i] == text[before + i]);
        }
    }
}

/// Trees whose leaves hold text behind blanks and line breaks are tidy.
pub proof fn lemma_tidy_tree(tree: Tree)
    requires
        forall|j: int|
            0 <= j < leaves(tree).len() ==> is_blank((#[trigger] leaves(tree)[j])->leading) && leaves(
                tree,
            )[j]->text.len() > 0 && leaves(tree)[j] is Leaf,
    ensures
        tidy(tree),
    decreases tree, 0int,
{
    match tree {
        Tree::Leaf { .. } => {
            assert(leaves(tree)[0] == tree);
        },
        Tree::Node { children, .. } => {
            lemma_tidy_forest(children, children.len() as int);
        },
    }
}

pub proof fn lemma_tidy_forest(forest: Seq<Tree>, count: int)
    requires
        0 <= count <= forest.len(),
        forall|j: int|
            0 <= j < forest_leaves(forest, count).len() ==> is_blank(
                (#[trigger] forest_leaves(forest, count)[j])->leading,
            ) && forest_leaves(forest, count)[j]->text.len() > 0 && forest_leaves(
                forest,
                count,
            )[j] is Leaf,
    ensures
        all_tidy(forest, count),
    decreases forest, count,
{
    if count > 0 {
        let before = forest_leaves(forest, count - 1);
        let own = leaves(forest[count - 1]);
        let all = forest_leaves(forest, count);
        assert(all == before + own);
        assert forall|j: int| 0 <= j < before.len() implies is_blank(
            (#[trigger] before[j])->leading,
        ) && before[j]->text.len() > 0 && before[j] is Leaf by {
            assert(all[j] == before[j]);
        }
        assert forall|j: int| 0 <= j < own.len() implies is_blank((#[trigger] own[j])->leading)
            && own[j]->text.len() > 0 && own[j] is Leaf by {
            assert(all[before.len() + j] == own[j]);
        }
        lemma_tidy_forest(forest, count - 1);
        lemma_tidy_tree(forest[count - 1]);
    }
}

/// The kinds and keywords of a list of tokens.
pub open spec fn kinds_of(tokens: Seq<Token>) -> Seq<(TokenKind, Option<Production>)> {
    Seq::new(tokens.len(), |i: int| (tokens[i].kind, tokens[i].keyword))
}

pub proof fn lemma_kinds_shift(first: Token, rest: Seq<Token>, pos: int)
    requires
        0 <= pos <= rest.len(),
    ensures
        kinds_from(seq![first] + rest, pos + 1) == kinds_from(rest, pos),
    decreases rest.len() - pos,
{
    let all = seq![first] + rest;
    if pos < rest.len() {
        lemma_kinds_shift(first, rest, pos + 1);
        assert(all[pos + 1] == rest[pos]);
    }
}

/// The kinds and keywords that the parser sees in the tokens of a text
/// are those of its significant tokens.
pub proof fn lemma_kinds_are_sig(text: Seq<u8>, pos: int)
    requires
        0 <= pos <= text.len() <= usize::MAX,
    ensures
        kinds_from(tokens_from(text, pos), 0) == kinds_of(sig_from(text, pos)),
    decreases text.len() - pos,
{
    if pos < text.len() {
        lemma_token_at_span(text, pos);
        let first = token_at(text, pos);
        let end = token_end_at(text, pos);
        let rest = tokens_from(text, end);
        let all = tokens_from(text, pos);
        assert(all == seq![first] + rest);
        lemma_kinds_are_sig(text, end);
        lemma_kinds_shift(first, rest, 0);
        assert(all[0] == first);
        if !first.kind.is_trivia() {
            assert(kinds_of(seq![first] + sig_from(text, end)) =~= seq![
                (first.kind, first.keyword),
            ] + kinds_of(sig_from(text, end)));
        }
    } else {
        assert(kinds_of(Seq::<Token>::empty()) =~= Seq::<(TokenKind, Option<Production>)>::empty());
    }
}

/// Nothing is laid in an output that holds nothing.
pub proof fn lemma_laid_nothing(options: FormatOptions)
    ensures
        laid(Seq::<u8>::empty(), Seq::<Tree>::empty(), Seq::<Span>::empty(), options),
{
    assert(Seq::<u8>::empty().subrange(0, 0) =~= Seq::<u8>::empty());
}

/// Where formatting puts the tokens of a text: the output holds the
/// significant tokens of the text at the spans that come back, laid out
/// as the layout asks, and it ends behind the last of them where that is
/// cut short by the end of the input.
pub proof fn lemma_format_placed(text: Seq<u8>, options: FormatOptions) -> (spans: Seq<Span>)
    requires
        text.len() <= usize::MAX,
    ensures
        ({
            let children = root_children(text);
            let n = children.len() as int;
            let words = source_leaves(text, sig_from(text, 0));
            let out = formatted(parse_tree(text), options).out;
            &&& spans.len() == words.len()
            &&& laid(out, words, spans, options)
            &&& children_placed(NodeKind::Root, children, n - 1, out, spans, 0, options)
            &&& words.len() > 0 && words.last()->token.is_open() ==> prev_end(
                spans,
                spans.len() as int,
            ) == out.len()
        }),
{
    let children = root_children(text);
    let n = children.len() as int;
    let sig = sig_from(text, 0);
    let words = source_leaves(text, sig);
    let tree = parse_tree(text);
    lemma_parse_built(text);
    lemma_source_words(text);
    assert forall|j: int| 0 <= j < forest_leaves(children, n - 1).len() implies is_blank(
        (#[trigger] forest_leaves(children, n - 1)[j])->leading,
    ) && forest_leaves(children, n - 1)[j]->text.len() > 0 && forest_leaves(
        children,
        n - 1,
    )[j] is Leaf by {
        assert(words[j] == source_leaf(text, sig, j));
    }
    lemma_tidy_forest(children, n - 1);
    lemma_laid_nothing(options);
    let none = Seq::<Tree>::empty();
    let spans = lemma_place_children(
        NodeKind::Root,
        children,
        n - 1,
        0,
        false,
        0,
        start_state(),
        none,
        Seq::<Span>::empty(),
        options,
    );
    assert(none + forest_leaves(children, n - 1) =~= words);
    let docs_mid = children_docs(NodeKind::Root, children, n - 1, 0);
    let mid = print_docs(docs_mid, docs_mid.len() as int, false, 0, start_state(), options);
    let docs = children_docs(NodeKind::Root, children, n, 0);
    let eof = children[n - 1];
    let at = crate::tree::forest_text(children.take(n - 1)).len() as int;
    let doc = tree_doc(eof, at);
    let prev = if n >= 2 {
        Some(children[n - 2])
    } else {
        None
    };
    let added = child_docs(NodeKind::Root, prev, eof, doc);
    assert(added =~= seq![doc]);
    assert(added[0] == doc);
    lemma_print_docs_concat(docs_mid, added, 1, false, 0, start_state(), options);
    assert(print_docs(added, 0, false, 0, mid, options) == mid);
    let after = print_docs(added, 1, false, 0, mid, options);
    assert(after == print_doc(doc, false, 0, mid, options));
    lemma_put_text(mid, Seq::<u8>::empty(), doc->source, options);
    assert(normal(Seq::<u8>::empty(), options) =~= Seq::<u8>::empty());
    assert(after.out =~= mid.out);
    let whole = tree_doc(tree, 0);
    assert(whole == Doc::Sequence(docs));
    assert(formatted(tree, options) == print_doc(whole, false, 0, start_state(), options));
    assert(print_doc(whole, false, 0, start_state(), options) == print_docs(
        docs,
        docs.len() as int,
        false,
        0,
        start_state(),
        options,
    ));
    assert(docs == docs_mid + added);
    if words.len() > 0 && words.last()->token.is_open() {
        assert(n >= 2);
        assert(all_full(children, n - 1));
        assert(full(children[n - 2]));
        lemma_full_ends(children[n - 2]);
        assert(forest_leaves(children, n - 1) == forest_leaves(children, n - 2) + leaves(
            children[n - 2],
        ));
        assert(words.last() == leaves(children[n - 2]).last());
    }
    spans
}

/// The spans with the place of the end of the input behind them.
pub open spec fn with_end(spans: Seq<Span>, out: Seq<u8>) -> Seq<Span> {
    spans.push(Span { start: out.len() as int, end: out.len() as int })
}

/// Formatting is idempotent: the text that formatting a text gives is
/// parsed and formatted to itself.
pub proof fn lemma_format_idempotent(text: Seq<u8>, options: FormatOptions)
    requires
        text.len() <= usize::MAX,
        formatted(parse_tree(text), options).out.len() <= usize::MAX,
    ensures
        formatted(parse_tree(formatted(parse_tree(text), options).out), options).out
            == formatted(parse_tree(text), options).out,
{
    let tree = parse_tree(text);
    let out = formatted(tree, options).out;
    let sig = sig_from(text, 0);
    let words = source_leaves(text, sig);
    let sources = sources_of(text);
    let children = root_children(text);
    let n = children.len() as int;
    let count = sig.len() as int;
    let spans = lemma_format_placed(text, options);
    lemma_parse_built(text);
    lemma_source_words(text);
    lemma_reads(text, out, words, sources, spans, 0, options);
    let again = sig_from(out, 0);
    assert(again == reads(text, sources, spans, 0));
    // the tokens of the output are of the kinds of the tokens of the text
    assert(kinds_of(again) =~= kinds_of(sig)) by {
        assert forall|m: int| 0 <= m < count implies kinds_of(again)[m] == kinds_of(sig)[m] by {
            lemma_sig_facts(text, 0, m);
            assert(again[m] == read_as(text, sources[m], spans[m].start, spans[m].end));
        }
    }
    let first = tokens_of(text);
    let second = tokens_of(out);
    lemma_parse_built(out);
    lemma_kinds_are_sig(text, 0);
    lemma_kinds_are_sig(out, 0);
    lemma_kinds_skip(first, 0);
    lemma_kinds_skip(second, 0);
    lemma_next_significant(first, 0);
    lemma_next_significant(second, 0);
    let pa = next_significant(first, 0);
    let pb = next_significant(second, 0);
    assert(alike_at(first, pa, second, pb));
    lemma_items_alike(first, pa, second, pb, false);
    let inner = inner_events(text);
    let inner2 = inner_events(out);
    assert(same_shape(seq![eof_event(first)], seq![eof_event(second)]));
    lemma_same_shape_concat(
        items_outcome(first, pa, false).events,
        items_outcome(second, pb, false).events,
        seq![eof_event(first)],
        seq![eof_event(second)],
    );
    assert(same_shape(inner, inner2));
    // the tokens of the log of the output stand at the spans
    let all = with_end(spans, out);
    assert(in_order(out, all)) by {
        assert forall|j: int| 0 <= j < all.len() implies 0 <= prev_end(all, j) <= (
        #[trigger] all[j]).start <= all[j].end <= out.len() by {
            if j < spans.len() {
                assert(word_at(out, words, spans, j, options));
                assert(all[j] == spans[j]);
                if j >= 1 {
                    assert(all[j - 1] == spans[j - 1]);
                }
            } else {
                if j >= 1 {
                    assert(all[j - 1] == spans[j - 1]);
                }
            }
        }
    }
    let events2 = token_events(inner2);
    assert(events2 == events_of(again).push(eof_event(second)));
    assert(inner2.skip(0) =~= inner2);
    assert(all.skip(0) =~= all);
    assert(spans_of(events2) =~= all) by {
        assert forall|j: int| 0 <= j < all.len() implies spans_of(events2)[j] == all[j] by {
            if j < spans.len() {
                assert(word_at(out, words, spans, j, options));
                assert(again[j] == read_as(text, sources[j], spans[j].start, spans[j].end));
                assert(events2[j] == events_of(again)[j]);
            } else {
                assert(events2[j] == eof_event(second));
            }
        }
    }
    lemma_build_rebuilt(inner, text, inner2, out, all, 0, 0, 0);
    let children2 = root_children(out);
    assert(children2 == rebuilt_children(children, n, out, all, 0));
    let tree2 = parse_tree(out);
    assert(tree2 == rebuilt(tree, out, all, 0));
    // the tokens of the tree are placed in the output
    assert(all.take(spans.len() as int) =~= spans);
    assert(out.take(out.len() as int) =~= out);
    lemma_children_placed_grow(NodeKind::Root, children, n - 1, out, spans, out, all, 0, options);
    assert(forest_leaves(children, n - 1).len() == count);
    assert(leaf_placed(out, Seq::<u8>::empty(), all, count, options)) by {
        assert(normal(Seq::<u8>::empty(), options) =~= Seq::<u8>::empty());
        assert(out.subrange(out.len() as int, out.len() as int) =~= Seq::<u8>::empty());
        assert(in_order(out, all));
        assert(0 <= prev_end(all, count) <= all[count].start);
    }
    assert(children[n - 1]->text =~= Seq::<u8>::empty());
    assert(placed(children[n - 1], out, all, count, options));
    assert(children_placed(NodeKind::Root, children, n, out, all, 0, options));
    assert(placed(tree, out, all, 0, options));
    lemma_rebuilt_alike(tree, out, all, 0, options);
    lemma_formatted_alike(tree, tree2, options);
}

} // verus!
