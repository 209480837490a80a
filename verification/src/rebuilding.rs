//! The tree of the output: a tree with the tokens of a tree taken from
//! where the printer put them is formatted as the tree is, and it is the
//! tree that assembling the log of the output gives.
use crate::format::children_alike;
use crate::format::leaf_kind;
use crate::format::raw_alike;
use crate::format::raw_alike_children;
use crate::format::reads_alike;
use crate::format::space_between;
use crate::grounding::lemma_token_events_concat;
use crate::grounding::lemma_token_events_one;
use crate::grounding::token_events;
use crate::kind::NodeKind;
use crate::options::FormatOptions;
use crate::parser::Event;
use crate::placing::children_placed;
use crate::placing::leaf_placed;
use crate::placing::lemma_same_text_normal;
use crate::placing::placed;
use crate::placing::prev_end;
use crate::placing::raw_children_placed;
use crate::placing::raw_placed;
use crate::placing::Span;
use crate::reparse::same_shape;
use crate::reparse::shape_of;
use crate::tree::build;
use crate::tree::forest_leaves;
use crate::tree::leaf_at;
use crate::tree::leaf_end;
use crate::tree::leaves;
use crate::tree::lemma_build_text;
use crate::tree::lemma_forest_leaves_concat;
use crate::tree::lemma_forest_leaves_one;
use crate::tree::Tree;
use vstd::prelude::*;

verus! {

/// `tree` with the tokens taken from `out`: the token with number `m` and
/// those behind it get the text at their spans, and for leading trivia
/// what stands between them and the token before.
pub open spec fn rebuilt(tree: Tree, out: Seq<u8>, spans: Seq<Span>, m: int) -> Tree
    decreases tree, 0int,
{
    match tree {
        Tree::Leaf { token, .. } => Tree::Leaf {
            token,
            leading: out.subrange(prev_end(spans, m), spans[m].start),
            text: out.subrange(spans[m].start, spans[m].end),
        },
        Tree::Node { kind, children } => Tree::Node {
            kind,
            children: rebuilt_children(children, children.len() as int, out, spans, m),
        },
    }
}

pub open spec fn rebuilt_children(
    children: Seq<Tree>,
    count: int,
    out: Seq<u8>,
    spans: Seq<Span>,
    m: int,
) -> Seq<Tree>
    decreases children, count,
{
    if count <= 0 || count > children.len() {
        Seq::empty()
    } else {
        rebuilt_children(children, count - 1, out, spans, m).push(
            rebuilt(children[count - 1], out, spans, m + forest_leaves(children, count - 1).len()),
        )
    }
}

/// The children of a rebuilt node, one by one.
pub proof fn lemma_rebuilt_children(
    children: Seq<Tree>,
    count: int,
    out: Seq<u8>,
    spans: Seq<Span>,
    m: int,
)
    requires
        0 <= count <= children.len(),
    ensures
        rebuilt_children(children, count, out, spans, m).len() == count,
        forall|i: int|
            0 <= i < count ==> #[trigger] rebuilt_children(children, count, out, spans, m)[i]
                == rebuilt(children[i], out, spans, m + forest_leaves(children, i).len()),
        forest_leaves(
            rebuilt_children(children, count, out, spans, m),
            count,
        ).len() == forest_leaves(children, count).len(),
    decreases children, count,
{
    if count > 0 {
        lemma_rebuilt_children(children, count - 1, out, spans, m);
        let before = rebuilt_children(children, count - 1, out, spans, m);
        let all = rebuilt_children(children, count, out, spans, m);
        let at = m + forest_leaves(children, count - 1).len();
        assert forall|i: int| 0 <= i < count - 1 implies all[i] == before[i] by {}
        lemma_rebuilt_leaves(children[count - 1], out, spans, at);
        crate::tree::lemma_forest_leaves_prefix(all, before, count - 1);
    }
}

/// A rebuilt tree has as many leaves as the tree.
pub proof fn lemma_rebuilt_leaves(tree: Tree, out: Seq<u8>, spans: Seq<Span>, m: int)
    ensures
        leaves(rebuilt(tree, out, spans, m)).len() == leaves(tree).len(),
        rebuilt(tree, out, spans, m) is Leaf == tree is Leaf,
        leaf_kind(rebuilt(tree, out, spans, m)) == leaf_kind(tree),
    decreases tree, 1int,
{
    match tree {
        Tree::Leaf { .. } => {},
        Tree::Node { children, .. } => {
            lemma_rebuilt_children(children, children.len() as int, out, spans, m);
        },
    }
}

/// A tree whose tokens are placed and the tree rebuilt from where they
/// are placed are formatted alike.
pub proof fn lemma_rebuilt_alike(
    tree: Tree,
    out: Seq<u8>,
    spans: Seq<Span>,
    m: int,
    options: FormatOptions,
)
    requires
        placed(tree, out, spans, m, options),
    ensures
        reads_alike(tree, rebuilt(tree, out, spans, m), options),
    decreases tree, 0int,
{
    match tree {
        Tree::Leaf { text, .. } => {
            lemma_same_text_normal(text, options);
        },
        Tree::Node { kind, children } => {
            let n = children.len() as int;
            lemma_rebuilt_children(children, n, out, spans, m);
            if kind.is_bogus() {
                lemma_rebuilt_raw_children(children, n, n, out, spans, m, true, options);
            } else {
                lemma_rebuilt_children_alike(kind, children, n, n, out, spans, m, options);
            }
        },
    }
}

pub proof fn lemma_rebuilt_children_alike(
    parent: NodeKind,
    children: Seq<Tree>,
    count: int,
    all: int,
    out: Seq<u8>,
    spans: Seq<Span>,
    m: int,
    options: FormatOptions,
)
    requires
        0 <= count <= all,
        all == children.len(),
        children_placed(parent, children, count, out, spans, m, options),
    ensures
        children_alike(
            parent,
            children,
            rebuilt_children(children, all, out, spans, m),
            count,
            options,
        ),
    decreases children, count,
{
    let others = rebuilt_children(children, all, out, spans, m);
    lemma_rebuilt_children(children, all, out, spans, m);
    if count > 0 {
        lemma_rebuilt_children_alike(parent, children, count - 1, all, out, spans, m, options);
        let at = m + forest_leaves(children, count - 1).len();
        let cur = children[count - 1];
        assert(placed(cur, out, spans, at, options));
        lemma_rebuilt_alike(cur, out, spans, at, options);
        assert(others[count - 1] == rebuilt(cur, out, spans, at));
        lemma_rebuilt_leaves(cur, out, spans, at);
        if count >= 2 && parent != NodeKind::Root && parent != NodeKind::Block {
            let prev = children[count - 2];
            let before = m + forest_leaves(children, count - 2).len();
            assert(others[count - 2] == rebuilt(prev, out, spans, before));
            lemma_rebuilt_leaves(prev, out, spans, before);
            if cur is Leaf && prev is Leaf {
                assert(leaf_placed(out, cur->text, spans, at, options));
                let theirs = others[count - 1];
                assert(theirs->leading.len() == spans[at].start - prev_end(spans, at));
            }
            assert(space_between(parent, prev, cur) == space_between(
                parent,
                others[count - 2],
                others[count - 1],
            ));
        }
    }
}

pub proof fn lemma_rebuilt_raw(
    tree: Tree,
    out: Seq<u8>,
    spans: Seq<Span>,
    m: int,
    bare: bool,
    options: FormatOptions,
)
    requires
        raw_placed(tree, out, spans, m, bare, options),
    ensures
        raw_alike(tree, rebuilt(tree, out, spans, m), bare, options),
    decreases tree, 0int,
{
    match tree {
        Tree::Leaf { leading, text, .. } => {
            lemma_same_text_normal(text, options);
            lemma_same_text_normal(leading, options);
        },
        Tree::Node { children, .. } => {
            let n = children.len() as int;
            lemma_rebuilt_children(children, n, out, spans, m);
            lemma_rebuilt_raw_children(children, n, n, out, spans, m, bare, options);
        },
    }
}

pub proof fn lemma_rebuilt_raw_children(
    children: Seq<Tree>,
    count: int,
    all: int,
    out: Seq<u8>,
    spans: Seq<Span>,
    m: int,
    bare: bool,
    options: FormatOptions,
)
    requires
        0 <= count <= all,
        all == children.len(),
        raw_children_placed(children, count, out, spans, m, bare, options),
    ensures
        raw_alike_children(
            children,
            rebuilt_children(children, all, out, spans, m),
            count,
            bare,
            options,
        ),
    decreases children, count,
{
    let others = rebuilt_children(children, all, out, spans, m);
    lemma_rebuilt_children(children, all, out, spans, m);
    if count > 0 {
        lemma_rebuilt_raw_children(children, count - 1, all, out, spans, m, bare, options);
        let before = forest_leaves(children, count - 1).len();
        let cur = children[count - 1];
        lemma_rebuilt_raw(cur, out, spans, m + before, bare && before == 0, options);
        assert(others[count - 1] == rebuilt(cur, out, spans, m + before));
        lemma_rebuilt_prefix_leaves(children, count - 1, all, out, spans, m);
    }
}

/// The first children of a rebuilt node have as many leaves as the first
/// children of the node.
pub proof fn lemma_rebuilt_prefix_leaves(
    children: Seq<Tree>,
    count: int,
    all: int,
    out: Seq<u8>,
    spans: Seq<Span>,
    m: int,
)
    requires
        0 <= count <= all,
        all == children.len(),
    ensures
        forest_leaves(rebuilt_children(children, all, out, spans, m), count).len()
            == forest_leaves(children, count).len(),
    decreases count,
{
    lemma_rebuilt_children(children, all, out, spans, m);
    if count > 0 {
        lemma_rebuilt_prefix_leaves(children, count - 1, all, out, spans, m);
        let others = rebuilt_children(children, all, out, spans, m);
        let at = m + forest_leaves(children, count - 1).len();
        assert(others[count - 1] == rebuilt(children[count - 1], out, spans, at));
        lemma_rebuilt_leaves(children[count - 1], out, spans, at);
    }
}

/// Rebuilding one sequence of trees after another is rebuilding the two
/// joined.
pub proof fn lemma_rebuilt_concat(
    x: Seq<Tree>,
    y: Seq<Tree>,
    count: int,
    out: Seq<u8>,
    spans: Seq<Span>,
    m: int,
)
    requires
        0 <= count <= y.len(),
    ensures
        rebuilt_children(x + y, x.len() + count, out, spans, m) == rebuilt_children(
            x,
            x.len() as int,
            out,
            spans,
            m,
        ) + rebuilt_children(y, count, out, spans, m + forest_leaves(x, x.len() as int).len()),
    decreases count,
{
    let shift = m + forest_leaves(x, x.len() as int).len();
    if count == 0 {
        lemma_rebuilt_same_prefix(x + y, x, x.len() as int, out, spans, m);
        assert(rebuilt_children(x, x.len() as int, out, spans, m) + Seq::<Tree>::empty()
            =~= rebuilt_children(x, x.len() as int, out, spans, m));
    } else {
        lemma_rebuilt_concat(x, y, count - 1, out, spans, m);
        lemma_forest_leaves_concat(x, y, count - 1);
        assert((x + y)[x.len() + count - 1] == y[count - 1]);
        let last = rebuilt(
            y[count - 1],
            out,
            spans,
            shift + forest_leaves(y, count - 1).len(),
        );
        assert((rebuilt_children(x, x.len() as int, out, spans, m) + rebuilt_children(
            y,
            count - 1,
            out,
            spans,
            shift,
        )).push(last) =~= rebuilt_children(x, x.len() as int, out, spans, m) + rebuilt_children(
            y,
            count - 1,
            out,
            spans,
            shift,
        ).push(last));
    }
}

pub proof fn lemma_rebuilt_same_prefix(
    w: Seq<Tree>,
    u: Seq<Tree>,
    count: int,
    out: Seq<u8>,
    spans: Seq<Span>,
    m: int,
)
    requires
        0 <= count <= u.len() <= w.len(),
        forall|i: int| 0 <= i < count ==> w[i] == u[i],
    ensures
        rebuilt_children(w, count, out, spans, m) == rebuilt_children(u, count, out, spans, m),
    decreases count,
{
    if count > 0 {
        lemma_rebuilt_same_prefix(w, u, count - 1, out, spans, m);
        crate::tree::lemma_forest_leaves_prefix(w, u, count - 1);
    }
}

/// The spans of the token events of a log.
pub open spec fn spans_of(events: Seq<Event>) -> Seq<Span> {
    Seq::new(
        events.len(),
        |i: int| Span { start: events[i]->start as int, end: events[i]->end as int },
    )
}

/// Whether every token has its place inside `out`, behind the token
/// before it.
pub open spec fn in_order(out: Seq<u8>, spans: Seq<Span>) -> bool {
    forall|j: int|
        0 <= j < spans.len() ==> 0 <= prev_end(spans, j) <= (#[trigger] spans[j]).start
            <= spans[j].end <= out.len()
}

/// Assembling a log of the same shape over the output, with the tokens at
/// their spans, gives the rebuilt trees.
pub proof fn lemma_build_rebuilt(
    first: Seq<Event>,
    text: Seq<u8>,
    second: Seq<Event>,
    out: Seq<u8>,
    spans: Seq<Span>,
    i: int,
    at: int,
    m: int,
)
    requires
        same_shape(first, second),
        0 <= i <= first.len(),
        0 <= at <= text.len(),
        0 <= m <= spans.len(),
        in_order(out, spans),
        spans_of(token_events(second.skip(i))) == spans.skip(m),
    ensures
        ({
            let one = build(first, text, i, at);
            let two = build(second, out, i, prev_end(spans, m));
            let count = forest_leaves(one.forest, one.forest.len() as int).len();
            &&& two.next == one.next
            &&& two.forest == rebuilt_children(
                one.forest,
                one.forest.len() as int,
                out,
                spans,
                m,
            )
            &&& m + count <= spans.len()
            &&& two.at == prev_end(spans, m + count)
            &&& spans_of(token_events(second.skip(one.next))) == spans.skip(m + count)
            &&& i <= one.next <= first.len()
        }),
    decreases first.len() - i,
{
    let one = build(first, text, i, at);
    let from = prev_end(spans, m);
    let two = build(second, out, i, from);
    lemma_build_text(first, text, i, at);
    if i >= first.len() {
        assert(second.skip(i) =~= second.skip(one.next));
    } else {
        assert(shape_of(first[i]) == shape_of(second[i]));
        let head = seq![second[i]];
        let tail = second.skip(i + 1);
        assert(second.skip(i) =~= head + tail);
        lemma_token_events_one(second[i]);
        lemma_token_events_concat(head, tail);
        match first[i] {
            Event::Finish => {
                assert(Seq::<Event>::empty() + token_events(tail) =~= token_events(tail));
            },
            Event::Token { kind, start, end } => {
                let theirs = second[i];
                let events = token_events(second.skip(i));
                assert(events == seq![theirs] + token_events(tail));
                assert(spans_of(events)[0] == spans.skip(m)[0]);
                assert(events[0] == theirs);
                assert(m < spans.len()) by {
                    assert(spans_of(events).len() == spans.skip(m).len());
                }
                let span = spans[m];
                assert(span.start == theirs->start && span.end == theirs->end);
                assert(spans_of(token_events(tail)) =~= spans.skip(m + 1)) by {
                    assert(spans_of(events).len() == spans.skip(m).len());
                    assert(events.len() == token_events(tail).len() + 1);
                    assert(spans_of(token_events(tail)).len() == spans.skip(m + 1).len());
                    assert forall|j: int| 0 <= j < token_events(tail).len() implies spans_of(
                        token_events(tail),
                    )[j] == spans.skip(m + 1)[j] by {
                        assert(events[j + 1] == token_events(tail)[j]);
                        assert(spans_of(events)[j + 1] == spans.skip(m)[j + 1]);
                        assert(spans.skip(m)[j + 1] == spans[m + j + 1]);
                        assert(spans.skip(m + 1)[j] == spans[m + 1 + j]);
                        assert(spans_of(events)[j + 1] == (Span {
                            start: events[j + 1]->start as int,
                            end: events[j + 1]->end as int,
                        }));
                    }
                }
                let leaf = leaf_at(text, at, kind, start as int, end as int);
                let to = leaf_end(text, at, start as int, end as int);
                let leaf2 = leaf_at(out, from, kind, span.start, span.end);
                assert(leaf2 == rebuilt(leaf, out, spans, m));
                assert(leaf_end(out, from, span.start, span.end) == span.end);
                lemma_build_rebuilt(first, text, second, out, spans, i + 1, to, m + 1);
                let rest = build(first, text, i + 1, to);
                lemma_forest_leaves_one(leaf);
                lemma_forest_leaves_concat(seq![leaf], rest.forest, rest.forest.len() as int);
                lemma_rebuilt_concat(
                    seq![leaf],
                    rest.forest,
                    rest.forest.len() as int,
                    out,
                    spans,
                    m,
                );
                assert(rebuilt_children(seq![leaf], 1, out, spans, m) =~= seq![leaf2]) by {
                    assert(rebuilt_children(seq![leaf], 0, out, spans, m) =~= Seq::<Tree>::empty());
                    assert(forest_leaves(seq![leaf], 0) =~= Seq::<Tree>::empty());
                }
            },
            Event::Start { kind } => {
                assert(Seq::<Event>::empty() + token_events(tail) =~= token_events(tail));
                lemma_build_rebuilt(first, text, second, out, spans, i + 1, at, m);
                let inner = build(first, text, i + 1, at);
                lemma_build_text(first, text, i + 1, at);
                let inner2 = build(second, out, i + 1, from);
                let node = Tree::Node { kind, children: inner.forest };
                let node2 = Tree::Node { kind, children: inner2.forest };
                assert(node2 == rebuilt(node, out, spans, m));
                let inside = forest_leaves(inner.forest, inner.forest.len() as int).len();
                lemma_forest_leaves_one(node);
                assert(rebuilt_children(seq![node], 1, out, spans, m) =~= seq![node2]) by {
                    assert(rebuilt_children(seq![node], 0, out, spans, m) =~= Seq::<Tree>::empty());
                    assert(forest_leaves(seq![node], 0) =~= Seq::<Tree>::empty());
                }
                if i < inner.next <= first.len() {
                    lemma_build_rebuilt(
                        first,
                        text,
                        second,
                        out,
                        spans,
                        inner.next,
                        inner.at,
                        m + inside,
                    );
                    let rest = build(first, text, inner.next, inner.at);
                    lemma_forest_leaves_concat(
                        seq![node],
                        rest.forest,
                        rest.forest.len() as int,
                    );
                    lemma_rebuilt_concat(
                        seq![node],
                        rest.forest,
                        rest.forest.len() as int,
                        out,
                        spans,
                        m,
                    );
                }
            },
        }
    }
}

} // verus!
