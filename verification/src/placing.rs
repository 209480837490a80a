//! Where the printer puts the tokens: for every token of a tree, the place
//! of its text in the output, and what stands between it and the token
//! before it.
use crate::document::Doc;
use crate::document::has_line_break;
use crate::document::same_text;
use crate::format::block_breaks_before;
use crate::format::child_docs;
use crate::format::children_docs;
use crate::format::ends_open;
use crate::format::raw_children_docs;
use crate::format::raw_docs;
use crate::format::space_between;
use crate::format::tree_doc;
use crate::kind::NodeKind;
use crate::kind::TokenKind;
use crate::lexer::is_line_break;
use crate::lexer::is_space;
use crate::normal::lemma_normal_plain;
use crate::normal::lemma_normal_reprinted;
use crate::normal::lemma_normal_twice;
use crate::normal::lemma_put_bytes;
use crate::normal::normal;
use crate::options::FormatOptions;
use crate::options::LineEnding;
use crate::printer::break_line;
use crate::printer::continues;
use crate::printer::deeper;
use crate::printer::fits;
use crate::printer::indent_text;
use crate::printer::lemma_line_ending;
use crate::printer::lemma_print_docs_concat;
use crate::printer::print_doc;
use crate::printer::print_docs;
use crate::printer::Printing;
use crate::printer::put_bytes;
use crate::printer::put_space;
use crate::printer::put_text;
use crate::printer::SourceMarker;
use crate::printer::start_state;
use crate::tree::forest_leaves;
use crate::tree::forest_text;
use crate::tree::leaves;
use crate::tree::Tree;
use vstd::prelude::*;

verus! {

/// The place of a token in the output: the bytes `start..end`.
pub struct Span {
    pub start: int,
    pub end: int,
}

/// Whether `bytes` holds nothing but blanks and line breaks.
pub open spec fn is_blank(bytes: Seq<u8>) -> bool {
    forall|i: int| 0 <= i < bytes.len() ==> is_space(#[trigger] bytes[i]) || is_line_break(bytes[i])
}

/// Whether `b` is a blank, or a line break as the options write it: where
/// lines end in `\r`, no `\n`.
pub open spec fn gap_byte(b: u8, options: FormatOptions) -> bool {
    &&& is_space(b) || is_line_break(b)
    &&& options.line_ending == LineEnding::Cr ==> b != 0x0a
}

/// Whether `bytes` holds nothing but blanks and line breaks as the options
/// write them.
pub open spec fn is_gap(bytes: Seq<u8>, options: FormatOptions) -> bool {
    forall|i: int| 0 <= i < bytes.len() ==> gap_byte(#[trigger] bytes[i], options)
}

/// Whether every token under `tree` holds text and has only blanks and
/// line breaks in front of it.
pub open spec fn tidy(tree: Tree) -> bool
    decreases tree, 0int,
{
    match tree {
        Tree::Leaf { leading, text, .. } => is_blank(leading) && text.len() > 0,
        Tree::Node { children, .. } => all_tidy(children, children.len() as int),
    }
}

pub open spec fn all_tidy(children: Seq<Tree>, count: int) -> bool
    decreases children, count,
{
    count <= 0 || count > children.len() || (all_tidy(children, count - 1) && tidy(
        children[count - 1],
    ))
}

/// Where the token before token `m` ends; the start of the output for the
/// first token.
pub open spec fn prev_end(spans: Seq<Span>, m: int) -> int {
    if 1 <= m <= spans.len() {
        spans[m - 1].end
    } else {
        0
    }
}

/// Whether the token `b` may follow the token `a` with nothing between
/// them: the lexer reads the two as it read them where they stood.
pub open spec fn safe_adjacent(a: Tree, b: Tree) -> bool {
    ||| a->token == TokenKind::At
    ||| a->token == TokenKind::LCurly
    ||| a->token.is_open()
    ||| b->token == TokenKind::Comma
    ||| b->token == TokenKind::Semicolon
    ||| b->token == TokenKind::Colon
    ||| b->leading.len() == 0
}

/// What holds of token `m` in the output `out`: its text stands at its
/// span with its line breaks written as the line ending, only blanks and
/// line breaks stand between it and the token before it, and where nothing
/// stands between them the two may follow each other.
pub open spec fn word_at(
    out: Seq<u8>,
    words: Seq<Tree>,
    spans: Seq<Span>,
    m: int,
    options: FormatOptions,
) -> bool {
    &&& 0 <= prev_end(spans, m) <= spans[m].start <= spans[m].end <= out.len()
    &&& out.subrange(spans[m].start, spans[m].end) == normal(words[m]->text, options)
    &&& is_gap(out.subrange(prev_end(spans, m), spans[m].start), options)
    &&& m >= 1 && prev_end(spans, m) == spans[m].start ==> safe_adjacent(words[m - 1], words[m])
}

/// Whether the output `out` holds the tokens `words` at `spans`, in
/// order, with only blanks and line breaks around them.
pub open spec fn laid(out: Seq<u8>, words: Seq<Tree>, spans: Seq<Span>, options: FormatOptions) -> bool {
    &&& spans.len() == words.len()
    &&& forall|m: int| 0 <= m < spans.len() ==> #[trigger] word_at(out, words, spans, m, options)
    &&& 0 <= prev_end(spans, spans.len() as int) <= out.len()
    &&& is_gap(out.subrange(prev_end(spans, spans.len() as int), out.len() as int), options)
}

/// Whether the first token of `tree` may follow what the printer wrote
/// last, in case nothing comes to stand between them.
pub open spec fn first_fits(out: Seq<u8>, words: Seq<Tree>, spans: Seq<Span>, tree: Tree) -> bool {
    words.len() > 0 && leaves(tree).len() > 0 && out.len() == prev_end(spans, spans.len() as int)
        ==> safe_adjacent(words.last(), leaves(tree)[0])
}

/// Whether the text of the token with number `m` stands at its span.
pub open spec fn leaf_placed(
    out: Seq<u8>,
    text: Seq<u8>,
    spans: Seq<Span>,
    m: int,
    options: FormatOptions,
) -> bool {
    &&& 0 <= m < spans.len()
    &&& 0 <= prev_end(spans, m) <= spans[m].start <= spans[m].end <= out.len()
    &&& out.subrange(spans[m].start, spans[m].end) == normal(text, options)
}

/// Whether the output holds the tokens of `tree`, the first of which has
/// the number `m`, as the layout puts them: each at its span, and between
/// two tokens that are children of one node a blank exactly where the
/// layout asks for one. Under an unrecognized node the trivia that stood
/// between the tokens stands between them.
pub open spec fn placed(tree: Tree, out: Seq<u8>, spans: Seq<Span>, m: int, options: FormatOptions) -> bool
    decreases tree, 0int,
{
    match tree {
        Tree::Leaf { text, .. } => leaf_placed(out, text, spans, m, options),
        Tree::Node { kind, children } => if kind.is_bogus() {
            raw_children_placed(children, children.len() as int, out, spans, m, true, options)
        } else {
            children_placed(kind, children, children.len() as int, out, spans, m, options)
        },
    }
}

pub open spec fn children_placed(
    parent: NodeKind,
    children: Seq<Tree>,
    count: int,
    out: Seq<u8>,
    spans: Seq<Span>,
    m: int,
    options: FormatOptions,
) -> bool
    decreases children, count,
{
    count <= 0 || count > children.len() || {
        let at = m + forest_leaves(children, count - 1).len();
        &&& children_placed(parent, children, count - 1, out, spans, m, options)
        &&& placed(children[count - 1], out, spans, at, options)
        &&& count >= 2 && parent != NodeKind::Root && parent != NodeKind::Block && children[count
            - 1] is Leaf && children[count - 2] is Leaf ==> (spans[at].start > prev_end(spans, at))
            == space_between(parent, children[count - 2], children[count - 1])
    }
}

pub open spec fn raw_placed(
    tree: Tree,
    out: Seq<u8>,
    spans: Seq<Span>,
    m: int,
    bare: bool,
    options: FormatOptions,
) -> bool
    decreases tree, 0int,
{
    match tree {
        Tree::Leaf { leading, text, .. } => {
            &&& leaf_placed(out, text, spans, m, options)
            &&& !bare ==> out.subrange(prev_end(spans, m), spans[m].start) == normal(
                leading,
                options,
            )
        },
        Tree::Node { children, .. } => raw_children_placed(
            children,
            children.len() as int,
            out,
            spans,
            m,
            bare,
            options,
        ),
    }
}

pub open spec fn raw_children_placed(
    children: Seq<Tree>,
    count: int,
    out: Seq<u8>,
    spans: Seq<Span>,
    m: int,
    bare: bool,
    options: FormatOptions,
) -> bool
    decreases children, count,
{
    count <= 0 || count > children.len() || {
        let before = forest_leaves(children, count - 1).len();
        &&& raw_children_placed(children, count - 1, out, spans, m, bare, options)
        &&& raw_placed(children[count - 1], out, spans, m + before, bare && before == 0, options)
    }
}

/// Whether `longer` begins with `shorter`.
pub open spec fn begins_with(longer: Seq<u8>, shorter: Seq<u8>) -> bool {
    shorter.len() <= longer.len() && longer.take(shorter.len() as int) == shorter
}

pub open spec fn spans_begin_with(longer: Seq<Span>, shorter: Seq<Span>) -> bool {
    shorter.len() <= longer.len() && longer.take(shorter.len() as int) == shorter
}

pub proof fn lemma_begins_slice(longer: Seq<u8>, shorter: Seq<u8>, from: int, to: int)
    requires
        begins_with(longer, shorter),
        0 <= from <= to <= shorter.len(),
    ensures
        longer.subrange(from, to) == shorter.subrange(from, to),
{
    assert forall|i: int| 0 <= i < to - from implies longer.subrange(from, to)[i]
        == shorter.subrange(from, to)[i] by {
        assert(longer.take(shorter.len() as int)[from + i] == shorter[from + i]);
    }
    assert(longer.subrange(from, to) =~= shorter.subrange(from, to));
}

pub proof fn lemma_begins_transitive(a: Seq<u8>, b: Seq<u8>, c: Seq<u8>)
    requires
        begins_with(b, a),
        begins_with(c, b),
    ensures
        begins_with(c, a),
{
    assert forall|i: int| 0 <= i < a.len() implies c.take(a.len() as int)[i] == a[i] by {
        assert(c.take(b.len() as int)[i] == b[i]);
        assert(b.take(a.len() as int)[i] == a[i]);
    }
    assert(c.take(a.len() as int) =~= a);
}

pub proof fn lemma_spans_begin(longer: Seq<Span>, shorter: Seq<Span>, m: int)
    requires
        spans_begin_with(longer, shorter),
        0 <= m <= shorter.len(),
    ensures
        m < shorter.len() ==> longer[m] == shorter[m],
        prev_end(longer, m) == prev_end(shorter, m),
{
    if m < shorter.len() {
        assert(longer.take(shorter.len() as int)[m] == shorter[m]);
    }
    if m >= 1 {
        assert(longer.take(shorter.len() as int)[m - 1] == shorter[m - 1]);
    }
}

pub proof fn lemma_spans_begin_transitive(a: Seq<Span>, b: Seq<Span>, c: Seq<Span>)
    requires
        spans_begin_with(b, a),
        spans_begin_with(c, b),
    ensures
        spans_begin_with(c, a),
{
    assert forall|i: int| 0 <= i < a.len() implies c.take(a.len() as int)[i] == a[i] by {
        assert(c.take(b.len() as int)[i] == b[i]);
        assert(b.take(a.len() as int)[i] == a[i]);
    }
    assert(c.take(a.len() as int) =~= a);
}

/// What was placed stays placed when the output and the list of spans
/// grow.
pub proof fn lemma_placed_grows(
    tree: Tree,
    out: Seq<u8>,
    spans: Seq<Span>,
    longer: Seq<u8>,
    more: Seq<Span>,
    m: int,
    options: FormatOptions,
)
    requires
        placed(tree, out, spans, m, options),
        begins_with(longer, out),
        spans_begin_with(more, spans),
    ensures
        placed(tree, longer, more, m, options),
    decreases tree, 0int,
{
    match tree {
        Tree::Leaf { text, .. } => {
            lemma_leaf_placed_grows(out, text, spans, longer, more, m, options);
        },
        Tree::Node { kind, children } => {
            if kind.is_bogus() {
                lemma_raw_children_placed_grow(
                    children,
                    children.len() as int,
                    out,
                    spans,
                    longer,
                    more,
                    m,
                    true,
                    options,
                );
            } else {
                lemma_children_placed_grow(
                    kind,
                    children,
                    children.len() as int,
                    out,
                    spans,
                    longer,
                    more,
                    m,
                    options,
                );
            }
        },
    }
}

pub proof fn lemma_leaf_placed_grows(
    out: Seq<u8>,
    text: Seq<u8>,
    spans: Seq<Span>,
    longer: Seq<u8>,
    more: Seq<Span>,
    m: int,
    options: FormatOptions,
)
    requires
        leaf_placed(out, text, spans, m, options),
        begins_with(longer, out),
        spans_begin_with(more, spans),
    ensures
        leaf_placed(longer, text, more, m, options),
        more[m] == spans[m],
        prev_end(more, m) == prev_end(spans, m),
{
    lemma_spans_begin(more, spans, m);
    lemma_begins_slice(longer, out, spans[m].start, spans[m].end);
}

pub proof fn lemma_children_placed_grow(
    parent: NodeKind,
    children: Seq<Tree>,
    count: int,
    out: Seq<u8>,
    spans: Seq<Span>,
    longer: Seq<u8>,
    more: Seq<Span>,
    m: int,
    options: FormatOptions,
)
    requires
        children_placed(parent, children, count, out, spans, m, options),
        begins_with(longer, out),
        spans_begin_with(more, spans),
    ensures
        children_placed(parent, children, count, longer, more, m, options),
    decreases children, count,
{
    if 0 < count <= children.len() {
        let at = m + forest_leaves(children, count - 1).len();
        lemma_children_placed_grow(parent, children, count - 1, out, spans, longer, more, m, options);
        assert(placed(children[count - 1], out, spans, at, options));
        lemma_placed_grows(children[count - 1], out, spans, longer, more, at, options);
        if children[count - 1] is Leaf {
            lemma_leaf_placed_grows(
                out,
                children[count - 1]->text,
                spans,
                longer,
                more,
                at,
                options,
            );
        }
    }
}

pub proof fn lemma_raw_placed_grows(
    tree: Tree,
    out: Seq<u8>,
    spans: Seq<Span>,
    longer: Seq<u8>,
    more: Seq<Span>,
    m: int,
    bare: bool,
    options: FormatOptions,
)
    requires
        raw_placed(tree, out, spans, m, bare, options),
        begins_with(longer, out),
        spans_begin_with(more, spans),
    ensures
        raw_placed(tree, longer, more, m, bare, options),
    decreases tree, 0int,
{
    match tree {
        Tree::Leaf { text, .. } => {
            lemma_leaf_placed_grows(out, text, spans, longer, more, m, options);
            lemma_begins_slice(longer, out, prev_end(spans, m), spans[m].start);
        },
        Tree::Node { children, .. } => {
            lemma_raw_children_placed_grow(
                children,
                children.len() as int,
                out,
                spans,
                longer,
                more,
                m,
                bare,
                options,
            );
        },
    }
}

pub proof fn lemma_raw_children_placed_grow(
    children: Seq<Tree>,
    count: int,
    out: Seq<u8>,
    spans: Seq<Span>,
    longer: Seq<u8>,
    more: Seq<Span>,
    m: int,
    bare: bool,
    options: FormatOptions,
)
    requires
        raw_children_placed(children, count, out, spans, m, bare, options),
        begins_with(longer, out),
        spans_begin_with(more, spans),
    ensures
        raw_children_placed(children, count, longer, more, m, bare, options),
    decreases children, count,
{
    if 0 < count <= children.len() {
        let before = forest_leaves(children, count - 1).len();
        lemma_raw_children_placed_grow(children, count - 1, out, spans, longer, more, m, bare, options);
        lemma_raw_placed_grows(
            children[count - 1],
            out,
            spans,
            longer,
            more,
            m + before,
            bare && before == 0,
            options,
        );
    }
}

/// What was laid stays laid when blanks and line breaks are written
/// behind it.
pub proof fn lemma_laid_blank(
    out: Seq<u8>,
    words: Seq<Tree>,
    spans: Seq<Span>,
    added: Seq<u8>,
    options: FormatOptions,
)
    requires
        laid(out, words, spans, options),
        is_gap(added, options),
    ensures
        laid(out + added, words, spans, options),
{
    let longer = out + added;
    assert(longer.take(out.len() as int) =~= out);
    assert forall|m: int| 0 <= m < spans.len() implies #[trigger] word_at(
        longer,
        words,
        spans,
        m,
        options,
    ) by {
        assert(word_at(out, words, spans, m, options));
        lemma_begins_slice(longer, out, spans[m].start, spans[m].end);
        lemma_begins_slice(longer, out, prev_end(spans, m), spans[m].start);
    }
    let last = prev_end(spans, spans.len() as int);
    assert forall|i: int| 0 <= i < longer.len() - last implies gap_byte(
        #[trigger] longer.subrange(last, longer.len() as int)[i],
        options,
    ) by {
        if last + i < out.len() {
            assert(out.subrange(last, out.len() as int)[i] == out[last + i]);
        } else {
            assert(longer[last + i] == added[last + i - out.len()]);
        }
    }
}

/// What was laid stays laid when the text of one more token is written
/// behind it, if the token may stand where it comes to stand.
pub proof fn lemma_laid_word(
    out: Seq<u8>,
    words: Seq<Tree>,
    spans: Seq<Span>,
    word: Tree,
    options: FormatOptions,
)
    requires
        laid(out, words, spans, options),
        word is Leaf,
        words.len() > 0 && out.len() == prev_end(spans, spans.len() as int) ==> safe_adjacent(
            words.last(),
            word,
        ),
    ensures
        laid(
            out + normal(word->text, options),
            words.push(word),
            spans.push(
                Span {
                    start: out.len() as int,
                    end: (out.len() + normal(word->text, options).len()) as int,
                },
            ),
            options,
        ),
{
    let written = normal(word->text, options);
    let longer = out + written;
    let span = Span { start: out.len() as int, end: (out.len() + written.len()) as int };
    let more = spans.push(span);
    let all = words.push(word);
    let n = spans.len() as int;
    assert(longer.take(out.len() as int) =~= out);
    assert(more.take(n) =~= spans);
    assert forall|m: int| 0 <= m < more.len() implies #[trigger] word_at(
        longer,
        all,
        more,
        m,
        options,
    ) by {
        if m < n {
            assert(word_at(out, words, spans, m, options));
            lemma_spans_begin(more, spans, m);
            lemma_begins_slice(longer, out, spans[m].start, spans[m].end);
            lemma_begins_slice(longer, out, prev_end(spans, m), spans[m].start);
            if m >= 1 {
                assert(all[m - 1] == words[m - 1]);
            }
            assert(all[m] == words[m]);
        } else {
            lemma_spans_begin(more, spans, n);
            assert(longer.subrange(span.start, span.end) =~= written);
            lemma_begins_slice(longer, out, prev_end(spans, n), out.len() as int);
            if n >= 1 {
                assert(all[n - 1] == words.last());
            }
        }
    }
    assert(longer.subrange(span.end, longer.len() as int) =~= Seq::<u8>::empty());
}

/// Blanks and line breaks are written as blanks and line breaks, and
/// something is written exactly where there was something to write.
pub proof fn lemma_normal_blank(bytes: Seq<u8>, count: int, options: FormatOptions)
    requires
        0 <= count <= bytes.len(),
        is_blank(bytes),
    ensures
        is_gap(put_bytes(start_state(), bytes, count, options).out, options),
    decreases count,
{
    lemma_line_ending(options);
    if count > 0 {
        lemma_normal_blank(bytes, count - 1, options);
        let before = put_bytes(start_state(), bytes, count - 1, options).out;
        let after = put_bytes(start_state(), bytes, count, options).out;
        let eol = options.line_ending.bytes();
        assert(is_space(bytes[count - 1]) || is_line_break(bytes[count - 1]));
        assert forall|i: int| 0 <= i < after.len() implies gap_byte(#[trigger] after[i], options) by {
            if i < before.len() {
                assert(after[i] == before[i]);
            } else if is_line_break(bytes[count - 1]) {
                assert(after[i] == eol[i - before.len()]);
            }
        }
    }
}

pub proof fn lemma_normal_empty(bytes: Seq<u8>, count: int, options: FormatOptions)
    requires
        0 <= count <= bytes.len(),
    ensures
        (put_bytes(start_state(), bytes, count, options).out.len() == 0) == (count == 0),
    decreases count,
{
    lemma_line_ending(options);
    if count > 0 {
        lemma_normal_empty(bytes, count - 1, options);
        if count >= 2 {
            lemma_normal_empty(bytes, count - 2, options);
        }
    }
}

/// A text and the same text with its line breaks written as the line
/// ending are written alike.
pub proof fn lemma_same_text_normal(bytes: Seq<u8>, options: FormatOptions)
    ensures
        same_text(bytes, normal(bytes, options), options),
{
    let written = normal(bytes, options);
    lemma_normal_twice(bytes, options);
    lemma_put_bytes(start_state(), bytes, bytes.len() as int, options);
    lemma_put_bytes(start_state(), written, written.len() as int, options);
    lemma_normal_reprinted(bytes, bytes.len() as int, options);
    assert(bytes.take(bytes.len() as int) =~= bytes);
    assert(written.take(written.len() as int) =~= written);
    if !has_line_break(bytes) {
        lemma_normal_plain(bytes, options);
    }
}

/// Whether the last line of `state` starts inside its output.
pub open spec fn sound(state: Printing) -> bool {
    0 <= state.line_start <= state.out.len()
}

/// What writing a text does: the text is written behind the output with
/// its line breaks as the line ending.
pub proof fn lemma_put_text(state: Printing, bytes: Seq<u8>, source: usize, options: FormatOptions)
    requires
        sound(state),
    ensures
        put_text(state, bytes, source, options).out == state.out + normal(bytes, options),
        sound(put_text(state, bytes, source, options)),
        continues(state, put_text(state, bytes, source, options)),
{
    let marked = Printing {
        out: state.out,
        line_start: state.line_start,
        markers: state.markers.push(SourceMarker { source, dest: state.out.len() as usize }),
    };
    lemma_put_bytes(marked, bytes, bytes.len() as int, options);
    let after = put_text(state, bytes, source, options);
    assert(after.out.take(state.out.len() as int) =~= state.out);
}

/// What a separator writes: at least one byte, blanks and line breaks
/// only.
pub proof fn lemma_separator(doc: Doc, flat: bool, level: nat, state: Printing, options: FormatOptions)
    requires
        sound(state),
        doc is Space || doc is HardLine || doc is SoftLineOrSpace,
    ensures
        ({
            let after = print_doc(doc, flat, level, state, options);
            let added = after.out.subrange(state.out.len() as int, after.out.len() as int);
            &&& sound(after)
            &&& continues(state, after)
            &&& after.out == state.out + added
            &&& added.len() > 0
            &&& is_gap(added, options)
        }),
{
    lemma_line_ending(options);
    let after = print_doc(doc, flat, level, state, options);
    let eol = options.line_ending.bytes();
    let broken = eol + indent_text(options, level);
    let added = after.out.subrange(state.out.len() as int, after.out.len() as int);
    if after == put_space(state) {
        assert(after.out =~= state.out + seq![0x20u8]);
        assert(added =~= seq![0x20u8]);
    } else {
        assert(after == break_line(state, level, options));
        assert(after.out =~= state.out + broken);
        assert(added =~= broken);
        assert forall|i: int| 0 <= i < broken.len() implies gap_byte(#[trigger] broken[i], options) by {
            if i < eol.len() {
                assert(broken[i] == eol[i]);
            } else {
                assert(broken[i] == indent_text(options, level)[i - eol.len()]);
            }
        }
    }
    assert(after.out.take(state.out.len() as int) =~= state.out);
}

/// A tree whose last token is cut short by the end of the input has
/// leaves, and the last of them is that token.
pub proof fn lemma_ends_open(tree: Tree)
    requires
        ends_open(tree),
    ensures
        leaves(tree).len() > 0,
        leaves(tree).last()->token.is_open(),
        leaves(tree).last() is Leaf,
    decreases tree,
{
    match tree {
        Tree::Leaf { .. } => {},
        Tree::Node { children, .. } => {
            lemma_ends_open(children.last());
            let n = children.len() as int;
            assert(forest_leaves(children, n) == forest_leaves(children, n - 1) + leaves(
                children[n - 1],
            ));
        },
    }
}

/// The leaves of a tidy tree are leaves.
pub proof fn lemma_leaves_are_leaves(tree: Tree, i: int)
    requires
        0 <= i < leaves(tree).len(),
    ensures
        leaves(tree)[i] is Leaf,
    decreases tree, 0int,
{
    match tree {
        Tree::Leaf { .. } => {},
        Tree::Node { children, .. } => {
            lemma_forest_leaves_are_leaves(children, children.len() as int, i);
        },
    }
}

pub proof fn lemma_forest_leaves_are_leaves(forest: Seq<Tree>, count: int, i: int)
    requires
        0 <= count <= forest.len(),
        0 <= i < forest_leaves(forest, count).len(),
    ensures
        forest_leaves(forest, count)[i] is Leaf,
    decreases forest, count,
{
    if count > 0 {
        let before = forest_leaves(forest, count - 1);
        if i < before.len() {
            lemma_forest_leaves_are_leaves(forest, count - 1, i);
        } else {
            lemma_leaves_are_leaves(forest[count - 1], i - before.len());
        }
    }
}

/// The tokens of a tree, printed as they stood: where each comes to
/// stand.
pub proof fn lemma_place_raw(
    tree: Tree,
    offset: int,
    bare: bool,
    flat: bool,
    level: nat,
    before: Printing,
    words: Seq<Tree>,
    spans: Seq<Span>,
    options: FormatOptions,
) -> (more: Seq<Span>)
    requires
        tidy(tree),
        sound(before),
        laid(before.out, words, spans, options),
        bare ==> first_fits(before.out, words, spans, tree),
        !bare ==> before.out.len() == prev_end(spans, spans.len() as int),
    ensures
        ({
            let docs = raw_docs(tree, offset, bare);
            let after = print_docs(docs, docs.len() as int, flat, level, before, options);
            &&& sound(after)
            &&& continues(before, after)
            &&& spans_begin_with(more, spans)
            &&& more.len() == spans.len() + leaves(tree).len()
            &&& laid(after.out, words + leaves(tree), more, options)
            &&& raw_placed(tree, after.out, more, spans.len() as int, bare, options)
            &&& leaves(tree).len() > 0 ==> after.out.len() == prev_end(more, more.len() as int)
            &&& leaves(tree).len() == 0 ==> after == before && more == spans
        }),
    decreases tree, 0int, 0int,
{
    match tree {
        Tree::Leaf { leading, text, .. } => {
            let docs = raw_docs(tree, offset, bare);
            let own = Doc::Text { bytes: text, source: (offset + leading.len()) as usize };
            let lead = if bare {
                before
            } else {
                put_text(before, leading, offset as usize, options)
            };
            if bare {
                assert(docs =~= seq![own]);
                assert(docs[0] == own);
                assert(print_docs(docs, 0, flat, level, before, options) == before);
            } else {
                let first = Doc::Text { bytes: leading, source: offset as usize };
                assert(docs =~= seq![first, own]);
                assert(docs[0] == first);
                assert(docs[1] == own);
                assert(print_docs(docs, 0, flat, level, before, options) == before);
                assert(print_doc(first, flat, level, before, options) == lead);
                assert(print_docs(docs, 1, flat, level, before, options) == lead);
                lemma_put_text(before, leading, offset as usize, options);
                lemma_normal_blank(leading, leading.len() as int, options);
                lemma_normal_empty(leading, leading.len() as int, options);
                lemma_laid_blank(before.out, words, spans, normal(leading, options), options);
            }
            let after = print_docs(docs, docs.len() as int, flat, level, before, options);
            assert(print_doc(own, flat, level, lead, options) == put_text(
                lead,
                text,
                (offset + leading.len()) as usize,
                options,
            ));
            assert(after == print_doc(own, flat, level, lead, options));
            lemma_put_text(lead, text, (offset + leading.len()) as usize, options);
            lemma_laid_word(lead.out, words, spans, tree, options);
            let span = Span {
                start: lead.out.len() as int,
                end: (lead.out.len() + normal(text, options).len()) as int,
            };
            let more = spans.push(span);
            assert(more.take(spans.len() as int) =~= spans);
            assert(words.push(tree) =~= words + leaves(tree));
            assert(after.out.subrange(span.start, span.end) =~= normal(text, options));
            assert(after.out.take(before.out.len() as int) =~= before.out) by {
                assert(lead.out.take(before.out.len() as int) =~= before.out);
                lemma_begins_transitive(before.out, lead.out, after.out);
            }
            if !bare {
                assert(after.out.subrange(before.out.len() as int, lead.out.len() as int)
                    =~= normal(leading, options));
            }
            lemma_spans_begin(more, spans, spans.len() as int);
            more
        },
        Tree::Node { children, .. } => {
            lemma_place_raw_children(
                children,
                children.len() as int,
                offset,
                bare,
                flat,
                level,
                before,
                words,
                spans,
                options,
            )
        },
    }
}

pub proof fn lemma_place_raw_children(
    children: Seq<Tree>,
    count: int,
    offset: int,
    bare: bool,
    flat: bool,
    level: nat,
    before: Printing,
    words: Seq<Tree>,
    spans: Seq<Span>,
    options: FormatOptions,
) -> (more: Seq<Span>)
    requires
        0 <= count <= children.len(),
        all_tidy(children, count),
        sound(before),
        laid(before.out, words, spans, options),
        bare ==> (words.len() > 0 && forest_leaves(children, count).len() > 0 && before.out.len()
            == prev_end(spans, spans.len() as int) ==> safe_adjacent(
            words.last(),
            forest_leaves(children, count)[0],
        )),
        !bare ==> before.out.len() == prev_end(spans, spans.len() as int),
    ensures
        ({
            let docs = raw_children_docs(children, count, offset, bare);
            let after = print_docs(docs, docs.len() as int, flat, level, before, options);
            let added = forest_leaves(children, count);
            &&& sound(after)
            &&& continues(before, after)
            &&& spans_begin_with(more, spans)
            &&& more.len() == spans.len() + added.len()
            &&& laid(after.out, words + added, more, options)
            &&& raw_children_placed(
                children,
                count,
                after.out,
                more,
                spans.len() as int,
                bare,
                options,
            )
            &&& added.len() > 0 ==> after.out.len() == prev_end(more, more.len() as int)
            &&& added.len() == 0 ==> after == before && more == spans
        }),
    decreases children, count, 1int,
{
    if count == 0 {
        assert(words + forest_leaves(children, 0) =~= words);
        assert(before.out.take(before.out.len() as int) =~= before.out);
        assert(spans.take(spans.len() as int) =~= spans);
        spans
    } else {
        let earlier = forest_leaves(children, count - 1);
        let cur = children[count - 1];
        let first = bare && earlier.len() == 0;
        if earlier.len() > 0 {
            assert(forest_leaves(children, count)[0] == earlier[0]);
        }
        let spans_mid = lemma_place_raw_children(
            children,
            count - 1,
            offset,
            bare,
            flat,
            level,
            before,
            words,
            spans,
            options,
        );
        let docs_mid = raw_children_docs(children, count - 1, offset, bare);
        let mid = print_docs(docs_mid, docs_mid.len() as int, flat, level, before, options);
        let at = offset + forest_text(children.take(count - 1)).len();
        let own = raw_docs(cur, at, first);
        lemma_print_docs_concat(docs_mid, own, own.len() as int, flat, level, before, options);
        let words_mid = words + earlier;
        if first && leaves(cur).len() > 0 {
            assert(forest_leaves(children, count)[0] == leaves(cur)[0]);
            assert(words_mid =~= words);
        }
        let more = lemma_place_raw(
            cur,
            at,
            first,
            flat,
            level,
            mid,
            words_mid,
            spans_mid,
            options,
        );
        let after = print_docs(own, own.len() as int, flat, level, mid, options);
        assert(words + forest_leaves(children, count) =~= words_mid + leaves(cur));
        lemma_spans_begin_transitive(spans, spans_mid, more);
        lemma_begins_transitive(before.out, mid.out, after.out);
        lemma_raw_children_placed_grow(
            children,
            count - 1,
            mid.out,
            spans_mid,
            after.out,
            more,
            spans.len() as int,
            bare,
            options,
        );
        more
    }
}

/// The tokens of a tree, printed as the layout asks: where each comes to
/// stand.
pub proof fn lemma_place(
    tree: Tree,
    offset: int,
    flat: bool,
    level: nat,
    before: Printing,
    words: Seq<Tree>,
    spans: Seq<Span>,
    options: FormatOptions,
) -> (more: Seq<Span>)
    requires
        tidy(tree),
        sound(before),
        laid(before.out, words, spans, options),
        first_fits(before.out, words, spans, tree),
    ensures
        ({
            let after = print_doc(tree_doc(tree, offset), flat, level, before, options);
            &&& sound(after)
            &&& continues(before, after)
            &&& spans_begin_with(more, spans)
            &&& more.len() == spans.len() + leaves(tree).len()
            &&& laid(after.out, words + leaves(tree), more, options)
            &&& placed(tree, after.out, more, spans.len() as int, options)
            &&& tree is Leaf ==> more[spans.len() as int].start == before.out.len() && more[spans.len() as int].end
                == after.out.len()
            &&& ends_open(tree) ==> after.out.len() == prev_end(more, more.len() as int)
        }),
    decreases tree, 0int, 0int,
{
    match tree {
        Tree::Leaf { leading, text, .. } => {
            let source = (offset + leading.len()) as usize;
            lemma_put_text(before, text, source, options);
            lemma_laid_word(before.out, words, spans, tree, options);
            let after = put_text(before, text, source, options);
            let span = Span {
                start: before.out.len() as int,
                end: (before.out.len() + normal(text, options).len()) as int,
            };
            let more = spans.push(span);
            assert(more.take(spans.len() as int) =~= spans);
            assert(words.push(tree) =~= words + leaves(tree));
            assert(after.out.subrange(span.start, span.end) =~= normal(text, options));
            lemma_spans_begin(more, spans, spans.len() as int);
            more
        },
        Tree::Node { kind, children } => {
            let n = children.len() as int;
            if kind.is_bogus() {
                let docs = raw_children_docs(children, n, offset, true);
                assert(print_doc(Doc::Sequence(docs), flat, level, before, options) == print_docs(
                    docs,
                    docs.len() as int,
                    flat,
                    level,
                    before,
                    options,
                ));
                if ends_open(tree) {
                    lemma_ends_open(tree);
                }
                lemma_place_raw_children(
                    children,
                    n,
                    offset,
                    true,
                    flat,
                    level,
                    before,
                    words,
                    spans,
                    options,
                )
            } else {
                let docs = children_docs(kind, children, n, offset);
                let inner = Doc::Sequence(docs);
                let laid_flat = if kind == NodeKind::Block {
                    flat || fits(inner, before, options)
                } else {
                    flat
                };
                assert(print_doc(inner, laid_flat, level, before, options) == print_docs(
                    docs,
                    docs.len() as int,
                    laid_flat,
                    level,
                    before,
                    options,
                ));
                if kind == NodeKind::Block {
                    assert(tree_doc(tree, offset) == Doc::Group(Box::new(inner)));
                    assert(print_doc(Doc::Group(Box::new(inner)), flat, level, before, options)
                        == print_doc(inner, laid_flat, level, before, options));
                } else {
                    assert(tree_doc(tree, offset) == inner);
                }
                lemma_place_children(
                    kind,
                    children,
                    n,
                    offset,
                    laid_flat,
                    level,
                    before,
                    words,
                    spans,
                    options,
                )
            }
        },
    }
}

/// Whether the printer, behind the children of a root that it has
/// printed, stands where a further child may start: behind a line break,
/// or behind a token that the end of the input cut short, or at the
/// start.
pub open spec fn root_trail(out: Seq<u8>, words: Seq<Tree>, spans: Seq<Span>) -> bool {
    ||| words.len() == 0
    ||| out.len() > prev_end(spans, spans.len() as int)
    ||| words.last()->token.is_open()
}

/// What the step over one more child of a node needs of the children
/// before it, and gives to the children behind it.
pub open spec fn step_ready(
    parent: NodeKind,
    children: Seq<Tree>,
    count: int,
    mid: Printing,
    words_mid: Seq<Tree>,
    spans_mid: Seq<Span>,
    options: FormatOptions,
) -> bool {
    &&& sound(mid)
    &&& laid(mid.out, words_mid, spans_mid, options)
    &&& count >= 2 && parent == NodeKind::Root ==> root_trail(mid.out, words_mid, spans_mid)
    &&& count >= 2 && parent != NodeKind::Root && children[count - 2] is Leaf ==> {
        &&& mid.out.len() == prev_end(spans_mid, spans_mid.len() as int)
        &&& words_mid.len() > 0
        &&& words_mid.last() == children[count - 2]
    }
}

/// What the step over the child `children[count - 1]` gives.
pub open spec fn step_done(
    parent: NodeKind,
    children: Seq<Tree>,
    count: int,
    mid: Printing,
    after: Printing,
    words_mid: Seq<Tree>,
    spans_mid: Seq<Span>,
    more: Seq<Span>,
    options: FormatOptions,
) -> bool {
    let cur = children[count - 1];
    let at = spans_mid.len() as int;
    &&& sound(after)
    &&& continues(mid, after)
    &&& spans_begin_with(more, spans_mid)
    &&& more.len() == spans_mid.len() + leaves(cur).len()
    &&& laid(after.out, words_mid + leaves(cur), more, options)
    &&& placed(cur, after.out, more, at, options)
    &&& parent == NodeKind::Root ==> root_trail(after.out, words_mid + leaves(cur), more)
    &&& parent != NodeKind::Root && cur is Leaf ==> after.out.len() == prev_end(
        more,
        more.len() as int,
    )
    &&& ends_open(cur) ==> after.out.len() == prev_end(more, more.len() as int)
    &&& count >= 2 && parent != NodeKind::Root && parent != NodeKind::Block && cur is Leaf
        && children[count - 2] is Leaf ==> (more[at].start > prev_end(more, at)) == space_between(
        parent,
        children[count - 2],
        cur,
    )
}

/// The step over one child of a root.
pub proof fn lemma_place_root_child(
    children: Seq<Tree>,
    count: int,
    at: int,
    flat: bool,
    level: nat,
    mid: Printing,
    words_mid: Seq<Tree>,
    spans_mid: Seq<Span>,
    options: FormatOptions,
) -> (more: Seq<Span>)
    requires
        1 <= count <= children.len(),
        tidy(children[count - 1]),
        step_ready(NodeKind::Root, children, count, mid, words_mid, spans_mid, options),
        count == 1 ==> first_fits(mid.out, words_mid, spans_mid, children[count - 1]),
    ensures
        ({
            let cur = children[count - 1];
            let prev = if count >= 2 {
                Some(children[count - 2])
            } else {
                None
            };
            let added = child_docs(NodeKind::Root, prev, cur, tree_doc(cur, at));
            let after = print_docs(added, added.len() as int, flat, level, mid, options);
            step_done(NodeKind::Root, children, count, mid, after, words_mid, spans_mid, more, options)
        }),
    decreases children, count, 0int,
{
    let parent = NodeKind::Root;
    let cur = children[count - 1];
    let prev = if count >= 2 {
        Some(children[count - 2])
    } else {
        None
    };
    let doc = tree_doc(cur, at);
    let added = child_docs(parent, prev, cur, doc);
    let after = print_docs(added, added.len() as int, flat, level, mid, options);
    let one = print_doc(doc, flat, level, mid, options);
    if cur is Leaf {
        assert(cur->text.len() > 0);
    }
    if leaves(cur).len() > 0 {
        lemma_leaves_are_leaves(cur, 0);
    }
    assert(first_fits(mid.out, words_mid, spans_mid, cur));
    let more = lemma_place(cur, at, flat, level, mid, words_mid, spans_mid, options);
    if ends_open(cur) {
        assert(added =~= seq![doc]);
        assert(added[0] == doc);
        assert(print_docs(added, 0, flat, level, mid, options) == mid);
        assert(after == one);
        lemma_ends_open(cur);
        assert((words_mid + leaves(cur)).last() == leaves(cur).last());
    } else {
        assert(added =~= seq![doc, Doc::HardLine]);
        assert(added[0] == doc);
        assert(added[1] == Doc::HardLine);
        assert(print_docs(added, 0, flat, level, mid, options) == mid);
        assert(print_docs(added, 1, flat, level, mid, options) == one);
        assert(after == print_doc(Doc::HardLine, flat, level, one, options));
        lemma_separator(Doc::HardLine, flat, level, one, options);
        let blanks = after.out.subrange(one.out.len() as int, after.out.len() as int);
        lemma_laid_blank(one.out, words_mid + leaves(cur), more, blanks, options);
        lemma_begins_transitive(mid.out, one.out, after.out);
        assert(more.take(more.len() as int) =~= more);
        lemma_placed_grows(cur, one.out, more, after.out, more, spans_mid.len() as int, options);
    }
    more
}

/// The step over one child of a node that is no root.
pub proof fn lemma_place_inner_child(
    parent: NodeKind,
    children: Seq<Tree>,
    count: int,
    at: int,
    flat: bool,
    level: nat,
    mid: Printing,
    words_mid: Seq<Tree>,
    spans_mid: Seq<Span>,
    options: FormatOptions,
) -> (more: Seq<Span>)
    requires
        !parent.is_bogus(),
        parent != NodeKind::Root,
        1 <= count <= children.len(),
        tidy(children[count - 1]),
        step_ready(parent, children, count, mid, words_mid, spans_mid, options),
        count == 1 ==> first_fits(mid.out, words_mid, spans_mid, children[count - 1]),
    ensures
        ({
            let cur = children[count - 1];
            let prev = if count >= 2 {
                Some(children[count - 2])
            } else {
                None
            };
            let added = child_docs(parent, prev, cur, tree_doc(cur, at));
            let after = print_docs(added, added.len() as int, flat, level, mid, options);
            step_done(parent, children, count, mid, after, words_mid, spans_mid, more, options)
        }),
    decreases children, count, 0int,
{
    let cur = children[count - 1];
    let prev = if count >= 2 {
        Some(children[count - 2])
    } else {
        None
    };
    let doc = tree_doc(cur, at);
    let added = child_docs(parent, prev, cur, doc);
    let after = print_docs(added, added.len() as int, flat, level, mid, options);
    let breaks = if parent == NodeKind::Block {
        block_breaks_before(prev, cur)
    } else {
        prev is Some && space_between(parent, prev->Some_0, cur)
    };
    let separator = if parent == NodeKind::Block {
        Doc::SoftLineOrSpace
    } else {
        Doc::Space
    };
    let inside = if parent == NodeKind::Block && cur is Node {
        deeper(level)
    } else {
        level
    };
    let inner = if breaks {
        seq![separator, doc]
    } else {
        seq![doc]
    };
    assert(after == print_docs(inner, inner.len() as int, flat, inside, mid, options)) by {
        if parent == NodeKind::Block && cur is Node {
            let wrapped = Doc::Indent(Box::new(Doc::Sequence(inner)));
            assert(added =~= seq![wrapped]);
            assert(added[0] == wrapped);
            assert(print_docs(added, 0, flat, level, mid, options) == mid);
            assert(print_doc(Doc::Sequence(inner), flat, deeper(level), mid, options)
                == print_docs(inner, inner.len() as int, flat, deeper(level), mid, options));
            assert(print_doc(wrapped, flat, level, mid, options) == print_doc(
                Doc::Sequence(inner),
                flat,
                deeper(level),
                mid,
                options,
            ));
        } else {
            assert(added =~= inner);
        }
    }
    let lead = if breaks {
        print_doc(separator, flat, inside, mid, options)
    } else {
        mid
    };
    assert(print_docs(inner, 0, flat, inside, mid, options) == mid);
    assert(mid.out.take(mid.out.len() as int) =~= mid.out);
    if breaks {
        assert(inner[0] == separator);
        assert(inner[1] == doc);
        assert(print_docs(inner, 1, flat, inside, mid, options) == lead);
        lemma_separator(separator, flat, inside, mid, options);
        let blanks = lead.out.subrange(mid.out.len() as int, lead.out.len() as int);
        lemma_laid_blank(mid.out, words_mid, spans_mid, blanks, options);
    } else {
        assert(inner[0] == doc);
    }
    assert(after == print_doc(doc, flat, inside, lead, options));
    if leaves(cur).len() > 0 {
        lemma_leaves_are_leaves(cur, 0);
    }
    assert(first_fits(lead.out, words_mid, spans_mid, cur));
    let more = lemma_place(cur, at, flat, inside, lead, words_mid, spans_mid, options);
    lemma_begins_transitive(mid.out, lead.out, after.out);
    lemma_spans_begin(more, spans_mid, spans_mid.len() as int);
    more
}

pub proof fn lemma_place_children(
    parent: NodeKind,
    children: Seq<Tree>,
    count: int,
    offset: int,
    flat: bool,
    level: nat,
    before: Printing,
    words: Seq<Tree>,
    spans: Seq<Span>,
    options: FormatOptions,
) -> (more: Seq<Span>)
    requires
        !parent.is_bogus(),
        0 <= count <= children.len(),
        all_tidy(children, count),
        sound(before),
        laid(before.out, words, spans, options),
        words.len() > 0 && forest_leaves(children, count).len() > 0 && before.out.len()
            == prev_end(spans, spans.len() as int) ==> safe_adjacent(
            words.last(),
            forest_leaves(children, count)[0],
        ),
    ensures
        ({
            let docs = children_docs(parent, children, count, offset);
            let after = print_docs(docs, docs.len() as int, flat, level, before, options);
            let added = forest_leaves(children, count);
            &&& sound(after)
            &&& continues(before, after)
            &&& spans_begin_with(more, spans)
            &&& more.len() == spans.len() + added.len()
            &&& laid(after.out, words + added, more, options)
            &&& children_placed(parent, children, count, after.out, more, spans.len() as int, options)
            &&& count >= 1 ==> step_ready(
                parent,
                children,
                count + 1,
                after,
                words + added,
                more,
                options,
            )
            &&& count >= 1 && ends_open(children[count - 1]) ==> after.out.len() == prev_end(
                more,
                more.len() as int,
            )
        }),
    decreases children, count, 1int,
{
    if count == 0 {
        assert(words + forest_leaves(children, 0) =~= words);
        assert(before.out.take(before.out.len() as int) =~= before.out);
        assert(spans.take(spans.len() as int) =~= spans);
        spans
    } else {
        let earlier = forest_leaves(children, count - 1);
        let cur = children[count - 1];
        if earlier.len() > 0 {
            assert(forest_leaves(children, count)[0] == earlier[0]);
        }
        let spans_mid = lemma_place_children(
            parent,
            children,
            count - 1,
            offset,
            flat,
            level,
            before,
            words,
            spans,
            options,
        );
        let docs_mid = children_docs(parent, children, count - 1, offset);
        let mid = print_docs(docs_mid, docs_mid.len() as int, flat, level, before, options);
        let words_mid = words + earlier;
        let at = offset + forest_text(children.take(count - 1)).len();
        let doc = tree_doc(cur, at);
        let prev = if count >= 2 {
            Some(children[count - 2])
        } else {
            None
        };
        let added = child_docs(parent, prev, cur, doc);
        lemma_print_docs_concat(docs_mid, added, added.len() as int, flat, level, before, options);
        let after = print_docs(added, added.len() as int, flat, level, mid, options);
        assert(words + forest_leaves(children, count) =~= words_mid + leaves(cur));
        if earlier.len() == 0 {
            assert(words_mid =~= words);
            if leaves(cur).len() > 0 {
                assert(forest_leaves(children, count)[0] == leaves(cur)[0]);
            }
        }
        if count == 1 {
            assert(step_ready(parent, children, count, mid, words_mid, spans_mid, options));
            assert(first_fits(mid.out, words_mid, spans_mid, cur));
        }
        let more = if parent == NodeKind::Root {
            lemma_place_root_child(
                children,
                count,
                at,
                flat,
                level,
                mid,
                words_mid,
                spans_mid,
                options,
            )
        } else {
            lemma_place_inner_child(
                parent,
                children,
                count,
                at,
                flat,
                level,
                mid,
                words_mid,
                spans_mid,
                options,
            )
        };
        lemma_spans_begin_transitive(spans, spans_mid, more);
        lemma_begins_transitive(before.out, mid.out, after.out);
        lemma_children_placed_grow(
            parent,
            children,
            count - 1,
            mid.out,
            spans_mid,
            after.out,
            more,
            spans.len() as int,
            options,
        );
        if cur is Leaf {
            assert(leaves(cur) =~= seq![cur]);
            assert((words_mid + leaves(cur)).last() == cur);
        }
        more
    }
}

} // verus!
