//! Formatting restricted to a range: the construct that encloses the range
//! is formatted on its own and put back between the text before and behind
//! it, which stay as they are.
use crate::document::Doc;
use crate::format::child_docs;
use crate::format::children_docs;
use crate::format::ends_open;
use crate::format::formatted;
use crate::format::leading_len;
use crate::format::lemma_forest_prefix;
use crate::format::lemma_trivia_len;
use crate::format::node_document;
use crate::format::tree_doc;
use crate::format::trivia_len;
use crate::kind::NodeKind;
use crate::options::FormatError;
use crate::options::FormatOptions;
use crate::printer::break_line;
use crate::printer::column;
use crate::printer::continues;
use crate::printer::deeper;
use crate::printer::indent_text;
use crate::printer::lemma_print_continues;
use crate::printer::lemma_print_docs_concat;
use crate::printer::lemma_print_docs_continues;
use crate::printer::lemma_print_shift;
use crate::printer::MAX_LEVEL;
use crate::printer::print_doc;
use crate::printer::print_docs;
use crate::printer::Printer;
use crate::printer::Printing;
use crate::printer::start_state;
use crate::tree::element_wf;
use crate::tree::forest_text;
use crate::tree::forest_view;
use crate::tree::lemma_node_view;
use crate::tree::SyntaxElement;
use crate::tree::SyntaxNode;
use crate::tree::Tree;
use crate::tree::tree_text;
use crate::tree::write_bytes;
use vstd::prelude::*;
use vstd::slice::slice_subrange;
use vstd::slice::slice_to_vec;

verus! {

/// The kinds of node that can be formatted on their own: the items of the
/// root and of a block.
pub open spec fn spec_is_formattable(kind: NodeKind) -> bool {
    kind == NodeKind::AtRule || kind == NodeKind::BogusRule || kind == NodeKind::QualifiedRule
        || kind == NodeKind::Declaration || kind == NodeKind::Bogus
}

#[verifier::when_used_as_spec(spec_is_formattable)]
pub fn is_formattable(kind: NodeKind) -> (r: bool)
    ensures
        r == spec_is_formattable(kind),
{
    kind == NodeKind::AtRule || kind == NodeKind::BogusRule || kind == NodeKind::QualifiedRule
        || kind == NodeKind::Declaration || kind == NodeKind::Bogus
}

/// A node picked for formatting: the node, the offset at which it starts
/// in the source (its leading trivia included), and the number of blocks
/// around it.
pub struct Target {
    pub tree: Tree,
    pub offset: int,
    pub level: nat,
}

impl Target {
    /// Where the node's own text starts: behind its leading trivia.
    pub open spec fn start(self) -> int {
        self.offset + trivia_len(self.tree)
    }

    /// Where the node's text ends.
    pub open spec fn end(self) -> int {
        self.offset + tree_text(self.tree).len()
    }
}

/// Whether the text of `tree`, which starts at `offset`, holds the range
/// `start..end`. The trivia in front of the tree does not count as its
/// text.
pub open spec fn encloses(tree: Tree, offset: int, start: int, end: int) -> bool {
    offset + trivia_len(tree) <= start && end <= offset + tree_text(tree).len()
}

/// The smallest formattable node at or under `tree` whose text holds the
/// range `start..end`: a formattable node under `tree` comes before `tree`
/// itself, and of two children that both hold one the first is taken.
pub open spec fn target_in(tree: Tree, offset: int, level: nat, start: int, end: int) -> Option<
    Target,
>
    decreases tree, 0int,
{
    match tree {
        Tree::Leaf { .. } => None,
        Tree::Node { kind, children } => {
            let inside = if kind == NodeKind::Block {
                deeper(level)
            } else {
                level
            };
            let inner = target_among(children, children.len() as int, offset, inside, start, end);
            if inner is Some {
                inner
            } else if is_formattable(kind) && encloses(tree, offset, start, end) {
                Some(Target { tree, offset, level })
            } else {
                None
            }
        },
    }
}

/// The target of the first of the first `count` of `children` that has
/// one.
pub open spec fn target_among(
    children: Seq<Tree>,
    count: int,
    offset: int,
    level: nat,
    start: int,
    end: int,
) -> Option<Target>
    decreases children, count,
{
    if count <= 0 || count > children.len() {
        None
    } else {
        let earlier = target_among(children, count - 1, offset, level, start, end);
        if earlier is Some {
            earlier
        } else {
            target_in(
                children[count - 1],
                offset + forest_text(children.take(count - 1)).len(),
                level,
                start,
                end,
            )
        }
    }
}

/// Whether a formattable node at or under `tree`, which starts at
/// `offset`, holds the range `start..end`.
pub open spec fn holds_range(tree: Tree, offset: int, start: int, end: int) -> bool
    decreases tree, 0int,
{
    match tree {
        Tree::Leaf { .. } => false,
        Tree::Node { kind, children } => {
            ||| is_formattable(kind) && encloses(tree, offset, start, end)
            ||| any_holds_range(children, children.len() as int, offset, start, end)
        },
    }
}

/// Whether a formattable node at or under one of the first `count` of
/// `children` holds the range `start..end`.
pub open spec fn any_holds_range(
    children: Seq<Tree>,
    count: int,
    offset: int,
    start: int,
    end: int,
) -> bool
    decreases children, count,
{
    if count <= 0 || count > children.len() {
        false
    } else {
        ||| any_holds_range(children, count - 1, offset, start, end)
        ||| holds_range(
            children[count - 1],
            offset + forest_text(children.take(count - 1)).len(),
            start,
            end,
        )
    }
}

/// What being the target means. There is a target exactly where some
/// formattable node at or under the tree holds the range. The target is
/// such a node: it is formattable, its text holds the range, and it lies
/// inside the tree at least as deep as the tree. And it is a smallest
/// one: no formattable node under it holds the range.
pub proof fn lemma_target(tree: Tree, offset: int, level: nat, start: int, end: int)
    ensures
        target_in(tree, offset, level, start, end) is Some <==> holds_range(
            tree,
            offset,
            start,
            end,
        ),
        target_in(tree, offset, level, start, end) matches Some(target) ==> {
            &&& target.tree matches Tree::Node { kind, children } && is_formattable(kind)
                && !any_holds_range(children, children.len() as int, target.offset, start, end)
            &&& encloses(target.tree, target.offset, start, end)
            &&& offset <= target.offset
            &&& target.end() <= offset + tree_text(tree).len()
            &&& level <= target.level
        },
    decreases tree, 0int,
{
    match tree {
        Tree::Leaf { .. } => {},
        Tree::Node { kind, children } => {
            let inside = if kind == NodeKind::Block {
                deeper(level)
            } else {
                level
            };
            lemma_target_among(children, children.len() as int, offset, inside, start, end);
            assert(children.take(children.len() as int) =~= children);
        },
    }
}

pub proof fn lemma_target_among(
    children: Seq<Tree>,
    count: int,
    offset: int,
    level: nat,
    start: int,
    end: int,
)
    requires
        0 <= count <= children.len(),
    ensures
        target_among(children, count, offset, level, start, end) is Some <==> any_holds_range(
            children,
            count,
            offset,
            start,
            end,
        ),
        target_among(children, count, offset, level, start, end) matches Some(target) ==> {
            &&& target.tree matches Tree::Node { kind, children: below } && is_formattable(kind)
                && !any_holds_range(below, below.len() as int, target.offset, start, end)
            &&& encloses(target.tree, target.offset, start, end)
            &&& offset <= target.offset
            &&& target.end() <= offset + forest_text(children.take(count)).len()
            &&& level <= target.level
        },
    decreases children, count,
{
    if count > 0 {
        lemma_target_among(children, count - 1, offset, level, start, end);
        lemma_forest_prefix(children, count - 1);
        let at = offset + forest_text(children.take(count - 1)).len();
        lemma_target(children[count - 1], at, level, start, end);
    }
}

/// The state in which a construct that stands `level` blocks deep is
/// printed on its own: behind the indentation of its line.
pub open spec fn piece_start(level: nat, options: FormatOptions) -> Printing {
    Printing { out: indent_text(options, level), line_start: 0, markers: Seq::empty() }
}

/// The formatted text of a target: the target's document printed at the
/// target's level, from the column at which that level starts.
pub open spec fn piece(target: Target, options: FormatOptions) -> Seq<u8> {
    print_doc(
        tree_doc(target.tree, target.offset),
        false,
        target.level,
        piece_start(target.level, options),
        options,
    ).out.skip(indent_text(options, target.level).len() as int)
}

/// What formatting the range `start..end` of `tree` gives.
pub enum RangeOutcome {
    /// The text with `replacement` in place of the source bytes
    /// `start..end`.
    Spliced { text: Seq<u8>, start: int, end: int, replacement: Seq<u8> },
    Refused(FormatError),
}

/// What formatting the range `start..end` of the well-formed `tree` under
/// `options` gives. A range that is inverted or reaches beyond the text is
/// out of bounds; a range that no formattable node holds is misaligned;
/// else the target's text is replaced by its formatted form and the rest
/// is kept.
pub open spec fn range_formatted(tree: Tree, options: FormatOptions, start: int, end: int) -> RangeOutcome {
    let text = tree_text(tree);
    if start > end || end > text.len() {
        RangeOutcome::Refused(FormatError::RangeOutOfBounds)
    } else {
        match target_in(tree, 0, 0, start, end) {
            None => RangeOutcome::Refused(FormatError::RangeMisaligned),
            Some(target) => RangeOutcome::Spliced {
                text: text.subrange(0, target.start()) + piece(target, options) + text.subrange(
                    target.end(),
                    text.len() as int,
                ),
                start: target.start(),
                end: target.end(),
                replacement: piece(target, options),
            },
        }
    }
}

/// The result of formatting a range.
#[derive(Debug, PartialEq, Eq)]
pub struct RangeFormatted {
    /// The whole text, with the construct in its formatted form.
    pub text: Vec<u8>,
    /// The source range that the construct covered.
    pub start: usize,
    pub end: usize,
    /// The formatted form of the construct.
    pub replacement: Vec<u8>,
}

impl RangeFormatted {
    pub open spec fn outcome(self) -> RangeOutcome {
        RangeOutcome::Spliced {
            text: self.text@,
            start: self.start as int,
            end: self.end as int,
            replacement: self.replacement@,
        }
    }
}

/// A node that was picked, with its offset and level.
pub struct Found<'a> {
    pub node: &'a SyntaxNode,
    pub offset: usize,
    pub level: u16,
}

impl<'a> Found<'a> {
    pub open spec fn target(self) -> Target {
        Target { tree: self.node@, offset: self.offset as int, level: self.level as nat }
    }
}

pub open spec fn found_target(found: Option<Found>) -> Option<Target> {
    match found {
        Some(f) => Some(f.target()),
        None => None,
    }
}

/// Looks for the smallest formattable node at or under `node` whose text
/// holds the range `start..end`.
pub fn find_target<'a>(
    node: &'a SyntaxNode,
    offset: usize,
    level: u16,
    start: usize,
    end: usize,
) -> (found: Option<Found<'a>>)
    requires
        node.wf(),
        offset + node@.text().len() <= usize::MAX,
    ensures
        found_target(found) == target_in(
            node@,
            offset as int,
            level as nat,
            start as int,
            end as int,
        ),
        found matches Some(f) ==> f.node.wf() && offset <= f.offset && f.offset
            + f.node@.text().len() <= offset + node@.text().len(),
    decreases node,
{
    proof {
        lemma_node_view(*node);
        lemma_trivia_len(node@);
    }
    let ghost trees = forest_view(node.children@);
    let inside: u16 = if node.kind == NodeKind::Block && level < MAX_LEVEL {
        level + 1
    } else {
        level
    };
    let mut at: usize = offset;
    let mut i: usize = 0;
    proof {
        assert(trees.take(0) =~= Seq::<Tree>::empty());
    }
    while i < node.children.len()
        invariant
            i <= node.children@.len(),
            node.wf(),
            trees == forest_view(node.children@),
            trees.len() == node.children@.len(),
            node@ == (Tree::Node { kind: node.kind, children: trees }),
            offset + forest_text(trees).len() <= usize::MAX,
            at == offset + forest_text(trees.take(i as int)).len(),
            inside as nat == if node.kind == NodeKind::Block {
                deeper(level as nat)
            } else {
                level as nat
            },
            target_among(trees, i as int, offset as int, inside as nat, start as int, end as int)
                is None,
        decreases node.children@.len() - i,
    {
        let child = &node.children[i];
        proof {
            lemma_forest_prefix(trees, i as int);
            lemma_forest_prefix(trees, i + 1);
            assert(trees[i as int] == child@);
            assert(element_wf(node.children@[i as int]));
            assert(decreases_to!(*node => node.children));
            assert(decreases_to!(node.children => node.children@[i as int]));
        }
        match child {
            SyntaxElement::Node(inner) => {
                let found = find_target(inner, at, inside, start, end);
                if found.is_some() {
                    proof {
                        assert(target_among(
                            trees,
                            i + 1,
                            offset as int,
                            inside as nat,
                            start as int,
                            end as int,
                        ) == found_target(found));
                        lemma_target_among_found(
                            trees,
                            i + 1,
                            trees.len() as int,
                            offset as int,
                            inside as nat,
                            start as int,
                            end as int,
                        );
                        assert(inside as nat == if node.kind == NodeKind::Block {
                            deeper(level as nat)
                        } else {
                            level as nat
                        });
                        assert(target_in(
                            node@,
                            offset as int,
                            level as nat,
                            start as int,
                            end as int,
                        ) == target_among(
                            trees,
                            trees.len() as int,
                            offset as int,
                            inside as nat,
                            start as int,
                            end as int,
                        ));
                    }
                    return found;
                }
            },
            SyntaxElement::Token(_) => {},
        }
        proof {
            assert(target_in(
                trees[i as int],
                at as int,
                inside as nat,
                start as int,
                end as int,
            ) is None);
            assert(target_among(
                trees,
                i + 1,
                offset as int,
                inside as nat,
                start as int,
                end as int,
            ) is None);
        }
        at = at + child.text_len();
        i = i + 1;
    }
    if is_formattable(node.kind) {
        let skip = if node.children.len() > 0 {
            leading_len(&node.children[0])
        } else {
            0
        };
        proof {
            if node.children@.len() > 0 {
                assert(trees[0] == node.children@[0]@);
            }
        }
        if offset + skip <= start && end <= offset + node.text_len() {
            return Some(Found { node, offset, level });
        }
    }
    None
}

/// A target found among fewer children is the target among more.
pub proof fn lemma_target_among_found(
    children: Seq<Tree>,
    fewer: int,
    more: int,
    offset: int,
    level: nat,
    start: int,
    end: int,
)
    requires
        0 <= fewer <= more <= children.len(),
        target_among(children, fewer, offset, level, start, end) is Some,
    ensures
        target_among(children, more, offset, level, start, end) == target_among(
            children,
            fewer,
            offset,
            level,
            start,
            end,
        ),
    decreases more - fewer,
{
    if fewer < more {
        lemma_target_among_found(children, fewer, more - 1, offset, level, start, end);
    }
}

/// Formats the construct that encloses the range `start..end` of the text
/// of `tree`, and puts it back in place. The text before and behind the
/// construct is kept byte for byte. Refused, with nothing formatted, where
/// the tree is not well formed, the range is out of bounds, or no single
/// construct holds it.
pub fn format_range(options: &FormatOptions, tree: &SyntaxNode, start: usize, end: usize) -> (r:
    Result<RangeFormatted, FormatError>)
    ensures
        !tree.wf() ==> r == Err::<RangeFormatted, FormatError>(FormatError::MalformedTree),
        tree.wf() ==> match r {
            Ok(done) => done.outcome() == range_formatted(
                tree@,
                *options,
                start as int,
                end as int,
            ),
            Err(error) => range_formatted(tree@, *options, start as int, end as int)
                == RangeOutcome::Refused(error),
        },
{
    if !tree.is_well_formed() {
        return Err(FormatError::MalformedTree);
    }
    if start > end || end > tree.text_len() {
        return Err(FormatError::RangeOutOfBounds);
    }
    let found = match find_target(tree, 0, 0, start, end) {
        Some(found) => found,
        None => {
            return Err(FormatError::RangeMisaligned);
        },
    };
    let ghost target = found.target();
    proof {
        lemma_trivia_len(found.node@);
        lemma_node_view(*found.node);
    }
    let document = node_document(found.node, found.offset);
    let mut printer = Printer::indented(found.level, options);
    let indent: usize = printer.len();
    proof {
        printer.lemma_wf();
        lemma_print_continues(
            document@,
            false,
            found.level as nat,
            printer@,
            *options,
        );
    }
    printer.print_document(&document, false, found.level, options);
    let printed = printer.finish();
    proof {
        lemma_skip_prefix(printed.text@, indent as int);
    }
    let replacement = slice_to_vec(slice_subrange(printed.text.as_slice(), indent, printed.text.len()));
    let source = tree.text();
    let skip = if found.node.children.len() > 0 {
        leading_len(&found.node.children[0])
    } else {
        0
    };
    proof {
        if found.node.children@.len() > 0 {
            assert(forest_view(found.node.children@)[0] == found.node.children@[0]@);
        }
    }
    let from: usize = found.offset + skip;
    let to: usize = found.offset + found.node.text_len();
    let mut text: Vec<u8> = slice_to_vec(slice_subrange(source.as_slice(), 0, from));
    write_bytes(&mut text, &replacement);
    let rest = slice_to_vec(slice_subrange(source.as_slice(), to, source.len()));
    write_bytes(&mut text, &rest);
    Ok(RangeFormatted { text, start: from, end: to, replacement })
}

/// The printer's state when the first `count` children of a root have
/// been printed.
pub open spec fn root_printing(children: Seq<Tree>, count: int, options: FormatOptions) -> Printing {
    let docs = children_docs(NodeKind::Root, children, count, 0);
    print_docs(docs, docs.len() as int, false, 0, start_state(), options)
}

/// As long as no child is cut short by the end of the input, the printer
/// stands at the start of a line after each child of a root, and what it
/// wrote for a child that holds text is the child's formatted piece and a
/// line ending.
pub proof fn lemma_root_printing(children: Seq<Tree>, count: int, options: FormatOptions)
    requires
        0 <= count <= children.len(),
        forall|i: int| 0 <= i < count ==> !ends_open(#[trigger] children[i]),
    ensures
        0 <= root_printing(children, count, options).line_start,
        column(root_printing(children, count, options)) == 0,
        count > 0 ==> continues(
            root_printing(children, count - 1, options),
            root_printing(children, count, options),
        ),
        count > 0 && !(children[count - 1] is Leaf && children[count - 1]->text.len() == 0)
            ==> root_printing(children, count, options).out == root_printing(
            children,
            count - 1,
            options,
        ).out + piece(
            Target {
                tree: children[count - 1],
                offset: forest_text(children.take(count - 1)).len() as int,
                level: 0,
            },
            options,
        ) + options.line_ending.bytes(),
    decreases count,
{
    if count > 0 {
        lemma_root_printing(children, count - 1, options);
        let cur = children[count - 1];
        let prev = if count >= 2 {
            Some(children[count - 2])
        } else {
            None
        };
        let at = forest_text(children.take(count - 1)).len() as int;
        let doc = tree_doc(cur, at);
        let earlier = children_docs(NodeKind::Root, children, count - 1, 0);
        let added = child_docs(NodeKind::Root, prev, cur, doc);
        let before = root_printing(children, count - 1, options);
        let after = root_printing(children, count, options);
        lemma_print_docs_concat(
            earlier,
            added,
            added.len() as int,
            false,
            0,
            start_state(),
            options,
        );
        assert(after == print_docs(added, added.len() as int, false, 0, before, options));
        let one = print_doc(doc, false, 0, before, options);
        lemma_print_continues(doc, false, 0, before, options);
        assert(print_docs(added, 0, false, 0, before, options) == before);
        assert(print_docs(added, 1, false, 0, before, options) == one);
        let start = piece_start(0, options);
        assert(indent_text(options, 0) =~= Seq::<u8>::empty());
        lemma_print_shift(doc, false, 0, before, start, options);
        let alone = print_doc(doc, false, 0, start, options);
        let target = Target { tree: cur, offset: at, level: 0 };
        assert(piece(target, options) == alone.out.skip(0));
        assert(one.out =~= before.out + one.out.skip(before.out.len() as int)) by {
            assert(one.out.take(before.out.len() as int) == before.out);
            assert(one.out =~= one.out.take(before.out.len() as int) + one.out.skip(
                before.out.len() as int,
            ));
        }
        assert(!ends_open(cur));
        if cur is Leaf && cur->text.len() == 0 {
            assert(added =~= seq![doc]);
        } else {
            assert(added =~= seq![doc, Doc::HardLine]);
            assert(added[1] == Doc::HardLine);
            assert(print_doc(Doc::HardLine, false, 0, one, options) == break_line(
                one,
                0,
                options,
            ));
            assert(print_docs(added, 2, false, 0, before, options) == print_doc(
                added[1],
                false,
                0,
                print_docs(added, 1, false, 0, before, options),
                options,
            ));
            assert(print_docs(added, 2, false, 0, before, options) == break_line(
                one,
                0,
                options,
            ));
            assert(after.out =~= before.out + piece(target, options)
                + options.line_ending.bytes());
            assert(after.out.take(before.out.len() as int) =~= before.out);
        }
    }
}

/// The children of a root are printed one after the other: what is
/// written for fewer children is the beginning of what is written for
/// more.
pub proof fn lemma_root_printing_grows(
    children: Seq<Tree>,
    fewer: int,
    more: int,
    options: FormatOptions,
)
    requires
        0 <= fewer <= more <= children.len(),
    ensures
        0 <= root_printing(children, fewer, options).line_start <= root_printing(
            children,
            fewer,
            options,
        ).out.len(),
        continues(
            root_printing(children, fewer, options),
            root_printing(children, more, options),
        ),
    decreases more - fewer,
{
    let a = root_printing(children, fewer, options);
    let docs = children_docs(NodeKind::Root, children, fewer, 0);
    lemma_print_docs_continues(docs, docs.len() as int, false, 0, start_state(), options);
    if fewer == more {
        assert(a.out.take(a.out.len() as int) =~= a.out);
    } else {
        lemma_root_printing_grows(children, fewer, more - 1, options);
        let m = root_printing(children, more - 1, options);
        let r = root_printing(children, more, options);
        let earlier = children_docs(NodeKind::Root, children, more - 1, 0);
        let cur = children[more - 1];
        let prev = if more >= 2 {
            Some(children[more - 2])
        } else {
            None
        };
        let at = forest_text(children.take(more - 1)).len() as int;
        let added = child_docs(NodeKind::Root, prev, cur, tree_doc(cur, at));
        lemma_print_docs_concat(
            earlier,
            added,
            added.len() as int,
            false,
            0,
            start_state(),
            options,
        );
        lemma_print_docs_continues(earlier, earlier.len() as int, false, 0, start_state(), options);
        lemma_print_docs_continues(added, added.len() as int, false, 0, m, options);
        assert(r.out.take(a.out.len() as int) =~= m.out.take(a.out.len() as int)) by {
            assert forall|i: int| 0 <= i < a.out.len() implies r.out[i] == m.out[i] by {
                assert(r.out.take(m.out.len() as int)[i] == m.out[i]);
            }
        }
    }
}

/// Range round trip. Take the construct that is child `k` of a root, and
/// let its piece be what formatting a range that targets it puts in its
/// place. Then the text of formatting the whole tree holds, behind what
/// was written for the children before `k`, exactly that piece and a line
/// ending: formatting the range and splicing changes nothing in a text
/// that formatting the whole has produced. This is stated of the
/// constructs that hold text and whose line is ended: the children up to
/// `k` are not cut short by the end of the input.
pub proof fn lemma_range_round_trip(children: Seq<Tree>, k: int, options: FormatOptions)
    requires
        0 <= k < children.len(),
        !(children[k] is Leaf && children[k]->text.len() == 0),
        forall|i: int| 0 <= i <= k ==> !ends_open(#[trigger] children[i]),
    ensures
        ({
            let root = Tree::Node { kind: NodeKind::Root, children };
            let target = Target {
                tree: children[k],
                offset: forest_text(children.take(k)).len() as int,
                level: 0,
            };
            let before = root_printing(children, k, options);
            let after = root_printing(children, k + 1, options);
            &&& after.out == before.out + piece(target, options) + options.line_ending.bytes()
            &&& continues(after, formatted(root, options))
        }),
{
    lemma_root_printing(children, k + 1, options);
    lemma_root_printing_grows(children, k + 1, children.len() as int, options);
}

/// Range round trip, in terms of what a call gives. Where a range targets
/// the construct that is child `k` of the root, what comes to stand in
/// place of the construct is what formatting the whole tree writes for
/// it, behind what it writes for the children before `k`.
pub proof fn lemma_range_is_part_of_whole(
    children: Seq<Tree>,
    k: int,
    start: int,
    end: int,
    options: FormatOptions,
)
    requires
        0 <= k < children.len(),
        !(children[k] is Leaf && children[k]->text.len() == 0),
        forall|i: int| 0 <= i <= k ==> !ends_open(#[trigger] children[i]),
        0 <= start <= end <= tree_text(Tree::Node { kind: NodeKind::Root, children }).len(),
        target_in(Tree::Node { kind: NodeKind::Root, children }, 0, 0, start, end) == Some(
            Target {
                tree: children[k],
                offset: forest_text(children.take(k)).len() as int,
                level: 0,
            },
        ),
    ensures
        ({
            let root = Tree::Node { kind: NodeKind::Root, children };
            let done = range_formatted(root, options, start, end);
            let whole = formatted(root, options).out;
            let from = root_printing(children, k, options).out.len() as int;
            &&& done is Spliced
            &&& from + done->replacement.len() <= whole.len()
            &&& whole.subrange(from, from + done->replacement.len()) == done->replacement
        }),
{
    let root = Tree::Node { kind: NodeKind::Root, children };
    let target = Target {
        tree: children[k],
        offset: forest_text(children.take(k)).len() as int,
        level: 0,
    };
    lemma_range_round_trip(children, k, options);
    let before = root_printing(children, k, options);
    let after = root_printing(children, k + 1, options);
    let whole = formatted(root, options).out;
    let part = piece(target, options);
    let from = before.out.len() as int;
    assert forall|i: int| 0 <= i < part.len() implies whole.subrange(from, from + part.len())[i]
        == part[i] by {
        assert(whole.take(after.out.len() as int)[from + i] == after.out[from + i]);
        assert(after.out[from + i] == part[i]);
    }
    assert(whole.subrange(from, from + part.len()) =~= part);
}

/// A range that is formatted is replaced by the piece of its target: the
/// text before and behind the target is the source's.
pub proof fn lemma_range_keeps_rest(tree: Tree, options: FormatOptions, start: int, end: int)
    requires
        0 <= start <= end <= tree_text(tree).len(),
        target_in(tree, 0, 0, start, end) is Some,
    ensures
        ({
            let target = target_in(tree, 0, 0, start, end)->Some_0;
            let done = range_formatted(tree, options, start, end);
            &&& done is Spliced
            &&& done->replacement == piece(target, options)
            &&& done->text == tree_text(tree).subrange(0, target.start()) + done->replacement
                + tree_text(tree).subrange(target.end(), tree_text(tree).len() as int)
        }),
{
}

pub proof fn lemma_skip_prefix(bytes: Seq<u8>, count: int)
    requires
        0 <= count <= bytes.len(),
    ensures
        bytes.skip(count) == bytes.subrange(count, bytes.len() as int),
{
}

} // verus!
