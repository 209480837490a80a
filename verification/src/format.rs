//! The layout pass: from a syntax tree to its document, and the formatting
//! entry point. The layout reads the tree alone; widths, indentation and
//! line endings come in only when the document is printed.
//!
//! The layout in short. The children of the root stand one to a line. A block
//! is a group: `{`, each item indented behind a soft line break, a soft
//! line break, `}`; so it stands on one line where it fits and one item to
//! a line where it does not. Elsewhere tokens follow each other with one
//! blank where the source had blanks or line breaks between them, none
//! before `,` and `;`, one after `,`, and in a declaration none before `:`
//! and one after it. Unrecognized nodes are written as they stood: token
//! by token, with the blanks and line breaks that stood between them.
//!
//! A comment or a string that the end of the input cuts short takes in all
//! that follows it. Nothing is written behind such a token, not even the
//! line break that ends the line of a child of the root: else the token
//! would have grown when the output is read again.
use crate::document::Doc;
use crate::document::Document;
use crate::document::documents_view;
use crate::document::has_line_break;
use crate::document::lemma_documents_view_push;
use crate::document::lemma_same_layouts_concat;
use crate::document::lemma_sequence_view;
use crate::document::same_layout;
use crate::document::same_layouts;
use crate::document::same_text;
use crate::kind::NodeKind;
use crate::kind::TokenKind;
use crate::lexer::is_line_break;
use crate::options::FormatError;
use crate::options::FormatOptions;
use crate::printer::Formatted;
use crate::printer::lemma_printed_alike;
use crate::printer::print;
use crate::printer::printed;
use crate::printer::Printing;
use crate::tree::element_wf;
use crate::tree::forest_leaves;
use crate::tree::forest_text;
use crate::tree::forest_view;
use crate::tree::leaves;
use crate::tree::lemma_forest_text_concat;
use crate::tree::lemma_forest_text_push;
use crate::tree::lemma_node_view;
use crate::tree::SyntaxElement;
use crate::tree::SyntaxNode;
use crate::tree::Tree;
use crate::tree::tree_text;
use vstd::prelude::*;

verus! {

/// The number of bytes of trivia with which `tree` begins: the leading
/// trivia of its first leaf.
pub open spec fn trivia_len(tree: Tree) -> nat
    decreases tree,
{
    match tree {
        Tree::Leaf { leading, .. } => leading.len(),
        Tree::Node { children, .. } => if children.len() > 0 {
            trivia_len(children[0])
        } else {
            0
        },
    }
}

/// The token kind of a leaf.
pub open spec fn leaf_kind(tree: Tree) -> Option<TokenKind> {
    match tree {
        Tree::Leaf { token, .. } => Some(token),
        Tree::Node { .. } => None,
    }
}

/// Whether a blank stands between `prev` and `cur`, two children of a node
/// of kind `parent` that follow each other.
pub open spec fn space_between(parent: NodeKind, prev: Tree, cur: Tree) -> bool {
    match cur {
        Tree::Node { .. } => !(parent == NodeKind::AtRule && leaf_kind(prev) == Some(
            TokenKind::At,
        )),
        Tree::Leaf { token, leading, .. } => {
            if token == TokenKind::Semicolon || token == TokenKind::Comma {
                false
            } else if prev is Node || leaf_kind(prev) == Some(TokenKind::Comma) {
                true
            } else if parent == NodeKind::Declaration && token == TokenKind::Colon {
                false
            } else if parent == NodeKind::Declaration && leaf_kind(prev) == Some(TokenKind::Colon) {
                true
            } else {
                leading.len() > 0
            }
        },
    }
}

/// Whether the last token of `tree` is cut short by the end of the input.
pub open spec fn ends_open(tree: Tree) -> bool
    decreases tree,
{
    match tree {
        Tree::Leaf { token, .. } => token.is_open(),
        Tree::Node { children, .. } => children.len() > 0 && ends_open(children.last()),
    }
}

/// Whether a soft line break stands in front of the child `cur` of a
/// block: in front of every child but the first, and but a token that
/// follows the `{` directly.
pub open spec fn block_breaks_before(prev: Option<Tree>, cur: Tree) -> bool {
    prev is Some && !(cur is Leaf && leaf_kind(prev->Some_0) == Some(TokenKind::LCurly))
}

/// What the child `cur` of a node of kind `parent` adds to the node's
/// document, where `doc` is the child's own document and `prev` the child
/// before it.
pub open spec fn child_docs(parent: NodeKind, prev: Option<Tree>, cur: Tree, doc: Doc) -> Seq<Doc> {
    if parent == NodeKind::Root {
        if (cur is Leaf && cur->text.len() == 0) || ends_open(cur) {
            seq![doc]
        } else {
            seq![doc, Doc::HardLine]
        }
    } else if parent == NodeKind::Block {
        let inner = if block_breaks_before(prev, cur) {
            seq![Doc::SoftLineOrSpace, doc]
        } else {
            seq![doc]
        };
        if cur is Node {
            seq![Doc::Indent(Box::new(Doc::Sequence(inner)))]
        } else {
            inner
        }
    } else if prev is Some && space_between(parent, prev->Some_0, cur) {
        seq![Doc::Space, doc]
    } else {
        seq![doc]
    }
}

/// The document of `tree`, which starts at `offset` of the source.
pub open spec fn tree_doc(tree: Tree, offset: int) -> Doc
    decreases tree, 0int,
{
    match tree {
        Tree::Leaf { leading, text, .. } => Doc::Text {
            bytes: text,
            source: (offset + leading.len()) as usize,
        },
        Tree::Node { kind, children } => {
            if kind.is_bogus() {
                Doc::Sequence(raw_children_docs(children, children.len() as int, offset, true))
            } else if kind == NodeKind::Block {
                Doc::Group(
                    Box::new(
                        Doc::Sequence(children_docs(kind, children, children.len() as int, offset)),
                    ),
                )
            } else {
                Doc::Sequence(children_docs(kind, children, children.len() as int, offset))
            }
        },
    }
}

/// The documents of the tokens of `tree` as they stood: the text of each
/// token, and in front of it the trivia that stood there. `bare` says that
/// no token has been written yet: the trivia in front of the first token
/// is left out.
pub open spec fn raw_docs(tree: Tree, offset: int, bare: bool) -> Seq<Doc>
    decreases tree, 0int,
{
    match tree {
        Tree::Leaf { leading, text, .. } => {
            let own = Doc::Text { bytes: text, source: (offset + leading.len()) as usize };
            if bare {
                seq![own]
            } else {
                seq![Doc::Text { bytes: leading, source: offset as usize }, own]
            }
        },
        Tree::Node { children, .. } => raw_children_docs(
            children,
            children.len() as int,
            offset,
            bare,
        ),
    }
}

/// The documents of the tokens of the first `count` of `children` as they
/// stood.
pub open spec fn raw_children_docs(children: Seq<Tree>, count: int, offset: int, bare: bool) -> Seq<
    Doc,
>
    decreases children, count,
{
    if count <= 0 || count > children.len() {
        Seq::empty()
    } else {
        raw_children_docs(children, count - 1, offset, bare) + raw_docs(
            children[count - 1],
            offset + forest_text(children.take(count - 1)).len(),
            bare && forest_leaves(children, count - 1).len() == 0,
        )
    }
}

/// The documents of the first `count` children of a node of kind `parent`
/// that starts at `offset`.
pub open spec fn children_docs(parent: NodeKind, children: Seq<Tree>, count: int, offset: int) -> Seq<
    Doc,
>
    decreases children, count,
{
    if count <= 0 || count > children.len() {
        Seq::empty()
    } else {
        let cur = children[count - 1];
        let prev = if count >= 2 {
            Some(children[count - 2])
        } else {
            None
        };
        let at = offset + forest_text(children.take(count - 1)).len();
        children_docs(parent, children, count - 1, offset) + child_docs(
            parent,
            prev,
            cur,
            tree_doc(cur, at),
        )
    }
}

/// The trivia in front of a tree is part of its text.
pub proof fn lemma_trivia_len(tree: Tree)
    ensures
        trivia_len(tree) <= tree_text(tree).len(),
    decreases tree,
{
    match tree {
        Tree::Leaf { .. } => {},
        Tree::Node { children, .. } => {
            if children.len() > 0 {
                lemma_trivia_len(children[0]);
                lemma_forest_prefix(children, 1);
                assert(children.take(1) =~= Seq::<Tree>::empty().push(children[0]));
                lemma_forest_text_push(Seq::<Tree>::empty(), children[0]);
            }
        },
    }
}

/// The text of the first `count` trees is a prefix of the text of all.
pub proof fn lemma_forest_prefix(forest: Seq<Tree>, count: int)
    requires
        0 <= count <= forest.len(),
    ensures
        forest_text(forest.take(count)).len() <= forest_text(forest).len(),
        forest_text(forest) == forest_text(forest.take(count)) + forest_text(forest.skip(count)),
        count < forest.len() ==> forest_text(forest.take(count + 1)) == forest_text(
            forest.take(count),
        ) + tree_text(forest[count]),
{
    assert(forest =~= forest.take(count) + forest.skip(count));
    lemma_forest_text_concat(forest.take(count), forest.skip(count));
    if count < forest.len() {
        assert(forest.take(count + 1) =~= forest.take(count).push(forest[count]));
        lemma_forest_text_push(forest.take(count), forest[count]);
    }
}

/// The number of bytes of trivia with which `element` begins.
pub fn leading_len(element: &SyntaxElement) -> (len: usize)
    ensures
        len == trivia_len(element@),
    decreases element,
{
    match element {
        SyntaxElement::Token(token) => token.leading.len(),
        SyntaxElement::Node(node) => {
            proof {
                lemma_node_view(*node);
            }
            if node.children.len() > 0 {
                leading_len(&node.children[0])
            } else {
                0
            }
        },
    }
}

/// Whether the last token of `element` is cut short by the end of the
/// input.
pub fn is_open_ended(element: &SyntaxElement) -> (r: bool)
    ensures
        r == ends_open(element@),
    decreases element,
{
    match element {
        SyntaxElement::Token(token) => token.kind.is_open(),
        SyntaxElement::Node(node) => {
            proof {
                lemma_node_view(*node);
                if node.children@.len() > 0 {
                    assert(forest_view(node.children@).last() == node.children@.last()@);
                }
            }
            let n: usize = node.children.len();
            if n > 0 {
                is_open_ended(&node.children[n - 1])
            } else {
                false
            }
        },
    }
}

fn token_kind_of(element: &SyntaxElement) -> (r: Option<TokenKind>)
    ensures
        r == leaf_kind(element@),
{
    match element {
        SyntaxElement::Token(token) => Some(token.kind),
        SyntaxElement::Node(_) => None,
    }
}

fn is_kind(found: Option<TokenKind>, kind: TokenKind) -> (r: bool)
    ensures
        r == (found == Some(kind)),
{
    match found {
        Some(k) => k == kind,
        None => false,
    }
}

fn needs_space(parent: NodeKind, prev: &SyntaxElement, cur: &SyntaxElement) -> (r: bool)
    ensures
        r == space_between(parent, prev@, cur@),
{
    match cur {
        SyntaxElement::Node(_) => !(parent == NodeKind::AtRule && is_kind(
            token_kind_of(prev),
            TokenKind::At,
        )),
        SyntaxElement::Token(token) => {
            let before = token_kind_of(prev);
            let after_node: bool = match prev {
                SyntaxElement::Node(_) => true,
                SyntaxElement::Token(_) => false,
            };
            if token.kind == TokenKind::Semicolon || token.kind == TokenKind::Comma {
                false
            } else if after_node || is_kind(before, TokenKind::Comma) {
                true
            } else if parent == NodeKind::Declaration && token.kind == TokenKind::Colon {
                false
            } else if parent == NodeKind::Declaration && is_kind(before, TokenKind::Colon) {
                true
            } else {
                token.leading.len() > 0
            }
        },
    }
}

/// Appends to `parts` what the child `cur` adds to its parent's document.
fn push_child(
    parts: &mut Vec<Document>,
    parent: NodeKind,
    prev: Option<&SyntaxElement>,
    cur: &SyntaxElement,
    document: Document,
)
    ensures
        documents_view(final(parts)@) == documents_view(old(parts)@) + child_docs(
            parent,
            match prev {
                Some(element) => Some(element@),
                None => None,
            },
            cur@,
            document@,
        ),
{
    let ghost before = documents_view(parts@);
    let ghost doc = document@;
    let cur_is_node: bool = match cur {
        SyntaxElement::Node(_) => true,
        SyntaxElement::Token(_) => false,
    };
    let cur_is_empty: bool = match cur {
        SyntaxElement::Node(_) => false,
        SyntaxElement::Token(token) => token.text.len() == 0,
    };
    if parent == NodeKind::Root {
        proof {
            lemma_documents_view_push(parts@, document);
        }
        parts.push(document);
        if !(cur_is_empty || is_open_ended(cur)) {
            proof {
                lemma_documents_view_push(parts@, Document::HardLine);
            }
            parts.push(Document::HardLine);
            proof {
                assert(documents_view(parts@) =~= before + seq![doc, Doc::HardLine]);
            }
        } else {
            proof {
                assert(documents_view(parts@) =~= before + seq![doc]);
            }
        }
    } else if parent == NodeKind::Block {
        let breaks: bool = match prev {
            Some(element) => cur_is_node || !is_kind(token_kind_of(element), TokenKind::LCurly),
            None => false,
        };
        if cur_is_node {
            let mut inner: Vec<Document> = Vec::new();
            if breaks {
                inner.push(Document::SoftLineOrSpace);
            }
            inner.push(document);
            let wrapped = Document::Indent(Box::new(Document::Sequence(inner)));
            proof {
                lemma_sequence_view(inner);
                if breaks {
                    assert(documents_view(inner@) =~= seq![Doc::SoftLineOrSpace, doc]);
                } else {
                    assert(documents_view(inner@) =~= seq![doc]);
                }
                lemma_documents_view_push(parts@, wrapped);
            }
            parts.push(wrapped);
            proof {
                assert(documents_view(parts@) =~= before + seq![wrapped@]);
            }
        } else {
            if breaks {
                proof {
                    lemma_documents_view_push(parts@, Document::SoftLineOrSpace);
                }
                parts.push(Document::SoftLineOrSpace);
                proof {
                    lemma_documents_view_push(parts@, document);
                }
                parts.push(document);
                proof {
                    assert(documents_view(parts@) =~= before + seq![Doc::SoftLineOrSpace, doc]);
                }
            } else {
                proof {
                    lemma_documents_view_push(parts@, document);
                }
                parts.push(document);
                proof {
                    assert(documents_view(parts@) =~= before + seq![doc]);
                }
            }
        }
    } else {
        let spaced: bool = match prev {
            Some(element) => needs_space(parent, element, cur),
            None => false,
        };
        if spaced {
            proof {
                lemma_documents_view_push(parts@, Document::Space);
            }
            parts.push(Document::Space);
            proof {
                lemma_documents_view_push(parts@, document);
            }
            parts.push(document);
            proof {
                assert(documents_view(parts@) =~= before + seq![Doc::Space, doc]);
            }
        } else {
            proof {
                lemma_documents_view_push(parts@, document);
            }
            parts.push(document);
            proof {
                assert(documents_view(parts@) =~= before + seq![doc]);
            }
        }
    }
}

fn copy_bytes(bytes: &Vec<u8>) -> (copy: Vec<u8>)
    ensures
        copy@ == bytes@,
{
    let mut copy: Vec<u8> = Vec::new();
    crate::tree::write_bytes(&mut copy, bytes);
    proof {
        assert(Seq::<u8>::empty() + bytes@ =~= bytes@);
    }
    copy
}

/// Appends to `parts` the documents of the tokens of `element` as they
/// stood.
fn push_raw(parts: &mut Vec<Document>, element: &SyntaxElement, offset: usize, bare: bool) -> (still:
    bool)
    requires
        element.wf(),
        offset + element@.text().len() <= usize::MAX,
    ensures
        documents_view(final(parts)@) == documents_view(old(parts)@) + raw_docs(
            element@,
            offset as int,
            bare,
        ),
        still == (bare && leaves(element@).len() == 0),
    decreases element, 1int,
{
    match element {
        SyntaxElement::Token(token) => {
            let ghost before = documents_view(parts@);
            proof {
                assert(tree_text(element@).len() == token.leading@.len() + token.text@.len());
            }
            if !bare {
                let lead = Document::Text { bytes: copy_bytes(&token.leading), source: offset };
                proof {
                    lemma_documents_view_push(parts@, lead);
                }
                parts.push(lead);
            }
            let own = Document::Text {
                bytes: copy_bytes(&token.text),
                source: offset + token.leading.len(),
            };
            proof {
                lemma_documents_view_push(parts@, own);
            }
            parts.push(own);
            proof {
                assert(documents_view(parts@) =~= before + raw_docs(
                    element@,
                    offset as int,
                    bare,
                ));
            }
            false
        },
        SyntaxElement::Node(node) => {
            proof {
                lemma_node_view(*node);
            }
            push_raw_children(parts, node, offset, bare)
        },
    }
}

/// Appends to `parts` the documents of the tokens under `node` as they
/// stood.
fn push_raw_children(parts: &mut Vec<Document>, node: &SyntaxNode, offset: usize, bare: bool) -> (still:
    bool)
    requires
        node.wf(),
        offset + node@.text().len() <= usize::MAX,
    ensures
        documents_view(final(parts)@) == documents_view(old(parts)@) + raw_children_docs(
            forest_view(node.children@),
            node.children@.len() as int,
            offset as int,
            bare,
        ),
        still == (bare && forest_leaves(
            forest_view(node.children@),
            node.children@.len() as int,
        ).len() == 0),
    decreases node, 0int,
{
    proof {
        lemma_node_view(*node);
    }
    let ghost trees = forest_view(node.children@);
    let ghost before = documents_view(parts@);
    let mut at: usize = offset;
    let mut i: usize = 0;
    let mut still: bool = bare;
    proof {
        assert(trees.take(0) =~= Seq::<Tree>::empty());
        assert(before + Seq::<Doc>::empty() =~= before);
    }
    while i < node.children.len()
        invariant
            i <= node.children@.len(),
            node.wf(),
            trees == forest_view(node.children@),
            trees.len() == node.children@.len(),
            offset + forest_text(trees).len() <= usize::MAX,
            at == offset + forest_text(trees.take(i as int)).len(),
            still == (bare && forest_leaves(trees, i as int).len() == 0),
            documents_view(parts@) == before + raw_children_docs(
                trees,
                i as int,
                offset as int,
                bare,
            ),
        decreases node.children@.len() - i,
    {
        let child = &node.children[i];
        let ghost so_far = raw_children_docs(trees, i as int, offset as int, bare);
        proof {
            lemma_forest_prefix(trees, i as int);
            lemma_forest_prefix(trees, i + 1);
            assert(trees[i as int] == child@);
            assert(element_wf(node.children@[i as int]));
            assert(decreases_to!(*node => node.children));
            assert(decreases_to!(node.children => node.children@[i as int]));
        }
        let ghost first = still;
        still = push_raw(parts, child, at, still);
        proof {
            let added = raw_docs(child@, at as int, first);
            assert((before + so_far) + added =~= before + (so_far + added));
        }
        at = at + child.text_len();
        i = i + 1;
    }
    still
}

/// The document of the token or node `element`, which starts at `offset`
/// of the source.
pub fn element_document(element: &SyntaxElement, offset: usize) -> (document: Document)
    requires
        element.wf(),
        offset + element@.text().len() <= usize::MAX,
    ensures
        document@ == tree_doc(element@, offset as int),
    decreases element, 1int,
{
    match element {
        SyntaxElement::Token(token) => {
            let mut bytes: Vec<u8> = Vec::new();
            crate::tree::write_bytes(&mut bytes, &token.text);
            proof {
                assert(Seq::<u8>::empty() + token.text@ =~= token.text@);
                assert(tree_text(element@).len() == token.leading@.len() + token.text@.len());
            }
            Document::Text { bytes, source: offset + token.leading.len() }
        },
        SyntaxElement::Node(node) => node_document(node, offset),
    }
}

/// The document of `node`, which starts at `offset` of the source.
pub fn node_document(node: &SyntaxNode, offset: usize) -> (document: Document)
    requires
        node.wf(),
        offset + node@.text().len() <= usize::MAX,
    ensures
        document@ == tree_doc(node@, offset as int),
    decreases node, 0int,
{
    proof {
        lemma_node_view(*node);
        lemma_trivia_len(node@);
    }
    let ghost trees = forest_view(node.children@);
    if node.kind.is_bogus() {
        let mut parts: Vec<Document> = Vec::new();
        proof {
            assert(documents_view(parts@) =~= Seq::<Doc>::empty());
            assert(Seq::<Doc>::empty() + raw_children_docs(
                trees,
                trees.len() as int,
                offset as int,
                true,
            ) =~= raw_children_docs(trees, trees.len() as int, offset as int, true));
        }
        let _ = push_raw_children(&mut parts, node, offset, true);
        proof {
            lemma_sequence_view(parts);
        }
        return Document::Sequence(parts);
    }
    let mut parts: Vec<Document> = Vec::new();
    let mut at: usize = offset;
    let mut i: usize = 0;
    proof {
        assert(trees.take(0) =~= Seq::<Tree>::empty());
        assert(documents_view(parts@) =~= Seq::<Doc>::empty());
    }
    while i < node.children.len()
        invariant
            i <= node.children@.len(),
            node.wf(),
            trees == forest_view(node.children@),
            trees.len() == node.children@.len(),
            node@ == (Tree::Node { kind: node.kind, children: trees }),
            offset + forest_text(trees).len() <= usize::MAX,
            at == offset + forest_text(trees.take(i as int)).len(),
            documents_view(parts@) == children_docs(node.kind, trees, i as int, offset as int),
        decreases node.children@.len() - i,
    {
        let child = &node.children[i];
        proof {
            lemma_forest_prefix(trees, i as int);
            lemma_forest_prefix(trees, i + 1);
            assert(trees[i as int] == child@);
            assert(element_wf(node.children@[i as int]));
            assert(decreases_to!(*node => node.children));
            assert(decreases_to!(node.children => node.children@[i as int]));
            if i >= 1 {
                assert(trees[i - 1] == node.children@[i - 1]@);
            }
        }
        let document = element_document(child, at);
        let prev: Option<&SyntaxElement> = if i >= 1 {
            Some(&node.children[i - 1])
        } else {
            None
        };
        push_child(&mut parts, node.kind, prev, child, document);
        at = at + child.text_len();
        i = i + 1;
    }
    proof {
        lemma_sequence_view(parts);
    }
    let sequence = Document::Sequence(parts);
    if node.kind == NodeKind::Block {
        Document::Group(Box::new(sequence))
    } else {
        sequence
    }
}

/// The document of a whole tree.
pub open spec fn document_of(tree: Tree) -> Doc {
    tree_doc(tree, 0)
}

/// What formatting `tree` under `options` gives.
pub open spec fn formatted(tree: Tree, options: FormatOptions) -> Printing {
    printed(document_of(tree), options)
}

/// Whether the two trees are formatted alike: they hold the same tokens
/// in the same shape, each written alike, and where the layout asks
/// whether tokens stand apart the answer is the same. Under an
/// unrecognized node, which is written as it stood, the trivia between
/// the tokens is written alike too.
pub open spec fn reads_alike(a: Tree, b: Tree, options: FormatOptions) -> bool
    decreases a, 0int,
{
    match a {
        Tree::Leaf { token, text, .. } => {
            &&& b is Leaf
            &&& b->token == token
            &&& same_text(text, b->text, options)
        },
        Tree::Node { kind, children } => {
            &&& b is Node
            &&& b->kind == kind
            &&& if kind.is_bogus() {
                raw_alike_children(children, b->children, children.len() as int, true, options)
            } else {
                children_alike(kind, children, b->children, children.len() as int, options)
            }
        },
    }
}

/// Whether the first `count` children of two nodes of kind `parent` are
/// formatted alike.
pub open spec fn children_alike(
    parent: NodeKind,
    xs: Seq<Tree>,
    ys: Seq<Tree>,
    count: int,
    options: FormatOptions,
) -> bool
    decreases xs, count,
{
    &&& xs.len() == ys.len()
    &&& count <= 0 || count > xs.len() || {
        &&& children_alike(parent, xs, ys, count - 1, options)
        &&& reads_alike(xs[count - 1], ys[count - 1], options)
        &&& count >= 2 && parent != NodeKind::Root && parent != NodeKind::Block ==> space_between(
            parent,
            xs[count - 2],
            xs[count - 1],
        ) == space_between(parent, ys[count - 2], ys[count - 1])
    }
}

/// Whether the tokens of two trees are written alike as they stood.
pub open spec fn raw_alike(a: Tree, b: Tree, bare: bool, options: FormatOptions) -> bool
    decreases a, 0int,
{
    match a {
        Tree::Leaf { token, leading, text } => {
            &&& b is Leaf
            &&& b->token == token
            &&& same_text(text, b->text, options)
            &&& bare || same_text(leading, b->leading, options)
        },
        Tree::Node { kind, children } => {
            &&& b is Node
            &&& b->kind == kind
            &&& raw_alike_children(children, b->children, children.len() as int, bare, options)
        },
    }
}

/// Whether the tokens of the first `count` of two sequences of trees are
/// written alike as they stood.
pub open spec fn raw_alike_children(
    xs: Seq<Tree>,
    ys: Seq<Tree>,
    count: int,
    bare: bool,
    options: FormatOptions,
) -> bool
    decreases xs, count,
{
    &&& xs.len() == ys.len()
    &&& count <= 0 || count > xs.len() || {
        &&& raw_alike_children(xs, ys, count - 1, bare, options)
        &&& forest_leaves(xs, count - 1).len() == forest_leaves(ys, count - 1).len()
        &&& raw_alike(
            xs[count - 1],
            ys[count - 1],
            bare && forest_leaves(xs, count - 1).len() == 0,
            options,
        )
    }
}

/// Texts that are written alike are empty together.
pub proof fn lemma_same_text_empty(x: Seq<u8>, y: Seq<u8>, options: FormatOptions)
    requires
        same_text(x, y, options),
    ensures
        (x.len() == 0) == (y.len() == 0),
{
    if has_line_break(x) {
        let i = choose|i: int| 0 <= i < x.len() && is_line_break(#[trigger] x[i]);
        let j = choose|j: int| 0 <= j < y.len() && is_line_break(#[trigger] y[j]);
    }
}

/// Trees that are written alike as they stood end alike, and so do trees
/// that are formatted alike.
pub proof fn lemma_raw_alike_ends(a: Tree, b: Tree, bare: bool, options: FormatOptions)
    requires
        raw_alike(a, b, bare, options),
    ensures
        ends_open(a) == ends_open(b),
    decreases a,
{
    match a {
        Tree::Leaf { .. } => {},
        Tree::Node { kind, children } => {
            let others = b->children;
            let n = children.len() as int;
            if n > 0 {
                let first = bare && forest_leaves(children, n - 1).len() == 0;
                assert(raw_alike(children[n - 1], others[n - 1], first, options));
                lemma_raw_alike_ends(children.last(), others.last(), first, options);
            }
        },
    }
}

pub proof fn lemma_reads_alike_ends(a: Tree, b: Tree, options: FormatOptions)
    requires
        reads_alike(a, b, options),
    ensures
        ends_open(a) == ends_open(b),
        leaf_kind(a) == leaf_kind(b),
        a is Node == b is Node,
        (a is Leaf && a->text.len() == 0) == (b is Leaf && b->text.len() == 0),
    decreases a,
{
    match a {
        Tree::Leaf { text, .. } => {
            lemma_same_text_empty(text, b->text, options);
        },
        Tree::Node { kind, children } => {
            let others = b->children;
            let n = children.len() as int;
            if kind.is_bogus() {
                if n > 0 {
                    let first = forest_leaves(children, n - 1).len() == 0;
                    assert(raw_alike(children[n - 1], others[n - 1], first, options));
                    lemma_raw_alike_ends(children.last(), others.last(), first, options);
                }
            } else {
                if n > 0 {
                    assert(reads_alike(children[n - 1], others[n - 1], options));
                    lemma_reads_alike_ends(children.last(), others.last(), options);
                }
            }
        },
    }
}

/// Trees that are written alike as they stood have documents that lay out
/// the same.
pub proof fn lemma_raw_alike_docs(
    a: Tree,
    b: Tree,
    at_a: int,
    at_b: int,
    bare: bool,
    options: FormatOptions,
)
    requires
        raw_alike(a, b, bare, options),
    ensures
        same_layouts(raw_docs(a, at_a, bare), raw_docs(b, at_b, bare), options),
    decreases a, 0int,
{
    match a {
        Tree::Leaf { .. } => {},
        Tree::Node { children, .. } => {
            lemma_raw_alike_children_docs(
                children,
                b->children,
                children.len() as int,
                at_a,
                at_b,
                bare,
                options,
            );
        },
    }
}

pub proof fn lemma_raw_alike_children_docs(
    xs: Seq<Tree>,
    ys: Seq<Tree>,
    count: int,
    at_a: int,
    at_b: int,
    bare: bool,
    options: FormatOptions,
)
    requires
        raw_alike_children(xs, ys, count, bare, options),
        0 <= count <= xs.len(),
    ensures
        same_layouts(
            raw_children_docs(xs, count, at_a, bare),
            raw_children_docs(ys, count, at_b, bare),
            options,
        ),
    decreases xs, count,
{
    if count > 0 {
        lemma_raw_alike_children_docs(xs, ys, count - 1, at_a, at_b, bare, options);
        let oa = at_a + forest_text(xs.take(count - 1)).len();
        let ob = at_b + forest_text(ys.take(count - 1)).len();
        let first = bare && forest_leaves(xs, count - 1).len() == 0;
        lemma_raw_alike_docs(xs[count - 1], ys[count - 1], oa, ob, first, options);
        lemma_same_layouts_concat(
            raw_children_docs(xs, count - 1, at_a, bare),
            raw_children_docs(ys, count - 1, at_b, bare),
            raw_docs(xs[count - 1], oa, first),
            raw_docs(ys[count - 1], ob, first),
            options,
        );
    }
}

/// Trees that are formatted alike have documents that lay out the same.
pub proof fn lemma_reads_alike_doc(a: Tree, b: Tree, at_a: int, at_b: int, options: FormatOptions)
    requires
        reads_alike(a, b, options),
    ensures
        same_layout(tree_doc(a, at_a), tree_doc(b, at_b), options),
    decreases a, 0int,
{
    match a {
        Tree::Leaf { .. } => {},
        Tree::Node { kind, children } => {
            let others = b->children;
            if kind.is_bogus() {
                lemma_raw_alike_children_docs(
                    children,
                    others,
                    children.len() as int,
                    at_a,
                    at_b,
                    true,
                    options,
                );
                let xs = raw_children_docs(children, children.len() as int, at_a, true);
                let ys = raw_children_docs(others, others.len() as int, at_b, true);
                assert(same_layout(Doc::Sequence(xs), Doc::Sequence(ys), options));
            } else {
                lemma_children_alike_docs(
                    kind,
                    children,
                    others,
                    children.len() as int,
                    at_a,
                    at_b,
                    options,
                );
                let xs = children_docs(kind, children, children.len() as int, at_a);
                let ys = children_docs(kind, others, others.len() as int, at_b);
                assert(same_layouts(xs, ys, options));
                assert(same_layout(Doc::Sequence(xs), Doc::Sequence(ys), options));
                if kind == NodeKind::Block {
                    assert(same_layout(
                        Doc::Group(Box::new(Doc::Sequence(xs))),
                        Doc::Group(Box::new(Doc::Sequence(ys))),
                        options,
                    ));
                }
            }
        },
    }
}

pub proof fn lemma_children_alike_docs(
    parent: NodeKind,
    xs: Seq<Tree>,
    ys: Seq<Tree>,
    count: int,
    at_a: int,
    at_b: int,
    options: FormatOptions,
)
    requires
        children_alike(parent, xs, ys, count, options),
        0 <= count <= xs.len(),
    ensures
        same_layouts(
            children_docs(parent, xs, count, at_a),
            children_docs(parent, ys, count, at_b),
            options,
        ),
    decreases xs, count,
{
    if count > 0 {
        lemma_children_alike_docs(parent, xs, ys, count - 1, at_a, at_b, options);
        let cur_a = xs[count - 1];
        let cur_b = ys[count - 1];
        assert(reads_alike(cur_a, cur_b, options));
        lemma_reads_alike_ends(cur_a, cur_b, options);
        let oa = at_a + forest_text(xs.take(count - 1)).len();
        let ob = at_b + forest_text(ys.take(count - 1)).len();
        lemma_reads_alike_doc(cur_a, cur_b, oa, ob, options);
        let doc_a = tree_doc(cur_a, oa);
        let doc_b = tree_doc(cur_b, ob);
        let prev_a = if count >= 2 {
            Some(xs[count - 2])
        } else {
            None
        };
        let prev_b = if count >= 2 {
            Some(ys[count - 2])
        } else {
            None
        };
        if count >= 2 {
            assert(children_alike(parent, xs, ys, count - 1, options));
            assert(reads_alike(xs[count - 2], ys[count - 2], options));
            lemma_reads_alike_ends(xs[count - 2], ys[count - 2], options);
        }
        let added_a = child_docs(parent, prev_a, cur_a, doc_a);
        let added_b = child_docs(parent, prev_b, cur_b, doc_b);
        let soft_a = seq![Doc::SoftLineOrSpace, doc_a];
        let soft_b = seq![Doc::SoftLineOrSpace, doc_b];
        assert(same_layouts(soft_a, soft_b, options));
        assert(same_layouts(seq![doc_a], seq![doc_b], options));
        assert(same_layout(Doc::Sequence(soft_a), Doc::Sequence(soft_b), options));
        assert(same_layout(Doc::Sequence(seq![doc_a]), Doc::Sequence(seq![doc_b]), options));
        let wrapped_a = Doc::Indent(Box::new(Doc::Sequence(soft_a)));
        let wrapped_b = Doc::Indent(Box::new(Doc::Sequence(soft_b)));
        let held_a = Doc::Indent(Box::new(Doc::Sequence(seq![doc_a])));
        let held_b = Doc::Indent(Box::new(Doc::Sequence(seq![doc_b])));
        assert(same_layout(wrapped_a, wrapped_b, options));
        assert(same_layout(held_a, held_b, options));
        assert(same_layouts(seq![doc_a, Doc::HardLine], seq![doc_b, Doc::HardLine], options));
        assert(same_layouts(seq![Doc::Space, doc_a], seq![Doc::Space, doc_b], options));
        assert(same_layouts(seq![wrapped_a], seq![wrapped_b], options));
        assert(same_layouts(seq![held_a], seq![held_b], options));
        assert(block_breaks_before(prev_a, cur_a) == block_breaks_before(prev_b, cur_b));
        assert(same_layouts(added_a, added_b, options));
        lemma_same_layouts_concat(
            children_docs(parent, xs, count - 1, at_a),
            children_docs(parent, ys, count - 1, at_b),
            added_a,
            added_b,
            options,
        );
    }
}

/// Trees that are formatted alike are formatted to the same text.
pub proof fn lemma_formatted_alike(a: Tree, b: Tree, options: FormatOptions)
    requires
        reads_alike(a, b, options),
    ensures
        formatted(a, options).out == formatted(b, options).out,
{
    lemma_reads_alike_doc(a, b, 0, 0, options);
    lemma_printed_alike(document_of(a), document_of(b), options);
}

/// Determinism: what formatting gives is a function of the tree and the
/// options. Two calls on equal trees under equal options give the same
/// bytes and the same markers.
pub proof fn lemma_format_deterministic(a: Tree, b: Tree, options_a: FormatOptions, options_b: FormatOptions)
    requires
        a == b,
        options_a == options_b,
    ensures
        formatted(a, options_a) == formatted(b, options_b),
{
}

/// Lays out `tree`. The document depends on the tree alone.
pub fn to_document(tree: &SyntaxNode) -> (document: Document)
    requires
        tree.wf(),
    ensures
        document@ == document_of(tree@),
{
    node_document(tree, 0)
}

/// Formats `tree` under `options`: lays it out and prints the layout. The
/// result is fixed by the tree and the options. A tree that is not well
/// formed is refused; a tree that parsing gave always is well formed.
pub fn format_node(options: &FormatOptions, tree: &SyntaxNode) -> (r: Result<Formatted, FormatError>)
    ensures
        tree.wf() ==> r is Ok && r->Ok_0.text@ == formatted(tree@, *options).out
            && r->Ok_0.markers@ == formatted(tree@, *options).markers,
        !tree.wf() ==> r == Err::<Formatted, FormatError>(FormatError::MalformedTree),
{
    if !tree.is_well_formed() {
        return Err(FormatError::MalformedTree);
    }
    let document = to_document(tree);
    Ok(print(&document, options))
}

} // verus!
