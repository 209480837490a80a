//! The syntax tree: nodes and tokens that together hold every byte of the
//! source, and its assembly from the event log.
use crate::kind::NodeKind;
use crate::kind::TokenKind;
use crate::parser::Event;
use vstd::prelude::*;
use vstd::slice::slice_subrange;
use vstd::slice::slice_to_vec;

verus! {

/// The mathematical tree that a syntax tree stands for.
pub enum Tree {
    /// A node and its children, in source order.
    Node { kind: NodeKind, children: Seq<Tree> },
    /// A token: the blanks and line breaks in front of it, and its own text.
    Leaf { token: TokenKind, leading: Seq<u8>, text: Seq<u8> },
}

/// The source text that `tree` covers: the bytes of its leaves, in order.
pub open spec fn tree_text(tree: Tree) -> Seq<u8>
    decreases tree,
{
    match tree {
        Tree::Leaf { leading, text, .. } => leading + text,
        Tree::Node { children, .. } => forest_text(children),
    }
}

/// The source text that a sequence of trees covers.
pub open spec fn forest_text(forest: Seq<Tree>) -> Seq<u8>
    decreases forest,
{
    if forest.len() == 0 {
        Seq::empty()
    } else {
        forest_text(forest.drop_last()) + tree_text(forest.last())
    }
}

impl Tree {
    pub open spec fn text(self) -> Seq<u8> {
        tree_text(self)
    }
}

pub proof fn lemma_forest_text_push(forest: Seq<Tree>, tree: Tree)
    ensures
        forest_text(forest.push(tree)) == forest_text(forest) + tree_text(tree),
{
    assert(forest.push(tree).drop_last() =~= forest);
}

pub proof fn lemma_forest_text_concat(a: Seq<Tree>, b: Seq<Tree>)
    ensures
        forest_text(a + b) == forest_text(a) + forest_text(b),
    decreases b.len(),
{
    if b.len() == 0 {
        assert(a + b =~= a);
        assert(forest_text(a) + Seq::<u8>::empty() =~= forest_text(a));
    } else {
        lemma_forest_text_concat(a, b.drop_last());
        assert((a + b).drop_last() =~= a + b.drop_last());
        assert((a + b).last() == b.last());
        assert((forest_text(a) + forest_text(b.drop_last())) + tree_text(b.last()) =~= forest_text(
            a,
        ) + (forest_text(b.drop_last()) + tree_text(b.last())));
    }
}

/// The leaves of `tree`, in order.
pub open spec fn leaves(tree: Tree) -> Seq<Tree>
    decreases tree, 0int,
{
    match tree {
        Tree::Leaf { .. } => seq![tree],
        Tree::Node { children, .. } => forest_leaves(children, children.len() as int),
    }
}

/// The leaves of the first `count` trees of `forest`, in order.
pub open spec fn forest_leaves(forest: Seq<Tree>, count: int) -> Seq<Tree>
    decreases forest, count,
{
    if count <= 0 || count > forest.len() {
        Seq::empty()
    } else {
        forest_leaves(forest, count - 1) + leaves(forest[count - 1])
    }
}

pub proof fn lemma_forest_leaves_concat(a: Seq<Tree>, b: Seq<Tree>, count: int)
    requires
        0 <= count <= b.len(),
    ensures
        forest_leaves(a + b, a.len() + count) == forest_leaves(a, a.len() as int) + forest_leaves(
            b,
            count,
        ),
    decreases count,
{
    if count == 0 {
        lemma_forest_leaves_prefix(a + b, a, a.len() as int);
        assert(forest_leaves(a, a.len() as int) + Seq::<Tree>::empty() =~= forest_leaves(
            a,
            a.len() as int,
        ));
    } else {
        lemma_forest_leaves_concat(a, b, count - 1);
        assert((a + b)[a.len() + count - 1] == b[count - 1]);
        assert((forest_leaves(a, a.len() as int) + forest_leaves(b, count - 1)) + leaves(
            b[count - 1],
        ) =~= forest_leaves(a, a.len() as int) + (forest_leaves(b, count - 1) + leaves(
            b[count - 1],
        )));
    }
}

pub proof fn lemma_forest_leaves_prefix(w: Seq<Tree>, u: Seq<Tree>, count: int)
    requires
        0 <= count <= u.len() <= w.len(),
        forall|i: int| 0 <= i < count ==> w[i] == u[i],
    ensures
        forest_leaves(w, count) == forest_leaves(u, count),
    decreases count,
{
    if count > 0 {
        lemma_forest_leaves_prefix(w, u, count - 1);
    }
}

pub proof fn lemma_forest_leaves_one(tree: Tree)
    ensures
        forest_leaves(seq![tree], 1) == leaves(tree),
{
    assert(forest_leaves(seq![tree], 0) =~= Seq::<Tree>::empty());
    assert(Seq::<Tree>::empty() + leaves(tree) =~= leaves(tree));
}

/// The text of a tree is the text of its leaves.
pub proof fn lemma_leaves_text(tree: Tree)
    ensures
        forest_text(leaves(tree)) == tree_text(tree),
    decreases tree, 0int,
{
    match tree {
        Tree::Leaf { .. } => {
            lemma_forest_text_push(Seq::empty(), tree);
            assert(Seq::<Tree>::empty().push(tree) =~= seq![tree]);
            assert(forest_text(Seq::<Tree>::empty()) =~= Seq::<u8>::empty());
            assert(Seq::<u8>::empty() + tree_text(tree) =~= tree_text(tree));
        },
        Tree::Node { children, .. } => {
            lemma_forest_leaves_text(children, children.len() as int);
            assert(children.take(children.len() as int) =~= children);
        },
    }
}

pub proof fn lemma_forest_leaves_text(forest: Seq<Tree>, count: int)
    requires
        0 <= count <= forest.len(),
    ensures
        forest_text(forest_leaves(forest, count)) == forest_text(forest.take(count)),
    decreases forest, count,
{
    if count == 0 {
        assert(forest.take(0) =~= Seq::<Tree>::empty());
    } else {
        lemma_forest_leaves_text(forest, count - 1);
        lemma_leaves_text(forest[count - 1]);
        lemma_forest_text_concat(forest_leaves(forest, count - 1), leaves(forest[count - 1]));
        assert(forest.take(count) =~= forest.take(count - 1).push(forest[count - 1]));
        lemma_forest_text_push(forest.take(count - 1), forest[count - 1]);
    }
}

/// A token of the tree. It owns its bytes: the trivia in front of it and
/// its own text.
#[derive(Debug, PartialEq, Eq)]
pub struct SyntaxToken {
    pub kind: TokenKind,
    pub leading: Vec<u8>,
    pub text: Vec<u8>,
}

/// A child of a node.
#[derive(Debug, PartialEq, Eq)]
pub enum SyntaxElement {
    Node(SyntaxNode),
    Token(SyntaxToken),
}

/// A node of the tree. `len` is the number of source bytes under it.
#[derive(Debug, PartialEq, Eq)]
pub struct SyntaxNode {
    pub kind: NodeKind,
    pub children: Vec<SyntaxElement>,
    pub len: usize,
}

/// The tree that `element` stands for.
pub open spec fn element_view(element: SyntaxElement) -> Tree
    decreases element,
{
    match element {
        SyntaxElement::Token(token) => Tree::Leaf {
            token: token.kind,
            leading: token.leading@,
            text: token.text@,
        },
        SyntaxElement::Node(node) => Tree::Node {
            kind: node.kind,
            children: Seq::new(
                node.children@.len(),
                |i: int|
                    if 0 <= i < node.children@.len() {
                        element_view(node.children@[i])
                    } else {
                        Tree::Node { kind: NodeKind::Tombstone, children: Seq::empty() }
                    },
            ),
        },
    }
}

/// The trees that `elements` stand for.
pub open spec fn forest_view(elements: Seq<SyntaxElement>) -> Seq<Tree> {
    Seq::new(elements.len(), |i: int| element_view(elements[i]))
}

/// Every node under `element` records its true length, and no token is
/// longer than a machine word can say.
pub open spec fn element_wf(element: SyntaxElement) -> bool
    decreases element,
{
    match element {
        SyntaxElement::Token(token) => token.leading@.len() + token.text@.len() <= usize::MAX,
        SyntaxElement::Node(node) => {
            &&& node.len == tree_text(element_view(element)).len()
            &&& forall|i: int|
                0 <= i < node.children@.len() ==> element_wf(#[trigger] node.children@[i])
        },
    }
}

impl View for SyntaxToken {
    type V = Tree;

    open spec fn view(&self) -> Tree {
        element_view(SyntaxElement::Token(*self))
    }
}

impl View for SyntaxElement {
    type V = Tree;

    open spec fn view(&self) -> Tree {
        element_view(*self)
    }
}

impl View for SyntaxNode {
    type V = Tree;

    open spec fn view(&self) -> Tree {
        element_view(SyntaxElement::Node(*self))
    }
}

pub proof fn lemma_node_view(node: SyntaxNode)
    ensures
        node@ == (Tree::Node { kind: node.kind, children: forest_view(node.children@) }),
        tree_text(node@) == forest_text(forest_view(node.children@)),
{
    assert(node@->children =~= forest_view(node.children@));
}

pub proof fn lemma_forest_view_push(elements: Seq<SyntaxElement>, element: SyntaxElement)
    ensures
        forest_view(elements.push(element)) == forest_view(elements).push(element_view(element)),
{
    assert(forest_view(elements.push(element)) =~= forest_view(elements).push(
        element_view(element),
    ));
}

impl SyntaxToken {
    pub open spec fn wf(&self) -> bool {
        element_wf(SyntaxElement::Token(*self))
    }

    /// The number of source bytes of the token, its leading trivia included.
    pub fn text_len(&self) -> (len: usize)
        requires
            self.wf(),
        ensures
            len == self@.text().len(),
    {
        self.leading.len() + self.text.len()
    }
}

impl SyntaxElement {
    pub open spec fn wf(&self) -> bool {
        element_wf(*self)
    }

    /// The number of source bytes under the element.
    pub fn text_len(&self) -> (len: usize)
        requires
            self.wf(),
        ensures
            len == self@.text().len(),
    {
        match self {
            SyntaxElement::Token(token) => token.text_len(),
            SyntaxElement::Node(node) => node.text_len(),
        }
    }
}

impl SyntaxNode {
    pub open spec fn wf(&self) -> bool {
        element_wf(SyntaxElement::Node(*self))
    }

    pub fn kind(&self) -> (kind: NodeKind)
        ensures
            kind == self.kind,
    {
        self.kind
    }

    /// Whether every node at or under this one records its true length.
    pub fn is_well_formed(&self) -> (r: bool)
        ensures
            r == self.wf(),
    {
        let mut sum: usize = 0;
        let mut i: usize = 0;
        let ghost trees = forest_view(self.children@);
        proof {
            lemma_node_view(*self);
            assert(trees.take(0) =~= Seq::<Tree>::empty());
        }
        while i < self.children.len()
            invariant
                i <= self.children@.len(),
                trees == forest_view(self.children@),
                tree_text(self@) == forest_text(trees),
                sum == forest_text(trees.take(i as int)).len(),
                forall|k: int| 0 <= k < i ==> element_wf(#[trigger] self.children@[k]),
            decreases self.children@.len() - i,
        {
            proof {
                assert(trees[i as int] == self.children@[i as int]@);
                assert(trees.take(i + 1) =~= trees.take(i as int).push(trees[i as int]));
                lemma_forest_text_push(trees.take(i as int), trees[i as int]);
                assert(trees =~= trees.take(i + 1) + trees.skip(i + 1));
                lemma_forest_text_concat(trees.take(i + 1), trees.skip(i + 1));
            }
            match checked_len(&self.children[i]) {
                None => {
                    return false;
                },
                Some(len) => {
                    if sum > usize::MAX - len {
                        return false;
                    }
                    sum = sum + len;
                },
            }
            i = i + 1;
        }
        proof {
            assert(trees.take(i as int) =~= trees);
        }
        sum == self.len
    }

    /// The number of source bytes under the node.
    pub fn text_len(&self) -> (len: usize)
        requires
            self.wf(),
        ensures
            len == self@.text().len(),
    {
        self.len
    }

    /// Appends the source text under the node to `out`.
    pub fn write_text(&self, out: &mut Vec<u8>)
        ensures
            final(out)@ == old(out)@ + self@.text(),
        decreases *self,
    {
        let ghost before = out@;
        let mut i: usize = 0;
        proof {
            lemma_node_view(*self);
            assert(before + forest_text(forest_view(self.children@.take(0))) =~= before);
        }
        while i < self.children.len()
            invariant
                i <= self.children@.len(),
                out@ == before + forest_text(forest_view(self.children@.take(i as int))),
            decreases self.children@.len() - i,
        {
            let ghost so_far = out@;
            let ghost done = forest_view(self.children@.take(i as int));
            match &self.children[i] {
                SyntaxElement::Token(token) => {
                    write_bytes(out, &token.leading);
                    write_bytes(out, &token.text);
                },
                SyntaxElement::Node(node) => {
                    node.write_text(out);
                },
            }
            proof {
                let child = self.children@[i as int];
                assert(self.children@.take(i + 1) =~= self.children@.take(i as int).push(child));
                lemma_forest_view_push(self.children@.take(i as int), child);
                lemma_forest_text_push(done, element_view(child));
                assert(out@ =~= so_far + tree_text(element_view(child)));
                assert(out@ =~= before + (forest_text(done) + tree_text(element_view(child))));
            }
            i = i + 1;
        }
        proof {
            assert(self.children@.take(i as int) =~= self.children@);
        }
    }

    /// The source text under the node.
    pub fn text(&self) -> (out: Vec<u8>)
        ensures
            out@ == self@.text(),
    {
        let mut out: Vec<u8> = Vec::new();
        self.write_text(&mut out);
        proof {
            assert(Seq::<u8>::empty() + self@.text() =~= self@.text());
        }
        out
    }
}

/// The length of the text under `element`, where the element is well
/// formed; `None` where it is not.
pub fn checked_len(element: &SyntaxElement) -> (r: Option<usize>)
    ensures
        r is Some == element.wf(),
        r matches Some(len) ==> len == element@.text().len(),
    decreases element,
{
    match element {
        SyntaxElement::Token(token) => {
            let a: usize = token.leading.len();
            let b: usize = token.text.len();
            if a > usize::MAX - b {
                None
            } else {
                Some(a + b)
            }
        },
        SyntaxElement::Node(node) => {
            let ghost trees = forest_view(node.children@);
            proof {
                lemma_node_view(*node);
                assert(trees.take(0) =~= Seq::<Tree>::empty());
            }
            let mut sum: usize = 0;
            let mut i: usize = 0;
            while i < node.children.len()
                invariant
                    i <= node.children@.len(),
                    *element == SyntaxElement::Node(*node),
                    trees == forest_view(node.children@),
                    tree_text(node@) == forest_text(trees),
                    sum == forest_text(trees.take(i as int)).len(),
                    forall|k: int| 0 <= k < i ==> element_wf(#[trigger] node.children@[k]),
                decreases node.children@.len() - i,
            {
                proof {
                    assert(decreases_to!(*element => element->Node_0));
                    assert(decreases_to!(*node => node.children));
                    assert(decreases_to!(node.children => node.children@[i as int]));
                    assert(trees[i as int] == node.children@[i as int]@);
                    assert(trees.take(i + 1) =~= trees.take(i as int).push(trees[i as int]));
                    lemma_forest_text_push(trees.take(i as int), trees[i as int]);
                    assert(trees =~= trees.take(i + 1) + trees.skip(i + 1));
                    lemma_forest_text_concat(trees.take(i + 1), trees.skip(i + 1));
                }
                match checked_len(&node.children[i]) {
                    None => {
                        return None;
                    },
                    Some(len) => {
                        if sum > usize::MAX - len {
                            return None;
                        }
                        sum = sum + len;
                    },
                }
                i = i + 1;
            }
            proof {
                assert(trees.take(i as int) =~= trees);
            }
            if sum == node.len {
                Some(sum)
            } else {
                None
            }
        },
    }
}

/// Appends `bytes` to `out`.
pub fn write_bytes(out: &mut Vec<u8>, bytes: &Vec<u8>)
    ensures
        final(out)@ == old(out)@ + bytes@,
{
    let ghost before = out@;
    let mut i: usize = 0;
    proof {
        assert(before + bytes@.take(0) =~= before);
    }
    while i < bytes.len()
        invariant
            i <= bytes@.len(),
            out@ == before + bytes@.take(i as int),
        decreases bytes@.len() - i,
    {
        out.push(bytes[i]);
        proof {
            assert(bytes@.take(i + 1) =~= bytes@.take(i as int).push(bytes@[i as int]));
            assert(out@ =~= before + bytes@.take(i + 1));
        }
        i = i + 1;
    }
    proof {
        assert(bytes@.take(i as int) =~= bytes@);
    }
}

/// What assembling a stretch of the log gives: the trees, the index of the
/// first event behind the stretch, and the text position reached.
pub struct Built {
    pub forest: Seq<Tree>,
    pub next: int,
    pub at: int,
}

pub open spec fn clamp(value: int, low: int, high: int) -> int {
    if value < low {
        low
    } else if value > high {
        high
    } else {
        value
    }
}

/// The leaf of a token event whose own text is `start..end`, when the text
/// has been handed out up to `at`: the bytes from `at` to `start` are its
/// leading trivia. Positions that do not fit are moved to the nearest that
/// do, so that no byte is handed out twice or left out.
pub open spec fn leaf_at(text: Seq<u8>, at: int, token: TokenKind, start: int, end: int) -> Tree {
    let from = clamp(start, at, text.len() as int);
    let to = clamp(end, from, text.len() as int);
    Tree::Leaf { token, leading: text.subrange(at, from), text: text.subrange(from, to) }
}

/// The text position behind the leaf that [`leaf_at`] makes.
pub open spec fn leaf_end(text: Seq<u8>, at: int, start: int, end: int) -> int {
    clamp(end, clamp(start, at, text.len() as int), text.len() as int)
}

/// Assembles the siblings that start with the event at `i`, up to the
/// `Finish` that closes their parent or to the end of the log.
pub open spec fn build(events: Seq<Event>, text: Seq<u8>, i: int, at: int) -> Built
    decreases events.len() - i,
{
    if i < 0 || i >= events.len() {
        Built { forest: Seq::empty(), next: i, at }
    } else {
        match events[i] {
            Event::Finish => Built { forest: Seq::empty(), next: i + 1, at },
            Event::Token { kind, start, end } => {
                let rest = build(events, text, i + 1, leaf_end(text, at, start as int, end as int));
                Built {
                    forest: seq![leaf_at(text, at, kind, start as int, end as int)] + rest.forest,
                    next: rest.next,
                    at: rest.at,
                }
            },
            Event::Start { kind } => {
                let inner = build(events, text, i + 1, at);
                let node = Tree::Node { kind, children: inner.forest };
                if i < inner.next <= events.len() {
                    let rest = build(events, text, inner.next, inner.at);
                    Built { forest: seq![node] + rest.forest, next: rest.next, at: rest.at }
                } else {
                    Built { forest: seq![node], next: inner.next, at: inner.at }
                }
            },
        }
    }
}

/// The tree of a log over `text`. Text that the log leaves uncovered is
/// kept in a last leaf, and a log that does not hold exactly one node is
/// gathered under a root, so that the tree covers `text` whatever the log.
pub open spec fn tree_of(events: Seq<Event>, text: Seq<u8>) -> Tree {
    let built = build(events, text, 0, 0);
    let forest = if built.at < text.len() {
        built.forest.push(
            Tree::Leaf {
                token: TokenKind::Eof,
                leading: text.subrange(built.at, text.len() as int),
                text: Seq::empty(),
            },
        )
    } else {
        built.forest
    };
    if forest.len() == 1 && forest[0] is Node {
        forest[0]
    } else {
        Tree::Node { kind: NodeKind::Root, children: forest }
    }
}

/// The trees of a stretch of the log cover the text from where the stretch
/// began to where it ended, byte for byte.
pub proof fn lemma_build_text(events: Seq<Event>, text: Seq<u8>, i: int, at: int)
    requires
        0 <= i,
        0 <= at <= text.len(),
    ensures
        at <= build(events, text, i, at).at <= text.len(),
        i <= build(events, text, i, at).next,
        i <= events.len() ==> build(events, text, i, at).next <= events.len(),
        forest_text(build(events, text, i, at).forest) == text.subrange(
            at,
            build(events, text, i, at).at,
        ),
    decreases events.len() - i,
{
    let built = build(events, text, i, at);
    if i >= events.len() {
        assert(text.subrange(at, at) =~= Seq::<u8>::empty());
    } else {
        match events[i] {
            Event::Finish => {
                assert(text.subrange(at, at) =~= Seq::<u8>::empty());
            },
            Event::Token { kind, start, end } => {
                let leaf = leaf_at(text, at, kind, start as int, end as int);
                let to = leaf_end(text, at, start as int, end as int);
                let rest = build(events, text, i + 1, to);
                lemma_build_text(events, text, i + 1, to);
                lemma_forest_text_concat(seq![leaf], rest.forest);
                lemma_forest_text_push(Seq::empty(), leaf);
                assert(Seq::<Tree>::empty().push(leaf) =~= seq![leaf]);
                assert(tree_text(leaf) =~= text.subrange(at, to));
                assert(forest_text(seq![leaf]) =~= text.subrange(at, to));
                assert(text.subrange(at, to) + text.subrange(to, rest.at) =~= text.subrange(
                    at,
                    rest.at,
                ));
            },
            Event::Start { kind } => {
                let inner = build(events, text, i + 1, at);
                let node = Tree::Node { kind, children: inner.forest };
                lemma_build_text(events, text, i + 1, at);
                lemma_forest_text_push(Seq::empty(), node);
                assert(Seq::<Tree>::empty().push(node) =~= seq![node]);
                assert(forest_text(seq![node]) =~= text.subrange(at, inner.at));
                if i < inner.next <= events.len() {
                    let rest = build(events, text, inner.next, inner.at);
                    lemma_build_text(events, text, inner.next, inner.at);
                    lemma_forest_text_concat(seq![node], rest.forest);
                    assert(text.subrange(at, inner.at) + text.subrange(inner.at, rest.at)
                        =~= text.subrange(at, rest.at));
                }
            },
        }
    }
}

/// The tree of any log over `text` covers exactly `text`.
pub proof fn lemma_tree_of_text(events: Seq<Event>, text: Seq<u8>)
    ensures
        tree_of(events, text).text() == text,
{
    let built = build(events, text, 0, 0);
    lemma_build_text(events, text, 0, 0);
    let last = Tree::Leaf {
        token: TokenKind::Eof,
        leading: text.subrange(built.at, text.len() as int),
        text: Seq::empty(),
    };
    let forest = if built.at < text.len() {
        built.forest.push(last)
    } else {
        built.forest
    };
    if built.at < text.len() {
        lemma_forest_text_push(built.forest, last);
        assert(tree_text(last) =~= text.subrange(built.at, text.len() as int));
        assert(text.subrange(0, built.at) + text.subrange(built.at, text.len() as int) =~= text);
    } else {
        assert(text.subrange(0, built.at) =~= text);
    }
    assert(forest_text(forest) == text);
    if forest.len() == 1 && forest[0] is Node {
        assert(forest.drop_last() =~= Seq::<Tree>::empty());
        assert(forest_text(forest.drop_last()) == Seq::<u8>::empty());
        assert(forest.last() == forest[0]);
        assert(Seq::<u8>::empty() + tree_text(forest[0]) =~= tree_text(forest[0]));
        assert(tree_of(events, text) == forest[0]);
    } else {
        assert(tree_of(events, text) == (Tree::Node { kind: NodeKind::Root, children: forest }));
        assert(tree_text(tree_of(events, text)) == forest_text(forest));
    }
}

/// Whether `part` stands in the log `all` from index `i` on.
pub open spec fn holds_at(all: Seq<Event>, i: int, part: Seq<Event>) -> bool {
    &&& 0 <= i
    &&& i + part.len() <= all.len()
    &&& all.subrange(i, i + part.len()) == part
}

/// Whether `part`, where it stands in `all`, is assembled as it is on its
/// own: into the same trees, and assembly goes on behind it.
pub open spec fn stands_alone(all: Seq<Event>, text: Seq<u8>, i: int, at: int, part: Seq<Event>) -> bool {
    let alone = build(part, text, 0, at);
    let whole = build(all, text, i, at);
    let rest = build(all, text, i + part.len(), alone.at);
    &&& alone.next == part.len()
    &&& whole.forest == alone.forest + rest.forest
    &&& whole.next == rest.next
    &&& whole.at == rest.at
}

/// Whether `part` is a run of whole nodes and tokens: wherever it stands
/// in a log, it is assembled as it is on its own.
pub open spec fn complete(part: Seq<Event>, text: Seq<u8>) -> bool {
    forall|all: Seq<Event>, i: int, at: int|
        holds_at(all, i, part) && 0 <= at <= text.len() ==> #[trigger] stands_alone(
            all,
            text,
            i,
            at,
            part,
        )
}

pub proof fn lemma_holds_at_itself(part: Seq<Event>)
    ensures
        holds_at(part, 0, part),
{
    assert(part.subrange(0, part.len() as int) =~= part);
}

pub proof fn lemma_holds_at_parts(all: Seq<Event>, i: int, x: Seq<Event>, y: Seq<Event>)
    requires
        holds_at(all, i, x + y),
    ensures
        holds_at(all, i, x),
        holds_at(all, i + x.len(), y),
{
    assert(all.subrange(i, i + x.len()) =~= (x + y).subrange(0, x.len() as int));
    assert((x + y).subrange(0, x.len() as int) =~= x);
    assert(all.subrange(i + x.len(), i + x.len() + y.len()) =~= (x + y).subrange(
        x.len() as int,
        (x + y).len() as int,
    ));
    assert((x + y).subrange(x.len() as int, (x + y).len() as int) =~= y);
}

/// Nothing is complete.
pub proof fn lemma_complete_empty(text: Seq<u8>)
    ensures
        complete(Seq::<Event>::empty(), text),
{
    let part = Seq::<Event>::empty();
    assert forall|all: Seq<Event>, i: int, at: int|
        holds_at(all, i, part) && 0 <= at <= text.len() implies #[trigger] stands_alone(
        all,
        text,
        i,
        at,
        part,
    ) by {
        let whole = build(all, text, i, at);
        assert(Seq::<Tree>::empty() + whole.forest =~= whole.forest);
    }
}

/// One token is complete.
pub proof fn lemma_complete_token(event: Event, text: Seq<u8>)
    requires
        event is Token,
    ensures
        complete(seq![event], text),
{
    let part = seq![event];
    assert forall|all: Seq<Event>, i: int, at: int|
        holds_at(all, i, part) && 0 <= at <= text.len() implies #[trigger] stands_alone(
        all,
        text,
        i,
        at,
        part,
    ) by {
        assert(all[i] == all.subrange(i, i + 1)[0]);
        assert(all[i] == event);
        assert(part[0] == event);
        let to = leaf_end(text, at, event->start as int, event->end as int);
        let leaf = leaf_at(text, at, event->Token_kind, event->start as int, event->end as int);
        let after = build(part, text, 1, to);
        assert(after == (Built { forest: Seq::empty(), next: 1, at: to }));
        let alone = build(part, text, 0, at);
        assert(alone.forest == seq![leaf] + after.forest);
        assert(alone.forest =~= seq![leaf]);
        assert(alone.at == to);
        let whole = build(all, text, i, at);
        assert(whole.forest == seq![leaf] + build(all, text, i + 1, to).forest);
    }
}

/// Two complete runs, one after the other, are complete.
pub proof fn lemma_complete_concat(x: Seq<Event>, y: Seq<Event>, text: Seq<u8>)
    requires
        complete(x, text),
        complete(y, text),
    ensures
        complete(x + y, text),
{
    let part = x + y;
    lemma_holds_at_itself(part);
    lemma_holds_at_parts(part, 0, x, y);
    assert forall|all: Seq<Event>, i: int, at: int|
        holds_at(all, i, part) && 0 <= at <= text.len() implies #[trigger] stands_alone(
        all,
        text,
        i,
        at,
        part,
    ) by {
        lemma_holds_at_parts(all, i, x, y);
        assert(stands_alone(all, text, i, at, x));
        assert(stands_alone(part, text, 0, at, x));
        let mid = build(x, text, 0, at).at;
        lemma_build_text(x, text, 0, at);
        assert(stands_alone(all, text, i + x.len(), mid, y));
        assert(stands_alone(part, text, x.len() as int, mid, y));
        let alone_y = build(y, text, 0, mid);
        lemma_build_text(y, text, 0, mid);
        let end = build(part, text, part.len() as int, alone_y.at);
        assert(end.forest =~= Seq::<Tree>::empty());
        let alone = build(part, text, 0, at);
        assert(alone.forest =~= build(x, text, 0, at).forest + alone_y.forest) by {
            assert(alone_y.forest + Seq::<Tree>::empty() =~= alone_y.forest);
        }
        let rest = build(all, text, i + part.len(), alone.at);
        assert(build(all, text, i, at).forest =~= alone.forest + rest.forest) by {
            assert((build(x, text, 0, at).forest + alone_y.forest) + rest.forest =~= build(
                x,
                text,
                0,
                at,
            ).forest + (alone_y.forest + rest.forest));
        }
    }
}

/// A complete run between a `Start` and a `Finish` is complete: it is
/// assembled into one node that holds the trees of the run.
pub proof fn lemma_complete_node(kind: NodeKind, inner: Seq<Event>, text: Seq<u8>)
    requires
        complete(inner, text),
    ensures
        complete(seq![Event::Start { kind }] + inner + seq![Event::Finish], text),
        forall|at: int|
            0 <= at <= text.len() ==> #[trigger] build(
                seq![Event::Start { kind }] + inner + seq![Event::Finish],
                text,
                0,
                at,
            ) == (Built {
                forest: seq![Tree::Node { kind, children: build(inner, text, 0, at).forest }],
                next: (inner.len() + 2) as int,
                at: build(inner, text, 0, at).at,
            }),
{
    let part = seq![Event::Start { kind }] + inner + seq![Event::Finish];
    lemma_holds_at_itself(part);
    assert forall|at: int| 0 <= at <= text.len() implies #[trigger] build(part, text, 0, at) == (
    Built {
        forest: seq![Tree::Node { kind, children: build(inner, text, 0, at).forest }],
        next: (inner.len() + 2) as int,
        at: build(inner, text, 0, at).at,
    }) by {
        lemma_node_in_context(kind, inner, text, part, 0, at);
        let inside = build(inner, text, 0, at);
        let node = Tree::Node { kind, children: inside.forest };
        let end = build(part, text, part.len() as int, inside.at);
        assert(end.forest =~= Seq::<Tree>::empty());
        assert(seq![node] + Seq::<Tree>::empty() =~= seq![node]);
    }
    assert forall|all: Seq<Event>, i: int, at: int|
        holds_at(all, i, part) && 0 <= at <= text.len() implies #[trigger] stands_alone(
        all,
        text,
        i,
        at,
        part,
    ) by {
        lemma_node_in_context(kind, inner, text, all, i, at);
        assert(build(part, text, 0, at).next == part.len());
    }
}

/// A complete run between a `Start` and a `Finish`, where it stands in a
/// log, is assembled into one node, and assembly goes on behind the
/// `Finish`.
pub proof fn lemma_node_in_context(
    kind: NodeKind,
    inner: Seq<Event>,
    text: Seq<u8>,
    all: Seq<Event>,
    i: int,
    at: int,
)
    requires
        complete(inner, text),
        holds_at(all, i, seq![Event::Start { kind }] + inner + seq![Event::Finish]),
        0 <= at <= text.len(),
    ensures
        ({
            let inside = build(inner, text, 0, at);
            let whole = build(all, text, i, at);
            let rest = build(all, text, i + inner.len() + 2, inside.at);
            &&& whole.forest == seq![Tree::Node { kind, children: inside.forest }] + rest.forest
            &&& whole.next == rest.next
            &&& whole.at == rest.at
            &&& inside.next == inner.len()
        }),
{
    let part = seq![Event::Start { kind }] + inner + seq![Event::Finish];
    lemma_holds_at_parts(all, i, seq![Event::Start { kind }] + inner, seq![Event::Finish]);
    lemma_holds_at_parts(all, i, seq![Event::Start { kind }], inner);
    assert(all[i] == all.subrange(i, i + 1)[0]);
    assert(all[i] == (Event::Start { kind }));
    let close = i + 1 + inner.len();
    assert(all[close] == all.subrange(close, close + 1)[0]);
    assert(all[close] == Event::Finish);
    assert(stands_alone(all, text, i + 1, at, inner));
    let inside = build(inner, text, 0, at);
    lemma_build_text(inner, text, 0, at);
    let closing = build(all, text, close, inside.at);
    assert(closing == (Built { forest: Seq::empty(), next: close + 1, at: inside.at }));
    let within = build(all, text, i + 1, at);
    assert(within.forest =~= inside.forest) by {
        assert(inside.forest + Seq::<Tree>::empty() =~= inside.forest);
    }
    assert(within.next == close + 1);
    assert(within.at == inside.at);
}

fn make_leaf(text: &[u8], at: usize, kind: TokenKind, start: usize, end: usize) -> (r: (
    SyntaxToken,
    usize,
))
    requires
        at <= text@.len(),
    ensures
        r.0@ == leaf_at(text@, at as int, kind, start as int, end as int),
        r.1 == leaf_end(text@, at as int, start as int, end as int),
        at <= r.1 <= text@.len(),
        r.0.wf(),
{
    let len: usize = text.len();
    let from: usize = if start < at {
        at
    } else if start > len {
        len
    } else {
        start
    };
    let to: usize = if end < from {
        from
    } else if end > len {
        len
    } else {
        end
    };
    let leading = slice_to_vec(slice_subrange(text, at, from));
    let own = slice_to_vec(slice_subrange(text, from, to));
    (SyntaxToken { kind, leading, text: own }, to)
}

/// Assembles the siblings that start with the event at `i`.
fn build_forest(events: &Vec<Event>, text: &[u8], i: usize, at: usize) -> (r: (
    Vec<SyntaxElement>,
    usize,
    usize,
))
    requires
        i <= events@.len(),
        at <= text@.len(),
    ensures
        forest_view(r.0@) == build(events@, text@, i as int, at as int).forest,
        r.1 == build(events@, text@, i as int, at as int).next,
        r.2 == build(events@, text@, i as int, at as int).at,
        i <= r.1 <= events@.len(),
        at <= r.2 <= text@.len(),
        forall|k: int| 0 <= k < r.0@.len() ==> element_wf(#[trigger] r.0@[k]),
    decreases events@.len() - i,
{
    let mut elements: Vec<SyntaxElement> = Vec::new();
    let mut j: usize = i;
    let mut pos: usize = at;
    let mut done: bool = false;
    proof {
        assert(forest_view(elements@) + build(events@, text@, i as int, at as int).forest
            =~= build(events@, text@, i as int, at as int).forest);
    }
    while !done && j < events.len()
        invariant
            i <= j <= events@.len(),
            at <= pos <= text@.len(),
            forall|k: int| 0 <= k < elements@.len() ==> element_wf(#[trigger] elements@[k]),
            !done ==> build(events@, text@, i as int, at as int).forest == forest_view(elements@)
                + build(events@, text@, j as int, pos as int).forest,
            !done ==> build(events@, text@, i as int, at as int).next == build(
                events@,
                text@,
                j as int,
                pos as int,
            ).next,
            !done ==> build(events@, text@, i as int, at as int).at == build(
                events@,
                text@,
                j as int,
                pos as int,
            ).at,
            done ==> build(events@, text@, i as int, at as int) == (Built {
                forest: forest_view(elements@),
                next: j as int,
                at: pos as int,
            }),
        decreases events@.len() - j,
    {
        let ghost before = forest_view(elements@);
        let ghost here = build(events@, text@, j as int, pos as int);
        match events[j] {
            Event::Finish => {
                proof {
                    assert(before + here.forest =~= before);
                }
                j = j + 1;
                done = true;
            },
            Event::Token { kind, start, end } => {
                let (leaf, to) = make_leaf(text, pos, kind, start, end);
                proof {
                    let rest = build(events@, text@, j + 1, to as int);
                    lemma_forest_view_push(elements@, SyntaxElement::Token(leaf));
                    assert(before.push(leaf@) + rest.forest =~= before + (seq![leaf@]
                        + rest.forest));
                }
                elements.push(SyntaxElement::Token(leaf));
                j = j + 1;
                pos = to;
            },
            Event::Start { kind } => {
                let (children, next, to) = build_forest(events, text, j + 1, pos);
                let node = SyntaxNode { kind, children, len: to - pos };
                proof {
                    lemma_build_text(events@, text@, j + 1, pos as int);
                    lemma_node_view(node);
                    let rest = build(events@, text@, next as int, to as int);
                    lemma_forest_view_push(elements@, SyntaxElement::Node(node));
                    assert(before.push(node@) + rest.forest =~= before + (seq![node@]
                        + rest.forest));
                }
                elements.push(SyntaxElement::Node(node));
                j = next;
                pos = to;
            },
        }
    }
    proof {
        if !done {
            assert(forest_view(elements@) + Seq::<Tree>::empty() =~= forest_view(elements@));
        }
    }
    (elements, j, pos)
}

/// Assembles the tree of the log `events` over `text`. Whatever the log
/// holds, the tree covers `text` byte for byte.
pub fn build_tree(events: &Vec<Event>, text: &[u8]) -> (tree: SyntaxNode)
    ensures
        tree@ == tree_of(events@, text@),
        tree@.text() == text@,
        tree.wf(),
{
    let (mut elements, next, at) = build_forest(events, text, 0, 0);
    proof {
        lemma_build_text(events@, text@, 0, 0);
        lemma_tree_of_text(events@, text@);
    }
    if at < text.len() {
        let (last, to) = make_leaf(text, at, TokenKind::Eof, text.len(), text.len());
        proof {
            lemma_forest_view_push(elements@, SyntaxElement::Token(last));
            assert(text@.subrange(text@.len() as int, text@.len() as int) =~= Seq::<u8>::empty());
        }
        elements.push(SyntaxElement::Token(last));
    }
    let single: bool = elements.len() == 1 && match &elements[0] {
        SyntaxElement::Node(_) => true,
        SyntaxElement::Token(_) => false,
    };
    if single {
        match elements.pop() {
            Some(SyntaxElement::Node(node)) => {
                return node;
            },
            Some(SyntaxElement::Token(token)) => {
                elements.push(SyntaxElement::Token(token));
            },
            None => {},
        }
    }
    let node = SyntaxNode { kind: NodeKind::Root, children: elements, len: text.len() };
    proof {
        lemma_node_view(node);
    }
    node
}

} // verus!
