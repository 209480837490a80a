//! The document: the layout of a tree before any width is known. It says
//! where a line may break, not whether it does.
use crate::lexer::is_line_break;
use crate::normal::normal;
use crate::options::FormatOptions;
use vstd::prelude::*;

verus! {

/// The mathematical document that a [`Document`] stands for.
pub enum Doc {
    /// Literal text, and the source offset at which it stood.
    Text { bytes: Seq<u8>, source: usize },
    /// One blank.
    Space,
    /// A line break, whatever the width.
    HardLine,
    /// A line break where the enclosing group is broken, else nothing.
    SoftLine,
    /// A line break where the enclosing group is broken, else one blank.
    SoftLineOrSpace,
    /// What is inside stands one level deeper.
    Indent(Box<Doc>),
    /// A unit whose soft line breaks are all resolved alike: none of them
    /// breaks where the unit fits on the line, and all of them break where
    /// it does not.
    Group(Box<Doc>),
    /// One document after the other, with no grouping of its own.
    Sequence(Seq<Doc>),
}

/// A document, as the layout pass builds it and the printer reads it.
#[derive(Debug, PartialEq, Eq)]
pub enum Document {
    Text { bytes: Vec<u8>, source: usize },
    Space,
    HardLine,
    SoftLine,
    SoftLineOrSpace,
    Indent(Box<Document>),
    Group(Box<Document>),
    Sequence(Vec<Document>),
}

/// The document that `document` stands for.
pub open spec fn document_view(document: Document) -> Doc
    decreases document,
{
    match document {
        Document::Text { bytes, source } => Doc::Text { bytes: bytes@, source },
        Document::Space => Doc::Space,
        Document::HardLine => Doc::HardLine,
        Document::SoftLine => Doc::SoftLine,
        Document::SoftLineOrSpace => Doc::SoftLineOrSpace,
        Document::Indent(inner) => Doc::Indent(Box::new(document_view(*inner))),
        Document::Group(inner) => Doc::Group(Box::new(document_view(*inner))),
        Document::Sequence(parts) => Doc::Sequence(
            Seq::new(
                parts@.len(),
                |i: int|
                    if 0 <= i < parts@.len() {
                        document_view(parts@[i])
                    } else {
                        Doc::Space
                    },
            ),
        ),
    }
}

/// The documents that `parts` stand for.
pub open spec fn documents_view(parts: Seq<Document>) -> Seq<Doc> {
    Seq::new(parts.len(), |i: int| document_view(parts[i]))
}

impl View for Document {
    type V = Doc;

    open spec fn view(&self) -> Doc {
        document_view(*self)
    }
}

pub proof fn lemma_sequence_view(parts: Vec<Document>)
    ensures
        document_view(Document::Sequence(parts)) == Doc::Sequence(documents_view(parts@)),
{
    assert(document_view(Document::Sequence(parts))->Sequence_0 =~= documents_view(parts@));
}

pub proof fn lemma_documents_view_push(parts: Seq<Document>, part: Document)
    ensures
        documents_view(parts.push(part)) == documents_view(parts).push(document_view(part)),
{
    assert(documents_view(parts.push(part)) =~= documents_view(parts).push(document_view(part)));
}

/// Whether `bytes` holds a line break.
pub open spec fn has_line_break(bytes: Seq<u8>) -> bool {
    exists|i: int| 0 <= i < bytes.len() && is_line_break(#[trigger] bytes[i])
}

/// Whether `doc` cannot stand on one line: it holds a hard line break, or
/// text with a line break in it.
pub open spec fn forces_break(doc: Doc) -> bool
    decreases doc, 0int,
{
    match doc {
        Doc::Text { bytes, .. } => has_line_break(bytes),
        Doc::HardLine => true,
        Doc::Indent(inner) => forces_break(*inner),
        Doc::Group(inner) => forces_break(*inner),
        Doc::Sequence(parts) => any_forces_break(parts, parts.len() as int),
        _ => false,
    }
}

/// Whether one of the first `count` of `parts` cannot stand on one line.
pub open spec fn any_forces_break(parts: Seq<Doc>, count: int) -> bool
    decreases parts, count,
{
    if count <= 0 || count > parts.len() {
        false
    } else {
        any_forces_break(parts, count - 1) || forces_break(parts[count - 1])
    }
}

/// The width of `doc` when it is laid out flat: every soft line break
/// resolved to nothing, or to its blank.
pub open spec fn flat_width(doc: Doc) -> nat
    decreases doc, 0int,
{
    match doc {
        Doc::Text { bytes, .. } => bytes.len(),
        Doc::Space => 1,
        Doc::HardLine => 0,
        Doc::SoftLine => 0,
        Doc::SoftLineOrSpace => 1,
        Doc::Indent(inner) => flat_width(*inner),
        Doc::Group(inner) => flat_width(*inner),
        Doc::Sequence(parts) => sum_flat_width(parts, parts.len() as int),
    }
}

/// The flat width of the first `count` of `parts` together.
pub open spec fn sum_flat_width(parts: Seq<Doc>, count: int) -> nat
    decreases parts, count,
{
    if count <= 0 || count > parts.len() {
        0
    } else {
        sum_flat_width(parts, count - 1) + flat_width(parts[count - 1])
    }
}

/// What is left of `budget` columns when `doc` is laid out flat in them;
/// `None` where `doc` cannot stand on one line or is wider than `budget`.
pub open spec fn remaining_after(doc: Doc, budget: int) -> Option<int> {
    if !forces_break(doc) && flat_width(doc) <= budget {
        Some(budget - flat_width(doc))
    } else {
        None
    }
}

/// Whether two texts are written alike: with their line breaks written as
/// the configured line ending they are the same text, and they are as
/// long where they hold no line break.
pub open spec fn same_text(x: Seq<u8>, y: Seq<u8>, options: FormatOptions) -> bool {
    &&& normal(x, options) == normal(y, options)
    &&& has_line_break(x) == has_line_break(y)
    &&& !has_line_break(x) ==> x == y
}

/// Whether two documents lay out the same text in the same way: they are
/// equal but for the source offsets of their texts and for how the line
/// breaks inside their texts are spelled.
pub open spec fn same_layout(a: Doc, b: Doc, options: FormatOptions) -> bool
    decreases a, 0int,
{
    match a {
        Doc::Text { bytes, .. } => b is Text && same_text(bytes, b->bytes, options),
        Doc::Space => b is Space,
        Doc::HardLine => b is HardLine,
        Doc::SoftLine => b is SoftLine,
        Doc::SoftLineOrSpace => b is SoftLineOrSpace,
        Doc::Indent(x) => b is Indent && same_layout(*x, *b->Indent_0, options),
        Doc::Group(x) => b is Group && same_layout(*x, *b->Group_0, options),
        Doc::Sequence(xs) => b is Sequence && same_layouts(xs, b->Sequence_0, options),
    }
}

/// Whether two sequences of documents lay out the same, part by part.
pub open spec fn same_layouts(xs: Seq<Doc>, ys: Seq<Doc>, options: FormatOptions) -> bool
    decreases xs, 1int,
{
    &&& xs.len() == ys.len()
    &&& forall|i: int| 0 <= i < xs.len() ==> same_layout(#[trigger] xs[i], ys[i], options)
}

/// A document lays out the same as itself.
pub proof fn lemma_same_layout_reflexive(doc: Doc, options: FormatOptions)
    ensures
        same_layout(doc, doc, options),
    decreases doc,
{
    match doc {
        Doc::Indent(inner) => {
            lemma_same_layout_reflexive(*inner, options);
            assert(same_layout(doc, doc, options));
        },
        Doc::Group(inner) => {
            lemma_same_layout_reflexive(*inner, options);
            assert(same_layout(doc, doc, options));
        },
        Doc::Sequence(parts) => {
            assert forall|i: int| 0 <= i < parts.len() implies same_layout(
                #[trigger] parts[i],
                parts[i],
                options,
            ) by {
                lemma_same_layout_reflexive(parts[i], options);
            }
            assert(same_layouts(parts, parts, options));
            assert(same_layout(doc, doc, options));
        },
        _ => {
            assert(same_layout(doc, doc, options));
        },
    }
}

/// Sequences that lay out the same, joined, lay out the same.
pub proof fn lemma_same_layouts_concat(
    xs: Seq<Doc>,
    ys: Seq<Doc>,
    us: Seq<Doc>,
    vs: Seq<Doc>,
    options: FormatOptions,
)
    requires
        same_layouts(xs, ys, options),
        same_layouts(us, vs, options),
    ensures
        same_layouts(xs + us, ys + vs, options),
{
    assert forall|i: int| 0 <= i < (xs + us).len() implies same_layout(
        #[trigger] (xs + us)[i],
        (ys + vs)[i],
        options,
    ) by {
        if i < xs.len() {
            assert((xs + us)[i] == xs[i]);
            assert((ys + vs)[i] == ys[i]);
        } else {
            assert((xs + us)[i] == us[i - xs.len()]);
            assert((ys + vs)[i] == vs[i - ys.len()]);
        }
    }
}

/// Documents that lay out the same force a break alike, and where they do
/// not they are as wide when laid out flat.
pub proof fn lemma_same_measure(a: Doc, b: Doc, options: FormatOptions)
    requires
        same_layout(a, b, options),
    ensures
        forces_break(a) == forces_break(b),
        !forces_break(a) ==> flat_width(a) == flat_width(b),
    decreases a, 0int,
{
    match a {
        Doc::Indent(x) => {
            let y = *b->Indent_0;
            assert(same_layout(*x, y, options));
            lemma_same_measure(*x, y, options);
            assert(flat_width(b) == flat_width(y));
            assert(forces_break(b) == forces_break(y));
        },
        Doc::Group(x) => {
            let y = *b->Group_0;
            assert(same_layout(*x, y, options));
            lemma_same_measure(*x, y, options);
            assert(flat_width(b) == flat_width(y));
            assert(forces_break(b) == forces_break(y));
        },
        Doc::Sequence(xs) => {
            let ys = b->Sequence_0;
            assert(same_layouts(xs, ys, options));
            lemma_same_measures(xs, ys, xs.len() as int, options);
            assert(flat_width(b) == sum_flat_width(ys, ys.len() as int));
            assert(forces_break(b) == any_forces_break(ys, ys.len() as int));
        },
        Doc::Text { bytes, .. } => {
            assert(same_text(bytes, b->bytes, options));
            assert(flat_width(b) == b->bytes.len());
            assert(forces_break(b) == has_line_break(b->bytes));
        },
        Doc::Space => {
            assert(b is Space);
            assert(flat_width(b) == 1);
        },
        Doc::HardLine => {
            assert(b is HardLine);
            assert(forces_break(b));
        },
        Doc::SoftLine => {
            assert(b is SoftLine);
            assert(flat_width(b) == 0);
        },
        Doc::SoftLineOrSpace => {
            assert(b is SoftLineOrSpace);
            assert(flat_width(b) == 1);
        },
    }
}

pub proof fn lemma_same_measures(xs: Seq<Doc>, ys: Seq<Doc>, count: int, options: FormatOptions)
    requires
        same_layouts(xs, ys, options),
        0 <= count <= xs.len(),
    ensures
        any_forces_break(xs, count) == any_forces_break(ys, count),
        !any_forces_break(xs, count) ==> sum_flat_width(xs, count) == sum_flat_width(ys, count),
    decreases xs, count,
{
    if count > 0 {
        lemma_same_measures(xs, ys, count - 1, options);
        lemma_same_measure(xs[count - 1], ys[count - 1], options);
    }
}

fn bytes_have_line_break(bytes: &Vec<u8>) -> (r: bool)
    ensures
        r == has_line_break(bytes@),
{
    let mut i: usize = 0;
    while i < bytes.len()
        invariant
            i <= bytes@.len(),
            forall|k: int| 0 <= k < i ==> !is_line_break(#[trigger] bytes@[k]),
        decreases bytes@.len() - i,
    {
        if bytes[i] == 0x0a || bytes[i] == 0x0d {
            return true;
        }
        i = i + 1;
    }
    false
}

/// Measures `document` flat against `budget` columns.
pub fn measure(document: &Document, budget: usize) -> (r: Option<usize>)
    ensures
        match remaining_after(document@, budget as int) {
            Some(left) => r == Some(left as usize) && left <= budget,
            None => r is None,
        },
    decreases document,
{
    match document {
        Document::Text { bytes, .. } => {
            if bytes_have_line_break(bytes) || bytes.len() > budget {
                None
            } else {
                Some(budget - bytes.len())
            }
        },
        Document::Space => if budget >= 1 {
            Some(budget - 1)
        } else {
            None
        },
        Document::HardLine => None,
        Document::SoftLine => Some(budget),
        Document::SoftLineOrSpace => if budget >= 1 {
            Some(budget - 1)
        } else {
            None
        },
        Document::Indent(inner) => measure(inner, budget),
        Document::Group(inner) => measure(inner, budget),
        Document::Sequence(parts) => {
            let ghost docs = documents_view(parts@);
            proof {
                lemma_sequence_view(*parts);
            }
            let mut left: usize = budget;
            let mut i: usize = 0;
            while i < parts.len()
                invariant
                    i <= parts@.len(),
                    docs == documents_view(parts@),
                    docs.len() == parts@.len(),
                    !any_forces_break(docs, i as int),
                    sum_flat_width(docs, i as int) + left == budget,
                    *document == Document::Sequence(*parts),
                    document@ == Doc::Sequence(docs),
                decreases parts@.len() - i,
            {
                proof {
                    assert(docs[i as int] == parts@[i as int]@);
                }
                match measure(&parts[i], left) {
                    Some(rest) => {
                        left = rest;
                    },
                    None => {
                        proof {
                            lemma_measure_grows(docs, i + 1, docs.len() as int);
                            assert(any_forces_break(docs, i + 1) || sum_flat_width(docs, i + 1)
                                > budget);
                        }
                        return None;
                    },
                }
                i = i + 1;
            }
            Some(left)
        },
    }
}

/// More parts are no narrower, and force a break where fewer did.
pub proof fn lemma_measure_grows(parts: Seq<Doc>, fewer: int, more: int)
    requires
        0 <= fewer <= more <= parts.len(),
    ensures
        sum_flat_width(parts, fewer) <= sum_flat_width(parts, more),
        any_forces_break(parts, fewer) ==> any_forces_break(parts, more),
    decreases more - fewer,
{
    if fewer < more {
        lemma_measure_grows(parts, fewer, more - 1);
    }
}

} // verus!
