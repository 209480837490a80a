//! The printer: one pass over a document that decides, group by group,
//! whether it fits on the line, and writes the text.
use crate::document::Doc;
use crate::document::Document;
use crate::document::documents_view;
use crate::document::flat_width;
use crate::document::forces_break;
use crate::document::lemma_same_layout_reflexive;
use crate::document::lemma_same_measure;
use crate::document::lemma_sequence_view;
use crate::document::measure;
use crate::document::same_layout;
use crate::document::same_layouts;
use crate::document::same_text;
use crate::lexer::is_line_break;
use crate::normal::lemma_normal_reprinted;
use crate::normal::lemma_put_bytes;
use crate::normal::normal;
use crate::options::FormatOptions;
use vstd::prelude::*;

verus! {

/// Where a piece of source text went: the text that stood at offset
/// `source` of the source starts at offset `dest` of the output.
#[derive(Clone, Copy, Debug, PartialEq, Eq)]
pub struct SourceMarker {
    pub source: usize,
    pub dest: usize,
}

/// The printer's state: the output so far, the offset at which its last
/// line starts, and the source markers so far.
pub struct Printing {
    pub out: Seq<u8>,
    pub line_start: int,
    pub markers: Seq<SourceMarker>,
}

/// The column at which the next byte will stand.
pub open spec fn column(state: Printing) -> int {
    state.out.len() - state.line_start
}

/// The deepest level of indentation. Nesting beyond it is printed at it.
pub const MAX_LEVEL: u16 = 0xffff;

/// The level one step deeper than `level`.
pub open spec fn deeper(level: nat) -> nat {
    if level < MAX_LEVEL {
        level + 1
    } else {
        level
    }
}

/// The indentation of a line at `level`: level times the indent width,
/// in copies of the indent character.
pub open spec fn indent_text(options: FormatOptions, level: nat) -> Seq<u8> {
    Seq::new(level * (options.indent_width.spec_value() as nat), |i: int| options.indent_style.byte())
}

/// The state after a line break at `level`: the line ending, then the
/// indentation of the new line.
pub open spec fn break_line(state: Printing, level: nat, options: FormatOptions) -> Printing {
    Printing {
        out: state.out + options.line_ending.bytes() + indent_text(options, level),
        line_start: (state.out.len() + options.line_ending.bytes().len()) as int,
        markers: state.markers,
    }
}

/// The state after one blank.
pub open spec fn put_space(state: Printing) -> Printing {
    Printing { out: state.out.push(0x20u8), line_start: state.line_start, markers: state.markers }
}

/// The state after the first `count` bytes of `bytes`. A line break in the
/// text (`\n`, `\r`, or `\r\n` as one) is written as the configured line
/// ending; every other byte is written as it is.
pub open spec fn put_bytes(state: Printing, bytes: Seq<u8>, count: int, options: FormatOptions) -> Printing
    decreases count,
{
    if count <= 0 || count > bytes.len() {
        state
    } else {
        let before = put_bytes(state, bytes, count - 1, options);
        let b = bytes[count - 1];
        if b == 0x0a && count >= 2 && bytes[count - 2] == 0x0d {
            before
        } else if is_line_break(b) {
            Printing {
                out: before.out + options.line_ending.bytes(),
                line_start: (before.out.len() + options.line_ending.bytes().len()) as int,
                markers: before.markers,
            }
        } else {
            Printing { out: before.out.push(b), line_start: before.line_start, markers: before.markers }
        }
    }
}

/// The state after a text that stood at `source`: a marker, then the bytes.
pub open spec fn put_text(state: Printing, bytes: Seq<u8>, source: usize, options: FormatOptions) -> Printing {
    put_bytes(
        Printing {
            out: state.out,
            line_start: state.line_start,
            markers: state.markers.push(SourceMarker { source, dest: state.out.len() as usize }),
        },
        bytes,
        bytes.len() as int,
        options,
    )
}

/// Whether the group around `doc` is laid out flat when the printer stands
/// at `state`: `doc` can stand on one line, and from the current column on
/// its flat width does not exceed the line width.
pub open spec fn fits(doc: Doc, state: Printing, options: FormatOptions) -> bool {
    !forces_break(doc) && column(state) + flat_width(doc) <= options.line_width.spec_value()
}

/// The state after `doc`, printed at `level` from `state` on. `flat` says
/// that an enclosing group was found to fit. A group that is reached in
/// broken mode is measured on its own: a broken parent does not break it.
pub open spec fn print_doc(
    doc: Doc,
    flat: bool,
    level: nat,
    state: Printing,
    options: FormatOptions,
) -> Printing
    decreases doc, 0int,
{
    match doc {
        Doc::Text { bytes, source } => put_text(state, bytes, source, options),
        Doc::Space => put_space(state),
        Doc::HardLine => break_line(state, level, options),
        Doc::SoftLine => if flat {
            state
        } else {
            break_line(state, level, options)
        },
        Doc::SoftLineOrSpace => if flat {
            put_space(state)
        } else {
            break_line(state, level, options)
        },
        Doc::Indent(inner) => print_doc(*inner, flat, deeper(level), state, options),
        Doc::Group(inner) => print_doc(
            *inner,
            flat || fits(*inner, state, options),
            level,
            state,
            options,
        ),
        Doc::Sequence(parts) => print_docs(parts, parts.len() as int, flat, level, state, options),
    }
}

/// The state after the first `count` of `parts`, printed one after the
/// other.
pub open spec fn print_docs(
    parts: Seq<Doc>,
    count: int,
    flat: bool,
    level: nat,
    state: Printing,
    options: FormatOptions,
) -> Printing
    decreases parts, count,
{
    if count <= 0 || count > parts.len() {
        state
    } else {
        print_doc(
            parts[count - 1],
            flat,
            level,
            print_docs(parts, count - 1, flat, level, state, options),
            options,
        )
    }
}

/// The state in which printing starts.
pub open spec fn start_state() -> Printing {
    Printing { out: Seq::empty(), line_start: 0, markers: Seq::empty() }
}

/// What printing `doc` under `options` gives.
pub open spec fn printed(doc: Doc, options: FormatOptions) -> Printing {
    print_doc(doc, false, 0, start_state(), options)
}

/// Whether `after` continues `before`: the output of `before` is the
/// beginning of the output of `after`, and the last line of `after` starts
/// inside its output, at or behind where the last line of `before` starts.
pub open spec fn continues(before: Printing, after: Printing) -> bool {
    &&& before.out.len() <= after.out.len()
    &&& after.out.take(before.out.len() as int) == before.out
    &&& before.line_start <= after.line_start <= after.out.len()
}

pub proof fn lemma_put_bytes_continues(
    state: Printing,
    bytes: Seq<u8>,
    count: int,
    options: FormatOptions,
)
    requires
        0 <= state.line_start <= state.out.len(),
    ensures
        continues(state, put_bytes(state, bytes, count, options)),
    decreases count,
{
    if count <= 0 || count > bytes.len() {
        assert(state.out.take(state.out.len() as int) =~= state.out);
    } else {
        lemma_put_bytes_continues(state, bytes, count - 1, options);
        let before = put_bytes(state, bytes, count - 1, options);
        let after = put_bytes(state, bytes, count, options);
        assert(after.out.take(state.out.len() as int) =~= before.out.take(state.out.len() as int));
    }
}

/// Printing only appends: what was written stays as it is.
pub proof fn lemma_print_continues(
    doc: Doc,
    flat: bool,
    level: nat,
    state: Printing,
    options: FormatOptions,
)
    requires
        0 <= state.line_start <= state.out.len(),
    ensures
        continues(state, print_doc(doc, flat, level, state, options)),
    decreases doc, 0int,
{
    let after = print_doc(doc, flat, level, state, options);
    match doc {
        Doc::Text { bytes, source } => {
            let marked = Printing {
                out: state.out,
                line_start: state.line_start,
                markers: state.markers.push(
                    SourceMarker { source, dest: state.out.len() as usize },
                ),
            };
            lemma_put_bytes_continues(marked, bytes, bytes.len() as int, options);
        },
        Doc::Indent(inner) => {
            lemma_print_continues(*inner, flat, deeper(level), state, options);
        },
        Doc::Group(inner) => {
            lemma_print_continues(
                *inner,
                flat || fits(*inner, state, options),
                level,
                state,
                options,
            );
        },
        Doc::Sequence(parts) => {
            lemma_print_docs_continues(parts, parts.len() as int, flat, level, state, options);
        },
        _ => {
            assert(after.out.take(state.out.len() as int) =~= state.out);
        },
    }
}

pub proof fn lemma_print_docs_continues(
    parts: Seq<Doc>,
    count: int,
    flat: bool,
    level: nat,
    state: Printing,
    options: FormatOptions,
)
    requires
        0 <= state.line_start <= state.out.len(),
    ensures
        continues(state, print_docs(parts, count, flat, level, state, options)),
    decreases parts, count,
{
    if count <= 0 || count > parts.len() {
        assert(state.out.take(state.out.len() as int) =~= state.out);
    } else {
        lemma_print_docs_continues(parts, count - 1, flat, level, state, options);
        let before = print_docs(parts, count - 1, flat, level, state, options);
        lemma_print_continues(parts[count - 1], flat, level, before, options);
        let after = print_docs(parts, count, flat, level, state, options);
        assert(after.out.take(state.out.len() as int) =~= before.out.take(state.out.len() as int));
    }
}

/// Whether a line break was written between `before` and `after`: one of
/// the bytes that `after` has more than `before` is a line break.
pub open spec fn broke_line(before: Printing, after: Printing) -> bool {
    exists|i: int|
        before.out.len() <= i < after.out.len() && is_line_break(#[trigger] after.out[i])
}

/// Whether `doc` holds a soft or hard line break of its own, outside any
/// group nested in it.
pub open spec fn has_own_break(doc: Doc) -> bool
    decreases doc, 0int,
{
    match doc {
        Doc::HardLine => true,
        Doc::SoftLine => true,
        Doc::SoftLineOrSpace => true,
        Doc::Indent(inner) => has_own_break(*inner),
        Doc::Sequence(parts) => any_has_own_break(parts, parts.len() as int),
        _ => false,
    }
}

/// Whether one of the first `count` of `parts` holds a line break of its
/// own.
pub open spec fn any_has_own_break(parts: Seq<Doc>, count: int) -> bool
    decreases parts, count,
{
    if count <= 0 || count > parts.len() {
        false
    } else {
        any_has_own_break(parts, count - 1) || has_own_break(parts[count - 1])
    }
}

/// Every line ending starts with a line break byte.
pub proof fn lemma_line_ending(options: FormatOptions)
    ensures
        options.line_ending.bytes().len() >= 1,
        is_line_break(options.line_ending.bytes()[0]),
        forall|i: int|
            0 <= i < options.line_ending.bytes().len() ==> is_line_break(
                #[trigger] options.line_ending.bytes()[i],
            ),
{
}

/// Text without a line break is written as it is, on the current line.
pub proof fn lemma_put_bytes_flat(state: Printing, bytes: Seq<u8>, count: int, options: FormatOptions)
    requires
        0 <= count <= bytes.len(),
        !crate::document::has_line_break(bytes),
    ensures
        put_bytes(state, bytes, count, options).out == state.out + bytes.take(count),
        put_bytes(state, bytes, count, options).line_start == state.line_start,
    decreases count,
{
    if count <= 0 {
        assert(state.out + bytes.take(0) =~= state.out);
    } else {
        lemma_put_bytes_flat(state, bytes, count - 1, options);
        assert(!is_line_break(bytes[count - 1]));
        assert((state.out + bytes.take(count - 1)).push(bytes[count - 1]) =~= state.out
            + bytes.take(count));
    }
}

/// A document that can stand on one line, printed flat, stays on the
/// current line: as many bytes as its flat width are written, none of them
/// a line break.
pub proof fn lemma_flat_stays_on_line(
    doc: Doc,
    level: nat,
    state: Printing,
    options: FormatOptions,
)
    requires
        0 <= state.line_start <= state.out.len(),
        !forces_break(doc),
    ensures
        ({
            let after = print_doc(doc, true, level, state, options);
            &&& continues(state, after)
            &&& after.line_start == state.line_start
            &&& after.out.len() == state.out.len() + flat_width(doc)
            &&& !broke_line(state, after)
        }),
    decreases doc, 0int,
{
    let after = print_doc(doc, true, level, state, options);
    lemma_print_continues(doc, true, level, state, options);
    match doc {
        Doc::Text { bytes, source } => {
            let marked = Printing {
                out: state.out,
                line_start: state.line_start,
                markers: state.markers.push(
                    SourceMarker { source, dest: state.out.len() as usize },
                ),
            };
            lemma_put_bytes_flat(marked, bytes, bytes.len() as int, options);
            assert(bytes.take(bytes.len() as int) =~= bytes);
            assert forall|i: int| state.out.len() <= i < after.out.len() implies !is_line_break(
                #[trigger] after.out[i],
            ) by {
                assert(after.out[i] == bytes[i - state.out.len()]);
            }
        },
        Doc::Indent(inner) => {
            lemma_flat_stays_on_line(*inner, deeper(level), state, options);
        },
        Doc::Group(inner) => {
            lemma_flat_stays_on_line(*inner, level, state, options);
        },
        Doc::Sequence(parts) => {
            lemma_flat_docs_stay_on_line(parts, parts.len() as int, level, state, options);
        },
        _ => {},
    }
}

pub proof fn lemma_flat_docs_stay_on_line(
    parts: Seq<Doc>,
    count: int,
    level: nat,
    state: Printing,
    options: FormatOptions,
)
    requires
        0 <= state.line_start <= state.out.len(),
        0 <= count <= parts.len(),
        !crate::document::any_forces_break(parts, count),
    ensures
        ({
            let after = print_docs(parts, count, true, level, state, options);
            &&& continues(state, after)
            &&& after.line_start == state.line_start
            &&& after.out.len() == state.out.len() + crate::document::sum_flat_width(parts, count)
            &&& !broke_line(state, after)
        }),
    decreases parts, count,
{
    lemma_print_docs_continues(parts, count, true, level, state, options);
    if count > 0 {
        lemma_flat_docs_stay_on_line(parts, count - 1, level, state, options);
        let before = print_docs(parts, count - 1, true, level, state, options);
        lemma_flat_stays_on_line(parts[count - 1], level, before, options);
        let after = print_docs(parts, count, true, level, state, options);
        assert forall|i: int| state.out.len() <= i < after.out.len() implies !is_line_break(
            #[trigger] after.out[i],
        ) by {
            if i < before.out.len() {
                assert(after.out.take(before.out.len() as int)[i] == before.out[i]);
            }
        }
    }
}

/// Width sensitivity, the one half: a group that fits on the line is
/// printed on the line. No line break is written inside it.
pub proof fn lemma_fitting_group_stays_on_line(
    inner: Doc,
    flat: bool,
    level: nat,
    state: Printing,
    options: FormatOptions,
)
    requires
        0 <= state.line_start <= state.out.len(),
        !forces_break(inner),
        column(state) + flat_width(inner) <= options.line_width.spec_value(),
    ensures
        ({
            let after = print_doc(Doc::Group(Box::new(inner)), flat, level, state, options);
            &&& after.line_start == state.line_start
            &&& after.out.len() == state.out.len() + flat_width(inner)
            &&& !broke_line(state, after)
        }),
{
    lemma_flat_stays_on_line(inner, level, state, options);
}

/// A document with a line break of its own, printed in broken mode,
/// breaks the line.
pub proof fn lemma_broken_breaks(doc: Doc, level: nat, state: Printing, options: FormatOptions)
    requires
        0 <= state.line_start <= state.out.len(),
        has_own_break(doc),
    ensures
        broke_line(state, print_doc(doc, false, level, state, options)),
    decreases doc, 0int,
{
    let after = print_doc(doc, false, level, state, options);
    lemma_line_ending(options);
    match doc {
        Doc::Indent(inner) => {
            lemma_broken_breaks(*inner, deeper(level), state, options);
        },
        Doc::Sequence(parts) => {
            lemma_broken_docs_break(parts, parts.len() as int, level, state, options);
        },
        _ => {
            assert(after.out[state.out.len() as int] == options.line_ending.bytes()[0]);
        },
    }
}

pub proof fn lemma_broken_docs_break(
    parts: Seq<Doc>,
    count: int,
    level: nat,
    state: Printing,
    options: FormatOptions,
)
    requires
        0 <= state.line_start <= state.out.len(),
        0 <= count <= parts.len(),
        any_has_own_break(parts, count),
    ensures
        broke_line(state, print_docs(parts, count, false, level, state, options)),
    decreases parts, count,
{
    let before = print_docs(parts, count - 1, false, level, state, options);
    let after = print_docs(parts, count, false, level, state, options);
    lemma_print_docs_continues(parts, count - 1, false, level, state, options);
    lemma_print_continues(parts[count - 1], false, level, before, options);
    if any_has_own_break(parts, count - 1) {
        lemma_broken_docs_break(parts, count - 1, level, state, options);
        let i = choose|i: int|
            state.out.len() <= i < before.out.len() && is_line_break(#[trigger] before.out[i]);
        assert(after.out.take(before.out.len() as int)[i] == after.out[i]);
        assert(is_line_break(after.out[i]));
    } else {
        lemma_broken_breaks(parts[count - 1], level, before, options);
        let i = choose|i: int|
            before.out.len() <= i < after.out.len() && is_line_break(#[trigger] after.out[i]);
        assert(is_line_break(after.out[i]));
    }
}

/// Width sensitivity, the other half: a group whose flat width exceeds
/// what is left of the line is printed broken. Where it holds a soft line
/// break of its own, a line break is written inside it.
pub proof fn lemma_overflowing_group_breaks(
    inner: Doc,
    level: nat,
    state: Printing,
    options: FormatOptions,
)
    requires
        0 <= state.line_start <= state.out.len(),
        column(state) + flat_width(inner) > options.line_width.spec_value(),
        has_own_break(inner),
    ensures
        broke_line(
            state,
            print_doc(Doc::Group(Box::new(inner)), false, level, state, options),
        ),
{
    lemma_broken_breaks(inner, level, state, options);
}

/// Whether two runs of the printer made the same progress: `a` went to
/// `ra` and `b` went to `rb`, both wrote the same bytes, and both stand at
/// the same column.
pub open spec fn same_progress(a: Printing, ra: Printing, b: Printing, rb: Printing) -> bool {
    &&& continues(a, ra)
    &&& continues(b, rb)
    &&& ra.out.skip(a.out.len() as int) == rb.out.skip(b.out.len() as int)
    &&& column(ra) == column(rb)
}

pub proof fn lemma_progress_compose(
    a: Printing,
    ma: Printing,
    ra: Printing,
    b: Printing,
    mb: Printing,
    rb: Printing,
)
    requires
        same_progress(a, ma, b, mb),
        same_progress(ma, ra, mb, rb),
    ensures
        same_progress(a, ra, b, rb),
{
    let ta = ra.out.skip(a.out.len() as int);
    let tb = rb.out.skip(b.out.len() as int);
    assert(ma.out.skip(a.out.len() as int).len() == mb.out.skip(b.out.len() as int).len());
    assert(ra.out.skip(ma.out.len() as int).len() == rb.out.skip(mb.out.len() as int).len());
    assert(ra.out.take(a.out.len() as int) =~= ma.out.take(a.out.len() as int)) by {
        assert forall|i: int| 0 <= i < a.out.len() implies ra.out[i] == ma.out[i] by {
            assert(ra.out.take(ma.out.len() as int)[i] == ma.out[i]);
        }
    }
    assert(rb.out.take(b.out.len() as int) =~= mb.out.take(b.out.len() as int)) by {
        assert forall|i: int| 0 <= i < b.out.len() implies rb.out[i] == mb.out[i] by {
            assert(rb.out.take(mb.out.len() as int)[i] == mb.out[i]);
        }
    }
    assert(ta =~= tb) by {
        assert forall|i: int| 0 <= i < ta.len() implies ta[i] == tb[i] by {
            if a.out.len() + i < ma.out.len() {
                assert(ra.out.take(ma.out.len() as int)[a.out.len() + i] == ma.out[a.out.len()
                    + i]);
                assert(rb.out.take(mb.out.len() as int)[b.out.len() + i] == mb.out[b.out.len()
                    + i]);
                assert(ma.out.skip(a.out.len() as int)[i] == mb.out.skip(b.out.len() as int)[i]);
            } else {
                let j = a.out.len() + i - ma.out.len();
                assert(ra.out.skip(ma.out.len() as int)[j] == rb.out.skip(mb.out.len() as int)[j]);
            }
        }
    }
}

/// A step that appends the same bytes to both runs, and either keeps both
/// on their line or starts a new line at the same place in what it
/// appends, keeps the progress the same.
pub proof fn lemma_progress_step(
    a: Printing,
    ra: Printing,
    b: Printing,
    rb: Printing,
    added: Seq<u8>,
    line: int,
)
    requires
        0 <= a.line_start <= a.out.len(),
        0 <= b.line_start <= b.out.len(),
        column(a) == column(b),
        ra.out == a.out + added,
        rb.out == b.out + added,
        0 <= line <= added.len(),
        line == 0 ==> ra.line_start == a.line_start && rb.line_start == b.line_start,
        line > 0 ==> ra.line_start == a.out.len() + line && rb.line_start == b.out.len() + line,
    ensures
        same_progress(a, ra, b, rb),
{
    assert(ra.out.take(a.out.len() as int) =~= a.out);
    assert(rb.out.take(b.out.len() as int) =~= b.out);
    assert(ra.out.skip(a.out.len() as int) =~= added);
    assert(rb.out.skip(b.out.len() as int) =~= added);
}

/// What the printer writes for a document depends on the layout and on
/// the column at which it stands, not on what it wrote before nor on the
/// source offsets: two runs that start at the same column, on documents
/// that lay out the same, write the same bytes and end at the same column.
pub proof fn lemma_print_alike(
    da: Doc,
    db: Doc,
    flat: bool,
    level: nat,
    a: Printing,
    b: Printing,
    options: FormatOptions,
)
    requires
        same_layout(da, db, options),
        0 <= a.line_start <= a.out.len(),
        0 <= b.line_start <= b.out.len(),
        column(a) == column(b),
    ensures
        same_progress(
            a,
            print_doc(da, flat, level, a, options),
            b,
            print_doc(db, flat, level, b, options),
        ),
    decreases da, 0int,
{
    let ra = print_doc(da, flat, level, a, options);
    let rb = print_doc(db, flat, level, b, options);
    let eol = options.line_ending.bytes();
    let broken = eol + indent_text(options, level);
    lemma_line_ending(options);
    assert(a.out + eol + indent_text(options, level) =~= a.out + broken);
    assert(b.out + eol + indent_text(options, level) =~= b.out + broken);
    assert(a.out.push(0x20u8) =~= a.out + seq![0x20u8]);
    assert(b.out.push(0x20u8) =~= b.out + seq![0x20u8]);
    assert(a.out + Seq::<u8>::empty() =~= a.out);
    assert(b.out + Seq::<u8>::empty() =~= b.out);
    match da {
        Doc::Text { bytes, source } => {
            let other = db->source;
            let theirs = db->bytes;
            let ma = Printing {
                out: a.out,
                line_start: a.line_start,
                markers: a.markers.push(SourceMarker { source, dest: a.out.len() as usize }),
            };
            let mb = Printing {
                out: b.out,
                line_start: b.line_start,
                markers: b.markers.push(
                    SourceMarker { source: other, dest: b.out.len() as usize },
                ),
            };
            assert(same_text(bytes, theirs, options));
            assert(ra == put_bytes(ma, bytes, bytes.len() as int, options));
            assert(rb == put_bytes(mb, theirs, theirs.len() as int, options));
            lemma_put_bytes(ma, bytes, bytes.len() as int, options);
            lemma_put_bytes(mb, theirs, theirs.len() as int, options);
            lemma_normal_reprinted(bytes, bytes.len() as int, options);
            lemma_normal_reprinted(theirs, theirs.len() as int, options);
            let written = normal(bytes, options);
            let line = put_bytes(start_state(), bytes, bytes.len() as int, options).line_start;
            lemma_progress_step(a, ra, b, rb, written, line);
        },
        Doc::Space => {
            assert(db is Space);
            assert(rb == put_space(b));
            lemma_progress_step(a, ra, b, rb, seq![0x20u8], 0);
        },
        Doc::HardLine => {
            assert(db is HardLine);
            assert(rb == break_line(b, level, options));
            lemma_progress_step(a, ra, b, rb, broken, eol.len() as int);
        },
        Doc::SoftLine => {
            assert(db is SoftLine);
            assert(rb == if flat {
                b
            } else {
                break_line(b, level, options)
            });
            if flat {
                lemma_progress_step(a, ra, b, rb, Seq::empty(), 0);
            } else {
                lemma_progress_step(a, ra, b, rb, broken, eol.len() as int);
            }
        },
        Doc::SoftLineOrSpace => {
            assert(db is SoftLineOrSpace);
            assert(rb == if flat {
                put_space(b)
            } else {
                break_line(b, level, options)
            });
            if flat {
                lemma_progress_step(a, ra, b, rb, seq![0x20u8], 0);
            } else {
                lemma_progress_step(a, ra, b, rb, broken, eol.len() as int);
            }
        },
        Doc::Indent(x) => {
            let y = *db->Indent_0;
            assert(same_layout(*x, y, options));
            assert(rb == print_doc(y, flat, deeper(level), b, options));
            lemma_print_alike(*x, y, flat, deeper(level), a, b, options);
        },
        Doc::Group(x) => {
            let y = *db->Group_0;
            assert(same_layout(*x, y, options));
            lemma_same_measure(*x, y, options);
            assert(fits(*x, a, options) == fits(y, b, options));
            assert(rb == print_doc(y, flat || fits(y, b, options), level, b, options));
            lemma_print_alike(*x, y, flat || fits(*x, a, options), level, a, b, options);
        },
        Doc::Sequence(xs) => {
            let ys = db->Sequence_0;
            assert(same_layouts(xs, ys, options));
            assert(rb == print_docs(ys, ys.len() as int, flat, level, b, options));
            lemma_print_docs_alike(xs, ys, xs.len() as int, flat, level, a, b, options);
        },
    }
}

pub proof fn lemma_print_docs_alike(
    xs: Seq<Doc>,
    ys: Seq<Doc>,
    count: int,
    flat: bool,
    level: nat,
    a: Printing,
    b: Printing,
    options: FormatOptions,
)
    requires
        same_layouts(xs, ys, options),
        0 <= a.line_start <= a.out.len(),
        0 <= b.line_start <= b.out.len(),
        column(a) == column(b),
    ensures
        same_progress(
            a,
            print_docs(xs, count, flat, level, a, options),
            b,
            print_docs(ys, count, flat, level, b, options),
        ),
    decreases xs, count,
{
    if count <= 0 || count > xs.len() {
        lemma_progress_step(a, a, b, b, Seq::empty(), 0);
        assert(a.out + Seq::<u8>::empty() =~= a.out);
        assert(b.out + Seq::<u8>::empty() =~= b.out);
    } else {
        lemma_print_docs_alike(xs, ys, count - 1, flat, level, a, b, options);
        let ma = print_docs(xs, count - 1, flat, level, a, options);
        let mb = print_docs(ys, count - 1, flat, level, b, options);
        lemma_print_alike(xs[count - 1], ys[count - 1], flat, level, ma, mb, options);
        lemma_progress_compose(
            a,
            ma,
            print_docs(xs, count, flat, level, a, options),
            b,
            mb,
            print_docs(ys, count, flat, level, b, options),
        );
    }
}

/// What the printer writes for a document depends on the column at which
/// it stands, not on what it wrote before: two runs that start at the
/// same column write the same bytes and end at the same column.
pub proof fn lemma_print_shift(
    doc: Doc,
    flat: bool,
    level: nat,
    a: Printing,
    b: Printing,
    options: FormatOptions,
)
    requires
        0 <= a.line_start <= a.out.len(),
        0 <= b.line_start <= b.out.len(),
        column(a) == column(b),
    ensures
        same_progress(
            a,
            print_doc(doc, flat, level, a, options),
            b,
            print_doc(doc, flat, level, b, options),
        ),
{
    lemma_same_layout_reflexive(doc, options);
    lemma_print_alike(doc, doc, flat, level, a, b, options);
}

/// Documents that lay out the same are printed to the same text.
pub proof fn lemma_printed_alike(a: Doc, b: Doc, options: FormatOptions)
    requires
        same_layout(a, b, options),
    ensures
        printed(a, options).out == printed(b, options).out,
{
    lemma_print_alike(a, b, false, 0, start_state(), start_state(), options);
    assert(printed(a, options).out.skip(0) =~= printed(a, options).out);
    assert(printed(b, options).out.skip(0) =~= printed(b, options).out);
}

/// Printing the first `count` parts reads no part behind them.
pub proof fn lemma_print_docs_prefix(
    p: Seq<Doc>,
    q: Seq<Doc>,
    count: int,
    flat: bool,
    level: nat,
    state: Printing,
    options: FormatOptions,
)
    requires
        0 <= count <= p.len(),
        count <= q.len(),
        p.take(count) == q.take(count),
    ensures
        print_docs(p, count, flat, level, state, options) == print_docs(
            q,
            count,
            flat,
            level,
            state,
            options,
        ),
    decreases count,
{
    if count > 0 {
        assert(p.take(count - 1) =~= p.take(count).take(count - 1));
        assert(q.take(count - 1) =~= q.take(count).take(count - 1));
        lemma_print_docs_prefix(p, q, count - 1, flat, level, state, options);
        assert(p[count - 1] == p.take(count)[count - 1]);
        assert(q[count - 1] == q.take(count)[count - 1]);
    }
}

/// Printing one sequence after another is printing the two joined.
pub proof fn lemma_print_docs_concat(
    x: Seq<Doc>,
    y: Seq<Doc>,
    count: int,
    flat: bool,
    level: nat,
    state: Printing,
    options: FormatOptions,
)
    requires
        0 <= count <= y.len(),
    ensures
        print_docs(x + y, x.len() + count, flat, level, state, options) == print_docs(
            y,
            count,
            flat,
            level,
            print_docs(x, x.len() as int, flat, level, state, options),
            options,
        ),
    decreases count,
{
    if count == 0 {
        assert((x + y).take(x.len() as int) =~= x.take(x.len() as int));
        lemma_print_docs_prefix(x + y, x, x.len() as int, flat, level, state, options);
    } else {
        lemma_print_docs_concat(x, y, count - 1, flat, level, state, options);
        assert((x + y)[x.len() + count - 1] == y[count - 1]);
    }
}

/// Determinism: what is printed is a function of the document and the
/// options. Two runs on equal documents under equal options give the same
/// bytes and the same markers.
pub proof fn lemma_print_deterministic(a: Doc, b: Doc, options_a: FormatOptions, options_b: FormatOptions)
    requires
        a == b,
        options_a == options_b,
    ensures
        printed(a, options_a) == printed(b, options_b),
{
}

/// The printed text and its source markers.
#[derive(Debug, PartialEq, Eq)]
pub struct Formatted {
    pub text: Vec<u8>,
    pub markers: Vec<SourceMarker>,
}

/// The printer.
pub struct Printer {
    out: Vec<u8>,
    line_start: usize,
    markers: Vec<SourceMarker>,
}

impl View for Printer {
    type V = Printing;

    closed spec fn view(&self) -> Printing {
        Printing { out: self.out@, line_start: self.line_start as int, markers: self.markers@ }
    }
}

impl Printer {
    /// The last line starts inside the output.
    pub closed spec fn wf(&self) -> bool {
        self.line_start <= self.out@.len()
    }

    /// The state of a well-formed printer has its last line inside the
    /// output.
    pub proof fn lemma_wf(&self)
        requires
            self.wf(),
        ensures
            0 <= self@.line_start <= self@.out.len(),
    {
    }

    /// A printer that has written nothing.
    pub fn new() -> (p: Printer)
        ensures
            p.wf(),
            p@ == start_state(),
    {
        Printer { out: Vec::new(), line_start: 0, markers: Vec::new() }
    }

    /// A printer that stands behind the indentation of a line at `level`.
    pub fn indented(level: u16, options: &FormatOptions) -> (p: Printer)
        ensures
            p.wf(),
            p@ == (Printing {
                out: indent_text(*options, level as nat),
                line_start: 0,
                markers: Seq::empty(),
            }),
    {
        let mut p = Printer { out: Vec::new(), line_start: 0, markers: Vec::new() };
        p.write_indent(level, options);
        proof {
            assert(Seq::<u8>::empty() + indent_text(*options, level as nat) =~= indent_text(
                *options,
                level as nat,
            ));
        }
        p
    }

    /// The number of bytes written so far.
    pub fn len(&self) -> (n: usize)
        ensures
            n == self@.out.len(),
    {
        self.out.len()
    }

    /// Ends printing and hands out the text and the markers.
    pub fn finish(self) -> (r: Formatted)
        ensures
            r.text@ == self@.out,
            r.markers@ == self@.markers,
    {
        Formatted { text: self.out, markers: self.markers }
    }

    fn write_indent(&mut self, level: u16, options: &FormatOptions)
        ensures
            final(self).out@ == old(self).out@ + indent_text(*options, level as nat),
            final(self).line_start == old(self).line_start,
            final(self).markers == old(self).markers,
    {
        let width: u8 = options.indent_width.value();
        let unit: u8 = options.indent_style.byte();
        assert(level as nat * (width as nat) <= 0xffff * 24) by (nonlinear_arith)
            requires
                level <= 0xffff,
                width <= 24,
        ;
        let count: u32 = (level as u32) * (width as u32);
        let ghost before = self.out@;
        let mut i: u32 = 0;
        while i < count
            invariant
                i <= count,
                count == level as nat * (width as nat),
                width == options.indent_width.spec_value(),
                unit == options.indent_style.byte(),
                self.line_start == old(self).line_start,
                self.markers == old(self).markers,
                self.out@ == before + Seq::new(i as nat, |k: int| unit),
            decreases count - i,
        {
            self.out.push(unit);
            proof {
                assert(self.out@ =~= before + Seq::new((i + 1) as nat, |k: int| unit));
            }
            i = i + 1;
        }
        proof {
            assert(self.out@ =~= before + indent_text(*options, level as nat));
        }
    }

    fn write_break(&mut self, level: u16, options: &FormatOptions)
        requires
            old(self).wf(),
        ensures
            final(self).wf(),
            final(self)@ == break_line(old(self)@, level as nat, *options),
    {
        options.line_ending.write(&mut self.out);
        self.line_start = self.out.len();
        self.write_indent(level, options);
    }

    fn write_space(&mut self)
        requires
            old(self).wf(),
        ensures
            final(self).wf(),
            final(self)@ == put_space(old(self)@),
    {
        self.out.push(0x20);
    }

    fn write_text(&mut self, bytes: &Vec<u8>, source: usize, options: &FormatOptions)
        requires
            old(self).wf(),
        ensures
            final(self).wf(),
            final(self)@ == put_text(old(self)@, bytes@, source, *options),
    {
        self.markers.push(SourceMarker { source, dest: self.out.len() });
        let ghost marked = self@;
        let mut i: usize = 0;
        while i < bytes.len()
            invariant
                i <= bytes@.len(),
                self.wf(),
                self@ == put_bytes(marked, bytes@, i as int, *options),
            decreases bytes@.len() - i,
        {
            let b: u8 = bytes[i];
            if b == 0x0a && i >= 1 && bytes[i - 1] == 0x0d {
            } else if b == 0x0a || b == 0x0d {
                options.line_ending.write(&mut self.out);
                self.line_start = self.out.len();
            } else {
                self.out.push(b);
            }
            i = i + 1;
        }
    }

    /// Prints `document` at `level`, in flat mode where `flat` is set.
    pub fn print_document(
        &mut self,
        document: &Document,
        flat: bool,
        level: u16,
        options: &FormatOptions,
    )
        requires
            old(self).wf(),
        ensures
            final(self).wf(),
            final(self)@ == print_doc(document@, flat, level as nat, old(self)@, *options),
        decreases document,
    {
        match document {
            Document::Text { bytes, source } => {
                self.write_text(bytes, *source, options);
            },
            Document::Space => {
                self.write_space();
            },
            Document::HardLine => {
                self.write_break(level, options);
            },
            Document::SoftLine => {
                if !flat {
                    self.write_break(level, options);
                }
            },
            Document::SoftLineOrSpace => {
                if flat {
                    self.write_space();
                } else {
                    self.write_break(level, options);
                }
            },
            Document::Indent(inner) => {
                let next: u16 = if level < MAX_LEVEL {
                    level + 1
                } else {
                    level
                };
                self.print_document(inner, flat, next, options);
            },
            Document::Group(inner) => {
                let laid_flat: bool = flat || self.fits(inner, options);
                self.print_document(inner, laid_flat, level, options);
            },
            Document::Sequence(parts) => {
                let ghost docs = documents_view(parts@);
                let ghost before = self@;
                proof {
                    lemma_sequence_view(*parts);
                }
                let mut i: usize = 0;
                while i < parts.len()
                    invariant
                        i <= parts@.len(),
                        self.wf(),
                        docs == documents_view(parts@),
                        *document == Document::Sequence(*parts),
                        self@ == print_docs(docs, i as int, flat, level as nat, before, *options),
                    decreases parts@.len() - i,
                {
                    proof {
                        assert(docs[i as int] == parts@[i as int]@);
                        assert(decreases_to!(*parts => parts@[i as int]));
                        assert(document->Sequence_0 == *parts);
                        assert(decreases_to!(*document => document->Sequence_0));
                        assert(decreases_to!(*document => parts@[i as int]));
                    }
                    self.print_document(&parts[i], flat, level, options);
                    i = i + 1;
                }
            },
        }
    }

    /// Whether the group around `document` is laid out flat from here on.
    pub fn fits(&self, document: &Document, options: &FormatOptions) -> (r: bool)
        requires
            self.wf(),
        ensures
            r == fits(document@, self@, *options),
    {
        let width: usize = options.line_width.value() as usize;
        let column: usize = self.out.len() - self.line_start;
        if column > width {
            false
        } else {
            measure(document, width - column).is_some()
        }
    }
}

/// Prints `document` under `options`. The output is fixed by
/// [`printed`]: the same document and options always give the same bytes.
pub fn print(document: &Document, options: &FormatOptions) -> (r: Formatted)
    ensures
        r.text@ == printed(document@, *options).out,
        r.markers@ == printed(document@, *options).markers,
{
    let mut printer = Printer::new();
    printer.print_document(document, false, 0, options);
    printer.finish()
}

} // verus!
