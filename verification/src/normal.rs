//! Line breaks in printed text: every line break of a text is written as
//! the configured line ending, and a text that was written so is written
//! the same again.
use crate::document::has_line_break;
use crate::lexer::is_line_break;
use crate::options::FormatOptions;
use crate::options::LineEnding;
use crate::printer::lemma_line_ending;
use crate::printer::Printing;
use crate::printer::put_bytes;
use crate::printer::start_state;
use vstd::prelude::*;

verus! {

/// The first `count` bytes of `bytes` with every line break written as the
/// configured line ending.
pub open spec fn normalized(bytes: Seq<u8>, count: int, options: FormatOptions) -> Seq<u8> {
    put_bytes(start_state(), bytes, count, options).out
}

/// `bytes` with every line break written as the configured line ending.
pub open spec fn normal(bytes: Seq<u8>, options: FormatOptions) -> Seq<u8> {
    normalized(bytes, bytes.len() as int, options)
}

/// Whether `bytes` reads as text that was written with the line ending of
/// `options`: under `\r\n`, every `\r` is followed by `\n` and every `\n`
/// follows a `\r`; under `\n` there is no `\r`, and under `\r` no `\n`.
pub open spec fn written(bytes: Seq<u8>, options: FormatOptions) -> bool {
    match options.line_ending {
        LineEnding::Lf => forall|i: int| 0 <= i < bytes.len() ==> #[trigger] bytes[i] != 0x0d,
        LineEnding::Cr => forall|i: int| 0 <= i < bytes.len() ==> #[trigger] bytes[i] != 0x0a,
        LineEnding::Crlf => {
            &&& forall|i: int|
                0 <= i < bytes.len() && #[trigger] bytes[i] == 0x0d ==> i + 1 < bytes.len()
                    && bytes[i + 1] == 0x0a
            &&& forall|i: int|
                0 <= i < bytes.len() && #[trigger] bytes[i] == 0x0a ==> i >= 1 && bytes[i - 1]
                    == 0x0d
        },
    }
}

/// What the printer does to its state when it writes text: the output
/// grows by the normalized text, and the last line starts behind the last
/// line break of the text, or where it started if the text has none.
pub proof fn lemma_put_bytes(state: Printing, bytes: Seq<u8>, count: int, options: FormatOptions)
    requires
        0 <= count <= bytes.len(),
    ensures
        ({
            let after = put_bytes(state, bytes, count, options);
            let alone = put_bytes(start_state(), bytes, count, options);
            &&& after.out == state.out + alone.out
            &&& after.markers == state.markers
            &&& 0 <= alone.line_start <= alone.out.len()
            &&& alone.line_start == 0 <==> !has_line_break(bytes.take(count))
            &&& after.line_start == if alone.line_start == 0 {
                state.line_start
            } else {
                state.out.len() + alone.line_start
            }
        }),
    decreases count,
{
    lemma_line_ending(options);
    let eol = options.line_ending.bytes();
    if count <= 0 {
        assert(state.out + Seq::<u8>::empty() =~= state.out);
        assert(bytes.take(0) =~= Seq::<u8>::empty());
    } else {
        lemma_put_bytes(state, bytes, count - 1, options);
        let before = put_bytes(state, bytes, count - 1, options);
        let alone_before = put_bytes(start_state(), bytes, count - 1, options);
        let after = put_bytes(state, bytes, count, options);
        let alone = put_bytes(start_state(), bytes, count, options);
        let b = bytes[count - 1];
        let shorter = bytes.take(count - 1);
        let longer = bytes.take(count);
        assert(longer[count - 1] == b);
        assert forall|i: int| 0 <= i < count - 1 implies shorter[i] == longer[i] by {}
        if has_line_break(shorter) {
            let i = choose|i: int| 0 <= i < shorter.len() && is_line_break(#[trigger] shorter[i]);
            assert(is_line_break(longer[i]));
        }
        if has_line_break(longer) && !is_line_break(b) {
            let i = choose|i: int| 0 <= i < longer.len() && is_line_break(#[trigger] longer[i]);
            assert(is_line_break(shorter[i]));
        }
        if b == 0x0a && count >= 2 && bytes[count - 2] == 0x0d {
            assert(is_line_break(shorter[count - 2]));
        } else if is_line_break(b) {
            assert(after.out =~= state.out + alone.out);
        } else {
            assert(after.out =~= state.out + alone.out);
        }
    }
}

/// Text without a line break is written as it is.
pub proof fn lemma_normal_plain(bytes: Seq<u8>, options: FormatOptions)
    requires
        !has_line_break(bytes),
    ensures
        normal(bytes, options) == bytes,
{
    crate::printer::lemma_put_bytes_flat(start_state(), bytes, bytes.len() as int, options);
    assert(bytes.take(bytes.len() as int) =~= bytes);
    assert(Seq::<u8>::empty() + bytes =~= bytes);
}

/// Writing one text after another is writing the two joined, unless the
/// join puts a `\n` behind a `\r`.
pub proof fn lemma_put_bytes_concat(
    state: Printing,
    u: Seq<u8>,
    v: Seq<u8>,
    count: int,
    options: FormatOptions,
)
    requires
        0 <= count <= v.len(),
        !(u.len() > 0 && v.len() > 0 && u.last() == 0x0d && v[0] == 0x0a),
    ensures
        put_bytes(state, u + v, u.len() + count, options) == put_bytes(
            put_bytes(state, u, u.len() as int, options),
            v,
            count,
            options,
        ),
    decreases count,
{
    let w = u + v;
    if count == 0 {
        lemma_put_bytes_prefix(state, w, u, u.len() as int, options);
    } else {
        lemma_put_bytes_concat(state, u, v, count - 1, options);
        assert(w[u.len() + count - 1] == v[count - 1]);
        if count >= 2 {
            assert(w[u.len() + count - 2] == v[count - 2]);
        } else if u.len() > 0 {
            assert(w[u.len() + count - 2] == u.last());
        }
    }
}

/// Writing the first `count` bytes of a text reads no byte behind them.
pub proof fn lemma_put_bytes_prefix(
    state: Printing,
    w: Seq<u8>,
    u: Seq<u8>,
    count: int,
    options: FormatOptions,
)
    requires
        0 <= count <= u.len() <= w.len(),
        forall|i: int| 0 <= i < count ==> w[i] == u[i],
    ensures
        put_bytes(state, w, count, options) == put_bytes(state, u, count, options),
    decreases count,
{
    if count > 0 {
        lemma_put_bytes_prefix(state, w, u, count - 1, options);
    }
}

/// Normalized text reads as written with the configured line ending, and
/// does not end in the middle of a line ending.
pub proof fn lemma_normalized_is_written(bytes: Seq<u8>, count: int, options: FormatOptions)
    requires
        0 <= count <= bytes.len(),
    ensures
        written(normalized(bytes, count, options), options),
    decreases count,
{
    lemma_line_ending(options);
    if count > 0 {
        lemma_normalized_is_written(bytes, count - 1, options);
        let before = normalized(bytes, count - 1, options);
        let after = normalized(bytes, count, options);
        let b = bytes[count - 1];
        let eol = options.line_ending.bytes();
        if b == 0x0a && count >= 2 && bytes[count - 2] == 0x0d {
        } else if is_line_break(b) {
            assert(after == before + eol);
            match options.line_ending {
                LineEnding::Crlf => {
                    assert forall|i: int|
                        0 <= i < after.len() && #[trigger] after[i] == 0x0d implies i + 1
                        < after.len() && after[i + 1] == 0x0a by {
                        if i < before.len() {
                            assert(before[i] == 0x0d);
                        }
                    }
                    assert forall|i: int|
                        0 <= i < after.len() && #[trigger] after[i] == 0x0a implies i >= 1
                        && after[i - 1] == 0x0d by {
                        if i < before.len() {
                            assert(before[i] == 0x0a);
                        }
                    }
                },
                LineEnding::Lf => {
                    assert forall|i: int| 0 <= i < after.len() implies #[trigger] after[i]
                        != 0x0d by {
                        if i < before.len() {
                            assert(before[i] != 0x0d);
                        }
                    }
                },
                LineEnding::Cr => {
                    assert forall|i: int| 0 <= i < after.len() implies #[trigger] after[i]
                        != 0x0a by {
                        if i < before.len() {
                            assert(before[i] != 0x0a);
                        }
                    }
                },
            }
        } else {
            assert(after == before.push(b));
            match options.line_ending {
                LineEnding::Crlf => {
                    assert forall|i: int|
                        0 <= i < after.len() && #[trigger] after[i] == 0x0d implies i + 1
                        < after.len() && after[i + 1] == 0x0a by {
                        assert(i < before.len());
                        assert(before[i] == 0x0d);
                        assert(after[i + 1] == before[i + 1]);
                    }
                    assert forall|i: int|
                        0 <= i < after.len() && #[trigger] after[i] == 0x0a implies i >= 1
                        && after[i - 1] == 0x0d by {
                        assert(before[i] == 0x0a);
                    }
                },
                LineEnding::Lf => {
                    assert forall|i: int| 0 <= i < after.len() implies #[trigger] after[i]
                        != 0x0d by {
                        if i < before.len() {
                            assert(before[i] != 0x0d);
                        }
                    }
                },
                LineEnding::Cr => {
                    assert forall|i: int| 0 <= i < after.len() implies #[trigger] after[i]
                        != 0x0a by {
                        if i < before.len() {
                            assert(before[i] != 0x0a);
                        }
                    }
                },
            }
        }
    }
}

/// Text that reads as written with the configured line ending is written
/// as it is: the printer changes nothing in it.
pub proof fn lemma_written_is_kept(bytes: Seq<u8>, count: int, options: FormatOptions)
    requires
        0 <= count <= bytes.len(),
        written(bytes, options),
        count < bytes.len() ==> !(bytes[count] == 0x0a && count >= 1 && bytes[count - 1] == 0x0d),
    ensures
        normalized(bytes, count, options) == bytes.take(count),
    decreases count,
{
    lemma_line_ending(options);
    if count <= 0 {
        assert(bytes.take(0) =~= Seq::<u8>::empty());
    } else {
        let b = bytes[count - 1];
        let after = normalized(bytes, count, options);
        if b == 0x0a && count >= 2 && bytes[count - 2] == 0x0d {
            lemma_written_is_kept(bytes, count - 2, options);
            let before = normalized(bytes, count - 2, options);
            assert(normalized(bytes, count - 1, options) == before + options.line_ending.bytes());
            assert(options.line_ending == LineEnding::Crlf);
            assert(after =~= bytes.take(count));
        } else {
            assert(b == 0x0d ==> !(options.line_ending == LineEnding::Crlf)) by {
                if b == 0x0d && options.line_ending == LineEnding::Crlf {
                    assert(bytes[count - 1] == 0x0d);
                    assert(count < bytes.len() && bytes[count] == 0x0a);
                }
            }
            lemma_written_is_kept(bytes, count - 1, options);
            assert(after =~= bytes.take(count));
        }
    }
}

/// What the printer does to its state when it writes text that it wrote
/// before: the text is written as it is, and the last line starts where
/// it started when the text was first written.
pub proof fn lemma_normal_reprinted(bytes: Seq<u8>, count: int, options: FormatOptions)
    requires
        0 <= count <= bytes.len(),
    ensures
        ({
            let first = put_bytes(start_state(), bytes, count, options);
            let again = put_bytes(start_state(), first.out, first.out.len() as int, options);
            &&& again.out == first.out
            &&& again.line_start == first.line_start
        }),
    decreases count,
{
    lemma_line_ending(options);
    let eol = options.line_ending.bytes();
    let first = put_bytes(start_state(), bytes, count, options);
    if count <= 0 {
    } else {
        lemma_normal_reprinted(bytes, count - 1, options);
        lemma_normalized_is_written(bytes, count - 1, options);
        let before = put_bytes(start_state(), bytes, count - 1, options);
        let again_before = put_bytes(start_state(), before.out, before.out.len() as int, options);
        let b = bytes[count - 1];
        if b == 0x0a && count >= 2 && bytes[count - 2] == 0x0d {
        } else if is_line_break(b) {
            assert(first.out == before.out + eol);
            if before.out.len() > 0 && before.out.last() == 0x0d && eol[0] == 0x0a {
                assert(options.line_ending == LineEnding::Lf);
                assert(before.out[before.out.len() - 1] != 0x0d);
            }
            lemma_put_bytes_concat(start_state(), before.out, eol, eol.len() as int, options);
            let tail = put_bytes(again_before, eol, eol.len() as int, options);
            assert(put_bytes(again_before, eol, 0, options) == again_before);
            let one = put_bytes(again_before, eol, 1, options);
            assert(is_line_break(eol[0]));
            assert(one.out == again_before.out + eol);
            assert(one.line_start == again_before.out.len() + eol.len());
            assert(tail == one) by {
                if eol.len() == 2 {
                    assert(eol[1] == 0x0a && eol[0] == 0x0d);
                }
            }
            assert(before.out + eol == first.out);
        } else {
            assert(first.out == before.out.push(b));
            assert(before.out.push(b) =~= before.out + seq![b]);
            if before.out.len() > 0 && before.out.last() == 0x0d {
                assert(b != 0x0a);
            }
            lemma_put_bytes_concat(start_state(), before.out, seq![b], 1, options);
            assert(put_bytes(again_before, seq![b], 0, options) == again_before);
            let tail = put_bytes(again_before, seq![b], 1, options);
            assert(tail.out =~= again_before.out.push(b));
        }
    }
}

/// Normalizing is idempotent: text whose line breaks were written as the
/// configured line ending is written the same again.
pub proof fn lemma_normal_twice(bytes: Seq<u8>, options: FormatOptions)
    ensures
        normal(normal(bytes, options), options) == normal(bytes, options),
{
    let once = normal(bytes, options);
    lemma_normalized_is_written(bytes, bytes.len() as int, options);
    lemma_written_is_kept(once, once.len() as int, options);
    assert(once.take(once.len() as int) =~= once);
}

} // verus!
