//! Reading a token again where the printer put it: the lexer reads, at the
//! place of a token in the output, the token that it read in the source.
use crate::kind::TokenKind;
use crate::lexer::ByteClass;
use crate::lexer::comment_closes;
use crate::lexer::comment_end;
use crate::lexer::in_class;
use crate::lexer::is_digit;
use crate::lexer::is_ident_byte;
use crate::lexer::is_line_break;
use crate::lexer::is_space;
use crate::lexer::lemma_token_at_span;
use crate::lexer::run_end;
use crate::lexer::string_closes;
use crate::lexer::string_end;
use crate::lexer::Token;
use crate::lexer::token_at;
use crate::lexer::token_end_at;
use crate::lexer::token_kind_at;
use crate::normal::lemma_put_bytes;
use crate::normal::lemma_put_bytes_concat;
use crate::normal::normal;
use crate::options::FormatOptions;
use crate::options::LineEnding;
use crate::printer::lemma_line_ending;
use crate::printer::put_bytes;
use crate::printer::start_state;
use vstd::prelude::*;

verus! {

/// Two texts, one after the other, are written as the two are written,
/// unless the join puts a `\n` behind a `\r`.
pub proof fn lemma_normal_concat(u: Seq<u8>, v: Seq<u8>, options: FormatOptions)
    requires
        !(u.len() > 0 && v.len() > 0 && u.last() == 0x0d && v[0] == 0x0a),
    ensures
        normal(u + v, options) == normal(u, options) + normal(v, options),
{
    lemma_put_bytes_concat(start_state(), u, v, v.len() as int, options);
    lemma_put_bytes(put_bytes(start_state(), u, u.len() as int, options), v, v.len() as int, options);
}

/// One byte is written as it is, and a line break as the line ending.
pub proof fn lemma_normal_one(b: u8, options: FormatOptions)
    ensures
        normal(seq![b], options) == if is_line_break(b) {
            options.line_ending.bytes()
        } else {
            seq![b]
        },
{
    let one = seq![b];
    assert(put_bytes(start_state(), one, 0, options) == start_state());
    assert(one[0] == b);
    if is_line_break(b) {
        assert(normal(one, options) =~= options.line_ending.bytes());
    } else {
        assert(normal(one, options) =~= seq![b]);
    }
}

/// `\r\n` is written as one line ending.
pub proof fn lemma_normal_crlf(options: FormatOptions)
    ensures
        normal(seq![0x0du8, 0x0au8], options) == options.line_ending.bytes(),
{
    let two = seq![0x0du8, 0x0au8];
    assert(put_bytes(start_state(), two, 0, options) == start_state());
    assert(two[0] == 0x0d);
    assert(two[1] == 0x0a);
    assert(put_bytes(start_state(), two, 1, options).out =~= options.line_ending.bytes());
}

/// The end of a run is where a byte outside the class stands, or the end
/// of the text; every byte before it is of the class.
pub proof fn lemma_run_scan(text: Seq<u8>, pos: int, class: ByteClass)
    requires
        0 <= pos <= text.len(),
    ensures
        pos <= run_end(text, pos, class) <= text.len(),
        forall|k: int| pos <= k < run_end(text, pos, class) ==> in_class(class, #[trigger] text[k]),
        run_end(text, pos, class) == text.len() || !in_class(
            class,
            text[run_end(text, pos, class)],
        ),
    decreases text.len() - pos,
{
    if pos < text.len() && in_class(class, text[pos]) {
        lemma_run_scan(text, pos + 1, class);
    }
}

/// A run whose bytes are known ends where they end.
pub proof fn lemma_run_known(text: Seq<u8>, pos: int, class: ByteClass, count: int)
    requires
        0 <= pos,
        0 <= count,
        pos + count <= text.len(),
        forall|j: int| 0 <= j < count ==> in_class(class, #[trigger] text[pos + j]),
        pos + count == text.len() || !in_class(class, text[pos + count]),
    ensures
        run_end(text, pos, class) == pos + count,
    decreases count,
{
    if count > 0 {
        assert(in_class(class, text[pos + 0]));
        assert forall|j: int| 0 <= j < count - 1 implies in_class(
            class,
            #[trigger] text[pos + 1 + j],
        ) by {
            assert(in_class(class, text[pos + (j + 1)]));
        }
        lemma_run_known(text, pos + 1, class, count - 1);
    }
}

/// The rest of a comment from `pos` on, as the printer writes it: up to
/// and with its `*/`, every line break as the line ending.
pub open spec fn comment_written(text: Seq<u8>, pos: int, options: FormatOptions) -> Seq<u8>
    decreases text.len() - pos,
{
    if pos < 0 || pos >= text.len() {
        Seq::empty()
    } else if text[pos] == 0x2a && pos + 1 < text.len() && text[pos + 1] == 0x2f {
        seq![0x2au8, 0x2fu8]
    } else if text[pos] == 0x0d && pos + 1 < text.len() && text[pos + 1] == 0x0a {
        options.line_ending.bytes() + comment_written(text, pos + 2, options)
    } else if is_line_break(text[pos]) {
        options.line_ending.bytes() + comment_written(text, pos + 1, options)
    } else {
        seq![text[pos]] + comment_written(text, pos + 1, options)
    }
}

/// The text of a comment from `pos` to its end is written as
/// [`comment_written`] says.
pub proof fn lemma_comment_written(text: Seq<u8>, pos: int, options: FormatOptions)
    requires
        0 <= pos <= text.len(),
    ensures
        pos <= comment_end(text, pos) <= text.len(),
        normal(text.subrange(pos, comment_end(text, pos)), options) == comment_written(
            text,
            pos,
            options,
        ),
    decreases text.len() - pos,
{
    let end = comment_end(text, pos);
    let rest = text.subrange(pos, end);
    if pos >= text.len() {
        assert(rest =~= Seq::<u8>::empty());
    } else if text[pos] == 0x2a && pos + 1 < text.len() && text[pos + 1] == 0x2f {
        assert(rest =~= seq![0x2au8] + seq![0x2fu8]);
        lemma_normal_one(0x2au8, options);
        lemma_normal_one(0x2fu8, options);
        lemma_normal_concat(seq![0x2au8], seq![0x2fu8], options);
        assert(seq![0x2au8] + seq![0x2fu8] =~= seq![0x2au8, 0x2fu8]);
    } else if text[pos] == 0x0d && pos + 1 < text.len() && text[pos + 1] == 0x0a {
        if pos + 2 >= text.len() {
            assert(comment_end(text, pos + 1) == text.len());
            assert(comment_end(text, pos + 2) == text.len());
        } else {
            assert(comment_end(text, pos + 1) == comment_end(text, pos + 2));
        }
        lemma_comment_written(text, pos + 2, options);
        let tail = text.subrange(pos + 2, end);
        assert(rest =~= seq![0x0du8, 0x0au8] + tail);
        lemma_normal_crlf(options);
        lemma_normal_concat(seq![0x0du8, 0x0au8], tail, options);
    } else {
        if pos + 1 >= text.len() {
            assert(comment_end(text, pos + 1) == text.len());
        }
        lemma_comment_written(text, pos + 1, options);
        let tail = text.subrange(pos + 1, end);
        assert(rest =~= seq![text[pos]] + tail);
        lemma_normal_one(text[pos], options);
        if tail.len() > 0 {
            assert(tail[0] == text[pos + 1]);
        }
        lemma_normal_concat(seq![text[pos]], tail, options);
    }
}

/// A comment that is written in `out` at `at` as the printer writes it is
/// read there to its end, and is closed there where it was closed: a
/// comment that is not closed must reach to the end of `out`.
pub proof fn lemma_comment_read(
    text: Seq<u8>,
    pos: int,
    out: Seq<u8>,
    at: int,
    options: FormatOptions,
)
    requires
        0 <= pos <= text.len(),
        0 <= at,
        at + comment_written(text, pos, options).len() <= out.len(),
        out.subrange(at, at + comment_written(text, pos, options).len()) == comment_written(
            text,
            pos,
            options,
        ),
        !comment_closes(text, pos) ==> at + comment_written(text, pos, options).len()
            == out.len(),
    ensures
        comment_end(out, at) == at + comment_written(text, pos, options).len(),
        comment_closes(out, at) == comment_closes(text, pos),
    decreases text.len() - pos,
{
    lemma_line_ending(options);
    let written = comment_written(text, pos, options);
    let eol = options.line_ending.bytes();
    assert forall|i: int| 0 <= i < written.len() implies out[at + i] == written[i] by {
        assert(out.subrange(at, at + written.len())[i] == out[at + i]);
    }
    if pos >= text.len() {
    } else if text[pos] == 0x2a && pos + 1 < text.len() && text[pos + 1] == 0x2f {
        assert(out[at + 0] == written[0]);
        assert(out[at + 1] == written[1]);
    } else {
        let step = if text[pos] == 0x0d && pos + 1 < text.len() && text[pos + 1] == 0x0a {
            2int
        } else {
            1int
        };
        let head = if is_line_break(text[pos]) {
            eol
        } else {
            seq![text[pos]]
        };
        let rest = comment_written(text, pos + step, options);
        assert(written == head + rest);
        assert(comment_closes(text, pos) == comment_closes(text, pos + step)) by {
            if step == 2 {
                if pos + 2 >= text.len() {
                    assert(!comment_closes(text, pos + 1));
                } else {
                    assert(comment_closes(text, pos + 1) == comment_closes(text, pos + 2));
                }
            }
        }
        assert(out.subrange(at + head.len(), at + head.len() + rest.len()) =~= rest) by {
            assert forall|i: int| 0 <= i < rest.len() implies out[at + head.len() + i]
                == rest[i] by {
                assert(written[head.len() + i] == rest[i]);
            }
        }
        lemma_comment_read(text, pos + step, out, at + head.len(), options);
        assert(head.len() >= 1);
        assert(written[0] == head[0]);
        assert(out[at + 0] == written[0]);
        assert(out[at + 0] == head[0]);
        let next_is_slash = at + 1 < out.len() && out[at + 1] == 0x2f;
        if head.len() == 2 {
            assert(written[1] == head[1]);
            assert(out[at + 1] == written[1]);
            assert(out[at + 1] == head[1]);
            assert(comment_end(out, at + 1) == comment_end(out, at + 2)) by {
                if at + 2 >= out.len() {
                }
            }
            assert(comment_closes(out, at + 1) == comment_closes(out, at + 2));
        }
        if head[0] == 0x2a && next_is_slash {
            assert(rest.len() > 0);
            assert(out[at + 1] == rest[0]);
            assert(!is_line_break(text[pos]));
            assert(text[pos] == 0x2a);
            if pos + 1 < text.len() {
                assert(text[pos + 1] != 0x2f);
            }
            assert(false);
        }
    }
}

/// The rest of a string from `pos` on, as the printer writes it: up to and
/// with its closing quote, or up to the line break that cuts it short,
/// written as the line ending.
pub open spec fn string_written(text: Seq<u8>, pos: int, quote: u8, options: FormatOptions) -> Seq<
    u8,
>
    decreases text.len() - pos,
{
    if pos < 0 || pos >= text.len() {
        Seq::empty()
    } else if text[pos] == quote {
        seq![quote]
    } else if is_line_break(text[pos]) {
        options.line_ending.bytes()
    } else if text[pos] == 0x5c && pos + 1 < text.len() && !is_line_break(text[pos + 1]) {
        seq![text[pos], text[pos + 1]] + string_written(text, pos + 2, quote, options)
    } else {
        seq![text[pos]] + string_written(text, pos + 1, quote, options)
    }
}

/// The text of a string from `pos` to its end is written as
/// [`string_written`] says.
pub proof fn lemma_string_written(text: Seq<u8>, pos: int, quote: u8, options: FormatOptions)
    requires
        0 <= pos <= text.len(),
        !is_line_break(quote),
    ensures
        pos <= string_end(text, pos, quote) <= text.len(),
        normal(text.subrange(pos, string_end(text, pos, quote)), options) == string_written(
            text,
            pos,
            quote,
            options,
        ),
    decreases text.len() - pos,
{
    let end = string_end(text, pos, quote);
    let rest = text.subrange(pos, end);
    if pos >= text.len() {
        assert(rest =~= Seq::<u8>::empty());
    } else if text[pos] == 0x0d && pos + 1 < text.len() && text[pos + 1] == 0x0a {
        assert(rest =~= seq![0x0du8, 0x0au8]);
        lemma_normal_crlf(options);
    } else if text[pos] == quote || is_line_break(text[pos]) {
        assert(rest =~= seq![text[pos]]);
        lemma_normal_one(text[pos], options);
    } else if text[pos] == 0x5c && pos + 1 < text.len() && !is_line_break(text[pos + 1]) {
        lemma_string_written(text, pos + 2, quote, options);
        let tail = text.subrange(pos + 2, end);
        let head = seq![text[pos], text[pos + 1]];
        assert(rest =~= head + tail);
        assert(head =~= seq![text[pos]] + seq![text[pos + 1]]);
        lemma_normal_one(text[pos], options);
        lemma_normal_one(text[pos + 1], options);
        lemma_normal_concat(seq![text[pos]], seq![text[pos + 1]], options);
        assert(seq![text[pos]] + seq![text[pos + 1]] =~= head);
        assert(head.last() == text[pos + 1]);
        lemma_normal_concat(head, tail, options);
    } else {
        lemma_string_written(text, pos + 1, quote, options);
        let tail = text.subrange(pos + 1, end);
        assert(rest =~= seq![text[pos]] + tail);
        lemma_normal_one(text[pos], options);
        lemma_normal_concat(seq![text[pos]], tail, options);
    }
}

/// A string that is written in `out` at `at` as the printer writes it is
/// read there to its end, and is closed there where it was closed. A
/// string that is not closed must reach to the end of `out`, and behind a
/// line ending `\r` that cuts a string short no `\n` may stand.
pub proof fn lemma_string_read(
    text: Seq<u8>,
    pos: int,
    quote: u8,
    out: Seq<u8>,
    at: int,
    options: FormatOptions,
)
    requires
        0 <= pos <= text.len(),
        !is_line_break(quote),
        0 <= at,
        at + string_written(text, pos, quote, options).len() <= out.len(),
        out.subrange(at, at + string_written(text, pos, quote, options).len())
            == string_written(text, pos, quote, options),
        !string_closes(text, pos, quote) ==> at + string_written(text, pos, quote, options).len()
            == out.len(),
        options.line_ending == LineEnding::Cr && at + string_written(
            text,
            pos,
            quote,
            options,
        ).len() < out.len() ==> out[at + string_written(text, pos, quote, options).len()] != 0x0a,
    ensures
        string_end(out, at, quote) == at + string_written(text, pos, quote, options).len(),
        string_closes(out, at, quote) == string_closes(text, pos, quote),
    decreases text.len() - pos,
{
    lemma_line_ending(options);
    let written = string_written(text, pos, quote, options);
    let eol = options.line_ending.bytes();
    assert forall|i: int| 0 <= i < written.len() implies out[at + i] == written[i] by {
        assert(out.subrange(at, at + written.len())[i] == out[at + i]);
    }
    if pos >= text.len() {
    } else if text[pos] == quote {
        assert(out[at + 0] == written[0]);
    } else if is_line_break(text[pos]) {
        assert(out[at + 0] == eol[0]);
        if eol.len() == 2 {
            assert(out[at + 1] == eol[1]);
        }
        assert(string_closes(text, pos, quote));
    } else if text[pos] == 0x5c && pos + 1 < text.len() && !is_line_break(text[pos + 1]) {
        let rest = string_written(text, pos + 2, quote, options);
        assert(out[at + 0] == written[0]);
        assert(out[at + 1] == written[1]);
        assert(out.subrange(at + 2, at + 2 + rest.len()) =~= rest) by {
            assert forall|i: int| 0 <= i < rest.len() implies out[at + 2 + i] == rest[i] by {
                assert(written[2 + i] == rest[i]);
            }
        }
        lemma_string_read(text, pos + 2, quote, out, at + 2, options);
    } else {
        let rest = string_written(text, pos + 1, quote, options);
        assert(out[at + 0] == written[0]);
        assert(out.subrange(at + 1, at + 1 + rest.len()) =~= rest) by {
            assert forall|i: int| 0 <= i < rest.len() implies out[at + 1 + i] == rest[i] by {
                assert(written[1 + i] == rest[i]);
            }
        }
        lemma_string_read(text, pos + 1, quote, out, at + 1, options);
        if text[pos] == 0x5c {
            if pos + 1 < text.len() {
                assert(is_line_break(text[pos + 1]));
                assert(rest == eol);
                assert(out[at + 1] == rest[0]);
            } else {
                assert(rest.len() == 0);
                assert(!string_closes(text, pos + 1, quote));
            }
        }
    }
}

/// The kinds of token that are one byte, whatever follows them.
pub open spec fn is_mark(kind: TokenKind) -> bool {
    kind == TokenKind::At || kind == TokenKind::LCurly || kind == TokenKind::RCurly || kind
        == TokenKind::Semicolon || kind == TokenKind::Colon || kind == TokenKind::Comma
}

/// Whether the byte `c` may stand behind a token of kind `kind` that was
/// read in `text` up to `end`: the token is a mark, or `c` is a blank or a
/// line break as the options write it, or `,`, `;` or `:`, or the byte
/// that stood behind the token in `text`, if that was no blank and no line
/// break.
pub open spec fn may_follow(
    kind: TokenKind,
    text: Seq<u8>,
    end: int,
    c: u8,
    options: FormatOptions,
) -> bool {
    ||| is_mark(kind)
    ||| (is_space(c) || is_line_break(c)) && (options.line_ending == LineEnding::Cr ==> c != 0x0a)
    ||| c == 0x2c || c == 0x3b || c == 0x3a
    ||| 0 <= end < text.len() && c == text[end] && !is_space(c) && !is_line_break(c)
}

/// Whether the token that `text` holds at `pos` stands in `out` at `at` as
/// the printer writes it, with nothing behind it that would change it.
pub open spec fn token_stands(
    text: Seq<u8>,
    pos: int,
    out: Seq<u8>,
    at: int,
    options: FormatOptions,
) -> bool {
    let kind = token_kind_at(text, pos);
    let end = token_end_at(text, pos);
    let written = normal(text.subrange(pos, end), options);
    let to = at + written.len();
    &&& 0 <= pos < text.len() <= usize::MAX
    &&& out.len() <= usize::MAX
    &&& !kind.is_trivia()
    &&& 0 <= at
    &&& to <= out.len()
    &&& out.subrange(at, to) == written
    &&& kind.is_open() ==> to == out.len()
    &&& to < out.len() ==> may_follow(kind, text, end, out[to], options)
}

/// Text of bytes that are no line breaks is written as it is.
pub proof fn lemma_normal_no_breaks(bytes: Seq<u8>, options: FormatOptions)
    requires
        forall|i: int| 0 <= i < bytes.len() ==> !is_line_break(#[trigger] bytes[i]),
    ensures
        normal(bytes, options) == bytes,
{
    crate::normal::lemma_normal_plain(bytes, options);
}

/// A string is read again where the printer put it.
pub proof fn lemma_string_token_read(
    text: Seq<u8>,
    pos: int,
    out: Seq<u8>,
    at: int,
    options: FormatOptions,
)
    requires
        token_stands(text, pos, out, at, options),
        text[pos] == 0x22 || text[pos] == 0x27,
    ensures
        token_kind_at(out, at) == token_kind_at(text, pos),
        token_end_at(out, at) == at + normal(
            text.subrange(pos, token_end_at(text, pos)),
            options,
        ).len(),
        at < out.len(),
{
    reveal(token_kind_at);
    reveal(token_end_at);
    let quote = text[pos];
    let end = token_end_at(text, pos);
    assert(end == string_end(text, pos + 1, quote));
    lemma_string_written(text, pos + 1, quote, options);
    let rest = text.subrange(pos + 1, end);
    let whole = text.subrange(pos, end);
    assert(whole =~= seq![quote] + rest);
    lemma_normal_one(quote, options);
    lemma_normal_concat(seq![quote], rest, options);
    let image = string_written(text, pos + 1, quote, options);
    let written = normal(whole, options);
    assert(written == seq![quote] + image);
    assert(out[at] == out.subrange(at, at + written.len())[0]);
    assert(out.subrange(at + 1, at + 1 + image.len()) =~= image) by {
        assert forall|i: int| 0 <= i < image.len() implies out[at + 1 + i] == image[i] by {
            assert(out.subrange(at, at + written.len())[1 + i] == out[at + 1 + i]);
            assert(written[1 + i] == image[i]);
        }
    }
    let to = at + written.len();
    if options.line_ending == LineEnding::Cr && to < out.len() {
        assert(may_follow(token_kind_at(text, pos), text, end, out[to], options));
        assert(out[to] != 0x0a);
    }
    lemma_string_read(text, pos + 1, quote, out, at + 1, options);
}

/// A comment is read again where the printer put it.
pub proof fn lemma_comment_token_read(
    text: Seq<u8>,
    pos: int,
    out: Seq<u8>,
    at: int,
    options: FormatOptions,
)
    requires
        token_stands(text, pos, out, at, options),
        text[pos] == 0x2f,
        pos + 1 < text.len(),
        text[pos + 1] == 0x2a,
    ensures
        token_kind_at(out, at) == token_kind_at(text, pos),
        token_end_at(out, at) == at + normal(
            text.subrange(pos, token_end_at(text, pos)),
            options,
        ).len(),
        at < out.len(),
{
    reveal(token_kind_at);
    reveal(token_end_at);
    let end = token_end_at(text, pos);
    assert(end == comment_end(text, pos + 2));
    lemma_comment_written(text, pos + 2, options);
    let rest = text.subrange(pos + 2, end);
    let whole = text.subrange(pos, end);
    let open = seq![0x2fu8, 0x2au8];
    assert(whole =~= open + rest);
    assert(open =~= seq![0x2fu8] + seq![0x2au8]);
    lemma_normal_one(0x2fu8, options);
    lemma_normal_one(0x2au8, options);
    lemma_normal_concat(seq![0x2fu8], seq![0x2au8], options);
    assert(open.last() == 0x2au8);
    lemma_normal_concat(open, rest, options);
    let image = comment_written(text, pos + 2, options);
    let written = normal(whole, options);
    assert(written == open + image);
    assert(out[at] == out.subrange(at, at + written.len())[0]);
    assert(out[at + 1] == out.subrange(at, at + written.len())[1]);
    assert(out.subrange(at + 2, at + 2 + image.len()) =~= image) by {
        assert forall|i: int| 0 <= i < image.len() implies out[at + 2 + i] == image[i] by {
            assert(out.subrange(at, at + written.len())[2 + i] == out[at + 2 + i]);
            assert(written[2 + i] == image[i]);
        }
    }
    lemma_comment_read(text, pos + 2, out, at + 2, options);
}

/// A name or a number is read again where the printer put it.
pub proof fn lemma_run_token_read(
    text: Seq<u8>,
    pos: int,
    out: Seq<u8>,
    at: int,
    options: FormatOptions,
)
    requires
        token_stands(text, pos, out, at, options),
        is_ident_byte(text[pos]),
    ensures
        token_kind_at(out, at) == token_kind_at(text, pos),
        token_end_at(out, at) == at + (token_end_at(text, pos) - pos),
        normal(text.subrange(pos, token_end_at(text, pos)), options) == text.subrange(
            pos,
            token_end_at(text, pos),
        ),
        at < out.len(),
{
    reveal(token_kind_at);
    reveal(token_end_at);
    let class = if is_digit(text[pos]) {
        ByteClass::Number
    } else {
        ByteClass::Ident
    };
    let kind = token_kind_at(text, pos);
    let end = token_end_at(text, pos);
    assert(end == run_end(text, pos + 1, class));
    lemma_run_scan(text, pos + 1, class);
    let whole = text.subrange(pos, end);
    assert forall|i: int| 0 <= i < whole.len() implies !is_line_break(#[trigger] whole[i]) by {
        if i > 0 {
            assert(in_class(class, text[pos + i]));
        }
    }
    lemma_normal_no_breaks(whole, options);
    let count = end - pos;
    let to = at + count;
    assert forall|i: int| 0 <= i < count implies #[trigger] out[at + i] == text[pos + i] by {
        assert(out.subrange(at, to)[i] == out[at + i]);
        assert(whole[i] == text[pos + i]);
    }
    assert(out[at + 0] == text[pos + 0]);
    assert forall|j: int| 0 <= j < count - 1 implies in_class(class, #[trigger] out[at + 1 + j]) by {
        assert(out[at + (1 + j)] == text[pos + (1 + j)]);
        assert(in_class(class, text[pos + 1 + j]));
    }
    if to < out.len() {
        assert(may_follow(kind, text, end, out[to], options));
        assert(!in_class(class, out[to]));
    }
    lemma_run_known(out, at + 1, class, count - 1);
}

/// A token of one byte is read again where the printer put it.
pub proof fn lemma_single_token_read(
    text: Seq<u8>,
    pos: int,
    out: Seq<u8>,
    at: int,
    options: FormatOptions,
)
    requires
        token_stands(text, pos, out, at, options),
        !is_ident_byte(text[pos]),
        !(text[pos] == 0x22 || text[pos] == 0x27),
        !(text[pos] == 0x2f && pos + 1 < text.len() && text[pos + 1] == 0x2a),
    ensures
        token_kind_at(out, at) == token_kind_at(text, pos),
        token_end_at(out, at) == at + 1,
        token_end_at(text, pos) == pos + 1,
        normal(text.subrange(pos, token_end_at(text, pos)), options) == seq![text[pos]],
        at < out.len(),
{
    reveal(token_kind_at);
    reveal(token_end_at);
    let kind = token_kind_at(text, pos);
    let end = token_end_at(text, pos);
    assert(end == pos + 1);
    let whole = text.subrange(pos, end);
    assert(whole =~= seq![text[pos]]);
    lemma_normal_one(text[pos], options);
    assert(out[at] == out.subrange(at, at + 1)[0]);
    if at + 1 < out.len() {
        assert(may_follow(kind, text, end, out[at + 1], options));
    }
}

/// The token that stands in the output as the printer writes it is read
/// there as it was read in the source: the same kind, the same keyword,
/// and as long as it was written.
pub proof fn lemma_token_read(
    text: Seq<u8>,
    pos: int,
    out: Seq<u8>,
    at: int,
    options: FormatOptions,
)
    requires
        token_stands(text, pos, out, at, options),
    ensures
        ({
            let written = normal(text.subrange(pos, token_end_at(text, pos)), options);
            &&& at < out.len()
            &&& written.len() > 0
            &&& token_at(out, at) == (Token {
                kind: token_kind_at(text, pos),
                keyword: token_at(text, pos).keyword,
                start: at as usize,
                end: (at + written.len()) as usize,
            })
        }),
{
    let kind = token_kind_at(text, pos);
    let end = token_end_at(text, pos);
    lemma_token_at_span(text, pos);
    if text[pos] == 0x22 || text[pos] == 0x27 {
        lemma_string_token_read(text, pos, out, at, options);
        assert(kind != TokenKind::Ident) by {
            reveal(token_kind_at);
        }
    } else if text[pos] == 0x2f && pos + 1 < text.len() && text[pos + 1] == 0x2a {
        lemma_comment_token_read(text, pos, out, at, options);
        assert(kind != TokenKind::Ident) by {
            reveal(token_kind_at);
        }
    } else if is_ident_byte(text[pos]) {
        lemma_run_token_read(text, pos, out, at, options);
        let written = text.subrange(pos, end);
        assert(out.subrange(at, at + written.len()) == written);
    } else {
        lemma_single_token_read(text, pos, out, at, options);
        assert(kind != TokenKind::Ident) by {
            reveal(token_kind_at);
        }
    }
    lemma_token_at_span(out, at);
}

/// The significant tokens of `text` from `pos` on, in order.
pub open spec fn sig_from(text: Seq<u8>, pos: int) -> Seq<Token>
    decreases text.len() - pos,
{
    if 0 <= pos < text.len() && pos < token_end_at(text, pos) <= text.len() {
        let rest = sig_from(text, token_end_at(text, pos));
        if token_at(text, pos).kind.is_trivia() {
            rest
        } else {
            seq![token_at(text, pos)] + rest
        }
    } else {
        Seq::empty()
    }
}

/// Blanks and line breaks hold no significant token: reading from their
/// start gives what reading from their end gives.
pub proof fn lemma_skip_gap(text: Seq<u8>, from: int, to: int)
    requires
        0 <= from <= to <= text.len() <= usize::MAX,
        forall|i: int| from <= i < to ==> is_space(#[trigger] text[i]) || is_line_break(text[i]),
        to == text.len() || !(is_space(text[to]) || is_line_break(text[to])),
    ensures
        sig_from(text, from) == sig_from(text, to),
    decreases to - from,
{
    if from < to {
        lemma_token_at_span(text, from);
        let end = token_end_at(text, from);
        assert(is_space(text[from]) || is_line_break(text[from]));
        assert(token_kind_at(text, from).is_trivia() && end <= to) by {
            reveal(token_kind_at);
            reveal(token_end_at);
            if is_space(text[from]) {
                lemma_run_scan(text, from + 1, ByteClass::Space);
                if end > to {
                    assert(in_class(ByteClass::Space, text[to]));
                }
            } else if text[from] == 0x0d && from + 1 < text.len() && text[from + 1] == 0x0a {
                if from + 1 == to {
                    assert(is_line_break(text[to]));
                }
            }
        }
        lemma_skip_gap(text, end, to);
    }
}

/// The token that is read where the token `text` holds at `pos` was put.
pub open spec fn read_as(text: Seq<u8>, pos: int, start: int, end: int) -> Token {
    Token {
        kind: token_kind_at(text, pos),
        keyword: token_at(text, pos).keyword,
        start: start as usize,
        end: end as usize,
    }
}

/// The first byte of a significant token is no blank and no line break,
/// and it is the first byte of what the printer writes for the token.
pub proof fn lemma_token_first_byte(text: Seq<u8>, pos: int, options: FormatOptions)
    requires
        0 <= pos < text.len() <= usize::MAX,
        !token_kind_at(text, pos).is_trivia(),
    ensures
        !is_space(text[pos]),
        !is_line_break(text[pos]),
        pos < token_end_at(text, pos) <= text.len(),
        normal(text.subrange(pos, token_end_at(text, pos)), options).len() > 0,
        normal(text.subrange(pos, token_end_at(text, pos)), options)[0] == text[pos],
        token_kind_at(text, pos) == TokenKind::Comma ==> text[pos] == 0x2c,
        token_kind_at(text, pos) == TokenKind::Semicolon ==> text[pos] == 0x3b,
        token_kind_at(text, pos) == TokenKind::Colon ==> text[pos] == 0x3a,
        token_kind_at(text, pos) != TokenKind::Eof,
{
    lemma_token_at_span(text, pos);
    assert(!is_space(text[pos]) && !is_line_break(text[pos])) by {
        reveal(token_kind_at);
    }
    assert(token_kind_at(text, pos) == TokenKind::Comma ==> text[pos] == 0x2c) by {
        reveal(token_kind_at);
    }
    assert(token_kind_at(text, pos) == TokenKind::Semicolon ==> text[pos] == 0x3b) by {
        reveal(token_kind_at);
    }
    assert(token_kind_at(text, pos) == TokenKind::Colon ==> text[pos] == 0x3a) by {
        reveal(token_kind_at);
    }
    let end = token_end_at(text, pos);
    let whole = text.subrange(pos, end);
    let rest = text.subrange(pos + 1, end);
    assert(whole =~= seq![text[pos]] + rest);
    lemma_normal_one(text[pos], options);
    lemma_normal_concat(seq![text[pos]], rest, options);
}

} // verus!
