//! Reading the output again: the significant tokens of a text that the
//! printer laid out are the tokens that were laid out, each at its place.
use crate::lexer::is_line_break;
use crate::lexer::is_space;
use crate::lexer::lemma_token_at_span;
use crate::lexer::Token;
use crate::lexer::token_at;
use crate::lexer::token_end_at;
use crate::lexer::token_kind_at;
use crate::normal::normal;
use crate::options::FormatOptions;
use crate::placing::gap_byte;
use crate::placing::laid;
use crate::placing::prev_end;
use crate::placing::safe_adjacent;
use crate::placing::Span;
use crate::placing::word_at;
use crate::relex::lemma_skip_gap;
use crate::relex::lemma_token_first_byte;
use crate::relex::lemma_token_read;
use crate::relex::may_follow;
use crate::relex::read_as;
use crate::relex::sig_from;
use crate::relex::token_stands;
use crate::tree::Tree;
use vstd::prelude::*;

verus! {

/// Whether the tokens `words` are tokens of `text`, each read where
/// `sources` says: the kind and the text of each are those of the token
/// that `text` holds there, two of them between which no trivia stood
/// followed each other directly in `text`, and none but the last is cut
/// short by the end of the input.
pub open spec fn sourced(text: Seq<u8>, words: Seq<Tree>, sources: Seq<int>) -> bool {
    &&& sources.len() == words.len()
    &&& text.len() <= usize::MAX
    &&& forall|m: int| 0 <= m < words.len() ==> #[trigger] word_sourced(text, words, sources, m)
}

pub open spec fn word_sourced(text: Seq<u8>, words: Seq<Tree>, sources: Seq<int>, m: int) -> bool {
    let pos = sources[m];
    &&& words[m] is Leaf
    &&& 0 <= pos < text.len()
    &&& token_kind_at(text, pos) == words[m]->token
    &&& !words[m]->token.is_trivia()
    &&& words[m]->text == text.subrange(pos, token_end_at(text, pos))
    &&& m + 1 < words.len() && words[m + 1]->leading.len() == 0 ==> sources[m + 1] == token_end_at(
        text,
        pos,
    )
    &&& words[m]->token.is_open() ==> m == words.len() - 1
}

/// The tokens that are read in the output from token `m` on.
pub open spec fn reads(text: Seq<u8>, sources: Seq<int>, spans: Seq<Span>, m: int) -> Seq<Token> {
    Seq::new(
        (spans.len() - m) as nat,
        |i: int| read_as(text, sources[m + i], spans[m + i].start, spans[m + i].end),
    )
}

/// Token `m` stands in the output as the printer writes it, with nothing
/// behind it that would change it.
pub proof fn lemma_word_stands(
    text: Seq<u8>,
    out: Seq<u8>,
    words: Seq<Tree>,
    sources: Seq<int>,
    spans: Seq<Span>,
    m: int,
    options: FormatOptions,
)
    requires
        out.len() <= usize::MAX,
        laid(out, words, spans, options),
        sourced(text, words, sources),
        0 <= m < words.len(),
        words.last()->token.is_open() ==> prev_end(spans, spans.len() as int) == out.len(),
    ensures
        token_stands(text, sources[m], out, spans[m].start, options),
        spans[m].end == spans[m].start + normal(words[m]->text, options).len(),
{
    let pos = sources[m];
    let kind = token_kind_at(text, pos);
    let end = token_end_at(text, pos);
    let n = words.len() as int;
    assert(word_sourced(text, words, sources, m));
    assert(word_at(out, words, spans, m, options));
    let written = normal(words[m]->text, options);
    let to = spans[m].end;
    assert(out.subrange(spans[m].start, to).len() == written.len());
    lemma_token_first_byte(text, pos, options);
    if to < out.len() {
        if m + 1 < n {
            assert(word_sourced(text, words, sources, m + 1));
            assert(word_at(out, words, spans, m + 1, options));
            let next = spans[m + 1].start;
            if to < next {
                let gap = out.subrange(to, next);
                assert(gap_byte(gap[0], options));
                assert(gap[0] == out[to]);
            } else {
                assert(safe_adjacent(words[m], words[m + 1]));
                let after = sources[m + 1];
                lemma_token_first_byte(text, after, options);
                assert(out.subrange(next, spans[m + 1].end)[0] == out[next]);
                assert(out[to] == text[after]);
            }
        } else {
            let gap = out.subrange(to, out.len() as int);
            assert(prev_end(spans, spans.len() as int) == to);
            assert(gap_byte(gap[0], options));
            assert(gap[0] == out[to]);
        }
        assert(may_follow(kind, text, end, out[to], options));
    } else if m + 1 < n {
        assert(word_at(out, words, spans, m + 1, options));
        assert(word_sourced(text, words, sources, m + 1));
        lemma_token_first_byte(text, sources[m + 1], options);
        assert(out.subrange(spans[m + 1].start, spans[m + 1].end).len() > 0);
    }
    if kind.is_open() {
        assert(m == n - 1);
        assert(words.last() == words[m]);
    }
}

/// Reading the output from the end of the token before token `m` gives
/// the tokens from `m` on, each at its place, with the kind and the
/// keyword that it had in the source.
pub proof fn lemma_reads(
    text: Seq<u8>,
    out: Seq<u8>,
    words: Seq<Tree>,
    sources: Seq<int>,
    spans: Seq<Span>,
    m: int,
    options: FormatOptions,
)
    requires
        out.len() <= usize::MAX,
        laid(out, words, spans, options),
        sourced(text, words, sources),
        0 <= m <= words.len(),
        words.len() > 0 && words.last()->token.is_open() ==> prev_end(spans, spans.len() as int)
            == out.len(),
    ensures
        sig_from(out, prev_end(spans, m)) == reads(text, sources, spans, m),
    decreases words.len() - m,
{
    let n = words.len() as int;
    let from = prev_end(spans, m);
    if m == n {
        assert forall|i: int| from <= i < out.len() implies is_space(#[trigger] out[i])
            || is_line_break(out[i]) by {
            assert(gap_byte(out.subrange(from, out.len() as int)[i - from], options));
        }
        lemma_skip_gap(out, from, out.len() as int);
        assert(sig_from(out, out.len() as int) =~= Seq::<Token>::empty());
        assert(reads(text, sources, spans, m) =~= Seq::<Token>::empty());
    } else {
        assert(word_at(out, words, spans, m, options));
        assert(word_sourced(text, words, sources, m));
        let start = spans[m].start;
        let end = spans[m].end;
        lemma_word_stands(text, out, words, sources, spans, m, options);
        lemma_token_read(text, sources[m], out, start, options);
        lemma_token_first_byte(text, sources[m], options);
        assert(out.subrange(start, end)[0] == out[start]);
        assert forall|i: int| from <= i < start implies is_space(#[trigger] out[i])
            || is_line_break(out[i]) by {
            assert(gap_byte(out.subrange(from, start)[i - from], options));
        }
        lemma_skip_gap(out, from, start);
        lemma_token_at_span(out, start);
        lemma_reads(text, out, words, sources, spans, m + 1, options);
        let first = read_as(text, sources[m], start, end);
        assert(token_at(out, start) == first);
        assert(prev_end(spans, m + 1) == end);
        assert(sig_from(out, start) == seq![first] + sig_from(out, end));
        assert(reads(text, sources, spans, m) =~= seq![first] + reads(
            text,
            sources,
            spans,
            m + 1,
        ));
    }
}

} // verus!
