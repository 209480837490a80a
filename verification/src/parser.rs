//! The marker-based tree builder: a cursor over the tokens and an
//! append-only log of events from which the tree is assembled afterwards.
//!
//! A node is opened by [`Parser::start`], which hands out a [`Marker`], and
//! closed by [`Parser::complete`], which gives it its kind, or given up by
//! [`Parser::abandon`], which puts the parser back to where the marker was
//! made. Markers nest: only the innermost open marker can be closed.
use crate::kind::NodeKind;
use crate::kind::Production;
use crate::kind::TokenKind;
use crate::lexer::Token;
use vstd::prelude::*;

verus! {

/// One entry of the event log.
#[derive(Clone, Copy, Debug, PartialEq, Eq)]
#[allow(inconsistent_fields)]
pub enum Event {
    /// Opens a node. While its marker is open the kind is
    /// [`NodeKind::Tombstone`].
    Start { kind: NodeKind },
    /// Closes the node that the nearest unclosed `Start` opened.
    Finish,
    /// One leaf: the token whose own text is the bytes `start..end`.
    Token { kind: TokenKind, start: usize, end: usize },
}

/// What went wrong at a place in the source.
#[derive(Clone, Copy, Debug, PartialEq, Eq, Hash, Structural)]
pub enum DiagnosticKind {
    /// An `@` that no production accepted.
    UnrecognizedAtRule,
    /// A `}` that closes nothing.
    UnexpectedClosingBrace,
    /// A block that the end of the input cut short.
    MissingClosingBrace,
}

/// A non-fatal finding of the parser, with the byte range it is about.
#[derive(Clone, Copy, Debug, PartialEq, Eq)]
pub struct Diagnostic {
    pub kind: DiagnosticKind,
    pub start: usize,
    pub end: usize,
}

/// The handle of a node that has been opened and not yet closed.
#[derive(Debug)]
pub struct Marker {
    pos: usize,
    cursor: usize,
    diagnostics: usize,
}

impl Marker {
    /// The index of the marker's `Start` event in the log.
    pub closed spec fn position(&self) -> int {
        self.pos as int
    }

    /// The token position at which the marker was made.
    pub closed spec fn cursor(&self) -> int {
        self.cursor as int
    }

    /// The number of diagnostics that had been logged when the marker was made.
    pub closed spec fn diagnostics(&self) -> int {
        self.diagnostics as int
    }
}

/// The handle of a node that has been closed.
#[derive(Clone, Copy, Debug, PartialEq, Eq)]
pub struct CompletedMarker {
    pub start_pos: usize,
    pub finish_pos: usize,
}

/// Syntax that a rule found, or that is not there at all. A rule that
/// answers `Absent` has consumed nothing, so the caller may try another
/// construct at the same position.
#[derive(Clone, Copy, Debug, PartialEq, Eq)]
pub enum ParsedSyntax {
    Absent,
    Present(CompletedMarker),
}

impl ParsedSyntax {
    pub open spec fn spec_is_present(&self) -> bool {
        self is Present
    }

    #[verifier::when_used_as_spec(spec_is_present)]
    pub fn is_present(&self) -> (r: bool)
        ensures
            r == self.spec_is_present(),
    {
        match self {
            ParsedSyntax::Present(_) => true,
            ParsedSyntax::Absent => false,
        }
    }

    pub open spec fn spec_is_absent(&self) -> bool {
        self is Absent
    }

    #[verifier::when_used_as_spec(spec_is_absent)]
    pub fn is_absent(&self) -> (r: bool)
        ensures
            r == self.spec_is_absent(),
    {
        match self {
            ParsedSyntax::Present(_) => false,
            ParsedSyntax::Absent => true,
        }
    }

    /// The completed marker, if the syntax is present.
    pub fn ok(self) -> (r: Option<CompletedMarker>)
        ensures
            r == match self {
                ParsedSyntax::Absent => None::<CompletedMarker>,
                ParsedSyntax::Present(marker) => Some(marker),
            },
    {
        match self {
            ParsedSyntax::Absent => None,
            ParsedSyntax::Present(marker) => Some(marker),
        }
    }
}

/// The first index at or after `i` whose token is not trivia, or the number
/// of tokens where there is none.
pub open spec fn next_significant(tokens: Seq<Token>, i: int) -> int
    decreases tokens.len() - i,
{
    if 0 <= i < tokens.len() && tokens[i].kind.is_trivia() {
        next_significant(tokens, i + 1)
    } else {
        i
    }
}

/// The position of the token that follows the one at `pos`.
pub open spec fn advance(tokens: Seq<Token>, pos: int) -> int {
    next_significant(tokens, pos + 1)
}

/// The kind of the token at `pos`; [`TokenKind::Eof`] behind the last token.
pub open spec fn kind_at(tokens: Seq<Token>, pos: int) -> TokenKind {
    if 0 <= pos < tokens.len() {
        tokens[pos].kind
    } else {
        TokenKind::Eof
    }
}

/// The at-rule keyword that the token at `pos` spells, if it spells one.
pub open spec fn keyword_at(tokens: Seq<Token>, pos: int) -> Option<Production> {
    if 0 <= pos < tokens.len() && tokens[pos].kind == TokenKind::Ident {
        tokens[pos].keyword
    } else {
        None
    }
}

/// The leaf event of the token at `pos`.
pub open spec fn token_event(tokens: Seq<Token>, pos: int) -> Event
    recommends
        0 <= pos < tokens.len(),
{
    Event::Token { kind: tokens[pos].kind, start: tokens[pos].start, end: tokens[pos].end }
}

/// The offset at which the input ends: the end of its last token.
pub open spec fn end_offset(tokens: Seq<Token>) -> usize {
    if tokens.len() > 0 {
        tokens.last().end
    } else {
        0
    }
}

/// The leaf events of the tokens with indices `from..to`, trivia left out:
/// what is logged when the cursor moves from `from` to `to`.
pub open spec fn consumed(tokens: Seq<Token>, from: int, to: int) -> Seq<Event>
    decreases to - from,
{
    if from >= to || to > tokens.len() || from < 0 {
        Seq::empty()
    } else if tokens[to - 1].kind.is_trivia() {
        consumed(tokens, from, to - 1)
    } else {
        consumed(tokens, from, to - 1).push(token_event(tokens, to - 1))
    }
}

pub proof fn lemma_next_significant(tokens: Seq<Token>, i: int)
    requires
        0 <= i <= tokens.len(),
    ensures
        i <= next_significant(tokens, i) <= tokens.len(),
        next_significant(tokens, i) < tokens.len() ==> !tokens[next_significant(
            tokens,
            i,
        )].kind.is_trivia(),
        consumed(tokens, i, next_significant(tokens, i)) == Seq::<Event>::empty(),
        next_significant(tokens, next_significant(tokens, i)) == next_significant(tokens, i),
    decreases tokens.len() - i,
{
    lemma_trivia_before_next(tokens, i);
    if i < tokens.len() && tokens[i].kind.is_trivia() {
        lemma_next_significant(tokens, i + 1);
        lemma_consumed_trivia(tokens, i, next_significant(tokens, i));
    }
}

/// A stretch of trivia logs nothing.
pub proof fn lemma_consumed_trivia(tokens: Seq<Token>, from: int, to: int)
    requires
        0 <= from <= to <= tokens.len(),
        forall|k: int| from <= k < to ==> (#[trigger] tokens[k]).kind.is_trivia(),
    ensures
        consumed(tokens, from, to) == Seq::<Event>::empty(),
    decreases to - from,
{
    if from < to {
        lemma_consumed_trivia(tokens, from, to - 1);
    }
}

/// Between `i` and the next significant token there is only trivia.
pub proof fn lemma_trivia_before_next(tokens: Seq<Token>, i: int)
    requires
        0 <= i <= tokens.len(),
    ensures
        forall|k: int|
            i <= k < next_significant(tokens, i) ==> (#[trigger] tokens[k]).kind.is_trivia(),
    decreases tokens.len() - i,
{
    if i < tokens.len() && tokens[i].kind.is_trivia() {
        lemma_trivia_before_next(tokens, i + 1);
    }
}

/// What is logged over `from..to` is what is logged over `from..mid`
/// followed by what is logged over `mid..to`.
pub proof fn lemma_consumed_split(tokens: Seq<Token>, from: int, mid: int, to: int)
    requires
        0 <= from <= mid <= to <= tokens.len(),
    ensures
        consumed(tokens, from, to) == consumed(tokens, from, mid) + consumed(tokens, mid, to),
    decreases to - mid,
{
    if mid < to {
        lemma_consumed_split(tokens, from, mid, to - 1);
        if tokens[to - 1].kind.is_trivia() {
        } else {
            assert(consumed(tokens, from, to - 1).push(token_event(tokens, to - 1)) =~= consumed(
                tokens,
                from,
                mid,
            ) + consumed(tokens, mid, to - 1).push(token_event(tokens, to - 1)));
        }
    } else {
        assert(consumed(tokens, from, mid) + Seq::<Event>::empty() =~= consumed(
            tokens,
            from,
            mid,
        ));
    }
}

/// Stepping over the significant token at `pos` logs exactly its event.
pub proof fn lemma_consumed_step(tokens: Seq<Token>, pos: int)
    requires
        0 <= pos < tokens.len(),
        !tokens[pos].kind.is_trivia(),
    ensures
        consumed(tokens, pos, advance(tokens, pos)) == seq![token_event(tokens, pos)],
        pos < advance(tokens, pos) <= tokens.len(),
{
    lemma_next_significant(tokens, pos + 1);
    lemma_consumed_split(tokens, pos, pos + 1, advance(tokens, pos));
    assert(consumed(tokens, pos, pos) == Seq::<Event>::empty());
    assert(consumed(tokens, pos, pos + 1) =~= seq![token_event(tokens, pos)]);
    assert(seq![token_event(tokens, pos)] + Seq::<Event>::empty() =~= seq![
        token_event(tokens, pos),
    ]);
}

/// What a grammar rule does when it runs at some position: whether it found
/// its construct, the events and diagnostics it logs, and the position at
/// which it leaves the cursor.
pub struct Outcome {
    pub present: bool,
    pub events: Seq<Event>,
    pub end: int,
    pub diagnostics: Seq<Diagnostic>,
}

impl Outcome {
    /// The rule found nothing at `pos` and consumed nothing.
    pub open spec fn absent(pos: int) -> Outcome {
        Outcome {
            present: false,
            events: Seq::empty(),
            end: pos,
            diagnostics: Seq::empty(),
        }
    }

    /// The empty step at `pos`.
    pub open spec fn nothing(pos: int) -> Outcome {
        Outcome { present: true, events: Seq::empty(), end: pos, diagnostics: Seq::empty() }
    }

    /// A step that logs `events` and ends at `end`, without diagnostics.
    pub open spec fn step(events: Seq<Event>, end: int) -> Outcome {
        Outcome { present: true, events, end, diagnostics: Seq::empty() }
    }

    /// This step, and `next` after it.
    pub open spec fn followed_by(self, next: Outcome) -> Outcome {
        Outcome {
            present: true,
            events: self.events + next.events,
            end: next.end,
            diagnostics: self.diagnostics + next.diagnostics,
        }
    }

    /// This step's events wrapped into one node of `kind`.
    pub open spec fn wrapped(self, kind: NodeKind) -> Outcome {
        Outcome {
            present: true,
            events: seq![Event::Start { kind }] + self.events + seq![Event::Finish],
            end: self.end,
            diagnostics: self.diagnostics,
        }
    }
}

/// The parser's state: the tokens, the cursor, the event log, the stack of
/// open markers and the diagnostics logged so far.
pub struct Parser {
    tokens: Vec<Token>,
    pos: usize,
    events: Vec<Event>,
    open: Vec<usize>,
    diagnostics: Vec<Diagnostic>,
}

impl Parser {
    pub closed spec fn tokens(&self) -> Seq<Token> {
        self.tokens@
    }

    /// The index of the current token: a significant one, or the number of
    /// tokens at the end of the input.
    pub closed spec fn position(&self) -> int {
        self.pos as int
    }

    pub closed spec fn events(&self) -> Seq<Event> {
        self.events@
    }

    /// The log positions of the open markers, outermost first.
    pub closed spec fn open_markers(&self) -> Seq<usize> {
        self.open@
    }

    pub closed spec fn diagnostics(&self) -> Seq<Diagnostic> {
        self.diagnostics@
    }

    /// The cursor stands on a significant token or at the end, and every
    /// open marker points at a `Start` event that still carries the
    /// tombstone, in the order in which the markers were made.
    pub closed spec fn wf(&self) -> bool {
        &&& self.pos <= self.tokens@.len() <= usize::MAX
        &&& next_significant(self.tokens@, self.pos as int) == self.pos
        &&& forall|i: int|
            0 <= i < self.open@.len() ==> (#[trigger] self.open@[i]) < self.events@.len()
                && self.events@[self.open@[i] as int] == (Event::Start {
                kind: NodeKind::Tombstone,
            })
        &&& forall|i: int, j: int|
            0 <= i < j < self.open@.len() ==> (#[trigger] self.open@[i]) < (
            #[trigger] self.open@[j])
    }

    /// `marker` is the innermost open marker of this parser.
    pub open spec fn is_innermost(&self, marker: &Marker) -> bool {
        &&& self.open_markers().len() > 0
        &&& self.open_markers().last() == marker.position()
        &&& 0 <= marker.cursor() <= self.tokens().len()
        &&& next_significant(self.tokens(), marker.cursor()) == marker.cursor()
        &&& 0 <= marker.diagnostics() <= self.diagnostics().len()
    }

    /// The state `self` is what `before` becomes when a rule with the
    /// outcome `out` has run: the rule's events and diagnostics are
    /// appended, the cursor stands where the rule ended, and the open
    /// markers are the same.
    pub open spec fn follows(&self, before: Parser, out: Outcome) -> bool {
        &&& self.wf()
        &&& self.tokens() == before.tokens()
        &&& self.open_markers() == before.open_markers()
        &&& self.events() == before.events() + out.events
        &&& self.position() == out.end
        &&& self.diagnostics() == before.diagnostics() + out.diagnostics
    }

    /// The cursor of a well-formed parser is in range and rests on no trivia.
    pub proof fn lemma_position(&self)
        requires
            self.wf(),
        ensures
            0 <= self.position() <= self.tokens().len(),
            next_significant(self.tokens(), self.position()) == self.position(),
            kind_at(self.tokens(), self.position()) != TokenKind::Eof ==> self.position()
                < self.tokens().len(),
            self.tokens().len() <= usize::MAX,
            self.position() < self.tokens().len() ==> !self.tokens()[self.position()].kind.is_trivia(),
    {
        lemma_next_significant(self.tokens@, self.pos as int);
    }

    /// A parser at the first significant token, with an empty log.
    pub fn new(tokens: Vec<Token>) -> (p: Parser)
        ensures
            p.wf(),
            p.tokens() == tokens@,
            p.position() == next_significant(tokens@, 0),
            p.events() == Seq::<Event>::empty(),
            p.open_markers() == Seq::<usize>::empty(),
            p.diagnostics() == Seq::<Diagnostic>::empty(),
    {
        let mut p = Parser {
            tokens,
            pos: 0,
            events: Vec::new(),
            open: Vec::new(),
            diagnostics: Vec::new(),
        };
        let count: usize = p.tokens.len();
        p.pos = p.skip_trivia(0);
        proof {
            lemma_next_significant(p.tokens@, 0);
        }
        p
    }

    fn skip_trivia(&self, from: usize) -> (r: usize)
        requires
            from <= self.tokens@.len(),
        ensures
            r == next_significant(self.tokens@, from as int),
            from <= r <= self.tokens@.len(),
    {
        let mut i: usize = from;
        while i < self.tokens.len() && self.tokens[i].kind.is_trivia()
            invariant
                from <= i <= self.tokens@.len(),
                next_significant(self.tokens@, from as int) == next_significant(
                    self.tokens@,
                    i as int,
                ),
            decreases self.tokens@.len() - i,
        {
            i = i + 1;
        }
        i
    }

    /// The kind of the current token.
    pub fn cur(&self) -> (kind: TokenKind)
        requires
            self.wf(),
        ensures
            kind == kind_at(self.tokens(), self.position()),
    {
        if self.pos < self.tokens.len() {
            self.tokens[self.pos].kind
        } else {
            TokenKind::Eof
        }
    }

    /// Whether the current token is of `kind`. Consumes nothing.
    pub fn at(&self, kind: TokenKind) -> (r: bool)
        requires
            self.wf(),
        ensures
            r == (kind_at(self.tokens(), self.position()) == kind),
    {
        self.cur() == kind
    }

    /// The at-rule keyword that the current token spells, if any. Consumes
    /// nothing.
    pub fn cur_keyword(&self) -> (r: Option<Production>)
        requires
            self.wf(),
        ensures
            r == keyword_at(self.tokens(), self.position()),
    {
        if self.pos < self.tokens.len() && self.tokens[self.pos].kind == TokenKind::Ident {
            self.tokens[self.pos].keyword
        } else {
            None
        }
    }

    /// The kind of the `n`-th significant token from the current one on.
    /// Consumes nothing.
    pub fn nth(&self, n: usize) -> (kind: TokenKind)
        requires
            self.wf(),
        ensures
            kind == kind_at(self.tokens(), nth_position(self.tokens(), self.position(), n as nat)),
    {
        let mut i: usize = self.pos;
        let mut left: usize = n;
        while left > 0 && i < self.tokens.len()
            invariant
                i <= self.tokens@.len(),
                nth_position(self.tokens@, self.pos as int, n as nat) == nth_position(
                    self.tokens@,
                    i as int,
                    left as nat,
                ),
            decreases left,
        {
            i = self.skip_trivia(i + 1);
            left = left - 1;
        }
        proof {
            lemma_nth_position_at_end(self.tokens@, i as int, left as nat);
        }
        if i < self.tokens.len() {
            self.tokens[i].kind
        } else {
            TokenKind::Eof
        }
    }

    /// The byte offset at which the current token starts; the end of the
    /// input when there is none.
    pub fn cur_start(&self) -> (offset: usize)
        requires
            self.wf(),
        ensures
            offset == start_at(self.tokens(), self.position()),
    {
        if self.pos < self.tokens.len() {
            self.tokens[self.pos].start
        } else if self.tokens.len() > 0 {
            self.tokens[self.tokens.len() - 1].end
        } else {
            0
        }
    }

    /// The byte offset at which the input ends.
    pub fn end_offset(&self) -> (offset: usize)
        requires
            self.wf(),
        ensures
            offset == end_offset(self.tokens()),
    {
        if self.tokens.len() > 0 {
            self.tokens[self.tokens.len() - 1].end
        } else {
            0
        }
    }

    /// Opens a node at the current position.
    pub fn start(&mut self) -> (marker: Marker)
        requires
            old(self).wf(),
        ensures
            final(self).wf(),
            final(self).is_innermost(&marker),
            marker.position() == old(self).events().len(),
            marker.cursor() == old(self).position(),
            marker.diagnostics() == old(self).diagnostics().len(),
            final(self).events() == old(self).events().push(
                Event::Start { kind: NodeKind::Tombstone },
            ),
            final(self).open_markers() == old(self).open_markers().push(
                old(self).events().len() as usize,
            ),
            final(self).tokens() == old(self).tokens(),
            final(self).position() == old(self).position(),
            final(self).diagnostics() == old(self).diagnostics(),
    {
        let pos = self.events.len();
        self.events.push(Event::Start { kind: NodeKind::Tombstone });
        self.open.push(pos);
        Marker { pos, cursor: self.pos, diagnostics: self.diagnostics.len() }
    }

    /// Closes the innermost open node and gives it `kind`: the marker's
    /// `Start` event takes the kind, and a `Finish` event is logged.
    pub fn complete(&mut self, marker: Marker, kind: NodeKind) -> (done: CompletedMarker)
        requires
            old(self).wf(),
            old(self).is_innermost(&marker),
        ensures
            final(self).wf(),
            marker.position() < old(self).events().len(),
            final(self).events() == old(self).events().update(
                marker.position(),
                Event::Start { kind },
            ).push(Event::Finish),
            final(self).open_markers() == old(self).open_markers().drop_last(),
            done.start_pos == marker.position(),
            done.finish_pos == old(self).events().len(),
            final(self).tokens() == old(self).tokens(),
            final(self).position() == old(self).position(),
            final(self).diagnostics() == old(self).diagnostics(),
    {
        let finish_pos = self.events.len();
        self.events[marker.pos] = Event::Start { kind };
        self.events.push(Event::Finish);
        self.open.pop();
        CompletedMarker { start_pos: marker.pos, finish_pos }
    }

    /// Gives the innermost open node up: the log, the cursor and the
    /// diagnostics go back to what they were when the marker was made.
    /// Nothing logged before the marker is touched.
    pub fn abandon(&mut self, marker: Marker)
        requires
            old(self).wf(),
            old(self).is_innermost(&marker),
        ensures
            final(self).wf(),
            marker.position() < old(self).events().len(),
            final(self).events() == old(self).events().take(marker.position()),
            final(self).open_markers() == old(self).open_markers().drop_last(),
            final(self).position() == marker.cursor(),
            final(self).diagnostics() == old(self).diagnostics().take(marker.diagnostics()),
            final(self).tokens() == old(self).tokens(),
    {
        self.events.truncate(marker.pos);
        self.diagnostics.truncate(marker.diagnostics);
        self.open.pop();
        self.pos = marker.cursor;
    }

    /// Consumes the current token, which the caller knows to be of `kind`.
    pub fn bump(&mut self, kind: TokenKind)
        requires
            old(self).wf(),
            kind != TokenKind::Eof,
            kind_at(old(self).tokens(), old(self).position()) == kind,
        ensures
            final(self).wf(),
            final(self).events() == old(self).events().push(
                token_event(old(self).tokens(), old(self).position()),
            ),
            final(self).position() == advance(old(self).tokens(), old(self).position()),
            final(self).open_markers() == old(self).open_markers(),
            final(self).tokens() == old(self).tokens(),
            final(self).diagnostics() == old(self).diagnostics(),
    {
        self.bump_any();
    }

    /// Consumes the current token, whatever its kind.
    pub fn bump_any(&mut self)
        requires
            old(self).wf(),
            kind_at(old(self).tokens(), old(self).position()) != TokenKind::Eof,
        ensures
            final(self).wf(),
            final(self).events() == old(self).events().push(
                token_event(old(self).tokens(), old(self).position()),
            ),
            final(self).position() == advance(old(self).tokens(), old(self).position()),
            final(self).open_markers() == old(self).open_markers(),
            final(self).tokens() == old(self).tokens(),
            final(self).diagnostics() == old(self).diagnostics(),
    {
        assert(self.pos < self.tokens.len());
        let token = self.tokens[self.pos];
        let next: usize = self.skip_trivia(self.pos + 1);
        self.events.push(Event::Token { kind: token.kind, start: token.start, end: token.end });
        self.pos = next;
        proof {
            lemma_next_significant(self.tokens@, old(self).pos + 1);
        }
    }

    /// Logs the end of the input as a leaf without text.
    pub fn bump_eof(&mut self)
        requires
            old(self).wf(),
        ensures
            final(self).wf(),
            final(self).events() == old(self).events().push(eof_event(old(self).tokens())),
            final(self).position() == old(self).position(),
            final(self).open_markers() == old(self).open_markers(),
            final(self).tokens() == old(self).tokens(),
            final(self).diagnostics() == old(self).diagnostics(),
    {
        let offset: usize = if self.tokens.len() > 0 {
            self.tokens[self.tokens.len() - 1].end
        } else {
            0
        };
        self.events.push(Event::Token { kind: TokenKind::Eof, start: offset, end: offset });
    }

    /// Logs a diagnostic.
    pub fn error(&mut self, diagnostic: Diagnostic)
        requires
            old(self).wf(),
        ensures
            final(self).wf(),
            final(self).diagnostics() == old(self).diagnostics().push(diagnostic),
            final(self).events() == old(self).events(),
            final(self).position() == old(self).position(),
            final(self).open_markers() == old(self).open_markers(),
            final(self).tokens() == old(self).tokens(),
    {
        self.diagnostics.push(diagnostic);
    }

    /// The event log so far.
    pub fn log(&self) -> (log: &Vec<Event>)
        ensures
            log@ == self.events(),
    {
        &self.events
    }

    /// The number of markers that are open.
    pub fn open_count(&self) -> (count: usize)
        ensures
            count == self.open_markers().len(),
    {
        self.open.len()
    }

    /// Ends the parse and hands out the tokens, the log and the
    /// diagnostics. Every marker must have been completed or abandoned.
    pub fn finish(self) -> (r: (Vec<Token>, Vec<Event>, Vec<Diagnostic>))
        requires
            self.open_markers().len() == 0,
        ensures
            r.0@ == self.tokens(),
            r.1@ == self.events(),
            r.2@ == self.diagnostics(),
    {
        (self.tokens, self.events, self.diagnostics)
    }
}

/// The leaf that stands for the end of the input.
pub open spec fn eof_event(tokens: Seq<Token>) -> Event {
    Event::Token { kind: TokenKind::Eof, start: end_offset(tokens), end: end_offset(tokens) }
}

/// The byte offset at which the token at `pos` starts; the end of the input
/// behind the last token.
pub open spec fn start_at(tokens: Seq<Token>, pos: int) -> usize {
    if 0 <= pos < tokens.len() {
        tokens[pos].start
    } else {
        end_offset(tokens)
    }
}

/// The position reached from `pos` by stepping over `n` significant tokens.
pub open spec fn nth_position(tokens: Seq<Token>, pos: int, n: nat) -> int
    decreases n,
{
    if n == 0 || pos < 0 || pos >= tokens.len() {
        pos
    } else {
        nth_position(tokens, advance(tokens, pos), (n - 1) as nat)
    }
}

pub proof fn lemma_nth_position_at_end(tokens: Seq<Token>, pos: int, n: nat)
    requires
        n == 0 || pos >= tokens.len(),
    ensures
        nth_position(tokens, pos, n) == pos,
{
}

} // verus!
