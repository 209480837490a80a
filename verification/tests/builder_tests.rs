use css_engine::kind::NodeKind;
use css_engine::kind::Production;
use css_engine::kind::TokenKind;
use css_engine::lexer::tokenize;
use css_engine::parser::CompletedMarker;
use css_engine::parser::Diagnostic;
use css_engine::parser::DiagnosticKind;
use css_engine::parser::Event;
use css_engine::parser::ParsedSyntax;
use css_engine::parser::Parser;

fn ident(start: usize, end: usize) -> Event {
    Event::Token { kind: TokenKind::Ident, start, end }
}

#[test]
fn complete_gives_the_node_its_kind_and_closes_it() {
    let mut p = Parser::new(tokenize(b"a b"));
    let m = p.start();
    p.bump(TokenKind::Ident);
    p.bump(TokenKind::Ident);
    let done = p.complete(m, NodeKind::Declaration);
    assert_eq!(done, CompletedMarker { start_pos: 0, finish_pos: 3 });
    let (_, events, diagnostics) = p.finish();
    assert_eq!(
        events,
        vec![Event::Start { kind: NodeKind::Declaration }, ident(0, 1), ident(2, 3), Event::Finish]
    );
    assert_eq!(diagnostics, vec![]);
}

#[test]
fn an_open_marker_carries_the_tombstone() {
    let mut p = Parser::new(tokenize(b"a"));
    let m = p.start();
    p.bump_any();
    let (_, events, _) = {
        let done = p.complete(m, NodeKind::Bogus);
        assert_eq!(done.start_pos, 0);
        p.finish()
    };
    assert_eq!(events[0], Event::Start { kind: NodeKind::Bogus });
    let mut q = Parser::new(tokenize(b"a"));
    assert_eq!(q.open_count(), 0);
    let open = q.start();
    assert_eq!(q.open_count(), 1);
    assert_eq!(q.log(), &vec![Event::Start { kind: NodeKind::Tombstone }]);
    q.abandon(open);
    assert_eq!(q.open_count(), 0);
    assert_eq!(q.log(), &vec![]);
}

#[test]
fn abandon_puts_the_parser_back_and_keeps_what_came_before() {
    let mut p = Parser::new(tokenize(b"a b c"));
    let outer = p.start();
    p.bump(TokenKind::Ident);
    let inner = p.start();
    p.bump(TokenKind::Ident);
    p.error(Diagnostic { kind: DiagnosticKind::UnrecognizedAtRule, start: 2, end: 3 });
    p.bump(TokenKind::Ident);
    assert_eq!(p.cur(), TokenKind::Eof);
    p.abandon(inner);
    assert_eq!(p.cur(), TokenKind::Ident);
    assert_eq!(p.cur_start(), 2);
    p.bump(TokenKind::Ident);
    p.complete(outer, NodeKind::Declaration);
    let (_, events, diagnostics) = p.finish();
    assert_eq!(
        events,
        vec![Event::Start { kind: NodeKind::Declaration }, ident(0, 1), ident(2, 3), Event::Finish]
    );
    assert_eq!(diagnostics, vec![]);
}

#[test]
fn markers_nest() {
    let mut p = Parser::new(tokenize(b"a{b}"));
    let outer = p.start();
    p.bump(TokenKind::Ident);
    let inner = p.start();
    p.bump(TokenKind::LCurly);
    p.bump(TokenKind::Ident);
    p.bump(TokenKind::RCurly);
    let block = p.complete(inner, NodeKind::Block);
    let rule = p.complete(outer, NodeKind::QualifiedRule);
    assert_eq!(block, CompletedMarker { start_pos: 2, finish_pos: 6 });
    assert_eq!(rule, CompletedMarker { start_pos: 0, finish_pos: 7 });
    let (_, events, _) = p.finish();
    assert_eq!(
        events,
        vec![
            Event::Start { kind: NodeKind::QualifiedRule },
            ident(0, 1),
            Event::Start { kind: NodeKind::Block },
            Event::Token { kind: TokenKind::LCurly, start: 1, end: 2 },
            ident(2, 3),
            Event::Token { kind: TokenKind::RCurly, start: 3, end: 4 },
            Event::Finish,
            Event::Finish,
        ]
    );
}

#[test]
fn the_cursor_steps_over_trivia() {
    let mut p = Parser::new(tokenize(b"  \n a \t : /* c */ b"));
    assert_eq!(p.cur(), TokenKind::Ident);
    assert_eq!(p.cur_start(), 4);
    assert!(p.at(TokenKind::Ident));
    assert!(!p.at(TokenKind::Colon));
    assert_eq!(p.nth(0), TokenKind::Ident);
    assert_eq!(p.nth(1), TokenKind::Colon);
    assert_eq!(p.nth(2), TokenKind::Comment);
    assert_eq!(p.nth(3), TokenKind::Ident);
    assert_eq!(p.nth(4), TokenKind::Eof);
    assert_eq!(p.nth(40), TokenKind::Eof);
    p.bump(TokenKind::Ident);
    assert_eq!(p.cur(), TokenKind::Colon);
    p.bump_any();
    assert_eq!(p.cur(), TokenKind::Comment);
    p.bump_any();
    p.bump_any();
    assert_eq!(p.cur(), TokenKind::Eof);
    assert_eq!(p.cur_start(), 19);
    assert_eq!(p.end_offset(), 19);
}

#[test]
fn the_end_of_the_input_is_a_leaf_without_text() {
    let mut p = Parser::new(tokenize(b"a "));
    p.bump_any();
    p.bump_eof();
    let (_, events, _) = p.finish();
    assert_eq!(events, vec![ident(0, 1), Event::Token { kind: TokenKind::Eof, start: 2, end: 2 }]);
}

#[test]
fn the_keyword_under_the_cursor() {
    let mut p = Parser::new(tokenize(b"media @ keyframes \"media\""));
    assert_eq!(p.cur_keyword(), Some(Production::Media));
    p.bump_any();
    assert_eq!(p.cur_keyword(), None);
    p.bump_any();
    assert_eq!(p.cur_keyword(), Some(Production::Keyframes));
    p.bump_any();
    assert_eq!(p.cur_keyword(), None);
    p.bump_any();
    assert_eq!(p.cur_keyword(), None);
}

#[test]
fn parsed_syntax_tells_present_from_absent() {
    let done = CompletedMarker { start_pos: 1, finish_pos: 4 };
    assert!(ParsedSyntax::Present(done).is_present());
    assert!(!ParsedSyntax::Present(done).is_absent());
    assert!(ParsedSyntax::Absent.is_absent());
    assert!(!ParsedSyntax::Absent.is_present());
    assert_eq!(ParsedSyntax::Present(done).ok(), Some(done));
    assert_eq!(ParsedSyntax::Absent.ok(), None);
}
