use bpmn_layout::lexer::{Lexer, LexerError, Token};

#[test]
fn tokenizes_a_simple_process_description() {
    let mut lexer = Lexer::new("= Pool1\n== Lane1\n# Start\n- Task\n. End");
    assert_eq!(lexer.next_token().unwrap(), Token::Pool("Pool1".to_string()));
    assert_eq!(lexer.next_token().unwrap(), Token::Lane("Lane1".to_string()));
    assert_eq!(lexer.next_token().unwrap(), Token::EventStart("Start".to_string()));
    assert_eq!(lexer.next_token().unwrap(), Token::ActivityTask("Task".to_string()));
    assert_eq!(lexer.next_token().unwrap(), Token::EventEnd("End".to_string()));
    assert_eq!(lexer.next_token().unwrap(), Token::Eof);
}

#[test]
fn tokenizes_gateways_and_go() {
    let mut lexer = Lexer::new("X + O * G");
    assert_eq!(lexer.next_token().unwrap(), Token::GatewayExclusive);
    assert_eq!(lexer.next_token().unwrap(), Token::GatewayParallel);
    assert_eq!(lexer.next_token().unwrap(), Token::GatewayInclusive);
    assert_eq!(lexer.next_token().unwrap(), Token::GatewayEvent);
    assert_eq!(lexer.next_token().unwrap(), Token::Go);
    assert_eq!(lexer.next_token().unwrap(), Token::Eof);
}

#[test]
fn tokenizes_branches_joins_and_labels() {
    let mut lexer = Lexer::new("-> yes \"to the right\"\nJ j1 \"done\"\nfoo:\nbar");
    assert_eq!(
        lexer.next_token().unwrap(),
        Token::Branch("yes".to_string(), "to the right".to_string())
    );
    assert_eq!(
        lexer.next_token().unwrap(),
        Token::Join("j1".to_string(), "done".to_string())
    );
    assert_eq!(lexer.next_token().unwrap(), Token::Label("foo".to_string()));
    assert_eq!(lexer.next_token().unwrap(), Token::Text("bar".to_string()));
    assert_eq!(lexer.next_token().unwrap(), Token::Eof);
}

#[test]
fn start_kind_letters_pick_the_event_variant() {
    let mut lexer = Lexer::new("#M Mail");
    assert_eq!(lexer.next_token().unwrap(), Token::EventStartMessage("Mail".to_string()));
    // after a start was seen, the same letter marks a catch event
    let mut lexer2 = Lexer::new("# First\n#T Timer");
    assert_eq!(lexer2.next_token().unwrap(), Token::EventStart("First".to_string()));
    assert_eq!(lexer2.next_token().unwrap(), Token::EventCatchTimer("Timer".to_string()));
}

#[test]
fn end_kind_letter_stays_part_of_the_text() {
    // the end-event kind letter is examined but not consumed, so it leads
    // the text, exactly as the scanner reads it
    let mut lexer = Lexer::new("# First\n.m Done");
    assert_eq!(lexer.next_token().unwrap(), Token::EventStart("First".to_string()));
    assert_eq!(lexer.next_token().unwrap(), Token::EventEndMessage("m Done".to_string()));
}

#[test]
fn comments_are_skipped() {
    let mut lexer = Lexer::new("// a comment line\nX");
    assert_eq!(lexer.next_token().unwrap(), Token::GatewayExclusive);
    assert_eq!(lexer.next_token().unwrap(), Token::Eof);
    // a comment that ends the input yields the end of file
    let mut lexer2 = Lexer::new("// only a comment");
    assert_eq!(lexer2.next_token().unwrap(), Token::Eof);
}

#[test]
fn peek_does_not_consume_the_token() {
    let mut lexer = Lexer::new("X +");
    assert_eq!(lexer.peek_token().unwrap(), Token::GatewayExclusive);
    assert_eq!(lexer.next_token().unwrap(), Token::GatewayExclusive);
    assert_eq!(lexer.next_token().unwrap(), Token::GatewayParallel);
}

#[test]
fn a_stray_angle_bracket_is_reported_with_its_place() {
    let mut lexer = Lexer::new("<x");
    match lexer.next_token() {
        Err(LexerError::UnexpectedCharacter(c, line, _col, highlight)) => {
            assert_eq!(c, 'x');
            assert_eq!(line, 1);
            assert!(highlight.contains("<x"));
            assert!(highlight.contains('^'));
        }
        other => panic!("expected an unexpected-character error, got {:?}", other),
    }
}

#[test]
fn an_unterminated_quote_is_reported() {
    let mut lexer = Lexer::new("-> yes \"no closing quote");
    match lexer.next_token() {
        Err(LexerError::UnterminatedString(line, _col, _highlight)) => {
            assert_eq!(line, 1);
        }
        other => panic!("expected an unterminated-string error, got {:?}", other),
    }
}

#[test]
fn a_missing_event_kind_is_reported() {
    let mut lexer = Lexer::new("#");
    match lexer.next_token() {
        Err(LexerError::MissingCharacter(c, _line, _col, _highlight)) => {
            assert_eq!(c, '#');
        }
        other => panic!("expected a missing-character error, got {:?}", other),
    }
}

#[test]
fn highlight_points_at_a_line_and_column() {
    let lexer = Lexer::new("first\nsecond line");
    let msg = lexer.highlight_line_error(2, 3);
    assert_eq!(msg, "second line\n   ^");
}

#[test]
fn text_is_trimmed_of_surrounding_whitespace() {
    let mut lexer = Lexer::new("=   spaced out   \nX");
    assert_eq!(lexer.next_token().unwrap(), Token::Pool("spaced out".to_string()));
    assert_eq!(lexer.next_token().unwrap(), Token::GatewayExclusive);
}
