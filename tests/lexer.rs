use monkey::lexer::{is_digit, is_letter, tokenize, Lexer};
use monkey::token::{lookup_ident, Token, TokenKind};

fn kinds_and_literals(input: &str) -> Vec<(TokenKind, String)> {
    tokenize(input.as_bytes().to_vec())
        .into_iter()
        .map(|t: Token| (t.kind, String::from_utf8(t.literal).unwrap()))
        .collect()
}

#[test]
fn test_next_token() {
    let input = "let five = 5;
  let ten = 10;
  let add = fn(x, y) {
  x + y;
  };
  let result = add(five, ten);
  !-/*5;
  5 < 10 > 5;
  ";
    let expected: Vec<(TokenKind, &str)> = vec![
        (TokenKind::Let, "let"), (TokenKind::Ident, "five"), (TokenKind::Assign, "="), (TokenKind::Int, "5"), (TokenKind::Semicolon, ";"),
        (TokenKind::Let, "let"), (TokenKind::Ident, "ten"), (TokenKind::Assign, "="), (TokenKind::Int, "10"), (TokenKind::Semicolon, ";"),
        (TokenKind::Let, "let"), (TokenKind::Ident, "add"), (TokenKind::Assign, "="), (TokenKind::Function, "fn"), (TokenKind::LParen, "("),
        (TokenKind::Ident, "x"), (TokenKind::Comma, ","), (TokenKind::Ident, "y"), (TokenKind::RParen, ")"), (TokenKind::LBrace, "{"),
        (TokenKind::Ident, "x"), (TokenKind::Plus, "+"), (TokenKind::Ident, "y"), (TokenKind::Semicolon, ";"), (TokenKind::RBrace, "}"),
        (TokenKind::Semicolon, ";"),
        (TokenKind::Let, "let"), (TokenKind::Ident, "result"), (TokenKind::Assign, "="), (TokenKind::Ident, "add"), (TokenKind::LParen, "("),
        (TokenKind::Ident, "five"), (TokenKind::Comma, ","), (TokenKind::Ident, "ten"), (TokenKind::RParen, ")"), (TokenKind::Semicolon, ";"),
        (TokenKind::Bang, "!"), (TokenKind::Minus, "-"), (TokenKind::Slash, "/"), (TokenKind::Asterisk, "*"), (TokenKind::Int, "5"), (TokenKind::Semicolon, ";"),
        (TokenKind::Int, "5"), (TokenKind::Lt, "<"), (TokenKind::Int, "10"), (TokenKind::Gt, ">"), (TokenKind::Int, "5"), (TokenKind::Semicolon, ";"),
        (TokenKind::Eof, ""),
    ];
    let got = kinds_and_literals(input);
    assert_eq!(got.len(), expected.len());
    for (g, e) in got.iter().zip(expected.iter()) {
        assert_eq!(g.0, e.0);
        assert_eq!(g.1, e.1);
    }
}

#[test]
fn scanner_reaches_end_and_stays_there() {
    let mut l = Lexer::new(b"a  + 12 ".to_vec());
    let mut last_position = l.position;
    let mut kinds = Vec::new();
    for _ in 0..3 {
        let t = l.next_token();
        assert!(l.position > last_position);
        last_position = l.position;
        kinds.push(t.kind);
    }
    assert_eq!(kinds, vec![TokenKind::Ident, TokenKind::Plus, TokenKind::Int]);
    for _ in 0..4 {
        let t = l.next_token();
        assert_eq!(t.kind, TokenKind::Eof);
        assert!(t.literal.is_empty());
        assert_eq!(l.position, 8);
    }
}

#[test]
fn empty_input_is_only_end_of_input() {
    let got = kinds_and_literals("");
    assert_eq!(got, vec![(TokenKind::Eof, String::new())]);
    let got = kinds_and_literals(" \t\r\n ");
    assert_eq!(got, vec![(TokenKind::Eof, String::new())]);
}

#[test]
fn two_byte_operators_are_single_tokens() {
    assert_eq!(
        kinds_and_literals("=="),
        vec![(TokenKind::Eq, "==".to_string()), (TokenKind::Eof, String::new())]
    );
    assert_eq!(
        kinds_and_literals("!="),
        vec![(TokenKind::NotEq, "!=".to_string()), (TokenKind::Eof, String::new())]
    );
    assert_eq!(
        kinds_and_literals("= = ! ="),
        vec![
            (TokenKind::Assign, "=".to_string()),
            (TokenKind::Assign, "=".to_string()),
            (TokenKind::Bang, "!".to_string()),
            (TokenKind::Assign, "=".to_string()),
            (TokenKind::Eof, String::new()),
        ]
    );
}

#[test]
fn unrecognised_byte_is_illegal_and_skipped() {
    let mut l = Lexer::new(b"@".to_vec());
    let t = l.next_token();
    assert_eq!(t.kind, TokenKind::Illegal);
    assert_eq!(t.literal, b"@".to_vec());
    assert_eq!(l.position, 1);
    assert_eq!(l.next_token().kind, TokenKind::Eof);
}

#[test]
fn nul_byte_inside_input_is_illegal() {
    let got = tokenize(vec![b'a', 0, b'b']);
    let kinds: Vec<TokenKind> = got.iter().map(|t| t.kind).collect();
    assert_eq!(kinds, vec![TokenKind::Ident, TokenKind::Illegal, TokenKind::Ident, TokenKind::Eof]);
    assert_eq!(got[1].literal, vec![0u8]);
}

#[test]
fn letters_and_digits_split_runs() {
    assert_eq!(
        kinds_and_literals("ab12cd_e"),
        vec![
            (TokenKind::Ident, "ab".to_string()),
            (TokenKind::Int, "12".to_string()),
            (TokenKind::Ident, "cd_e".to_string()),
            (TokenKind::Eof, String::new()),
        ]
    );
}

#[test]
fn keywords_are_case_sensitive() {
    assert_eq!(lookup_ident(b"fn"), TokenKind::Function);
    assert_eq!(lookup_ident(b"let"), TokenKind::Let);
    assert_eq!(lookup_ident(b"true"), TokenKind::True);
    assert_eq!(lookup_ident(b"false"), TokenKind::False);
    assert_eq!(lookup_ident(b"if"), TokenKind::If);
    assert_eq!(lookup_ident(b"else"), TokenKind::Else);
    assert_eq!(lookup_ident(b"return"), TokenKind::Return);
    assert_eq!(lookup_ident(b"Let"), TokenKind::Ident);
    assert_eq!(lookup_ident(b"lets"), TokenKind::Ident);
    assert_eq!(lookup_ident(b""), TokenKind::Ident);
}

#[test]
fn byte_classes() {
    assert!(is_letter(b'a') && is_letter(b'Z') && is_letter(b'_'));
    assert!(!is_letter(b'0') && !is_letter(b'@'));
    assert!(is_digit(b'0') && is_digit(b'9'));
    assert!(!is_digit(b'a') && !is_digit(b'/'));
}

#[test]
fn kind_names() {
    assert_eq!(TokenKind::Function.name(), "FUNCTION");
    assert_eq!(TokenKind::Assign.name(), "=");
    assert_eq!(TokenKind::Int.name_bytes(), b"INT".to_vec());
    assert_eq!(TokenKind::Eof.index(), 1);
}

#[test]
fn peek_and_read_char() {
    let mut l = Lexer::new(b"xy".to_vec());
    assert_eq!(l.ch, b'x');
    assert_eq!(l.peek_char(), b'y');
    l.read_char();
    assert_eq!(l.ch, b'y');
    assert_eq!(l.peek_char(), 0);
    l.read_char();
    assert_eq!(l.ch, 0);
    assert_eq!(l.position, 2);
    l.read_char();
    assert_eq!(l.position, 3);
    assert_eq!(l.read_position, 4);
    assert_eq!(l.ch, 0);
    let t = l.next_token();
    assert_eq!(t.kind, TokenKind::Eof);
    assert!(t.literal.is_empty());
}

#[test]
fn read_char_moves_past_the_end() {
    let mut l = Lexer::new(Vec::new());
    assert_eq!(l.position, 0);
    l.read_char();
    assert_eq!(l.position, 1);
    assert_eq!(l.read_position, 2);
    assert_eq!(l.ch, 0);
    assert_eq!(l.read_identifier(), Vec::<u8>::new());
    assert_eq!(l.position, 1);
}

#[test]
fn read_runs() {
    let mut l = Lexer::new(b"abc12 x".to_vec());
    assert_eq!(l.read_identifier(), b"abc".to_vec());
    assert_eq!(l.read_number(), b"12".to_vec());
    l.skip_whitespace();
    assert_eq!(l.position, 6);
    let t = l.new_token(TokenKind::Ident, vec![b'x']);
    assert_eq!(t, Token::new(TokenKind::Ident, b"x".to_vec()));
}
