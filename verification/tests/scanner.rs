use kror_lexer::cursor::cursor;
use kror_lexer::scan::detect_reserved;
use kror_lexer::scan::scan;
use kror_lexer::scan::scan_ident_or_reserved;
use kror_lexer::scan::scan_literal;
use kror_lexer::scan::scan_number;
use kror_lexer::scan::tokenize;
use kror_lexer::token::ErrorKind;
use kror_lexer::token::ReservedKind;
use kror_lexer::token::ScanError;
use kror_lexer::token::Token;
use kror_lexer::token::TokenKind;

fn tok(line_num: usize, row_num: usize, token_kind: TokenKind) -> Token {
    Token { line_num, row_num, token_kind }
}

#[test]
fn whitespace_only_input_yields_one_whitespace_token() {
    let toks = tokenize(String::from(" \t \n ")).unwrap();
    assert_eq!(toks, vec![tok(1, 1, TokenKind::Whitespace)]);
}

#[test]
fn whitespace_with_carriage_return_is_one_run() {
    let toks = tokenize(String::from(" \r ")).unwrap();
    assert_eq!(toks, vec![tok(1, 1, TokenKind::Whitespace)]);
}

#[test]
fn empty_input_yields_no_tokens() {
    let toks = tokenize(String::from("")).unwrap();
    assert!(toks.is_empty());
    let mut cur = cursor(String::from(""));
    assert_eq!(scan(&mut cur), Ok(None));
}

#[test]
fn comment_leaves_the_terminator_for_the_next_scan() {
    let mut cur = cursor(String::from("// hello\n"));
    assert_eq!(scan(&mut cur), Ok(Some(tok(1, 1, TokenKind::Comment))));
    assert_eq!(scan(&mut cur), Ok(Some(tok(1, 9, TokenKind::Whitespace))));
    assert_eq!(scan(&mut cur), Ok(None));
}

#[test]
fn comment_without_raw_terminator_still_ends_before_the_synthetic_one() {
    let toks = tokenize(String::from("// hi")).unwrap();
    assert_eq!(
        toks,
        vec![tok(1, 1, TokenKind::Comment), tok(1, 6, TokenKind::Whitespace)]
    );
}

#[test]
fn exact_keyword_match_wins() {
    let toks = tokenize(String::from("type")).unwrap();
    assert_eq!(
        toks,
        vec![
            tok(1, 1, TokenKind::Reserved(ReservedKind::Type)),
            tok(1, 5, TokenKind::Whitespace),
        ]
    );
}

#[test]
fn longer_word_stays_an_identifier() {
    let toks = tokenize(String::from("type2")).unwrap();
    assert_eq!(
        toks,
        vec![
            tok(1, 1, TokenKind::Ident(String::from("type2"))),
            tok(1, 6, TokenKind::Whitespace),
        ]
    );
}

#[test]
fn all_three_keywords_are_recognized() {
    assert_eq!(detect_reserved("type"), Some(ReservedKind::Type));
    assert_eq!(detect_reserved("enum"), Some(ReservedKind::Enum));
    assert_eq!(detect_reserved("logic"), Some(ReservedKind::Logic));
    assert_eq!(detect_reserved("types"), None);
    assert_eq!(detect_reserved("Type"), None);
    assert_eq!(detect_reserved(""), None);
}

#[test]
fn bit_literal_reads_most_significant_bit_first() {
    let toks = tokenize(String::from("\"_@_@\"")).unwrap();
    assert_eq!(
        toks,
        vec![
            tok(1, 1, TokenKind::Literal { bitwidth: 4, value: 5 }),
            tok(1, 7, TokenKind::Whitespace),
        ]
    );
}

#[test]
fn empty_bit_literal_is_zero_wide() {
    let toks = tokenize(String::from("\"\"")).unwrap();
    assert_eq!(
        toks,
        vec![
            tok(1, 1, TokenKind::Literal { bitwidth: 0, value: 0 }),
            tok(1, 3, TokenKind::Whitespace),
        ]
    );
}

#[test]
fn bit_literal_may_end_at_the_end_of_input() {
    let toks = tokenize(String::from("\"_@")).unwrap();
    assert_eq!(
        toks,
        vec![
            tok(1, 1, TokenKind::Literal { bitwidth: 2, value: 1 }),
            tok(1, 4, TokenKind::Whitespace),
        ]
    );
}

#[test]
fn bit_literal_stops_before_a_foreign_character() {
    let toks = tokenize(String::from("\"_x\"")).unwrap();
    assert_eq!(
        toks,
        vec![
            tok(1, 1, TokenKind::Literal { bitwidth: 1, value: 0 }),
            tok(1, 3, TokenKind::Ident(String::from("x"))),
            tok(1, 4, TokenKind::Literal { bitwidth: 0, value: 0 }),
            tok(1, 5, TokenKind::Whitespace),
        ]
    );
}

#[test]
fn question_mark_in_bit_literal_is_unsupported() {
    let r = tokenize(String::from("\"_?\""));
    assert_eq!(
        r,
        Err(ScanError { line_num: 1, row_num: 3, kind: ErrorKind::UnsupportedLiteralBit })
    );
}

#[test]
fn number_is_parsed_as_decimal() {
    let toks = tokenize(String::from("1234")).unwrap();
    assert_eq!(
        toks,
        vec![tok(1, 1, TokenKind::Number(1234)), tok(1, 5, TokenKind::Whitespace)]
    );
}

#[test]
fn number_with_leading_zeros() {
    let toks = tokenize(String::from("007")).unwrap();
    assert_eq!(
        toks,
        vec![tok(1, 1, TokenKind::Number(7)), tok(1, 4, TokenKind::Whitespace)]
    );
}

#[test]
fn ten_nines_overflow_the_number_range() {
    let r = tokenize(String::from("9999999999"));
    assert_eq!(
        r,
        Err(ScanError { line_num: 1, row_num: 1, kind: ErrorKind::NumberOverflow })
    );
}

#[test]
fn number_range_boundary_is_exact() {
    let toks = tokenize(String::from("4294967295")).unwrap();
    assert_eq!(toks[0], tok(1, 1, TokenKind::Number(u32::MAX)));
    let r = tokenize(String::from("4294967296"));
    assert_eq!(
        r,
        Err(ScanError { line_num: 1, row_num: 1, kind: ErrorKind::NumberOverflow })
    );
}

#[test]
fn identifiers_across_lines_carry_their_positions() {
    let toks = tokenize(String::from("ab\ncd")).unwrap();
    assert_eq!(toks[0], tok(1, 1, TokenKind::Ident(String::from("ab"))));
    assert_eq!(toks[1], tok(1, 3, TokenKind::Whitespace));
    assert_eq!(toks[2], tok(2, 1, TokenKind::Ident(String::from("cd"))));
    assert_eq!(toks[3], tok(2, 3, TokenKind::Whitespace));
    assert_eq!(toks.len(), 4);
}

#[test]
fn every_fixed_punctuator_is_emitted() {
    let toks = tokenize(String::from(";,.(){}[]@#~?:$=!<>-&|+*/^%")).unwrap();
    let expected = vec![
        TokenKind::Semi,
        TokenKind::Comma,
        TokenKind::Dot,
        TokenKind::OpenParen,
        TokenKind::CloseParen,
        TokenKind::OpenBrace,
        TokenKind::CloseBrace,
        TokenKind::OpenBracket,
        TokenKind::CloseBracket,
        TokenKind::At,
        TokenKind::Pound,
        TokenKind::Tilde,
        TokenKind::Question,
        TokenKind::Colon,
        TokenKind::Dollar,
        TokenKind::Eq,
        TokenKind::Bang,
        TokenKind::Lt,
        TokenKind::Gt,
        TokenKind::Minus,
        TokenKind::And,
        TokenKind::Or,
        TokenKind::Plus,
        TokenKind::Star,
        TokenKind::Slash,
        TokenKind::Caret,
        TokenKind::Percent,
    ];
    for (i, kind) in expected.into_iter().enumerate() {
        assert_eq!(toks[i], tok(1, i + 1, kind));
    }
    assert_eq!(toks[27], tok(1, 28, TokenKind::Whitespace));
    assert_eq!(toks.len(), 28);
}

#[test]
fn lone_slash_is_a_punctuator() {
    let toks = tokenize(String::from("/x")).unwrap();
    assert_eq!(
        toks,
        vec![
            tok(1, 1, TokenKind::Slash),
            tok(1, 2, TokenKind::Ident(String::from("x"))),
            tok(1, 3, TokenKind::Whitespace),
        ]
    );
}

#[test]
fn underscore_cannot_lead_a_token() {
    let r = tokenize(String::from("_"));
    assert_eq!(
        r,
        Err(ScanError { line_num: 1, row_num: 1, kind: ErrorKind::UnrecognizedCharacter })
    );
}

#[test]
fn non_ascii_lead_is_unrecognized() {
    let r = tokenize(String::from("\u{e9}"));
    assert_eq!(
        r,
        Err(ScanError { line_num: 1, row_num: 1, kind: ErrorKind::UnrecognizedCharacter })
    );
}

#[test]
fn scan_ident_or_reserved_accumulates_the_word() {
    let mut cur = cursor(String::from("abc d"));
    let first = cur.next().unwrap();
    let kind = scan_ident_or_reserved(&mut cur, first);
    assert_eq!(kind, TokenKind::Ident(String::from("abc")));
    assert_eq!(cur.next().unwrap().c, ' ');
}

#[test]
fn scan_number_consumes_the_whole_digit_run() {
    let mut cur = cursor(String::from("123x"));
    let first = cur.next().unwrap();
    let kind = scan_number(&mut cur, first).unwrap();
    assert_eq!(kind, TokenKind::Number(123));
    assert_eq!(cur.next().unwrap().c, 'x');
}

#[test]
fn scan_literal_reads_bits_after_the_opening_quote() {
    let mut cur = cursor(String::from("\"@_\"x"));
    assert!(cur.consume('"'));
    let kind = scan_literal(&mut cur).unwrap();
    assert_eq!(kind, TokenKind::Literal { bitwidth: 2, value: 2 });
    assert_eq!(cur.next().unwrap().c, 'x');
}

#[test]
fn small_program_scans_in_source_order() {
    let toks = tokenize(String::from("type Bus;\nlogic x = 5;")).unwrap();
    assert_eq!(
        toks,
        vec![
            tok(1, 1, TokenKind::Reserved(ReservedKind::Type)),
            tok(1, 5, TokenKind::Whitespace),
            tok(1, 6, TokenKind::Ident(String::from("Bus"))),
            tok(1, 9, TokenKind::Semi),
            tok(1, 10, TokenKind::Whitespace),
            tok(2, 1, TokenKind::Reserved(ReservedKind::Logic)),
            tok(2, 6, TokenKind::Whitespace),
            tok(2, 7, TokenKind::Ident(String::from("x"))),
            tok(2, 8, TokenKind::Whitespace),
            tok(2, 9, TokenKind::Eq),
            tok(2, 10, TokenKind::Whitespace),
            tok(2, 11, TokenKind::Number(5)),
            tok(2, 12, TokenKind::Semi),
            tok(2, 13, TokenKind::Whitespace),
        ]
    );
}
