use arith_front::lexer::{Lexer, Token};

#[test]
fn lexer_sanity_test_0() {
    let raw_text = "123*324";

    let mut lexer = Lexer::new();
    lexer.lex(raw_text);
    assert_eq!(
        vec![Token::Integer(123), Token::Mul, Token::Integer(324)],
        lexer.tokens().to_vec()
    );
}

#[test]
fn lexer_sanity_test_1() {
    let raw_text = "123+324";

    let mut lexer = Lexer::new();
    lexer.lex(raw_text);
    assert_eq!(
        vec![Token::Integer(123), Token::Add, Token::Integer(324)],
        lexer.tokens().to_vec()
    );
}

#[test]
fn lexer_sanity_test_2() {
    let raw_text = "123-324";

    let mut lexer = Lexer::new();
    lexer.lex(raw_text);
    assert_eq!(
        vec![Token::Integer(123), Token::Sub, Token::Integer(324)],
        lexer.tokens().to_vec()
    );
}

#[test]
fn lexer_sanity_test_3_spaces() {
    let raw_text = "    123    -   324   ";

    let mut lexer = Lexer::new();
    lexer.lex(raw_text);
    assert_eq!(
        vec![Token::Integer(123), Token::Sub, Token::Integer(324)],
        lexer.tokens().to_vec()
    );
}

#[test]
fn lexer_sanity_test_4() {
    let raw_text = "9*9*9+123+223-10/10123";

    let mut lexer = Lexer::new();
    lexer.lex(raw_text);

    println!("{:?}", lexer.tokens());
}

#[test]
fn lexer_sanity_test_5() {
    let raw_text = "1+1+";

    let mut lexer = Lexer::new();
    lexer.lex(raw_text);

    println!("{:?}", lexer.tokens());
}

#[test]
fn lexer_whitespace_insensitivity() {
    let mut a = Lexer::new();
    a.lex("123+324");
    let mut b = Lexer::new();
    b.lex(" 123  +   324 ");
    assert_eq!(a.tokens(), b.tokens());
    assert_eq!(
        vec![Token::Integer(123), Token::Add, Token::Integer(324)],
        a.tokens().to_vec()
    );
}

#[test]
fn lexer_division_and_parens() {
    let mut lexer = Lexer::new();
    lexer.lex("123/324");
    assert_eq!(
        vec![Token::Integer(123), Token::Div, Token::Integer(324)],
        lexer.tokens().to_vec()
    );

    let mut lexer = Lexer::new();
    lexer.lex("(2)+2");
    assert_eq!(
        vec![
            Token::ParenL,
            Token::Integer(2),
            Token::ParenR,
            Token::Add,
            Token::Integer(2)
        ],
        lexer.tokens().to_vec()
    );
}

#[test]
fn lexer_trailing_number_flush() {
    let mut lexer = Lexer::new();
    lexer.lex("9*9*9+123+223-10/10123");
    assert_eq!(
        vec![
            Token::Integer(9),
            Token::Mul,
            Token::Integer(9),
            Token::Mul,
            Token::Integer(9),
            Token::Add,
            Token::Integer(123),
            Token::Add,
            Token::Integer(223),
            Token::Sub,
            Token::Integer(10),
            Token::Div,
            Token::Integer(10123)
        ],
        lexer.tokens().to_vec()
    );
    assert_eq!(Some(&Token::Integer(10123)), lexer.tokens().last());
}

#[test]
fn lexer_trailing_operator() {
    let mut lexer = Lexer::new();
    lexer.lex("1+1+");
    assert_eq!(
        vec![
            Token::Integer(1),
            Token::Add,
            Token::Integer(1),
            Token::Add
        ],
        lexer.tokens().to_vec()
    );
}

#[test]
fn lexer_canonical_roundtrip() {
    // The canonical text of [123, +, 324] writes one space after each token;
    // lexing it gives the same sequence as lexing the dense form.
    let mut dense = Lexer::new();
    dense.lex("123+324");
    let mut canonical = Lexer::new();
    canonical.lex("123 + 324 ");
    assert_eq!(dense.tokens(), canonical.tokens());
}

#[test]
fn lexer_empty_input() {
    let mut lexer = Lexer::new();
    lexer.lex("");
    assert!(lexer.tokens().is_empty());
    let lexer = Lexer::default();
    assert!(lexer.tokens().is_empty());
}

#[test]
fn lexer_unrecognized_characters_dropped() {
    let mut lexer = Lexer::new();
    lexer.lex("1a2");
    assert_eq!(
        vec![Token::Integer(1), Token::Integer(2)],
        lexer.tokens().to_vec()
    );
}

#[test]
fn lexer_integer_overflow_degrades_to_zero() {
    let mut lexer = Lexer::new();
    lexer.lex("2147483647");
    assert_eq!(vec![Token::Integer(i32::MAX)], lexer.tokens().to_vec());

    let mut lexer = Lexer::new();
    lexer.lex("2147483648");
    assert_eq!(vec![Token::Integer(0)], lexer.tokens().to_vec());

    let mut lexer = Lexer::new();
    lexer.lex("99999999999999999999");
    assert_eq!(vec![Token::Integer(0)], lexer.tokens().to_vec());
}

#[test]
fn lexer_rerun_replaces_tokens() {
    let mut lexer = Lexer::new();
    lexer.lex("1+2");
    lexer.lex("3");
    assert_eq!(vec![Token::Integer(3)], lexer.tokens().to_vec());
}

#[test]
fn lexer_multibyte_characters_skipped() {
    let mut lexer = Lexer::new();
    lexer.lex("á12é+3");
    assert_eq!(
        vec![Token::Integer(12), Token::Add, Token::Integer(3)],
        lexer.tokens().to_vec()
    );
}
