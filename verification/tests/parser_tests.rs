use arith_front::Parser;

#[test]
fn parser_sanity_pass() {
    let basic_espression = "113123";
    let mut p = Parser::new();
    let passed = p.parse(basic_espression);
    println!("passed = {passed}");
}

#[test]
fn parser_sanity_fail() {
    let basic_espression = "1+1+1";
    let mut p = Parser::new();
    assert!(p.parse(basic_espression));
}

#[test]
fn parser_accepts_addition_chain() {
    let mut p = Parser::new();
    assert!(p.parse("1+1+1"));
}

#[test]
fn parser_rejects_dangling_operator() {
    let mut p = Parser::new();
    assert!(!p.parse("1+1+"));
}

#[test]
fn parser_bracket_grammar() {
    let mut p = Parser::new();
    assert!(p.parse("(2)+2"));
    let mut p = Parser::new();
    assert!(p.parse("1+1+1"));
    let mut p = Parser::new();
    assert!(!p.parse("(2+2"));
    let mut p = Parser::new();
    assert!(!p.parse("2)"));
}

#[test]
fn parser_requires_full_consumption() {
    // The expression grammar matches the leading integer, but the trailing
    // token is never consumed, so the whole input is rejected.
    let mut p = Parser::new();
    assert!(!p.parse("1 1"));
    let mut p = Parser::new();
    assert!(!p.parse("(2)2"));
}

#[test]
fn parser_precedence_mix() {
    let mut p = Parser::new();
    assert!(p.parse("9*9*9+123+223-10/10123"));
    let mut p = Parser::new();
    assert!(p.parse("(1+2)*3"));
}

#[test]
fn parser_rejects_empty_and_lone_operator() {
    let mut p = Parser::new();
    assert!(!p.parse(""));
    let mut p = Parser::new();
    assert!(!p.parse("+"));
    let mut p = Parser::default();
    assert!(!p.parse("()"));
}
