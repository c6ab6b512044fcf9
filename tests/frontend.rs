use bcc::codegen::gen_bf;
use bcc::parse::{parse_ebf, Statement};

#[test]
fn codegen_test_parsing() {
    let code = "+5 -9 <2 > [ + . ] -3".to_string();
    let statements = parse_ebf(code);
    let gen = gen_bf(statements);
    assert_eq!(gen, "----<[+.]---");
}

#[test]
fn parse_test_parsing() {
    let code = "+5 <2 [ #start_of_loop + . ]".to_string();
    let statements = parse_ebf(code);
    assert_eq!(statements.len(), 6);
}

#[test]
fn parse_counts_and_defaults() {
    let statements = parse_ebf("+12 -x >+3 <99999999999 , .\t[\n]".to_string());
    assert_eq!(
        statements,
        vec![
            Statement::Add(12),
            Statement::Sub(1),
            Statement::ShiftRight(3),
            Statement::ShiftLeft(1),
            Statement::Input,
            Statement::Output,
            Statement::LoopStart,
            Statement::LoopEnd,
        ]
    );
}

#[test]
fn parse_empty_and_comments_only() {
    assert!(parse_ebf(String::new()).is_empty());
    assert!(parse_ebf("  #a #b  ".to_string()).is_empty());
}

#[test]
fn gen_cancels_until_none_left() {
    let ast = vec![
        Statement::Sub(1),
        Statement::ShiftLeft(1),
        Statement::ShiftRight(1),
        Statement::Add(1),
    ];
    assert_eq!(gen_bf(ast), "");
    let ast = vec![Statement::Add(3), Statement::Output, Statement::Sub(2)];
    assert_eq!(gen_bf(ast), "+++.--");
}
