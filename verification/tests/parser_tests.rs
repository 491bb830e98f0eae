use minicc::ast::{parse, program_wf, AstNode, AstNodeType};
use minicc::lexer::{lex, TokenType};

#[test]
fn valid_program_builds_the_full_chain() {
    let tokens = lex(&vec![String::from("int main(){return 2;}")]);
    let mut errors: Vec<String> = Vec::new();
    let result = parse(&tokens, &mut errors);
    assert_eq!(errors.len(), 0);
    assert_eq!(result.node_type, AstNodeType::Program);
    assert!(program_wf(&result));
    match result.child {
        Some(ref x) => {
            assert_eq!(x.node_type, AstNodeType::Function);
            assert_eq!(x.data, String::from("main"));
            match x.child {
                Some(ref y) => {
                    assert_eq!(y.node_type, AstNodeType::Statement);
                    match y.child {
                        Some(ref z) => {
                            assert_eq!(z.node_type, AstNodeType::Expression);
                            assert_eq!(z.data, "2");
                        }
                        None => unreachable!(),
                    }
                }
                None => unreachable!(),
            }
        }
        None => unreachable!(),
    }
}

#[test]
fn wrong_function_name_gives_the_dedicated_report() {
    let tokens = lex(&vec![String::from("int foo(){return 2;}")]);
    let mut errors: Vec<String> = Vec::new();
    let result = parse(&tokens, &mut errors);
    assert_eq!(errors, vec![String::from("main function has wrong name")]);
    assert!(program_wf(&result));
}

#[test]
fn missing_semicolon_reports_the_expected_kind() {
    let tokens = lex(&vec![String::from("int main(){return 2}")]);
    let mut errors: Vec<String> = Vec::new();
    let _result = parse(&tokens, &mut errors);
    assert!(errors.len() > 0);
    assert_eq!(errors[0], "Wrong token type: expected semi-colon");
}

#[test]
fn exhausted_tokens_are_a_distinct_fatal_report() {
    let tokens = lex(&vec![String::from("int main(")]);
    let mut errors: Vec<String> = Vec::new();
    let _result = parse(&tokens, &mut errors);
    assert_eq!(errors, vec![String::from("unexpected end of tokens")]);
}

#[test]
fn one_malformed_token_cascades() {
    let tokens = lex(&vec![String::from("main(){return 2;}")]);
    let mut errors: Vec<String> = Vec::new();
    let _result = parse(&tokens, &mut errors);
    assert_eq!(errors.len(), 9);
    assert_eq!(errors[0], "Wrong token type: expected Int keyword");
    assert_eq!(errors[1], "Wrong token type: expected identifier");
    assert_eq!(errors[2], "Wrong token type CloseParen: expected open paren");
    assert_eq!(errors[8], "unexpected end of tokens");
}

#[test]
fn parse_of_no_tokens_reports_exhaustion_once() {
    let tokens = Vec::new();
    let mut errors: Vec<String> = Vec::new();
    let result = parse(&tokens, &mut errors);
    assert_eq!(errors, vec![String::from("unexpected end of tokens")]);
    assert!(program_wf(&result));
    assert_eq!(result.node_type, AstNodeType::Program);
}

#[test]
fn nodes_are_built_by_hand_too() {
    let expr = AstNode::new_named(AstNodeType::Expression, String::from("5"));
    assert_eq!(expr.node_type, AstNodeType::Expression);
    assert_eq!(expr.data, "5");
    assert!(expr.child.is_none());
    let mut stmt = AstNode::new(AstNodeType::Statement);
    stmt.add_child(Box::new(expr));
    assert_eq!(stmt.node_type, AstNodeType::Statement);
    assert_eq!(stmt.data, "");
    assert!(stmt.child.is_some());
}

#[test]
fn kind_names_spell_the_variants() {
    assert_eq!(TokenType::OpenParen.name(), "OpenParen");
    assert_eq!(TokenType::KeywordRet.name(), "KeywordRet");
    assert_eq!(TokenType::Intliteral.name(), "Intliteral");
}
