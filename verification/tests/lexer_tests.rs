use minicc::lexer::{lex, lexinternal, TokenInfo, TokenType};

#[test]
fn test_token_extract() {
    let lines = vec![
        String::from(r"foo{"),
        String::from(r"shebar}ss{"),
        String::from(r"she{bar}ss"),
        String::from(r"she{int}ss"),
        String::from(r"she{ int }ssintss"),
        String::from(r"int 111;"),
    ];

    let mut collector: Vec<TokenInfo> = Vec::new();
    lexinternal(&lines, &mut collector);

    let mut shown = String::new();
    shown.push_str("Token list:");
    for i in collector.into_iter() {
        shown.push_str(&format!("{}:{},", i.token_type as i32, i.data));
    }
    println!("{}", shown);
}

#[test]
fn keywords_identifiers_and_literals() {
    let lines = vec![String::from("int main(){return 2;}")];
    let tokens = lex(&lines);
    let kinds: Vec<TokenType> = tokens.iter().map(|t| t.token_type).collect();
    assert_eq!(
        kinds,
        vec![
            TokenType::KeywordInt,
            TokenType::Identifier,
            TokenType::OpenParen,
            TokenType::CloseParen,
            TokenType::OpenBrace,
            TokenType::KeywordRet,
            TokenType::Intliteral,
            TokenType::SemiColon,
            TokenType::CloseBrace,
        ]
    );
    assert_eq!(tokens[1].data, "main");
    assert_eq!(tokens[6].data, "2");
    assert_eq!(tokens[0].data, "");
    assert_eq!(tokens[5].data, "");
}

#[test]
fn maximal_digit_run_is_one_token() {
    let digits = "123456789012345678901234567890123456789";
    let line = format!("return {};", digits);
    let tokens = lex(&vec![line]);
    let literals: Vec<&TokenInfo> = tokens
        .iter()
        .filter(|t| t.token_type == TokenType::Intliteral)
        .collect();
    assert_eq!(literals.len(), 1);
    assert_eq!(literals[0].data, digits);
    assert_eq!(literals[0].start_char, 7);
    assert_eq!(literals[0].end_char, 7 + digits.len());
}

#[test]
fn emitted_texts_are_ordered_substrings_of_the_line() {
    let line = String::from("she{ int }ssintss 77 foo9bar");
    let tokens = lex(&vec![line.clone()]);
    let mut previous_end = 0usize;
    for t in tokens.iter() {
        assert!(previous_end <= t.start_char);
        assert!(t.start_char < t.end_char);
        assert!(t.end_char <= line.len());
        previous_end = t.end_char;
        if t.token_type == TokenType::Identifier || t.token_type == TokenType::Intliteral {
            assert_eq!(&line[t.start_char..t.end_char], t.data.as_str());
        }
    }
}

#[test]
fn unrecognised_symbols_are_dropped() {
    let tokens = lex(&vec![String::from("  @ int # main $ % !")]);
    let kinds: Vec<TokenType> = tokens.iter().map(|t| t.token_type).collect();
    assert_eq!(kinds, vec![TokenType::KeywordInt, TokenType::Identifier]);
}

#[test]
fn tokens_never_span_lines() {
    let tokens = lex(&vec![String::from("ret"), String::from("urn")]);
    assert_eq!(tokens.len(), 2);
    assert_eq!(tokens[0].token_type, TokenType::Identifier);
    assert_eq!(tokens[0].data, "ret");
    assert_eq!(tokens[0].source_line, 1);
    assert_eq!(tokens[1].token_type, TokenType::Identifier);
    assert_eq!(tokens[1].data, "urn");
    assert_eq!(tokens[1].source_line, 2);
}

#[test]
fn empty_input_gives_no_tokens() {
    let tokens = lex(&Vec::new());
    assert_eq!(tokens.len(), 0);
    let tokens = lex(&vec![String::new()]);
    assert_eq!(tokens.len(), 0);
}
