use minicc::ast::parse;
use minicc::codegen::CodeGenState;
use minicc::lexer::lex;
use minicc::pipeline::compile;

#[test]
fn test_good_codegen() {
    let lines = vec![String::from("int main(){return 2;}")];
    let token_list = lex(&lines);

    let mut errors: Vec<String> = Vec::new();
    let result = parse(&token_list, &mut errors);
    assert_eq!(errors.len(), 0);

    let mut emit_stack: Vec<String> = Vec::new();
    let code_gen = CodeGenState::new(result);
    code_gen.generate_code(&mut emit_stack);

    let expectedlines = vec![
        String::from(".globl main"),
        String::from("main:"),
        String::from("mov $2, %eax"),
        String::from("ret"),
    ];

    let mut itt = expectedlines.iter();

    for i in emit_stack.iter().rev() {
        let emmit_res = itt.next();
        assert_eq!(i, emmit_res.unwrap());
    }
    assert_eq!(emit_stack.len(), 4);
}

#[test]
fn round_trip_of_the_fixed_program() {
    let lines = vec![String::from("int main(){return 2;}")];
    let out = compile(&lines).unwrap();
    assert_eq!(
        out,
        vec![
            String::from(".globl main"),
            String::from("main:"),
            String::from("mov $2, %eax"),
            String::from("ret"),
        ]
    );
}

#[test]
fn another_literal_lands_in_the_mov() {
    let lines = vec![String::from("int main(){return 42;}")];
    let out = compile(&lines).unwrap();
    assert_eq!(out[2], "mov $42, %eax");
}

#[test]
fn source_split_over_lines_compiles_too() {
    let lines = vec![
        String::from("int main()"),
        String::from("{"),
        String::from("return 7;"),
        String::from("}"),
    ];
    let out = compile(&lines).unwrap();
    assert_eq!(
        out,
        vec![
            String::from(".globl main"),
            String::from("main:"),
            String::from("mov $7, %eax"),
            String::from("ret"),
        ]
    );
}

#[test]
fn running_the_pipeline_twice_is_byte_identical() {
    let lines = vec![String::from("int main(){return 2;}")];
    let first = compile(&lines).unwrap();
    let second = compile(&lines).unwrap();
    assert_eq!(first, second);
    let bad = vec![String::from("int main(){return 2}")];
    let e1 = compile(&bad).unwrap_err();
    let e2 = compile(&bad).unwrap_err();
    assert_eq!(e1, e2);
}

#[test]
fn failed_parse_yields_the_reports() {
    let lines = vec![String::from("int foo(){return 2;}")];
    let errs = compile(&lines).unwrap_err();
    assert_eq!(errs, vec![String::from("main function has wrong name")]);
}
