use rust2bf::ast::{BinaryOp, Expr, Stmt, Token};
use rust2bf::codegen::BrainfuckGenerator;
use rust2bf::error::TranspilerError;
use rust2bf::lexer::Lexer;
use rust2bf::parser::Parser;

/// A reference Brainfuck interpreter with 8-bit wrapping cells: returns
/// the output bytes and the final tape.
fn run_bf(code: &str) -> (Vec<u8>, Vec<u8>) {
    let prog: Vec<char> = code.chars().collect();
    let mut tape = vec![0u8; 100_000];
    let mut head = 0usize;
    let mut out = Vec::new();
    let mut pc = 0usize;
    let mut steps = 0u64;
    while pc < prog.len() {
        steps += 1;
        assert!(steps < 50_000_000, "interpreter step limit reached");
        match prog[pc] {
            '+' => tape[head] = tape[head].wrapping_add(1),
            '-' => tape[head] = tape[head].wrapping_sub(1),
            '>' => head += 1,
            '<' => head -= 1,
            '.' => out.push(tape[head]),
            '[' => {
                if tape[head] == 0 {
                    let mut depth = 1;
                    while depth > 0 {
                        pc += 1;
                        match prog[pc] {
                            '[' => depth += 1,
                            ']' => depth -= 1,
                            _ => {}
                        }
                    }
                }
            }
            ']' => {
                if tape[head] != 0 {
                    let mut depth = 1;
                    while depth > 0 {
                        pc -= 1;
                        match prog[pc] {
                            ']' => depth += 1,
                            '[' => depth -= 1,
                            _ => {}
                        }
                    }
                }
            }
            other => panic!("unexpected character in output: {:?}", other),
        }
        pc += 1;
    }
    (out, tape)
}

/// Runs the whole pipeline on one source text.
fn compile(src: &str) -> String {
    let mut lexer = Lexer::new(src);
    let tokens = lexer.tokenize().unwrap();
    let mut parser = Parser::new(tokens);
    let ast = parser.parse().unwrap();
    let mut generator = BrainfuckGenerator::new();
    generator.generate(&ast).unwrap()
}

/// Checks the prefix property of bracket balance.
fn assert_balanced(code: &str) {
    let mut depth: i64 = 0;
    for c in code.chars() {
        match c {
            '[' => depth += 1,
            ']' => depth -= 1,
            _ => {}
        }
        assert!(depth >= 0, "a prefix closes more brackets than it opens");
    }
    assert_eq!(depth, 0, "brackets are not balanced over the whole program");
}

#[test]
fn test_tokenize_simple() {
    let mut lexer = Lexer::new("let x = 42;");
    let tokens = lexer.tokenize().unwrap();

    assert_eq!(
        tokens,
        vec![
            Token::Let,
            Token::Identifier("x".to_string()),
            Token::Assign,
            Token::Number(42),
            Token::Semicolon,
            Token::Eof,
        ]
    );
}

#[test]
fn test_tokenize_operators() {
    let mut lexer = Lexer::new("== != < >");
    let tokens = lexer.tokenize().unwrap();

    assert_eq!(
        tokens,
        vec![
            Token::Equal,
            Token::NotEqual,
            Token::Less,
            Token::Greater,
            Token::Eof,
        ]
    );
}

#[test]
fn test_parse_let_statement() {
    let mut lexer = Lexer::new("let x = 42;");
    let tokens = lexer.tokenize().unwrap();
    let mut parser = Parser::new(tokens);
    let ast = parser.parse().unwrap();

    assert_eq!(ast.len(), 1);
    assert!(matches!(ast[0], Stmt::Let { .. }));
}

#[test]
fn test_parse_expression() {
    let mut lexer = Lexer::new("let x = 1 + 2 * 3;");
    let tokens = lexer.tokenize().unwrap();
    let mut parser = Parser::new(tokens);
    let ast = parser.parse().unwrap();

    assert_eq!(ast.len(), 1);
    // Should parse as: 1 + (2 * 3) due to operator precedence
    if let Stmt::Let { value, .. } = &ast[0] {
        assert!(matches!(value, Expr::Binary { .. }));
    }
}

#[test]
fn test_generate_let_statement() {
    let mut generator = BrainfuckGenerator::new();
    let program = vec![Stmt::let_stmt("x".to_string(), false, Expr::number(42))];

    let result = generator.generate(&program).unwrap();
    assert!(!result.is_empty());
}

#[test]
fn test_generate_print_statement() {
    let mut generator = BrainfuckGenerator::new();
    let program = vec![
        Stmt::let_stmt("x".to_string(), false, Expr::number(65)), // ASCII 'A'
        Stmt::print(Expr::variable("x".to_string())),
    ];

    let result = generator.generate(&program).unwrap();
    assert!(result.contains('.'));
}

#[test]
fn test_precedence_tree() {
    // `1 + 2 * 3` parses as Binary(1, Add, Binary(2, Mul, 3)): the right
    // subtree is deeper because factor binds tighter than term.
    let mut lexer = Lexer::new("let x = 1 + 2 * 3;");
    let tokens = lexer.tokenize().unwrap();
    let mut parser = Parser::new(tokens);
    let ast = parser.parse().unwrap();
    let expected = Expr::binary(
        Expr::number(1),
        BinaryOp::Add,
        Expr::binary(Expr::number(2), BinaryOp::Mul, Expr::number(3)),
    );
    if let Stmt::Let { value, .. } = &ast[0] {
        assert_eq!(*value, expected);
    } else {
        panic!("expected a let statement");
    }
}

#[test]
fn test_print_single_byte() {
    let code = compile("let x = 65; print(x);");
    assert_eq!(code.chars().filter(|c| *c == '.').count(), 1);
    assert_balanced(&code);
    let (out, _) = run_bf(&code);
    assert_eq!(out, b"A".to_vec());
}

#[test]
fn test_print_two_bytes() {
    let code = compile("let x = 72; print(x); let y = 105; print(y);");
    assert_balanced(&code);
    let (out, _) = run_bf(&code);
    assert_eq!(out, b"Hi".to_vec());
}

#[test]
fn test_addition() {
    let code = compile("let x = 10; let y = 5; let z = x + y; print(z);");
    assert_balanced(&code);
    let (out, _) = run_bf(&code);
    assert_eq!(out, vec![15u8]);
}

#[test]
fn test_subtraction() {
    let code = compile("let x = 20; let y = 7; let z = x - y; print(z);");
    assert_balanced(&code);
    let (out, _) = run_bf(&code);
    assert_eq!(out, vec![13u8]);
}

#[test]
fn test_if_equal() {
    let code = compile("let x = 1; if x == 1 { let y = 88; print(y); }");
    assert_balanced(&code);
    // the print fragment is surrounded by a matched bracket pair
    let dot = code.find('.').unwrap();
    let mut depth: i64 = 0;
    for c in code[..dot].chars() {
        match c {
            '[' => depth += 1,
            ']' => depth -= 1,
            _ => {}
        }
    }
    assert!(depth >= 1, "the print is not inside a bracket pair");
    let (out, _) = run_bf(&code);
    assert_eq!(out, b"X".to_vec());
}

#[test]
fn test_if_not_taken() {
    let code = compile("let x = 2; if x == 1 { let y = 88; print(y); }");
    assert_balanced(&code);
    let (out, _) = run_bf(&code);
    assert!(out.is_empty());
}

#[test]
fn test_while_parse_accepted() {
    // `while i == i` must be accepted by the grammar, though running it
    // would loop on the tautological condition.
    let mut lexer = Lexer::new("let mut i = 3; while i == i { i = i - 1; print(i); }");
    let tokens = lexer.tokenize().unwrap();
    let mut parser = Parser::new(tokens);
    let ast = parser.parse().unwrap();
    assert_eq!(ast.len(), 2);
    assert!(matches!(ast[1], Stmt::While { .. }));
}

#[test]
fn test_while_runs_to_zero() {
    // the while condition re-evaluates each pass: count 3, 2, 1 down to 0
    let code = compile("let mut i = 3; while i { i = i - 1; }");
    assert_balanced(&code);
    let (out, _) = run_bf(&code);
    assert!(out.is_empty());
}

#[test]
fn test_set_value_small_and_large() {
    // a read of the cell yields v for 0 <= v <= 255, through both the
    // plain and the square-decomposition paths
    for &v in &[0i32, 1, 9, 10, 11, 64, 200, 255] {
        let mut generator = BrainfuckGenerator::new();
        generator.set_value(3, v);
        let code = generator.generate(&Vec::new()).unwrap();
        assert_balanced(&code);
        let (_, tape) = run_bf(&code);
        assert_eq!(tape[3], v as u8, "set_value({}) read back wrong", v);
    }
}

#[test]
fn test_set_value_wraps_modulo_256() {
    let mut generator = BrainfuckGenerator::new();
    generator.set_value(2, 300);
    let code = generator.generate(&Vec::new()).unwrap();
    let (_, tape) = run_bf(&code);
    assert_eq!(tape[2], (300 % 256) as u8);
}

#[test]
fn test_copy_value_idempotent_on_source() {
    // a second copy leaves the source cell unchanged
    let mut generator = BrainfuckGenerator::new();
    generator.set_value(2, 77);
    generator.copy_value(2, 5).unwrap();
    generator.copy_value(2, 6).unwrap();
    let code = generator.generate(&Vec::new()).unwrap();
    assert_balanced(&code);
    let (_, tape) = run_bf(&code);
    assert_eq!(tape[2], 77);
    assert_eq!(tape[5], 77);
    assert_eq!(tape[6], 77);
}

#[test]
fn test_add_values_primitive() {
    let mut generator = BrainfuckGenerator::new();
    generator.set_value(0, 30);
    generator.set_value(2, 12);
    generator.add_values(4, 0, 2).unwrap();
    let code = generator.generate(&Vec::new()).unwrap();
    let (_, tape) = run_bf(&code);
    assert_eq!(tape[4], 42);
    assert_eq!(tape[0], 30);
    assert_eq!(tape[2], 12);
}

#[test]
fn test_sub_values_primitive() {
    let mut generator = BrainfuckGenerator::new();
    generator.set_value(0, 30);
    generator.set_value(2, 12);
    generator.sub_values(4, 0, 2).unwrap();
    let code = generator.generate(&Vec::new()).unwrap();
    let (_, tape) = run_bf(&code);
    assert_eq!(tape[4], 18);
}

#[test]
fn test_compare_equal_primitive() {
    let mut generator = BrainfuckGenerator::new();
    generator.set_value(0, 5);
    generator.set_value(2, 5);
    generator.set_value(4, 6);
    generator.compare_equal(6, 0, 2).unwrap();
    generator.compare_equal(8, 0, 4).unwrap();
    let code = generator.generate(&Vec::new()).unwrap();
    let (_, tape) = run_bf(&code);
    assert_eq!(tape[6], 1, "equal values must flag 1");
    assert_eq!(tape[8], 0, "unequal values must flag 0");
}

#[test]
fn test_not_equal_expression() {
    let code = compile("let x = 3; let y = 4; let z = x != y; print(z);");
    let (out, _) = run_bf(&code);
    assert_eq!(out, vec![1u8]);
    let code2 = compile("let x = 3; let y = 3; let z = x != y; print(z);");
    let (out2, _) = run_bf(&code2);
    assert_eq!(out2, vec![0u8]);
}

#[test]
fn test_assign_statement() {
    let code = compile("let mut x = 1; x = 9; print(x);");
    let (out, _) = run_bf(&code);
    assert_eq!(out, vec![9u8]);
}

#[test]
fn test_assign_unbound_emits_nothing() {
    let code = compile("y = 9;");
    assert!(code.is_empty());
}

#[test]
fn test_undefined_variable_reads_zero() {
    let code = compile("print(nope);");
    let (out, _) = run_bf(&code);
    assert_eq!(out, vec![0u8]);
}

#[test]
fn test_redeclaration_shadows() {
    let code = compile("let x = 1; let x = 2; print(x);");
    let (out, _) = run_bf(&code);
    assert_eq!(out, vec![2u8]);
}

#[test]
fn test_output_alphabet() {
    let code = compile("let x = 200; if x == 200 { print(x); } let y = x + 1; print(y);");
    for c in code.chars() {
        assert!("+-<>[].".contains(c), "unexpected output character {:?}", c);
    }
    assert_balanced(&code);
}

#[test]
fn test_deterministic_output() {
    let src = "let x = 10; let y = 5; let z = x + y; print(z);";
    assert_eq!(compile(src), compile(src));
}

#[test]
fn test_lex_unexpected_character() {
    let mut lexer = Lexer::new("let @ = 1;");
    let err = lexer.tokenize().unwrap_err();
    assert_eq!(err.position, Some(4));
}

#[test]
fn test_lex_number_too_large() {
    let mut lexer = Lexer::new("let x = 99999999999;");
    let err = lexer.tokenize().unwrap_err();
    assert_eq!(err.position, Some(19));
}

#[test]
fn test_lex_number_fits() {
    let mut lexer = Lexer::new("2147483647");
    let tokens = lexer.tokenize().unwrap();
    assert_eq!(tokens, vec![Token::Number(2147483647), Token::Eof]);
    let mut lexer2 = Lexer::new("2147483648");
    assert!(lexer2.tokenize().is_err());
}

#[test]
fn test_parse_error_has_position() {
    let mut lexer = Lexer::new("let = 5;");
    let tokens = lexer.tokenize().unwrap();
    let mut parser = Parser::new(tokens);
    let err = parser.parse().unwrap_err();
    assert!(err.position.is_some());
}

#[test]
fn test_parse_missing_paren() {
    let mut lexer = Lexer::new("print(1");
    let tokens = lexer.tokenize().unwrap();
    let mut parser = Parser::new(tokens);
    assert!(parser.parse().is_err());
}

#[test]
fn test_optional_semicolons() {
    let code_with = compile("let x = 7; print(x);");
    let code_without = compile("let x = 7 print(x)");
    assert_eq!(code_with, code_without);
}

#[test]
fn test_error_constructors() {
    let e = TranspilerError::new("boom".to_string());
    assert_eq!(e.message, "boom");
    assert_eq!(e.position, None);
    let e2 = TranspilerError::with_position("bang".to_string(), 7);
    assert_eq!(e2.position, Some(7));
}

#[test]
fn test_ast_constructors() {
    let e = Expr::binary(Expr::number(1), BinaryOp::Sub, Expr::variable("v".to_string()));
    assert!(matches!(e, Expr::Binary { operator: BinaryOp::Sub, .. }));
    let s = Stmt::if_stmt(Expr::number(1), vec![Stmt::print(Expr::number(2))]);
    assert!(matches!(s, Stmt::If { .. }));
    let w = Stmt::while_stmt(Expr::number(1), vec![]);
    assert!(matches!(w, Stmt::While { .. }));
    let a = Stmt::assign("x".to_string(), Expr::number(3));
    assert!(matches!(a, Stmt::Assign { .. }));
}

#[test]
fn test_unicode_whitespace_skipped() {
    // any code point classified as whitespace separates tokens
    let mut lexer = Lexer::new("let\u{00a0}x =\u{2003}7;\u{2028}print(x)");
    let tokens = lexer.tokenize().unwrap();
    assert_eq!(
        tokens,
        vec![
            Token::Let,
            Token::Identifier("x".to_string()),
            Token::Assign,
            Token::Number(7),
            Token::Semicolon,
            Token::Print,
            Token::LeftParen,
            Token::Identifier("x".to_string()),
            Token::RightParen,
            Token::Eof,
        ]
    );
}
